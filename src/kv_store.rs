//! The store's in-memory map, the rules by which log records change it, and
//! the replay that rebuilds it from the log's text.
use vstd::prelude::*;
use crate::snapshot::pairs_map;
use crate::wal::{
    decode, decode_chars, chars_of, is_encodable, lacks, lemma_decode_record, log_of,
    record_of, split_lines, unterminated_line, DecodeError, Mutation, WalEntry, WalError,
};

verus! {

/// The value that `m` holds for `k`, if any.
pub open spec fn lookup(m: Map<Seq<char>, Seq<char>>, k: Seq<char>) -> Option<Seq<char>> {
    if m.contains_key(k) {
        Some(m[k])
    } else {
        None
    }
}

/// The characters of an optional string.
pub open spec fn opt_view(r: Option<String>) -> Option<Seq<char>> {
    match r {
        Some(v) => Some(v@),
        None => None,
    }
}

/// The map after one record is applied to `m`.
pub open spec fn apply_mutation(m: Map<Seq<char>, Seq<char>>, e: Mutation) -> Map<
    Seq<char>,
    Seq<char>,
> {
    match e {
        Mutation::Insert(k, v) => m.insert(k, v),
        Mutation::Delete(k) => m.remove(k),
        Mutation::Clear => Map::empty(),
    }
}

/// The map after the records `es` are applied to `m` in order.
pub open spec fn apply_all(m: Map<Seq<char>, Seq<char>>, es: Seq<Mutation>) -> Map<
    Seq<char>,
    Seq<char>,
>
    decreases es.len(),
{
    if es.len() == 0 {
        m
    } else {
        apply_mutation(apply_all(m, es.drop_last()), es.last())
    }
}

/// The replay of the record texts `lines` into `m`: each is decoded and
/// applied in order, up to the first that does not decode. The result is the
/// map reached and, where a line failed, its number (from 1) and the message.
pub open spec fn replay_lines(m: Map<Seq<char>, Seq<char>>, lines: Seq<Seq<char>>) -> (Map<
    Seq<char>,
    Seq<char>,
>, Option<(nat, Seq<char>)>)
    decreases lines.len(),
{
    if lines.len() == 0 {
        (m, None)
    } else {
        let (m2, failure) = replay_lines(m, lines.drop_last());
        if failure is Some {
            (m2, failure)
        } else {
            match decode(lines.last()) {
                Ok(e) => (apply_mutation(m2, e), None),
                Err(msg) => (m2, Some((lines.len(), msg))),
            }
        }
    }
}

/// The replay of a whole log's text into `m`. A last line without its
/// newline, left by an interrupted write, is a failure of its own.
pub open spec fn replay_log(m: Map<Seq<char>, Seq<char>>, log: Seq<char>) -> (Map<
    Seq<char>,
    Seq<char>,
>, Option<(nat, Seq<char>)>) {
    let (lines, tail) = split_lines(log);
    let (m2, failure) = replay_lines(m, lines);
    if failure is None && tail.len() > 0 {
        (m2, Some(((lines.len() + 1) as nat, unterminated_line())))
    } else {
        (m2, failure)
    }
}

/// The line number and message of a decode failure, if any.
pub open spec fn failure_view(f: Option<DecodeError>) -> Option<(nat, Seq<char>)> {
    match f {
        Some(e) => Some((e.line as nat, e.message@)),
        None => None,
    }
}

/// A string-to-string map whose changes follow the write-ahead log.
pub struct KvStore {
    entries: Vec<(String, String)>,
    model: Ghost<Map<Seq<char>, Seq<char>>>,
}

impl View for KvStore {
    type V = Map<Seq<char>, Seq<char>>;

    closed spec fn view(&self) -> Map<Seq<char>, Seq<char>> {
        self.model@
    }
}

impl KvStore {
    /// The entries hold each key once, and exactly the pairs of the map.
    pub closed spec fn wf(&self) -> bool {
        &&& self.model@.dom().finite()
        &&& self.model@.len() == self.entries@.len()
        &&& forall|i: int|
            0 <= i < self.entries@.len() ==> #[trigger] self.model@.contains_key(
                self.entries@[i].0@,
            ) && self.model@[self.entries@[i].0@] == self.entries@[i].1@
        &&& forall|k: Seq<char>| #[trigger]
            self.model@.contains_key(k) ==> exists|i: int|
                0 <= i < self.entries@.len() && #[trigger] self.entries@[i].0@ == k
        &&& forall|i: int, j: int|
            0 <= i < j < self.entries@.len() ==> #[trigger] self.entries@[i].0@
                != #[trigger] self.entries@[j].0@
    }

    /// An empty store.
    pub fn empty() -> (r: Self)
        ensures
            r.wf(),
            r@ == Map::<Seq<char>, Seq<char>>::empty(),
    {
        KvStore { entries: Vec::new(), model: Ghost(Map::empty()) }
    }

    /// The index of the entry for `key`, if there is one.
    fn position(&self, key: &String) -> (r: Option<usize>)
        requires
            self.wf(),
        ensures
            match r {
                Some(i) => i < self.entries@.len() && self.entries@[i as int].0@ == key@,
                None => !self@.contains_key(key@),
            },
    {
        let mut i: usize = 0;
        while i < self.entries.len()
            invariant
                self.wf(),
                i <= self.entries@.len(),
                forall|j: int| 0 <= j < i ==> self.entries@[j].0@ != key@,
            decreases self.entries@.len() - i,
        {
            if self.entries[i].0 == *key {
                return Some(i);
            }
            i += 1;
        }
        None
    }

    /// The value stored for `key`, if any.
    pub fn get(&self, key: &str) -> (r: Option<String>)
        requires
            self.wf(),
        ensures
            opt_view(r) == lookup(self@, key@),
    {
        let k = String::from_str(key);
        match self.position(&k) {
            Some(i) => Some(self.entries[i].1.clone()),
            None => None,
        }
    }

    /// The number of keys in the store.
    pub fn len(&self) -> (r: usize)
        requires
            self.wf(),
        ensures
            r == self@.len(),
            self@.dom().finite(),
    {
        self.entries.len()
    }

    /// Stores `value` under `key`, replacing what was there.
    fn insert(&mut self, key: String, value: String)
        requires
            old(self).wf(),
        ensures
            final(self).wf(),
            final(self)@ == old(self)@.insert(key@, value@),
    {
        let ghost old_model = self.model@;
        let ghost k = key@;
        let ghost mut slot: int = 0;
        match self.position(&key) {
            Some(i) => {
                self.entries.set(i, (key, value));
                proof {
                    slot = i as int;
                    assert(old_model.dom().insert(k) == old_model.dom());
                }
            },
            None => {
                self.entries.push((key, value));
                proof {
                    slot = self.entries@.len() - 1;
                }
            },
        }
        self.model = Ghost(old_model.insert(k, value@));
        assert forall|k2: Seq<char>| #[trigger]
            self.model@.contains_key(k2) implies exists|j: int|
                0 <= j < self.entries@.len() && #[trigger] self.entries@[j].0@ == k2 by {
            if k2 != k {
                let j = choose|j: int|
                    0 <= j < old(self).entries@.len() && #[trigger] old(self).entries@[j].0@ == k2;
                assert(self.entries@[j].0@ == k2);
            } else {
                assert(self.entries@[slot].0@ == k2);
            }
        }
    }

    /// Removes `key` and hands back the value it had, if any.
    fn remove(&mut self, key: &str) -> (r: Option<String>)
        requires
            old(self).wf(),
        ensures
            final(self).wf(),
            final(self)@ == old(self)@.remove(key@),
            opt_view(r) == lookup(old(self)@, key@),
    {
        let ghost old_model = self.model@;
        let k = String::from_str(key);
        match self.position(&k) {
            Some(i) => {
                let ghost n = self.entries@.len();
                let ghost old_entries = self.entries@;
                let (_, v) = self.entries.swap_remove(i);
                self.model = Ghost(old_model.remove(key@));
                assert forall|k2: Seq<char>| #[trigger]
                    self.model@.contains_key(k2) implies exists|j: int|
                        0 <= j < self.entries@.len() && #[trigger] self.entries@[j].0@ == k2 by {
                    let j = choose|j: int|
                        0 <= j < old_entries.len() && #[trigger] old_entries[j].0@ == k2;
                    if j == n - 1 {
                        assert(self.entries@[i as int].0@ == k2);
                    } else {
                        assert(self.entries@[j].0@ == k2);
                    }
                }
                assert forall|a: int, b: int|
                    0 <= a < b < self.entries@.len() implies #[trigger] self.entries@[a].0@
                    != #[trigger] self.entries@[b].0@ by {
                    if a == i {
                        assert(old_entries[n - 1].0@ != old_entries[b].0@);
                    } else if b == i {
                        assert(old_entries[a].0@ != old_entries[n - 1].0@);
                    }
                }
                Some(v)
            },
            None => {
                assert(old_model.remove(key@) =~= old_model);
                None
            },
        }
    }

    /// Removes every key.
    fn clear_all(&mut self)
        requires
            old(self).wf(),
        ensures
            final(self).wf(),
            final(self)@ == Map::<Seq<char>, Seq<char>>::empty(),
    {
        self.entries.clear();
        self.model = Ghost(Map::empty());
    }

    /// Applies one log record to the map.
    pub fn apply(&mut self, entry: WalEntry)
        requires
            old(self).wf(),
        ensures
            final(self).wf(),
            final(self)@ == apply_mutation(old(self)@, entry@),
    {
        match entry {
            WalEntry::Insert(k, v) => self.insert(k, v),
            WalEntry::Delete(k) => {
                self.remove(k.as_str());
            },
            WalEntry::Clear => self.clear_all(),
        }
    }

    /// The store's pairs, each key once.
    pub fn pairs(&self) -> (r: Vec<(String, String)>)
        requires
            self.wf(),
        ensures
            pairs_map(r@) == self@,
            r@.len() == self@.len(),
            forall|i: int, j: int|
                0 <= i < j < r@.len() ==> #[trigger] r@[i].0@ != #[trigger] r@[j].0@,
    {
        let mut r: Vec<(String, String)> = Vec::new();
        let mut i: usize = 0;
        while i < self.entries.len()
            invariant
                self.wf(),
                i <= self.entries@.len(),
                r@.len() == i,
                forall|j: int|
                    0 <= j < i ==> #[trigger] r@[j].0@ == self.entries@[j].0@ && r@[j].1@
                        == self.entries@[j].1@,
            decreases self.entries@.len() - i,
        {
            let k = self.entries[i].0.clone();
            let v = self.entries[i].1.clone();
            r.push((k, v));
            i += 1;
        }
        proof {
            assert forall|a: int, b: int| 0 <= a < b < r@.len() implies #[trigger] r@[a].0@
                != #[trigger] r@[b].0@ by {
                assert(self.entries@[a].0@ != self.entries@[b].0@);
            }
            lemma_pairs_map(r@);
            assert forall|k: Seq<char>| #[trigger] pairs_map(r@).contains_key(k) implies self@.contains_key(k) by {
                let j = choose|j: int| 0 <= j < r@.len() && #[trigger] r@[j].0@ == k;
                assert(self.entries@[j].0@ == k);
            }
            assert forall|k: Seq<char>| #[trigger] self@.contains_key(k) implies pairs_map(r@).contains_key(k) && pairs_map(r@)[k] == self@[k] by {
                let j = choose|j: int| 0 <= j < self.entries@.len() && #[trigger] self.entries@[j].0@ == k;
                assert(r@[j].0@ == k);
            }
        }
        assert(pairs_map(r@) =~= self@);
        r
    }

    /// A store that holds the pairs, inserted in order: where a key comes
    /// twice, its last value stays.
    pub fn from_pairs(pairs: Vec<(String, String)>) -> (r: Self)
        ensures
            r.wf(),
            r@ == pairs_map(pairs@),
    {
        let mut s = KvStore::empty();
        let mut i: usize = 0;
        while i < pairs.len()
            invariant
                s.wf(),
                i <= pairs@.len(),
                s@ == pairs_map(pairs@.take(i as int)),
            decreases pairs@.len() - i,
        {
            assert(pairs@.take(i + 1).drop_last() =~= pairs@.take(i as int));
            let k = pairs[i].0.clone();
            let v = pairs[i].1.clone();
            s.insert(k, v);
            i += 1;
        }
        assert(pairs@.take(pairs@.len() as int) =~= pairs@);
        s
    }

    /// Replays the log's text into the store, record by record. Replay stops
    /// applying records at the first line that fails to decode, and reports it.
    pub fn replay(&mut self, log: &str) -> (r: Result<(), DecodeError>)
        requires
            old(self).wf(),
        ensures
            final(self).wf(),
            final(self)@ == replay_log(old(self)@, log@).0,
            match r {
                Ok(()) => replay_log(old(self)@, log@).1 is None,
                Err(e) => replay_log(old(self)@, log@).1 == failure_view(Some(e)),
            },
    {
        let cs = chars_of(log);
        let mut start: usize = 0;
        let mut count: usize = 0;
        let mut failure: Option<DecodeError> = None;
        let ghost lines: Seq<Seq<char>> = seq![];
        let mut i: usize = 0;
        while i < cs.len()
            invariant
                self.wf(),
                cs@ == log@,
                count <= start <= i <= cs@.len(),
                count == lines.len(),
                split_lines(cs@.take(i as int)) == (lines, cs@.subrange(start as int, i as int)),
                replay_lines(old(self)@, lines) == (self@, failure_view(failure)),
            decreases cs@.len() - i,
        {
            assert(cs@.take(i + 1).drop_last() =~= cs@.take(i as int));
            if cs[i] == '\n' {
                let ghost line = cs@.subrange(start as int, i as int);
                let ghost before = lines;
                proof {
                    lines = lines.push(line);
                    assert(lines.drop_last() =~= before);
                    assert(lines.last() == line);
                }
                count += 1;
                if failure.is_none() {
                    match decode_chars(&cs, start, i) {
                        Ok(e) => self.apply(e),
                        Err(message) => {
                            failure = Some(DecodeError { line: count, message });
                        },
                    }
                }
                start = i + 1;
            } else {
                assert(cs@.subrange(start as int, i as int).push(cs@[i as int]) =~= cs@.subrange(
                    start as int,
                    i + 1,
                ));
            }
            i += 1;
        }
        assert(cs@.take(cs@.len() as int) =~= log@);
        if failure.is_none() && start < cs.len() {
            failure = Some(
                DecodeError { line: count + 1, message: String::from_str("Unterminated WAL line") },
            );
        }
        match failure {
            None => Ok(()),
            Some(e) => Err(e),
        }
    }

    /// A store rebuilt from the log's text: an empty map, into which the log
    /// is replayed. A log that fails to replay gives no store.
    pub fn new(log: &str) -> (r: Result<Self, DecodeError>)
        ensures
            match r {
                Ok(s) => s.wf() && replay_log(Map::empty(), log@) == (s@, None::<(nat, Seq<char>)>),
                Err(e) => replay_log(Map::empty(), log@).1 == failure_view(Some(e)),
            },
    {
        let mut s = KvStore::empty();
        match s.replay(log) {
            Ok(()) => Ok(s),
            Err(e) => Err(e),
        }
    }

    /// Stores `value` under `key` once its log record is written. `appended`
    /// is the outcome of appending that record; the map changes only when it
    /// succeeded, and the outcome is handed back.
    pub fn set(&mut self, key: String, value: String, appended: Result<(), WalError>) -> (r:
        Result<(), WalError>)
        requires
            old(self).wf(),
        ensures
            final(self).wf(),
            r == appended,
            final(self)@ == if appended is Ok {
                apply_mutation(old(self)@, Mutation::Insert(key@, value@))
            } else {
                old(self)@
            },
    {
        if appended.is_ok() {
            self.insert(key, value);
        }
        appended
    }

    /// Removes `key` once its log record is written, and hands back the value
    /// it had. `appended` is the outcome of appending that record; on failure
    /// the map is unchanged and the error is handed back.
    pub fn delete(&mut self, key: &str, appended: Result<(), WalError>) -> (r: Result<
        Option<String>,
        WalError,
    >)
        requires
            old(self).wf(),
        ensures
            final(self).wf(),
            match appended {
                Ok(()) => r is Ok && opt_view(r->Ok_0) == lookup(old(self)@, key@) && final(self)@
                    == apply_mutation(old(self)@, Mutation::Delete(key@)),
                Err(e) => r == Err::<Option<String>, WalError>(e) && final(self)@ == old(self)@,
            },
    {
        match appended {
            Ok(()) => Ok(self.remove(key)),
            Err(e) => Err(e),
        }
    }

    /// Removes every key once the log record is written. `appended` is the
    /// outcome of appending that record; on failure the map is unchanged.
    pub fn clear(&mut self, appended: Result<(), WalError>) -> (r: Result<(), WalError>)
        requires
            old(self).wf(),
        ensures
            final(self).wf(),
            r == appended,
            final(self)@ == if appended is Ok {
                apply_mutation(old(self)@, Mutation::Clear)
            } else {
                old(self)@
            },
    {
        if appended.is_ok() {
            self.clear_all();
        }
        appended
    }
}

/// With each key once, the map of the pairs holds exactly the pairs.
proof fn lemma_pairs_map(ps: Seq<(String, String)>)
    requires
        forall|i: int, j: int|
            0 <= i < j < ps.len() ==> #[trigger] ps[i].0@ != #[trigger] ps[j].0@,
    ensures
        forall|i: int|
            0 <= i < ps.len() ==> #[trigger] pairs_map(ps).contains_key(ps[i].0@) && pairs_map(
                ps,
            )[ps[i].0@] == ps[i].1@,
        forall|k: Seq<char>| #[trigger]
            pairs_map(ps).contains_key(k) ==> exists|i: int| 0 <= i < ps.len() && #[trigger] ps[i].0@ == k,
    decreases ps.len(),
{
    if ps.len() > 0 {
        let init = ps.drop_last();
        lemma_pairs_map(init);
        assert forall|k: Seq<char>| #[trigger]
            pairs_map(ps).contains_key(k) implies exists|i: int| 0 <= i < ps.len() && #[trigger] ps[i].0@ == k by {
            if k != ps.last().0@ {
                assert(pairs_map(init).contains_key(k));
                let i = choose|i: int| 0 <= i < init.len() && #[trigger] init[i].0@ == k;
                assert(init[i] == ps[i]);
                assert(ps[i].0@ == k);
            } else {
                assert(ps[ps.len() - 1].0@ == k);
            }
        }
        assert forall|i: int| 0 <= i < ps.len() implies #[trigger] pairs_map(ps).contains_key(ps[i].0@) && pairs_map(
                ps,
            )[ps[i].0@] == ps[i].1@ by {
            assert(pairs_map(ps) == pairs_map(init).insert(ps.last().0@, ps.last().1@));
            if i < ps.len() - 1 {
                assert(init[i] == ps[i]);
                assert(ps[i].0@ != ps[ps.len() - 1].0@);
                assert(pairs_map(init).contains_key(init[i].0@));
            }
        }
    }
}

proof fn lemma_split_after_line(a: Seq<char>, t: Seq<char>)
    requires
        split_lines(a).1 == Seq::<char>::empty(),
        lacks(t, '\n'),
    ensures
        split_lines(a + t) == (split_lines(a).0, t),
        split_lines(a + t.push('\n')) == (split_lines(a).0.push(t), Seq::<char>::empty()),
    decreases t.len(),
{
    if t.len() == 0 {
        assert(a + t =~= a);
    } else {
        assert((a + t).drop_last() =~= a + t.drop_last());
        lemma_split_after_line(a, t.drop_last());
        assert(t.drop_last().push(t.last()) =~= t);
    }
    let u = a + t.push('\n');
    assert(u.drop_last() =~= a + t);
    assert(u.last() == '\n');
    assert(split_lines(u) == (split_lines(a + t).0.push(split_lines(a + t).1), Seq::<char>::empty()));
}

proof fn lemma_record_lacks_newline(e: Mutation)
    requires
        is_encodable(e),
    ensures
        lacks(record_of(e), '\n'),
{
    let r = record_of(e);
    assert forall|i: int| 0 <= i < r.len() implies r[i] != '\n' by {
        match e {
            Mutation::Insert(k, v) => {
                let a = seq!['S', 'E', 'T'] + seq![' '];
                let b = a + k;
                let c = b + seq![' '];
                if i >= c.len() {
                    assert(r[i] == v[i - c.len()]);
                } else if i >= b.len() {
                } else if i >= a.len() {
                    assert(r[i] == k[i - a.len()]);
                }
            },
            Mutation::Delete(k) => {
                let a = seq!['D', 'E', 'L', 'E', 'T', 'E'] + seq![' '];
                if i >= a.len() {
                    assert(r[i] == k[i - a.len()]);
                }
            },
            Mutation::Clear => {},
        }
    }
}

/// The lines of the log written for the records `es` are their texts, in order.
proof fn lemma_lines_of_log(es: Seq<Mutation>)
    requires
        forall|i: int| 0 <= i < es.len() ==> is_encodable(#[trigger] es[i]),
    ensures
        split_lines(log_of(es)) == (es.map_values(|e: Mutation| record_of(e)), Seq::<
            char,
        >::empty()),
    decreases es.len(),
{
    if es.len() == 0 {
        assert(es.map_values(|e: Mutation| record_of(e)) =~= seq![]);
    } else {
        let init = es.drop_last();
        lemma_lines_of_log(init);
        lemma_record_lacks_newline(es.last());
        lemma_split_after_line(log_of(init), record_of(es.last()));
        assert(es.map_values(|e: Mutation| record_of(e)) =~= init.map_values(
            |e: Mutation| record_of(e),
        ).push(record_of(es.last())));
    }
}

/// Replaying the texts of the records `es` applies the records.
proof fn lemma_replay_records(m: Map<Seq<char>, Seq<char>>, es: Seq<Mutation>)
    requires
        forall|i: int| 0 <= i < es.len() ==> is_encodable(#[trigger] es[i]),
    ensures
        replay_lines(m, es.map_values(|e: Mutation| record_of(e))) == (apply_all(m, es), None::<
            (nat, Seq<char>),
        >),
    decreases es.len(),
{
    let lines = es.map_values(|e: Mutation| record_of(e));
    if es.len() > 0 {
        let init = es.drop_last();
        lemma_replay_records(m, init);
        assert(lines.drop_last() =~= init.map_values(|e: Mutation| record_of(e)));
        lemma_decode_record(es.last());
    }
}

/// Round trip: replaying into `m` the log written for any records whose keys
/// hold no space or newline and whose values hold no newline succeeds, and
/// gives the map that applying those records to `m` directly gives.
pub proof fn lemma_replay_log_of(m: Map<Seq<char>, Seq<char>>, es: Seq<Mutation>)
    requires
        forall|i: int| 0 <= i < es.len() ==> is_encodable(#[trigger] es[i]),
    ensures
        replay_log(m, log_of(es)) == (apply_all(m, es), None::<(nat, Seq<char>)>),
{
    lemma_lines_of_log(es);
    lemma_replay_records(m, es);
}

/// Recovery: a store rebuilt from the log of the records that a live store
/// applied since it was empty holds, for every key, what the live store holds.
pub proof fn lemma_recovered_store_agrees(es: Seq<Mutation>, k: Seq<char>)
    requires
        forall|i: int| 0 <= i < es.len() ==> is_encodable(#[trigger] es[i]),
    ensures
        replay_log(Map::empty(), log_of(es)).1 is None,
        lookup(replay_log(Map::empty(), log_of(es)).0, k) == lookup(
            apply_all(Map::empty(), es),
            k,
        ),
{
    lemma_replay_log_of(Map::empty(), es);
}

/// Setting a key twice leaves the second value, and the second set, which
/// overwrites, does not change the number of keys.
pub proof fn lemma_overwrite(
    m: Map<Seq<char>, Seq<char>>,
    k: Seq<char>,
    v1: Seq<char>,
    v2: Seq<char>,
)
    requires
        m.dom().finite(),
    ensures
        ({
            let m1 = apply_mutation(m, Mutation::Insert(k, v1));
            let m2 = apply_mutation(m1, Mutation::Insert(k, v2));
            lookup(m2, k) == Some(v2) && m2.len() == m1.len()
        }),
{
    let m1 = m.insert(k, v1);
    assert(m1.dom().insert(k) =~= m1.dom());
}

/// Deleting an absent key changes nothing; deleting a present one removes
/// exactly that key.
pub proof fn lemma_delete_counts(m: Map<Seq<char>, Seq<char>>, k: Seq<char>)
    requires
        m.dom().finite(),
    ensures
        ({
            let m1 = apply_mutation(m, Mutation::Delete(k));
            &&& lookup(m1, k) is None
            &&& !m.contains_key(k) ==> m1 == m
            &&& m.contains_key(k) ==> m1.len() == m.len() - 1
        }),
{
    if !m.contains_key(k) {
        assert(m.remove(k) =~= m);
    }
}

/// Clearing any map leaves no key.
pub proof fn lemma_clear_empties(m: Map<Seq<char>, Seq<char>>)
    ensures
        apply_mutation(m, Mutation::Clear).len() == 0,
        forall|k: Seq<char>| lookup(#[trigger] apply_mutation(m, Mutation::Clear), k) is None,
{
    assert(Map::<Seq<char>, Seq<char>>::empty().dom() =~= Set::empty());
}

} // verus!
