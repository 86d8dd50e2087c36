//! The write-ahead log's records: their line format, and decoding of lines.
use vstd::prelude::*;
use vstd::std_specs::iter::IteratorSpec;

verus! {

/// std's I/O error, carried inside `WalError` and never looked into.
#[verifier::external_type_specification]
#[verifier::external_body]
pub struct ExIoError(std::io::Error);

/// Why a log line could not be written.
#[derive(Debug)]
pub enum WalError {
    /// The lock that serialises writers was poisoned by a panic.
    PoisonedLock,
    /// Writing or flushing the log file failed.
    IoError(std::io::Error),
}

/// A log that could not be replayed: the number of the offending line,
/// counted from 1, and what is wrong with it.
#[derive(Debug)]
pub struct DecodeError {
    pub line: usize,
    pub message: String,
}

/// What a log record means, as a mathematical value.
pub enum Mutation {
    Insert(Seq<char>, Seq<char>),
    Delete(Seq<char>),
    Clear,
}

/// One record of the write-ahead log.
#[derive(Debug)]
pub enum WalEntry {
    Insert(String, String),
    Delete(String),
    Clear,
}

impl View for WalEntry {
    type V = Mutation;

    open spec fn view(&self) -> Mutation {
        match self {
            WalEntry::Insert(k, v) => Mutation::Insert(k@, v@),
            WalEntry::Delete(k) => Mutation::Delete(k@),
            WalEntry::Clear => Mutation::Clear,
        }
    }
}

pub open spec fn set_word() -> Seq<char> {
    seq!['S', 'E', 'T']
}

pub open spec fn delete_word() -> Seq<char> {
    seq!['D', 'E', 'L', 'E', 'T', 'E']
}

pub open spec fn clear_word() -> Seq<char> {
    seq!['C', 'L', 'E', 'A', 'R']
}

/// The text of a record without its line terminator.
pub open spec fn record_of(m: Mutation) -> Seq<char> {
    match m {
        Mutation::Insert(k, v) => set_word() + seq![' '] + k + seq![' '] + v,
        Mutation::Delete(k) => delete_word() + seq![' '] + k,
        Mutation::Clear => clear_word(),
    }
}

/// The line that the log holds for a record: its text and a newline.
pub open spec fn line_of(m: Mutation) -> Seq<char> {
    record_of(m).push('\n')
}

/// The number of characters before the first space of `s`, or its length if it holds none.
pub open spec fn first_space(s: Seq<char>) -> nat
    decreases s.len(),
{
    if s.len() == 0 || s[0] == ' ' {
        0
    } else {
        1 + first_space(s.drop_first())
    }
}

pub open spec fn missing_set_key() -> Seq<char> {
    "Missing key in SET"@
}

pub open spec fn missing_set_value() -> Seq<char> {
    "Missing value in SET"@
}

pub open spec fn missing_delete_key() -> Seq<char> {
    "Missing key in DELETE"@
}

pub open spec fn unknown_command() -> Seq<char> {
    "Unknown WAL command: "@
}

/// Decodes a record's text (without its newline). The text is cut at its first
/// two spaces: the first piece is the command word; for `SET` the second is the
/// key and the remainder the value; for `DELETE` the second piece is the key.
/// The error holds the message that describes what is wrong with the text.
pub open spec fn decode(s: Seq<char>) -> Result<Mutation, Seq<char>> {
    let i = first_space(s) as int;
    let word = s.take(i);
    let rest = s.skip(i + 1);
    let j = first_space(rest) as int;
    if word == set_word() {
        if i == s.len() {
            Err(missing_set_key())
        } else if j == rest.len() {
            Err(missing_set_value())
        } else {
            Ok(Mutation::Insert(rest.take(j), rest.skip(j + 1)))
        }
    } else if word == delete_word() {
        if i == s.len() {
            Err(missing_delete_key())
        } else {
            Ok(Mutation::Delete(rest.take(j)))
        }
    } else if word == clear_word() {
        Ok(Mutation::Clear)
    } else {
        Err(unknown_command() + word)
    }
}

/// Relies on `String::push`: the string grows by the one character given.
#[verifier::external_body]
fn push_char(s: &mut String, c: char)
    ensures
        final(s)@ == old(s)@.push(c),
{
    s.push(c)
}

/// The characters of `s`, in order.
pub fn chars_of(s: &str) -> (r: Vec<char>)
    ensures
        r@ == s@,
{
    let mut it = s.chars();
    let mut r: Vec<char> = Vec::new();
    loop
        invariant
            r@ + it.remaining() == s@,
            it.decrease() is Some,
        ensures
            r@ == s@,
        decreases it.decrease()->0,
    {
        match it.next() {
            Some(c) => {
                r.push(c);
            },
            None => {
                assert(r@ =~= s@);
                break;
            },
        }
    }
    r
}

/// The string made of `cs[from..to]`.
pub fn string_of(cs: &Vec<char>, from: usize, to: usize) -> (r: String)
    requires
        from <= to <= cs@.len(),
    ensures
        r@ == cs@.subrange(from as int, to as int),
{
    let mut r = String::new();
    let mut i: usize = from;
    while i < to
        invariant
            from <= i <= to <= cs@.len(),
            r@ == cs@.subrange(from as int, i as int),
        decreases to - i,
    {
        push_char(&mut r, cs[i]);
        assert(r@ =~= cs@.subrange(from as int, i + 1));
        i += 1;
    }
    r
}

/// The position of the first space in `cs[from..to]`, or `to` if it holds none.
fn find_space(cs: &Vec<char>, from: usize, to: usize) -> (r: usize)
    requires
        from <= to <= cs@.len(),
    ensures
        r == from + first_space(cs@.subrange(from as int, to as int)),
        r <= to,
{
    let mut i: usize = from;
    while i < to && cs[i] != ' '
        invariant
            from <= i <= to <= cs@.len(),
            first_space(cs@.subrange(from as int, to as int)) == (i - from) + first_space(
                cs@.subrange(i as int, to as int),
            ),
        decreases to - i,
    {
        assert(cs@.subrange(i as int, to as int).drop_first() =~= cs@.subrange(i + 1, to as int));
        i += 1;
    }
    i
}

/// Whether `cs[from..to]` is the word `w`.
fn is_word(cs: &Vec<char>, from: usize, to: usize, w: &str) -> (r: bool)
    requires
        from <= to <= cs@.len(),
    ensures
        r == (cs@.subrange(from as int, to as int) == w@),
{
    let n = w.unicode_len();
    if to - from != n {
        return false;
    }
    let mut i: usize = 0;
    while i < n
        invariant
            n == w@.len(),
            to - from == n,
            from <= to <= cs@.len(),
            i <= n,
            forall|k: int| 0 <= k < i ==> cs@[from + k] == w@[k],
        decreases n - i,
    {
        if cs[from + i] != w.get_char(i) {
            return false;
        }
        i += 1;
    }
    assert(cs@.subrange(from as int, to as int) =~= w@);
    true
}

/// `s` does not contain `c`.
pub open spec fn lacks(s: Seq<char>, c: char) -> bool {
    forall|i: int| 0 <= i < s.len() ==> s[i] != c
}

/// A record that its line gives back: its key holds no space and no newline,
/// and its value no newline.
pub open spec fn is_encodable(m: Mutation) -> bool {
    match m {
        Mutation::Insert(k, v) => lacks(k, ' ') && lacks(k, '\n') && lacks(v, '\n'),
        Mutation::Delete(k) => lacks(k, ' ') && lacks(k, '\n'),
        Mutation::Clear => true,
    }
}

proof fn lemma_first_space_after_word(w: Seq<char>, rest: Seq<char>)
    requires
        lacks(w, ' '),
    ensures
        first_space(w + seq![' '] + rest) == w.len(),
        first_space(w) == w.len(),
    decreases w.len(),
{
    if w.len() > 0 {
        assert((w + seq![' '] + rest).drop_first() =~= w.drop_first() + seq![' '] + rest);
        lemma_first_space_after_word(w.drop_first(), rest);
    } else {
        assert((w + seq![' '] + rest)[0] == ' ');
    }
}

/// Decoding the text of a record whose key holds no space gives the record back.
pub proof fn lemma_decode_record(m: Mutation)
    requires
        is_encodable(m),
    ensures
        decode(record_of(m)) == Ok::<Mutation, Seq<char>>(m),
{
    let s = record_of(m);
    match m {
        Mutation::Insert(k, v) => {
            lemma_first_space_after_word(set_word(), k + seq![' '] + v);
            assert(s =~= set_word() + seq![' '] + (k + seq![' '] + v));
            let rest = s.skip(4);
            assert(rest =~= k + seq![' '] + v);
            lemma_first_space_after_word(k, v);
            assert(s.take(3) =~= set_word());
            assert(rest.take(k.len() as int) =~= k);
            assert(rest.skip(k.len() as int + 1) =~= v);
        },
        Mutation::Delete(k) => {
            lemma_first_space_after_word(delete_word(), k);
            assert(s =~= delete_word() + seq![' '] + k);
            let rest = s.skip(7);
            assert(rest =~= k);
            lemma_first_space_after_word(k, seq![]);
            assert(s.take(6) =~= delete_word());
            assert(rest.take(k.len() as int) =~= k);
            assert(s.take(6) != set_word());
        },
        Mutation::Clear => {
            lemma_first_space_after_word(clear_word(), seq![]);
            assert(s.take(5) =~= clear_word());
            assert(s.take(5) != set_word());
            assert(s.take(5) != delete_word());
        },
    }
}

/// The log's text cut at each newline: the complete lines, without their
/// newlines, and what follows the last newline.
pub open spec fn split_lines(log: Seq<char>) -> (Seq<Seq<char>>, Seq<char>)
    decreases log.len(),
{
    if log.len() == 0 {
        (seq![], seq![])
    } else {
        let (lines, tail) = split_lines(log.drop_last());
        if log.last() == '\n' {
            (lines.push(tail), seq![])
        } else {
            (lines, tail.push(log.last()))
        }
    }
}

/// The log's text for the records `es`, one line each, in order.
pub open spec fn log_of(es: Seq<Mutation>) -> Seq<char>
    decreases es.len(),
{
    if es.len() == 0 {
        seq![]
    } else {
        log_of(es.drop_last()) + line_of(es.last())
    }
}

pub open spec fn unterminated_line() -> Seq<char> {
    "Unterminated WAL line"@
}

/// `r` is the executable form of the decoding result `d`.
pub open spec fn decoded_as(r: Result<WalEntry, String>, d: Result<Mutation, Seq<char>>) -> bool {
    match d {
        Ok(m) => r is Ok && r->Ok_0@ == m,
        Err(msg) => r is Err && r->Err_0@ == msg,
    }
}

/// Decodes the record text `cs[from..to]`.
pub fn decode_chars(cs: &Vec<char>, from: usize, to: usize) -> (r: Result<WalEntry, String>)
    requires
        from <= to <= cs@.len(),
    ensures
        decoded_as(r, decode(cs@.subrange(from as int, to as int))),
{
    let ghost s = cs@.subrange(from as int, to as int);
    proof {
        reveal_strlit("SET");
        reveal_strlit("DELETE");
        reveal_strlit("CLEAR");
    }
    let i = find_space(cs, from, to);
    assert(s.take(i - from) =~= cs@.subrange(from as int, i as int));
    if i < to {
        assert(s.skip(i - from + 1) =~= cs@.subrange(i + 1, to as int));
    }
    if is_word(cs, from, i, "SET") {
        assert("SET"@ =~= set_word());
        if i == to {
            return Err(String::from_str("Missing key in SET"));
        }
        let j = find_space(cs, i + 1, to);
        if j == to {
            return Err(String::from_str("Missing value in SET"));
        }
        let ghost rest = cs@.subrange(i + 1, to as int);
        assert(rest.take(j - (i + 1)) =~= cs@.subrange(i + 1, j as int));
        assert(rest.skip(j - (i + 1) + 1) =~= cs@.subrange(j + 1, to as int));
        let key = string_of(cs, i + 1, j);
        let value = string_of(cs, j + 1, to);
        Ok(WalEntry::Insert(key, value))
    } else if is_word(cs, from, i, "DELETE") {
        assert("DELETE"@ =~= delete_word());
        assert("SET"@ =~= set_word());
        if i == to {
            return Err(String::from_str("Missing key in DELETE"));
        }
        let j = find_space(cs, i + 1, to);
        let ghost rest = cs@.subrange(i + 1, to as int);
        assert(rest.take(j - (i + 1)) =~= cs@.subrange(i + 1, j as int));
        Ok(WalEntry::Delete(string_of(cs, i + 1, j)))
    } else if is_word(cs, from, i, "CLEAR") {
        assert("CLEAR"@ =~= clear_word());
        assert("DELETE"@ =~= delete_word());
        assert("SET"@ =~= set_word());
        Ok(WalEntry::Clear)
    } else {
        assert("CLEAR"@ =~= clear_word());
        assert("DELETE"@ =~= delete_word());
        assert("SET"@ =~= set_word());
        let mut msg = String::from_str("Unknown WAL command: ");
        let word = string_of(cs, from, i);
        msg.append(word.as_str());
        Err(msg)
    }
}

impl WalEntry {
    /// The log line of this entry, newline included.
    pub fn to_line(&self) -> (r: String)
        ensures
            r@ == line_of(self@),
    {
        proof {
            reveal_strlit("SET ");
            reveal_strlit("DELETE ");
            reveal_strlit("CLEAR");
            reveal_strlit(" ");
            reveal_strlit("\n");
        }
        let mut line = match self {
            WalEntry::Insert(k, v) => {
                let mut s = String::from_str("SET ");
                s.append(k.as_str());
                s.append(" ");
                s.append(v.as_str());
                s
            },
            WalEntry::Delete(k) => {
                let mut s = String::from_str("DELETE ");
                s.append(k.as_str());
                s
            },
            WalEntry::Clear => String::from_str("CLEAR"),
        };
        line.append("\n");
        assert(line@ =~= line_of(self@));
        line
    }

    /// Decodes one log line, given without its newline.
    pub fn from_line(line: &str) -> (r: Result<Self, String>)
        ensures
            decoded_as(r, decode(line@)),
    {
        let cs = chars_of(line);
        assert(cs@.subrange(0, cs@.len() as int) =~= line@);
        decode_chars(&cs, 0, cs.len())
    }
}

} // verus!
