//! The names file: the series names, one on each line, in identifier order.
//!
//! A line ends with a line feed. When the file is read, a carriage return
//! before the line feed is dropped with it, and bytes after the last line
//! feed count as one more line.

use crate::error::{DbError, IndexFile};
use crate::lex::{lemma_text_bytes_concat, text_bytes};
use crate::persist::{first_failing, lemma_first_failing_stays};
use crate::registry::texts;
use vstd::prelude::*;
use vstd::slice::{slice_subrange, slice_to_vec};
use vstd::utf8::*;

verus! {

/// The byte that ends a line.
pub const LINE_FEED: u8 = 10;

/// The byte that is dropped where it stands before the end of a line.
pub const CARRIAGE_RETURN: u8 = 13;

/// The bytes of the names file that lists `names`: each name in UTF-8,
/// followed by a line feed.
pub open spec fn names_file(names: Seq<Seq<char>>) -> Seq<u8>
    decreases names.len(),
{
    if names.len() == 0 {
        Seq::empty()
    } else {
        names_file(names.drop_last()) + text_bytes(names.last()) + seq![LINE_FEED]
    }
}

/// The line without the carriage return at its end, if it has one.
pub open spec fn without_return(line: Seq<u8>) -> Seq<u8> {
    if line.len() > 0 && line.last() == CARRIAGE_RETURN {
        line.drop_last()
    } else {
        line
    }
}

/// The lines that are read from `bytes` when `current` has been read of the
/// line at hand.
pub open spec fn scan_lines(bytes: Seq<u8>, current: Seq<u8>) -> Seq<Seq<u8>>
    decreases bytes.len(),
{
    if bytes.len() == 0 {
        if current.len() == 0 {
            Seq::empty()
        } else {
            seq![current]
        }
    } else if bytes[0] == LINE_FEED {
        seq![without_return(current)] + scan_lines(bytes.drop_first(), Seq::empty())
    } else {
        scan_lines(bytes.drop_first(), current.push(bytes[0]))
    }
}

/// The lines of a file.
pub open spec fn lines_of(bytes: Seq<u8>) -> Seq<Seq<u8>> {
    scan_lines(bytes, Seq::empty())
}

/// The line is text in UTF-8.
pub open spec fn is_text() -> spec_fn(Seq<u8>) -> bool {
    |line: Seq<u8>| valid_utf8(line)
}

/// The position of the first line that is not text in UTF-8, if there is one.
pub open spec fn first_not_text(lines: Seq<Seq<u8>>) -> Option<int> {
    first_failing(lines, is_text())
}

/// The texts that lines in UTF-8 hold.
pub open spec fn decoded_lines(lines: Seq<Seq<u8>>) -> Seq<Seq<char>> {
    Seq::new(lines.len(), |i: int| decode_utf8(lines[i]))
}

/// What reading a names file yields: the texts of its lines, or the position
/// of the first line that is not text.
pub open spec fn names_outcome(bytes: Seq<u8>) -> Result<Seq<Seq<char>>, DbError> {
    match first_not_text(lines_of(bytes)) {
        Some(line) => Err(DbError::CorruptData { file: IndexFile::Names, line: line as usize }),
        None => Ok(decoded_lines(lines_of(bytes))),
    }
}

/// `String::from_utf8`: the string whose bytes are `bytes`, or `None` where
/// the bytes are not UTF-8.
#[verifier::external_body]
fn string_from_utf8(bytes: Vec<u8>) -> (r: Option<String>)
    ensures
        match r {
            Some(s) => text_bytes(s@) == bytes@,
            None => !valid_utf8(bytes@),
        },
{
    String::from_utf8(bytes).ok()
}

/// Reading `bytes` after `current` yields what reading them after an empty
/// line yields, with `current` put before the first of the lines.
proof fn lemma_scan_lines_current(bytes: Seq<u8>, current: Seq<u8>, i: int)
    requires
        0 <= i <= bytes.len(),
        forall|k: int| 0 <= k < i ==> bytes[k] != LINE_FEED,
    ensures
        scan_lines(bytes, current) == scan_lines(bytes.skip(i), current + bytes.take(i)),
    decreases i,
{
    if i == 0 {
        assert(bytes.skip(0) =~= bytes);
        assert(current + bytes.take(0) =~= current);
    } else {
        lemma_scan_lines_current(bytes, current, i - 1);
        let rest = bytes.skip(i - 1);
        assert(rest[0] == bytes[i - 1]);
        assert(rest.drop_first() =~= bytes.skip(i));
        assert((current + bytes.take(i - 1)).push(bytes[i - 1]) =~= current + bytes.take(i));
    }
}

/// Reading one run of bytes after another, where the first run is empty or
/// ends a line, yields the lines of the first followed by the lines of the
/// second.
proof fn lemma_scan_lines_concat(a: Seq<u8>, b: Seq<u8>, current: Seq<u8>)
    requires
        if a.len() == 0 {
            current.len() == 0
        } else {
            a.last() == LINE_FEED
        },
    ensures
        scan_lines(a + b, current) == scan_lines(a, current) + scan_lines(b, Seq::empty()),
    decreases a.len(),
{
    if a.len() == 0 {
        assert(a + b =~= b);
        assert(current =~= Seq::<u8>::empty());
        assert(scan_lines(a, current) + scan_lines(b, Seq::empty()) =~= scan_lines(
            b,
            Seq::empty(),
        ));
    } else {
        let rest = a.drop_first();
        assert((a + b).drop_first() =~= rest + b);
        assert((a + b)[0] == a[0]);
        if rest.len() > 0 {
            assert(rest.last() == a.last());
        }
        if a[0] == LINE_FEED {
            lemma_scan_lines_concat(rest, b, Seq::empty());
            assert(scan_lines(a + b, current) =~= scan_lines(a, current) + scan_lines(
                b,
                Seq::empty(),
            ));
        } else {
            lemma_scan_lines_concat(rest, b, current.push(a[0]));
        }
    }
}

/// A line without line feed that does not end in a carriage return, followed
/// by a line feed, is read back as that line.
proof fn lemma_scan_one_line(line: Seq<u8>)
    requires
        !line.contains(LINE_FEED),
        line.len() == 0 || line.last() != CARRIAGE_RETURN,
    ensures
        lines_of(line + seq![LINE_FEED]) == seq![line],
{
    let bytes = line + seq![LINE_FEED];
    let n = line.len() as int;
    assert forall|k: int| 0 <= k < n implies bytes[k] != LINE_FEED by {
        assert(line[k] == bytes[k]);
        assert(line.contains(line[k]));
    }
    lemma_scan_lines_current(bytes, Seq::empty(), n);
    assert(Seq::<u8>::empty() + bytes.take(n) =~= line);
    let end = bytes.skip(n);
    assert(end[0] == LINE_FEED);
    assert(end.drop_first() =~= Seq::<u8>::empty());
    assert(scan_lines(end.drop_first(), Seq::empty()) =~= Seq::<Seq<u8>>::empty());
    assert(without_return(line) == line);
    assert(scan_lines(end, line) =~= seq![line]);
}

/// The names file is empty or ends with a line feed.
proof fn lemma_names_file_ends_line(names: Seq<Seq<char>>)
    ensures
        names_file(names).len() == 0 || names_file(names).last() == LINE_FEED,
{
}

/// The bytes of a character: the character itself where it is below 128,
/// and bytes from 128 up where it is not.
proof fn lemma_character_bytes(c: char)
    ensures
        encode_scalar(c as u32).len() >= 1,
        (c as u32) < 128 ==> encode_scalar(c as u32) == seq![(c as u32) as u8],
        (c as u32) >= 128 ==> forall|k: int|
            0 <= k < encode_scalar(c as u32).len() ==> #[trigger] encode_scalar(c as u32)[k] >= 128,
{
    let s = c as u32;
    assert(s <= 0x7f ==> (s & 0x7f) == s) by (bit_vector);
    assert forall|x: u8|
        (0xC0u8 | x) >= 128 && (0xE0u8 | x) >= 128 && (0xF0u8 | x) >= 128 && (0x80u8 | x)
            >= 128 by {
        assert((0xC0u8 | x) >= 128 && (0xE0u8 | x) >= 128 && (0xF0u8 | x) >= 128 && (0x80u8 | x)
            >= 128) by (bit_vector);
    }
    char_is_scalar(c);
}

/// A byte below 128 among the bytes of a text is a character of the text.
proof fn lemma_low_byte_is_character(t: Seq<char>, b: u8)
    requires
        b < 128,
        text_bytes(t).contains(b),
    ensures
        t.contains(b as char),
    decreases t.len(),
{
    let bytes = text_bytes(t);
    let k = choose|k: int| 0 <= k < bytes.len() && bytes[k] == b;
    if t.len() > 0 {
        let first = encode_scalar(t[0] as u32);
        lemma_character_bytes(t[0]);
        assert(bytes == first + text_bytes(t.drop_first()));
        if k < first.len() {
            assert(first[k] == b);
            assert((t[0] as u32) < 128);
            let u = t[0] as u32;
            assert(first[0] == u as u8);
            assert(u as u8 == b);
            assert(b as u32 == u);
            char_u32_cast(t[0], b as u32);
            assert(t[0] == b as char);
        } else {
            let rest = text_bytes(t.drop_first());
            assert(rest[k - first.len()] == b);
            lemma_low_byte_is_character(t.drop_first(), b);
            let j = choose|j: int| 0 <= j < t.drop_first().len() && t.drop_first()[j] == b as char;
            assert(t[j + 1] == b as char);
        }
    }
}

/// A byte below 128 at the end of the bytes of a text is the last character
/// of the text.
proof fn lemma_low_last_byte_is_character(t: Seq<char>, b: u8)
    requires
        b < 128,
        text_bytes(t).len() > 0,
        text_bytes(t).last() == b,
    ensures
        t.len() > 0,
        t.last() == b as char,
{
    if t.len() > 0 {
        let front = t.drop_last();
        let last = seq![t.last()];
        assert(t =~= front + last);
        lemma_text_bytes_concat(front, last);
        lemma_character_bytes(t.last());
        let e = encode_scalar(t.last() as u32);
        assert(last[0] == t.last());
        assert(last.drop_first() =~= Seq::<char>::empty());
        assert(text_bytes(last.drop_first()) =~= Seq::<u8>::empty());
        assert(text_bytes(last) =~= e);
        assert(text_bytes(t).last() == e[e.len() - 1]);
        assert((t.last() as u32) < 128);
        let u = t.last() as u32;
        assert(e[0] == u as u8);
        assert(u as u8 == b);
        assert(b as u32 == u);
        char_u32_cast(t.last(), b as u32);
    }
}

/// A name that is one line of a file: it holds no line feed and does not end
/// in a carriage return.
pub open spec fn single_line(name: Seq<char>) -> bool {
    !name.contains('\n') && (name.len() == 0 || name.last() != '\r')
}

/// Names that are single lines are read back from their names file as they
/// were written.
pub proof fn lemma_names_round_trip(names: Seq<Seq<char>>)
    requires
        forall|i: int| 0 <= i < names.len() ==> single_line(#[trigger] names[i]),
    ensures
        names_outcome(names_file(names)) == Ok::<Seq<Seq<char>>, DbError>(names),
{
    lemma_names_lines(names);
    let lines = lines_of(names_file(names));
    assert(decoded_lines(lines) =~= names) by {
        assert forall|i: int| 0 <= i < names.len() implies decoded_lines(lines)[i]
            == names[i] by {
            encode_utf8_decode_utf8(names[i]);
        }
    }
}

/// The lines of the names file of single-line names are the bytes of the
/// names, and all of them are text.
proof fn lemma_names_lines(names: Seq<Seq<char>>)
    requires
        forall|i: int| 0 <= i < names.len() ==> single_line(#[trigger] names[i]),
    ensures
        lines_of(names_file(names)).len() == names.len(),
        forall|i: int|
            0 <= i < names.len() ==> (#[trigger] lines_of(names_file(names))[i]) == text_bytes(
                names[i],
            ),
        first_not_text(lines_of(names_file(names))) is None,
    decreases names.len(),
{
    if names.len() > 0 {
        let front = names.drop_last();
        let name = names.last();
        let line = text_bytes(name);
        assert forall|i: int| 0 <= i < front.len() implies single_line(#[trigger] front[i]) by {
            assert(front[i] == names[i]);
        }
        lemma_names_lines(front);
        assert(single_line(names[names.len() - 1]));
        if line.contains(LINE_FEED) {
            lemma_low_byte_is_character(name, LINE_FEED);
        }
        if line.len() > 0 && line.last() == CARRIAGE_RETURN {
            lemma_low_last_byte_is_character(name, CARRIAGE_RETURN);
        }
        lemma_scan_one_line(line);
        lemma_names_file_ends_line(front);
        let a = names_file(front);
        let b = line + seq![LINE_FEED];
        assert(names_file(names) =~= a + b);
        lemma_scan_lines_concat(a, b, Seq::empty());
        let lines = lines_of(names_file(names));
        assert(lines =~= lines_of(a) + seq![line]);
        assert(lines.drop_last() =~= lines_of(a));
        encode_utf8_valid_utf8(name);
        assert forall|i: int| 0 <= i < names.len() implies (#[trigger] lines[i]) == text_bytes(
            names[i],
        ) by {
            if i < front.len() {
                assert(lines[i] == lines_of(a)[i]);
                assert(front[i] == names[i]);
            }
        }
    }
}

/// One more line adds its text to the texts of the lines, and it is the first
/// line that is not text where the lines before it are text and it is not.
proof fn lemma_line_added(done: Seq<Seq<u8>>, line: Seq<u8>)
    requires
        first_not_text(done) is None,
    ensures
        decoded_lines(done.push(line)) == decoded_lines(done).push(decode_utf8(line)),
        valid_utf8(line) ==> first_not_text(done.push(line)) is None,
        !valid_utf8(line) ==> first_not_text(done.push(line)) == Some(done.len() as int),
{
    assert(done.push(line).drop_last() =~= done);
    assert(decoded_lines(done.push(line)) =~= decoded_lines(done).push(decode_utf8(line)));
}

/// Writes the names file: each name followed by a line feed.
pub fn encode_names(names: &Vec<String>) -> (bytes: Vec<u8>)
    ensures
        bytes@ == names_file(texts(names@)),
{
    let mut bytes: Vec<u8> = Vec::new();
    let mut i: usize = 0;
    while i < names.len()
        invariant
            i <= names.len(),
            bytes@ == names_file(texts(names@).take(i as int)),
        decreases names.len() - i,
    {
        let ghost before = bytes@;
        bytes.extend_from_slice(names[i].as_str().as_bytes());
        bytes.push(LINE_FEED);
        proof {
            let all = texts(names@);
            assert(all.take(i + 1).drop_last() =~= all.take(i as int));
            assert(all.take(i + 1).last() == names[i as int]@);
            assert(bytes@ =~= before + text_bytes(names[i as int]@) + seq![LINE_FEED]);
        }
        i += 1;
    }
    proof {
        assert(texts(names@).take(i as int) =~= texts(names@));
    }
    bytes
}

/// Adds the text of `line` to `names`, or tells that the line is not text.
fn push_line(names: &mut Vec<String>, line: Vec<u8>) -> (ok: bool)
    ensures
        ok == valid_utf8(line@),
        ok ==> final(names)@.len() == old(names)@.len() + 1,
        ok ==> texts(final(names)@) == texts(old(names)@).push(decode_utf8(line@)),
        !ok ==> final(names)@ == old(names)@,
{
    match string_from_utf8(line) {
        Some(name) => {
            names.push(name);
            proof {
                encode_utf8_valid_utf8(name@);
                encode_utf8_decode_utf8(name@);
                assert(texts(names@) =~= texts(old(names)@).push(name@));
            }
            true
        },
        None => false,
    }
}

/// Reads a names file: the texts of its lines, in the order of the lines. A
/// line that is not text in UTF-8 makes the file corrupt.
pub fn decode_names(bytes: &[u8]) -> (r: Result<Vec<String>, DbError>)
    ensures
        match names_outcome(bytes@) {
            Ok(names) => r is Ok && texts(r->Ok_0@) == names,
            Err(e) => r is Err && r->Err_0 == e,
        },
{
    let mut names: Vec<String> = Vec::new();
    let ghost mut done: Seq<Seq<u8>> = Seq::empty();
    let mut start: usize = 0;
    let mut i: usize = 0;
    proof {
        assert(bytes@.skip(0) =~= bytes@);
        assert(bytes@.subrange(0, 0) =~= Seq::<u8>::empty());
        assert(done + lines_of(bytes@) =~= lines_of(bytes@));
        assert(texts(names@) =~= decoded_lines(done));
    }
    while i < bytes.len()
        invariant
            start <= i <= bytes.len(),
            names@.len() == done.len(),
            first_not_text(done) is None,
            texts(names@) == decoded_lines(done),
            lines_of(bytes@) == done + scan_lines(
                bytes@.skip(i as int),
                bytes@.subrange(start as int, i as int),
            ),
        decreases bytes.len() - i,
    {
        let ghost rest = bytes@.skip(i as int);
        let ghost current = bytes@.subrange(start as int, i as int);
        proof {
            assert(rest[0] == bytes@[i as int]);
            assert(rest.drop_first() =~= bytes@.skip(i + 1));
        }
        if bytes[i] == LINE_FEED {
            let mut end = i;
            if end > start && bytes[end - 1] == CARRIAGE_RETURN {
                end = end - 1;
            }
            let line = slice_to_vec(slice_subrange(bytes, start, end));
            let ghost after = done.push(line@);
            proof {
                assert(line@ =~= without_return(current));
                assert(bytes@.subrange(i + 1, i + 1) =~= Seq::<u8>::empty());
                assert(lines_of(bytes@) =~= after + scan_lines(bytes@.skip(i + 1), Seq::empty()));
                lemma_line_added(done, line@);
            }
            if !push_line(&mut names, line) {
                proof {
                    let all = lines_of(bytes@);
                    assert(all.take(after.len() as int) =~= after);
                    lemma_first_failing_stays(all, is_text(), after.len() as int);
                }
                return Err(DbError::CorruptData { file: IndexFile::Names, line: names.len() });
            }
            proof {
                done = after;
            }
            start = i + 1;
        } else {
            proof {
                assert(current.push(bytes@[i as int]) =~= bytes@.subrange(start as int, i + 1));
            }
        }
        i += 1;
    }
    proof {
        assert(bytes@.skip(i as int) =~= Seq::<u8>::empty());
    }
    if start < bytes.len() {
        let line = slice_to_vec(slice_subrange(bytes, start, bytes.len()));
        proof {
            assert(lines_of(bytes@) =~= done.push(line@));
            lemma_line_added(done, line@);
        }
        if !push_line(&mut names, line) {
            return Err(DbError::CorruptData { file: IndexFile::Names, line: names.len() });
        }
    } else {
        proof {
            assert(bytes@.subrange(start as int, i as int) =~= Seq::<u8>::empty());
            assert(lines_of(bytes@) =~= done);
        }
    }
    Ok(names)
}

} // verus!
