//! Text slicing on `&str` with contracts over the characters of the text.
//!
//! The delimiters of the playlist grammar are ASCII characters, so the functions
//! here search the UTF-8 bytes of a text and cut it at the byte found. Their
//! contracts speak of characters only: the lemmas of this module carry each fact
//! about the bytes over to the characters that the bytes encode.
use vstd::prelude::*;
use vstd::string::*;
use vstd::utf8::*;

use crate::encoding::{
    ascii, lemma_ascii_char_in_bytes, lemma_boundary_at_concat, lemma_boundary_at_prefix,
    lemma_encode_ascii, lemma_encode_concat, lemma_encode_empty, lemma_encode_injective,
    lemma_first_byte,
};

verus! {

/// The byte of the line feed.
pub const LINE_FEED: u8 = 0x0a;

/// The byte of the carriage return.
pub const CARRIAGE_RETURN: u8 = 0x0d;

/// The byte of the double quote.
pub const QUOTE: u8 = 0x22;

/// The byte of the comma.
pub const COMMA: u8 = 0x2c;

/// The byte of the colon.
pub const COLON: u8 = 0x3a;

/// The byte of the equals sign.
pub const EQUALS: u8 = 0x3d;

/// The index of the first `c` in `s`, or the length of `s` where `s` holds no `c`.
pub open spec fn position(s: Seq<char>, c: char) -> int
    decreases s.len(),
{
    if s.len() == 0 || s[0] == c {
        0
    } else {
        1 + position(s.drop_first(), c)
    }
}

/// `position` is the only index below which no `c` stands and at which, if it is
/// inside `s`, a `c` stands.
pub proof fn lemma_position(s: Seq<char>, c: char)
    ensures
        0 <= position(s, c) <= s.len(),
        position(s, c) < s.len() ==> s[position(s, c)] == c,
        forall|j: int| 0 <= j < position(s, c) ==> s[j] != c,
        position(s, c) == s.len() <==> !s.contains(c),
    decreases s.len(),
{
    if s.len() == 0 || s[0] == c {
    } else {
        let t = s.drop_first();
        lemma_position(t, c);
        assert forall|j: int| 0 <= j < position(s, c) implies s[j] != c by {
            if j > 0 {
                assert(t[j - 1] == s[j]);
            }
        }
        if position(s, c) < s.len() {
            assert(t[position(t, c)] == s[position(s, c)]);
        }
        if s.contains(c) {
            let k = choose|k: int| 0 <= k < s.len() && s[k] == c;
            assert(t[k - 1] == c);
            assert(t.contains(c));
        }
    }
}

/// An index with the two properties of `position` is `position`.
pub proof fn lemma_position_is(s: Seq<char>, c: char, i: int)
    requires
        0 <= i <= s.len(),
        forall|j: int| 0 <= j < i ==> s[j] != c,
        i < s.len() ==> s[i] == c,
    ensures
        position(s, c) == i,
{
    lemma_position(s, c);
    let p = position(s, c);
    if p < i {
        assert(s[p] == c);
    } else if i < p {
        assert(s[i] == c);
    }
}

/// The first place where `b` stands in `bytes`, or the length of `bytes`.
fn find_byte(bytes: &[u8], b: u8) -> (i: usize)
    ensures
        0 <= i <= bytes@.len(),
        forall|j: int| 0 <= j < i ==> bytes@[j] != b,
        i < bytes@.len() ==> bytes@[i as int] == b,
{
    let mut i: usize = 0;
    while i < bytes.len() && bytes[i] != b
        invariant
            0 <= i <= bytes@.len(),
            forall|j: int| 0 <= j < i ==> bytes@[j] != b,
        decreases bytes@.len() - i,
    {
        i += 1;
    }
    i
}

/// Cuts `s` in two at the byte `mid`, which starts a character or ends `s`.
fn cut<'a>(s: &'a str, mid: usize) -> (parts: (&'a str, &'a str))
    requires
        is_char_boundary(s.spec_bytes(), mid as int),
    ensures
        s@ == parts.0@ + parts.1@,
        parts.0.spec_bytes() == s.spec_bytes().subrange(0, mid as int),
        parts.1.spec_bytes() == s.spec_bytes().subrange(
            mid as int,
            s.spec_bytes().len() as int,
        ),
{
    let parts = s.split_at(mid);
    proof {
        let bytes = s.spec_bytes();
        encode_utf8_valid_utf8(s@);
        decode_utf8_split(bytes, mid as int);
        encode_utf8_decode_utf8(s@);
        encode_utf8_decode_utf8(parts.0@);
        encode_utf8_decode_utf8(parts.1@);
    }
    parts
}

/// Splits `s` before its first `b`: the first part holds no `b`, and the second
/// starts with it or is empty.
pub(crate) fn split_before<'a>(s: &'a str, b: u8) -> (parts: (&'a str, &'a str))
    requires
        b < 0x80,
    ensures
        parts.0@ == s@.take(position(s@, ascii(b))),
        parts.1@ == s@.skip(position(s@, ascii(b))),
{
    let bytes = s.as_bytes();
    let i = find_byte(bytes, b);
    proof {
        encode_utf8_valid_utf8(s@);
        if i < bytes@.len() {
            is_char_boundary_iff_not_is_continuation_byte(bytes@, i as int);
        } else {
            is_char_boundary_start_end_of_seq(bytes@);
        }
    }
    let parts = cut(s, i);
    proof {
        let head = parts.0@;
        let tail = parts.1@;
        assert(!head.contains(ascii(b))) by {
            if head.contains(ascii(b)) {
                lemma_ascii_char_in_bytes(head, b);
            }
        }
        lemma_encode_empty(tail);
        if i < bytes@.len() {
            assert(encode_utf8(tail)[0] == b);
            lemma_first_byte(tail, b);
        }
        assert forall|j: int| 0 <= j < head.len() implies s@[j] != ascii(b) by {
            assert(s@[j] == head[j]);
        }
        if head.len() < s@.len() {
            assert(s@[head.len() as int] == tail[0]);
        }
        lemma_position_is(s@, ascii(b), head.len() as int);
        assert(head =~= s@.take(head.len() as int));
        assert(tail =~= s@.skip(head.len() as int));
    }
    parts
}

/// Cuts `s` in two after the byte `mid`, where the encoding of the text `first`
/// that `s` starts with ends.
fn cut_after<'a>(s: &'a str, mid: usize, Ghost(first): Ghost<Seq<char>>) -> (parts: (
    &'a str,
    &'a str,
))
    requires
        first.is_prefix_of(s@),
        mid == encode_utf8(first).len(),
    ensures
        parts.0@ == first,
        parts.1@ == s@.skip(first.len() as int),
{
    let ghost rest = s@.skip(first.len() as int);
    proof {
        assert(s@ =~= first + rest);
        lemma_boundary_at_concat(first, rest);
        lemma_encode_concat(first, rest);
    }
    let parts = cut(s, mid);
    proof {
        assert(parts.0.spec_bytes() =~= encode_utf8(first));
        lemma_encode_injective(parts.0@, first);
        assert(parts.1@ =~= rest) by {
            assert(parts.1.spec_bytes() =~= encode_utf8(rest));
            lemma_encode_injective(parts.1@, rest);
        }
    }
    parts
}

/// The rest of `s` after its first character, where that is `b`.
pub(crate) fn strip_char<'a>(s: &'a str, b: u8) -> (rest: Option<&'a str>)
    requires
        b < 0x80,
    ensures
        rest is Some <==> s@.len() > 0 && s@[0] == ascii(b),
        rest matches Some(r) ==> r@ == s@.skip(1),
{
    let bytes = s.as_bytes();
    proof {
        if s@.len() > 0 {
            lemma_first_byte(s@, b);
        }
    }
    if bytes.len() > 0 && bytes[0] == b {
        proof {
            lemma_encode_empty(s@);
            lemma_encode_ascii(b);
            assert(seq![ascii(b)] =~= s@.take(1));
        }
        let ghost first = s@.take(1);
        let parts = cut_after(s, 1, Ghost(first));
        Some(parts.1)
    } else {
        None
    }
}

/// Splits `s` at its first `b`, which goes to neither part.
pub(crate) fn split_first<'a>(s: &'a str, b: u8) -> (parts: Option<(&'a str, &'a str)>)
    requires
        b < 0x80,
    ensures
        parts is Some <==> s@.contains(ascii(b)),
        parts matches Some((head, rest)) ==> head@ == s@.take(position(s@, ascii(b))) && rest@
            == s@.skip(position(s@, ascii(b)) + 1),
{
    proof {
        lemma_position(s@, ascii(b));
    }
    let (head, tail) = split_before(s, b);
    match strip_char(tail, b) {
        Some(rest) => {
            assert(rest@ =~= s@.skip(position(s@, ascii(b)) + 1));
            Some((head, rest))
        },
        None => None,
    }
}

/// The index of the second `c` of a text that starts with `c`.
pub open spec fn closing(s: Seq<char>, c: char) -> int {
    1 + position(s.skip(1), c)
}

/// Whether `s` starts with `c` and holds a second `c`.
pub open spec fn delimited(s: Seq<char>, c: char) -> bool {
    s.len() > 0 && s[0] == c && closing(s, c) < s.len()
}

/// Splits `s`, where it starts with `b` and holds a second `b`, after the
/// second: the first part then is the text between the two with both of them.
pub(crate) fn split_delimited<'a>(s: &'a str, b: u8) -> (parts: Option<(&'a str, &'a str)>)
    requires
        b < 0x80,
    ensures
        parts is Some <==> delimited(s@, ascii(b)),
        parts matches Some((first, rest)) ==> first@ == s@.take(closing(s@, ascii(b)) + 1)
            && rest@ == s@.skip(closing(s@, ascii(b)) + 1),
{
    let c = Ghost(ascii(b));
    match strip_char(s, b) {
        None => None,
        Some(inner) => {
            proof {
                lemma_position(inner@, c@);
            }
            let (body, tail) = split_before(inner, b);
            if tail.is_empty() {
                None
            } else {
                let ghost first = s@.take(closing(s@, c@) + 1);
                proof {
                    assert(tail@[0] == inner@[position(inner@, c@)]);
                    assert(first =~= seq![c@] + body@ + seq![c@]);
                    lemma_encode_ascii(b);
                    lemma_encode_concat(seq![c@], body@);
                    lemma_encode_concat(seq![c@] + body@, seq![c@]);
                    let rest = s@.skip(first.len() as int);
                    assert(s@ =~= first + rest);
                    lemma_encode_concat(first, rest);
                    assert(tail@ =~= seq![c@] + rest);
                    lemma_encode_concat(seq![c@], rest);
                }
                let mid = s.as_bytes().len() - tail.as_bytes().len() + 1;
                let parts = cut_after(s, mid, Ghost(first));
                Some(parts)
            }
        },
    }
}

/// Whether the first `n` bytes of `a` and of `b` are the same.
fn same_bytes(a: &[u8], b: &[u8], n: usize) -> (same: bool)
    requires
        n <= a@.len(),
        n <= b@.len(),
    ensures
        same <==> a@.subrange(0, n as int) == b@.subrange(0, n as int),
{
    let mut i: usize = 0;
    while i < n
        invariant
            i <= n <= a@.len(),
            n <= b@.len(),
            a@.subrange(0, i as int) == b@.subrange(0, i as int),
        decreases n - i,
    {
        if a[i] != b[i] {
            proof {
                let x = a@.subrange(0, n as int);
                let y = b@.subrange(0, n as int);
                assert(x[i as int] != y[i as int]);
            }
            return false;
        }
        proof {
            assert(a@.subrange(0, i + 1) =~= a@.subrange(0, i as int).push(a@[i as int]));
            assert(b@.subrange(0, i + 1) =~= b@.subrange(0, i as int).push(b@[i as int]));
        }
        i += 1;
    }
    true
}

/// Whether two texts are the same.
pub fn same_text(a: &str, b: &str) -> (same: bool)
    ensures
        same <==> a@ == b@,
{
    let x = a.as_bytes();
    let y = b.as_bytes();
    proof {
        if x@ == y@ {
            lemma_encode_injective(a@, b@);
        }
        assert(x@.subrange(0, x@.len() as int) =~= x@);
        assert(y@.subrange(0, y@.len() as int) =~= y@);
    }
    x.len() == y.len() && same_bytes(x, y, x.len())
}

/// The rest of `s` after `prefix`, where `s` starts with it.
pub fn strip_prefix<'a>(s: &'a str, prefix: &str) -> (rest: Option<&'a str>)
    ensures
        rest is Some <==> prefix@.is_prefix_of(s@),
        rest matches Some(r) ==> r@ == s@.skip(prefix@.len() as int),
{
    let x = s.as_bytes();
    let y = prefix.as_bytes();
    let n = y.len();
    proof {
        if prefix@.is_prefix_of(s@) {
            let rest = s@.skip(prefix@.len() as int);
            assert(s@ =~= prefix@ + rest);
            lemma_encode_concat(prefix@, rest);
            assert(x@.subrange(0, n as int) =~= y@);
        }
        assert(y@.subrange(0, n as int) =~= y@);
    }
    if n <= x.len() && same_bytes(x, y, n) {
        proof {
            encode_utf8_valid_utf8(s@);
            encode_utf8_valid_utf8(prefix@);
            lemma_boundary_at_prefix(x@, n as int);
        }
        let parts = cut(s, n);
        proof {
            lemma_encode_injective(parts.0@, prefix@);
            assert(parts.1@ =~= s@.skip(prefix@.len() as int));
        }
        Some(parts.1)
    } else {
        None
    }
}

/// `s` without its last character, where that is `b`.
pub(crate) fn strip_last<'a>(s: &'a str, b: u8) -> (start: Option<&'a str>)
    requires
        b < 0x80,
    ensures
        start is Some <==> s@.len() > 0 && s@.last() == ascii(b),
        start matches Some(r) ==> r@ == s@.drop_last(),
{
    let bytes = s.as_bytes();
    let n = bytes.len();
    proof {
        lemma_encode_ascii(b);
        if s@.len() > 0 && s@.last() == ascii(b) {
            assert(s@ =~= s@.drop_last() + seq![ascii(b)]);
            lemma_encode_concat(s@.drop_last(), seq![ascii(b)]);
        }
    }
    if n > 0 && bytes[n - 1] == b {
        proof {
            encode_utf8_valid_utf8(s@);
            is_char_boundary_iff_not_is_continuation_byte(bytes@, n - 1);
        }
        let parts = cut(s, n - 1);
        proof {
            assert(parts.1.spec_bytes() =~= seq![b]);
            lemma_encode_injective(parts.1@, seq![ascii(b)]);
            assert(parts.0@ =~= s@.drop_last());
        }
        Some(parts.0)
    } else {
        None
    }
}

/// `line` without the carriage return that it may end with.
pub open spec fn without_return(line: Seq<char>) -> Seq<char> {
    if line.len() > 0 && line.last() == '\r' {
        line.drop_last()
    } else {
        line
    }
}

/// The lines of `s`. A line ends with a line feed, or with a carriage return
/// and a line feed, which are no part of it; the last line may end where `s`
/// ends. A carriage return without a line feed after it is part of its line.
pub open spec fn lines_of(s: Seq<char>) -> Seq<Seq<char>>
    decreases s.len(),
    via lines_of_decreases
{
    if s.len() == 0 {
        Seq::empty()
    } else if position(s, '\n') < s.len() {
        seq![without_return(s.take(position(s, '\n')))] + lines_of(s.skip(position(s, '\n') + 1))
    } else {
        seq![s]
    }
}

#[via_fn]
proof fn lines_of_decreases(s: Seq<char>) {
    lemma_position(s, '\n');
}

/// The texts of `slices`, each as its characters.
pub open spec fn texts(slices: Seq<&str>) -> Seq<Seq<char>> {
    Seq::new(slices.len(), |i: int| slices[i]@)
}

/// The lines of `s`.
pub fn split_lines<'a>(s: &'a str) -> (lines: Vec<&'a str>)
    ensures
        texts(lines@) == lines_of(s@),
{
    let mut lines: Vec<&'a str> = Vec::new();
    let mut rest = s;
    assert(texts(lines@) + lines_of(rest@) =~= lines_of(s@));
    while !rest.is_empty()
        invariant
            texts(lines@) + lines_of(rest@) == lines_of(s@),
        decreases rest@.len(),
    {
        proof {
            lemma_position(rest@, '\n');
        }
        let ghost before = texts(lines@);
        match split_first(rest, LINE_FEED) {
            Some((head, tail)) => {
                let line = match strip_last(head, CARRIAGE_RETURN) {
                    Some(start) => start,
                    None => head,
                };
                lines.push(line);
                proof {
                    assert(texts(lines@) =~= before + seq![line@]);
                    assert(texts(lines@) + lines_of(tail@) =~= before + (seq![line@] + lines_of(
                        tail@,
                    )));
                }
                rest = tail;
            },
            None => {
                lines.push(rest);
                proof {
                    assert(texts(lines@) =~= before + seq![rest@]);
                }
                rest = "";
                proof {
                    reveal_strlit("");
                    assert(texts(lines@) + lines_of(rest@) =~= texts(lines@));
                }
            },
        }
    }
    proof {
        assert(texts(lines@) + lines_of(rest@) =~= texts(lines@));
    }
    lines
}

/// Whether `s` holds no line feed.
pub open spec fn plain(s: Seq<char>) -> bool {
    !s.contains('\n')
}

/// A text of two parts holds a character where one of the parts holds it.
pub proof fn lemma_contains_concat(a: Seq<char>, b: Seq<char>, c: char)
    ensures
        (a + b).contains(c) <==> a.contains(c) || b.contains(c),
{
    if a.contains(c) {
        let i = choose|i: int| 0 <= i < a.len() && a[i] == c;
        assert((a + b)[i] == c);
    }
    if b.contains(c) {
        let i = choose|i: int| 0 <= i < b.len() && b[i] == c;
        assert((a + b)[a.len() + i] == c);
    }
    if (a + b).contains(c) {
        let i = choose|i: int| 0 <= i < (a + b).len() && (a + b)[i] == c;
        if i < a.len() {
            assert(a[i] == c);
        } else {
            assert(b[i - a.len()] == c);
        }
    }
}

/// A part of a text holds no character that the text does not hold.
pub proof fn lemma_contains_part(s: Seq<char>, from: int, to: int, c: char)
    requires
        0 <= from <= to <= s.len(),
        !s.contains(c),
    ensures
        !s.subrange(from, to).contains(c),
{
    let part = s.subrange(from, to);
    if part.contains(c) {
        let i = choose|i: int| 0 <= i < part.len() && part[i] == c;
        assert(s[from + i] == c);
    }
}

/// The first `c` of a text that holds no `c` before one is that one.
pub proof fn lemma_position_after(a: Seq<char>, c: char, b: Seq<char>)
    requires
        !a.contains(c),
    ensures
        position(a + seq![c] + b, c) == a.len(),
        (a + seq![c] + b).take(a.len() as int) == a,
        (a + seq![c] + b).skip(a.len() as int + 1) == b,
{
    let s = a + seq![c] + b;
    assert forall|j: int| 0 <= j < a.len() implies s[j] != c by {
        assert(s[j] == a[j]);
    }
    assert(s[a.len() as int] == c);
    lemma_position_is(s, c, a.len() as int);
    assert(s.take(a.len() as int) =~= a);
    assert(s.skip(a.len() as int + 1) =~= b);
}

/// `text` as a line: with a line feed after it.
pub open spec fn line(text: Seq<char>) -> Seq<char> {
    text + seq!['\n']
}

/// The text of the lines `lines`, each with its line feed.
pub open spec fn lines_text(lines: Seq<Seq<char>>) -> Seq<char>
    decreases lines.len(),
{
    if lines.len() == 0 {
        Seq::empty()
    } else {
        lines_text(lines.drop_last()) + line(lines.last())
    }
}

/// The lines `lines` as they are read back from their text: each without the
/// carriage return that it may end with.
pub open spec fn read_back(lines: Seq<Seq<char>>) -> Seq<Seq<char>> {
    Seq::new(lines.len(), |i: int| without_return(lines[i]))
}

/// The text of two runs of lines is the text of the first and then that of
/// the second.
pub proof fn lemma_lines_text_concat(a: Seq<Seq<char>>, b: Seq<Seq<char>>)
    ensures
        lines_text(a + b) == lines_text(a) + lines_text(b),
    decreases b.len(),
{
    if b.len() == 0 {
        assert(a + b =~= a);
        assert(lines_text(a) + lines_text(b) =~= lines_text(a));
    } else {
        assert((a + b).drop_last() =~= a + b.drop_last());
        assert((a + b).last() == b.last());
        lemma_lines_text_concat(a, b.drop_last());
        assert(lines_text(a + b) =~= lines_text(a) + lines_text(b));
    }
}

/// The lines of a text that starts with a plain line are that line, read
/// back, and the lines of the rest.
pub proof fn lemma_lines_of_first(first: Seq<char>, rest: Seq<char>)
    requires
        plain(first),
    ensures
        lines_of(line(first) + rest) == seq![without_return(first)] + lines_of(rest),
{
    let s = line(first) + rest;
    assert(s =~= first + seq!['\n'] + rest);
    lemma_position_after(first, '\n', rest);
}

/// The lines of the text of plain lines are those lines, read back.
pub proof fn lemma_lines_of_text(lines: Seq<Seq<char>>)
    requires
        forall|i: int| 0 <= i < lines.len() ==> plain(#[trigger] lines[i]),
    ensures
        lines_of(lines_text(lines)) == read_back(lines),
    decreases lines.len(),
{
    if lines.len() == 0 {
        assert(read_back(lines) =~= Seq::<Seq<char>>::empty());
    } else {
        let first = lines[0];
        let rest = lines.drop_first();
        assert(lines =~= seq![first] + rest);
        lemma_lines_text_concat(seq![first], rest);
        assert(seq![first].drop_last() =~= Seq::<Seq<char>>::empty());
        assert(lines_text(Seq::<Seq<char>>::empty()) =~= Seq::<char>::empty());
        assert(lines_text(seq![first]) =~= line(first));
        lemma_lines_of_first(first, lines_text(rest));
        assert forall|i: int| 0 <= i < rest.len() implies plain(#[trigger] rest[i]) by {
            assert(rest[i] == lines[i + 1]);
        }
        lemma_lines_of_text(rest);
        assert(read_back(lines) =~= seq![without_return(first)] + read_back(rest));
    }
}

/// Every line of a text is plain.
pub proof fn lemma_lines_plain(s: Seq<char>)
    ensures
        forall|i: int| 0 <= i < lines_of(s).len() ==> plain(#[trigger] lines_of(s)[i]),
    decreases s.len(),
{
    lemma_position(s, '\n');
    let p = position(s, '\n');
    if s.len() == 0 {
    } else if p < s.len() {
        let first = s.take(p);
        let rest = s.skip(p + 1);
        lemma_lines_plain(rest);
        if first.contains('\n') {
            let i = choose|i: int| 0 <= i < first.len() && first[i] == '\n';
            assert(s[i] == '\n');
        }
        if first.len() > 0 {
            lemma_contains_part(first, 0, first.len() - 1, '\n');
        }
        assert forall|i: int| 0 <= i < lines_of(s).len() implies plain(
            #[trigger] lines_of(s)[i],
        ) by {
            if i > 0 {
                assert(lines_of(s)[i] == lines_of(rest)[i - 1]);
            }
        }
    } else {
    }
}

} // verus!
