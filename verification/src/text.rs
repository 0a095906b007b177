//! Characters, strings and byte offsets.
//!
//! A text is modelled as its sequence of characters. A byte offset into the
//! UTF-8 form of the text is tied to that model by [`byte_offset`]: the offset
//! at which the character with a given index starts.

use vstd::prelude::*;
use vstd::utf8::*;
use vstd::string::*;

verus! {

/// The number of bytes that `s` takes in UTF-8.
pub open spec fn utf8_len(s: Seq<char>) -> nat {
    encode_utf8(s).len()
}

/// The byte offset at which the character with index `k` starts in the UTF-8
/// form of `text`. For `k == text.len()` this is the length in bytes.
pub open spec fn byte_offset(text: Seq<char>, k: int) -> nat {
    utf8_len(text.take(k))
}

/// `offset` is the start of a character of `text`, or its end.
pub open spec fn is_boundary(text: Seq<char>, offset: int) -> bool {
    exists|k: int| 0 <= k <= text.len() && #[trigger] byte_offset(text, k) == offset
}

/// The index of the character that starts at the boundary `offset`.
pub open spec fn char_index(text: Seq<char>, offset: int) -> int {
    choose|k: int| 0 <= k <= text.len() && #[trigger] byte_offset(text, k) == offset
}

/// The characters of `text` between two boundaries.
pub open spec fn text_between(text: Seq<char>, start: int, end: int) -> Seq<char> {
    text.subrange(char_index(text, start), char_index(text, end))
}

/// Encoding distributes over concatenation.
pub proof fn lemma_encode_concat(a: Seq<char>, b: Seq<char>)
    ensures
        encode_utf8(a + b) == encode_utf8(a) + encode_utf8(b),
    decreases a.len(),
{
    if a.len() == 0 {
        assert(a + b =~= b);
        assert(encode_utf8(a) + encode_utf8(b) =~= encode_utf8(b));
    } else {
        lemma_encode_concat(a.drop_first(), b);
        assert((a + b).drop_first() =~= a.drop_first() + b);
        assert(encode_utf8(a + b) =~= encode_utf8(a) + encode_utf8(b));
    }
}

/// A character takes between one and four bytes.
pub proof fn lemma_scalar_len(c: char)
    ensures
        1 <= encode_scalar(c as u32).len() <= 4,
        encode_utf8(seq![c]) == encode_scalar(c as u32),
{
    assert(seq![c].drop_first() =~= Seq::<char>::empty());
    assert(encode_utf8(Seq::<char>::empty()) =~= Seq::<u8>::empty());
    assert(encode_utf8(seq![c]) =~= encode_scalar(c as u32));
}

/// Every character takes at least one byte.
pub proof fn lemma_utf8_len_lower_bound(s: Seq<char>)
    ensures
        utf8_len(s) >= s.len(),
    decreases s.len(),
{
    if s.len() > 0 {
        lemma_scalar_len(s[0]);
        lemma_utf8_len_lower_bound(s.drop_first());
    }
}

/// The offset of the next character is the offset of this one plus its length.
pub proof fn lemma_offset_step(text: Seq<char>, k: int)
    requires
        0 <= k < text.len(),
    ensures
        byte_offset(text, k + 1) == byte_offset(text, k) + encode_scalar(text[k] as u32).len(),
{
    assert(text.take(k + 1) =~= text.take(k) + seq![text[k]]);
    lemma_encode_concat(text.take(k), seq![text[k]]);
    lemma_scalar_len(text[k]);
}

/// The bytes between two character indices are the encoding of the characters
/// between them.
pub proof fn lemma_offset_split(text: Seq<char>, i: int, j: int)
    requires
        0 <= i <= j <= text.len(),
    ensures
        byte_offset(text, j) == byte_offset(text, i) + utf8_len(text.subrange(i, j)),
        byte_offset(text, i) <= byte_offset(text, j) <= utf8_len(text),
        i < j ==> byte_offset(text, i) < byte_offset(text, j),
        encode_utf8(text).subrange(byte_offset(text, i) as int, byte_offset(text, j) as int)
            == encode_utf8(text.subrange(i, j)),
{
    assert(text.take(j) =~= text.take(i) + text.subrange(i, j));
    lemma_encode_concat(text.take(i), text.subrange(i, j));
    lemma_utf8_len_lower_bound(text.subrange(i, j));
    assert(text =~= text.take(j) + text.skip(j));
    lemma_encode_concat(text.take(j), text.skip(j));
    assert(encode_utf8(text).subrange(byte_offset(text, i) as int, byte_offset(text, j) as int)
        =~= encode_utf8(text.subrange(i, j)));
}

/// A boundary belongs to exactly one character index.
pub proof fn lemma_char_index(text: Seq<char>, k: int)
    requires
        0 <= k <= text.len(),
    ensures
        is_boundary(text, byte_offset(text, k) as int),
        char_index(text, byte_offset(text, k) as int) == k,
{
    let o = byte_offset(text, k) as int;
    let c = char_index(text, o);
    assert(0 <= c <= text.len() && byte_offset(text, c) == o);
    if c < k {
        lemma_offset_split(text, c, k);
    } else if k < c {
        lemma_offset_split(text, k, c);
    }
}

/// What is known of a boundary: its character index is in range and gives the
/// offset back.
pub proof fn lemma_boundary(text: Seq<char>, offset: int)
    requires
        is_boundary(text, offset),
    ensures
        0 <= char_index(text, offset) <= text.len(),
        byte_offset(text, char_index(text, offset)) == offset,
        0 <= offset <= utf8_len(text),
{
    let k = char_index(text, offset);
    lemma_offset_split(text, k, text.len() as int);
    assert(text.take(text.len() as int) =~= text);
}

/// On boundaries, offsets and character indices are ordered alike.
pub proof fn lemma_boundary_order(text: Seq<char>, a: int, b: int)
    requires
        is_boundary(text, a),
        is_boundary(text, b),
    ensures
        a <= b <==> char_index(text, a) <= char_index(text, b),
        a == b <==> char_index(text, a) == char_index(text, b),
{
    lemma_boundary(text, a);
    lemma_boundary(text, b);
    let i = char_index(text, a);
    let j = char_index(text, b);
    if i < j {
        lemma_offset_split(text, i, j);
    } else if j < i {
        lemma_offset_split(text, j, i);
    }
}

/// The start and the end of a text are boundaries.
pub proof fn lemma_boundary_ends(text: Seq<char>)
    ensures
        is_boundary(text, 0),
        char_index(text, 0) == 0,
        is_boundary(text, utf8_len(text) as int),
        char_index(text, utf8_len(text) as int) == text.len(),
{
    assert(text.take(0) =~= Seq::<char>::empty());
    assert(encode_utf8(Seq::<char>::empty()) =~= Seq::<u8>::empty());
    assert(byte_offset(text, 0) == 0);
    lemma_char_index(text, 0);
    assert(text.take(text.len() as int) =~= text);
    lemma_char_index(text, text.len() as int);
}

/// Encoding loses nothing: texts with the same bytes are the same text.
pub proof fn lemma_encode_injective(a: Seq<char>, b: Seq<char>)
    requires
        encode_utf8(a) == encode_utf8(b),
    ensures
        a == b,
{
    encode_utf8_decode_utf8(a);
    encode_utf8_decode_utf8(b);
}

/// The bytes after the first character are the encoding of the other
/// characters.
proof fn lemma_pop_first(text: Seq<char>)
    requires
        text.len() > 0,
    ensures
        valid_utf8(encode_utf8(text)),
        length_of_first_scalar(encode_utf8(text)) == encode_scalar(text[0] as u32).len(),
        pop_first_scalar(encode_utf8(text)) == encode_utf8(text.drop_first()),
{
    encode_utf8_valid_utf8(text);
    encode_utf8_first_scalar(text);
    assert(pop_first_scalar(encode_utf8(text)) =~= encode_utf8(text.drop_first()));
}

/// Where a character starts, the bytes have a character boundary.
pub proof fn lemma_offset_is_char_boundary(text: Seq<char>, k: int)
    requires
        0 <= k <= text.len(),
    ensures
        is_char_boundary(encode_utf8(text), byte_offset(text, k) as int),
    decreases k,
{
    let bytes = encode_utf8(text);
    encode_utf8_valid_utf8(text);
    if k == 0 {
        lemma_boundary_ends(text);
    } else {
        lemma_pop_first(text);
        lemma_offset_split(text, 0, k);
        lemma_offset_split(text, 1, k);
        lemma_offset_split(text, 0, 1);
        let rest = text.drop_first();
        assert(rest.take(k - 1) =~= text.subrange(1, k));
        assert(text.subrange(0, 1) =~= seq![text[0]]);
        lemma_scalar_len(text[0]);
        assert(text.take(0) =~= Seq::<char>::empty());
        assert(byte_offset(text, 0) == 0);
        assert(byte_offset(text, k) - length_of_first_scalar(bytes) == byte_offset(rest, k - 1));
        lemma_offset_is_char_boundary(rest, k - 1);
    }
}

/// Where the bytes have a character boundary, a character starts or the text
/// ends.
pub proof fn lemma_char_boundary_is_offset(text: Seq<char>, offset: int)
    requires
        is_char_boundary(encode_utf8(text), offset),
    ensures
        is_boundary(text, offset),
    decreases text.len(),
{
    let bytes = encode_utf8(text);
    encode_utf8_valid_utf8(text);
    if offset == 0 {
        lemma_boundary_ends(text);
    } else {
        assert(0 < offset <= bytes.len());
        assert(text.len() > 0) by {
            if text.len() == 0 {
                assert(bytes.len() == 0);
            }
        }
        lemma_pop_first(text);
        let rest = text.drop_first();
        let first_len = length_of_first_scalar(bytes);
        lemma_char_boundary_is_offset(rest, offset - first_len);
        let k = char_index(rest, offset - first_len);
        lemma_boundary(rest, offset - first_len);
        lemma_offset_split(text, 0, k + 1);
        lemma_offset_split(text, 1, k + 1);
        lemma_offset_split(text, 0, 1);
        assert(rest.take(k) =~= text.subrange(1, k + 1));
        assert(text.subrange(0, 1) =~= seq![text[0]]);
        lemma_scalar_len(text[0]);
        assert(text.take(0) =~= Seq::<char>::empty());
        assert(byte_offset(text, 0) == 0);
        assert(byte_offset(text, k + 1) == offset);
    }
}

/// Whether `offset` is the start of a character of `data`, or its end.
pub fn at_boundary(data: &str, offset: usize) -> (b: bool)
    ensures
        b == is_boundary(data@, offset as int),
{
    let b = data.is_char_boundary(offset);
    proof {
        if b {
            lemma_char_boundary_is_offset(data@, offset as int);
        }
        if is_boundary(data@, offset as int) {
            lemma_boundary(data@, offset as int);
            lemma_offset_is_char_boundary(data@, char_index(data@, offset as int));
        }
    }
    b
}

/// The part of `data` between two boundaries.
pub fn slice<'a>(data: &'a str, start: usize, end: usize) -> (part: &'a str)
    requires
        start <= end,
        is_boundary(data@, start as int),
        is_boundary(data@, end as int),
    ensures
        part@ == text_between(data@, start as int, end as int),
{
    let ghost i = char_index(data@, start as int);
    let ghost j = char_index(data@, end as int);
    proof {
        lemma_boundary(data@, start as int);
        lemma_boundary(data@, end as int);
        lemma_boundary_order(data@, start as int, end as int);
        lemma_offset_is_char_boundary(data@, j);
    }
    let (head, _) = data.split_at(end);
    proof {
        lemma_offset_split(data@, 0, j);
        assert(data@.take(0) =~= Seq::<char>::empty());
        assert(byte_offset(data@, 0) == 0);
        assert(data@.subrange(0, j) =~= data@.take(j));
        lemma_encode_injective(head@, data@.take(j));
        assert(data@.take(j).take(i) =~= data@.take(i));
        lemma_offset_is_char_boundary(head@, i);
    }
    let (_, part) = head.split_at(start);
    proof {
        lemma_offset_split(head@, i, j);
        assert(head@.take(j) =~= head@);
        assert(head@.subrange(i, j) =~= data@.subrange(i, j));
        lemma_encode_injective(part@, data@.subrange(i, j));
    }
    part
}

/// The length of a string in bytes.
pub fn byte_len(s: &str) -> (n: usize)
    ensures
        n == utf8_len(s@),
{
    s.as_bytes().len()
}

/// Whether two strings hold the same characters.
pub fn str_eq(a: &str, b: &str) -> (same: bool)
    ensures
        same == (a@ == b@),
{
    let x = a.as_bytes();
    let y = b.as_bytes();
    if x.len() != y.len() {
        return false;
    }
    let mut i: usize = 0;
    while i < x.len()
        invariant
            x@.len() == y@.len(),
            0 <= i <= x@.len(),
            forall|k: int| 0 <= k < i ==> x@[k] == y@[k],
            x@ == encode_utf8(a@),
            y@ == encode_utf8(b@),
        decreases x@.len() - i,
    {
        if x[i] != y[i] {
            return false;
        }
        i += 1;
    }
    proof {
        assert(x@ =~= y@);
        lemma_encode_injective(a@, b@);
    }
    true
}

/// Whether a character is white space in the sense of Unicode: one of the
/// characters with the property `White_Space`, which are the controls from
/// the tabulator to the carriage return, the space, the next line control,
/// the no-break space, the Ogham space mark, the spaces of fixed width from
/// the en quad to the hair space, the line and the paragraph separator, the
/// narrow no-break space, the medium mathematical space and the ideographic
/// space.
pub open spec fn is_whitespace_char(c: char) -> bool {
    let code = c as u32;
    ||| 0x09 <= code <= 0x0d
    ||| code == 0x20
    ||| code == 0x85
    ||| code == 0xa0
    ||| code == 0x1680
    ||| 0x2000 <= code <= 0x200a
    ||| code == 0x2028
    ||| code == 0x2029
    ||| code == 0x202f
    ||| code == 0x205f
    ||| code == 0x3000
}

/// `char::is_whitespace` of the standard library: whether the character has
/// the Unicode property `White_Space`.
#[verifier::external_body]
pub(crate) fn char_is_whitespace(c: char) -> (b: bool)
    ensures
        b == is_whitespace_char(c),
{
    c.is_whitespace()
}

/// `char::len_utf8` of the standard library: the number of bytes that the
/// character takes in UTF-8.
pub assume_specification[ char::len_utf8 ](c: char) -> (n: usize)
    ensures
        n == encode_scalar(c as u32).len(),
;

/// The number of 16-bit units that a character takes in UTF-16: one in the
/// basic plane, two above it.
pub open spec fn utf16_len(c: char) -> nat {
    if (c as u32) < 0x10000 {
        1
    } else {
        2
    }
}

/// `char::len_utf16` of the standard library: the number of 16-bit units that
/// the character takes in UTF-16.
pub assume_specification[ char::len_utf16 ](c: char) -> (n: usize)
    ensures
        n == utf16_len(c),
;

/// The lower-case form of an ASCII letter; any other character is unchanged.
pub open spec fn ascii_lower(c: char) -> char {
    if 'A' <= c <= 'Z' {
        ((c as u32) + 32) as char
    } else {
        c
    }
}

/// Two texts are equal up to the case of their ASCII letters.
pub open spec fn eq_ignoring_ascii_case(a: Seq<char>, b: Seq<char>) -> bool {
    &&& a.len() == b.len()
    &&& forall|i: int| 0 <= i < a.len() ==> ascii_lower(#[trigger] a[i]) == ascii_lower(b[i])
}

/// `str::eq_ignore_ascii_case` of the standard library: the two strings are
/// the same once the ASCII letters of both are put in lower case.
#[verifier::external_body]
pub(crate) fn str_eq_ignore_ascii_case(a: &str, b: &str) -> (same: bool)
    ensures
        same == eq_ignoring_ascii_case(a@, b@),
{
    a.eq_ignore_ascii_case(b)
}

/// `needle` occurs in `hay` at the character index `k`.
pub open spec fn occurs_at(hay: Seq<char>, needle: Seq<char>, k: int) -> bool {
    &&& 0 <= k
    &&& k + needle.len() <= hay.len()
    &&& hay.subrange(k, k + needle.len()) == needle
}

/// `k` is the character index of the first occurrence of `needle` in `hay`.
pub open spec fn first_occurrence(hay: Seq<char>, needle: Seq<char>, k: int) -> bool {
    &&& occurs_at(hay, needle, k)
    &&& forall|j: int| 0 <= j < k ==> !occurs_at(hay, needle, j)
}

/// `str::find` of the standard library, for a string pattern: the byte offset
/// at which the first occurrence of `needle` starts, or `None` where it does
/// not occur at all.
#[verifier::external_body]
pub(crate) fn str_find(hay: &str, needle: &str) -> (found: Option<usize>)
    ensures
        match found {
            Some(offset) => is_boundary(hay@, offset as int) && first_occurrence(
                hay@,
                needle@,
                char_index(hay@, offset as int),
            ),
            None => forall|k: int| !occurs_at(hay@, needle@, k),
        },
{
    hay.find(needle)
}

/// The first character of a string, if it has one.
pub fn first_char(s: &str) -> (first: Option<char>)
    ensures
        first == (if s@.len() == 0 {
            None
        } else {
            Some(s@[0])
        }),
{
    let mut chars = s.chars();
    let first = chars.next();
    proof {
        broadcast use vstd::string::group_string_axioms;

    }
    first
}

/// The lower-case form of an ASCII letter; any other character is unchanged.
pub fn to_ascii_lower(c: char) -> (lower: char)
    ensures
        lower == ascii_lower(c),
{
    if 'A' <= c && c <= 'Z' {
        let code: u8 = c as u8;
        (code + 32) as char
    } else {
        c
    }
}

/// Inside the part of a text between two boundaries, the character with
/// index `k` starts `byte_offset(part, k)` bytes after the first boundary.
pub proof fn lemma_inner_offset(text: Seq<char>, start: int, end: int, k: int)
    requires
        start <= end,
        is_boundary(text, start),
        is_boundary(text, end),
        0 <= k <= text_between(text, start, end).len(),
    ensures
        text_between(text, start, end).len() == char_index(text, end) - char_index(text, start),
        is_boundary(text, start + byte_offset(text_between(text, start, end), k)),
        char_index(text, start + byte_offset(text_between(text, start, end), k)) == char_index(
            text,
            start,
        ) + k,
        start + byte_offset(text_between(text, start, end), k) <= end,
        start + utf8_len(text_between(text, start, end)) == end,
{
    let lo = char_index(text, start);
    let hi = char_index(text, end);
    let part = text_between(text, start, end);
    lemma_boundary(text, start);
    lemma_boundary(text, end);
    lemma_boundary_order(text, start, end);
    assert(part.take(k) =~= text.subrange(lo, lo + k));
    assert(part.take(part.len() as int) =~= part);
    lemma_offset_split(text, lo, lo + k);
    lemma_offset_split(text, lo + k, hi);
    lemma_offset_split(text, lo, hi);
    lemma_char_index(text, lo + k);
}

/// The text without its white space.
pub open spec fn without_whitespace(text: Seq<char>) -> Seq<char>
    decreases text.len(),
{
    if text.len() == 0 {
        text
    } else if is_whitespace_char(text.last()) {
        without_whitespace(text.drop_last())
    } else {
        without_whitespace(text.drop_last()).push(text.last())
    }
}

/// The characters `from..to` of `text` are a maximal run without white space.
pub open spec fn is_token(text: Seq<char>, from: int, to: int) -> bool {
    &&& 0 <= from < to <= text.len()
    &&& forall|i: int| from <= i < to ==> !is_whitespace_char(#[trigger] text[i])
    &&& (from == 0 || is_whitespace_char(text[from - 1]))
    &&& (to == text.len() || is_whitespace_char(text[to]))
}

/// What follows `prefix` in `text`, where `text` starts with it.
pub open spec fn after(prefix: Seq<char>, text: Seq<char>) -> Option<Seq<char>> {
    if prefix.is_prefix_of(text) {
        Some(text.skip(prefix.len() as int))
    } else {
        None
    }
}

/// What follows `prefix` in `s`, where `s` starts with it.
pub fn strip_prefix<'a>(s: &'a str, prefix: &str) -> (rest: Option<&'a str>)
    ensures
        match rest {
            Some(r) => after(prefix@, s@) == Some(r@),
            None => after(prefix@, s@) is None,
        },
{
    let n = byte_len(s);
    let m = byte_len(prefix);
    let ghost p = prefix@.len() as int;
    proof {
        lemma_boundary_ends(s@);
        if prefix@.is_prefix_of(s@) {
            assert(s@.take(p) =~= prefix@);
            lemma_offset_split(s@, 0, p);
            lemma_char_index(s@, p);
        }
    }
    if n < m {
        return None;
    }
    if !at_boundary(s, m) {
        return None;
    }
    let head = slice(s, 0, m);
    proof {
        lemma_boundary(s@, m as int);
        assert(head@ =~= s@.take(char_index(s@, m as int)));
    }
    if !str_eq(head, prefix) {
        return None;
    }
    let rest = slice(s, m, n);
    proof {
        assert(rest@ =~= s@.skip(p));
    }
    Some(rest)
}

/// `k` is the index of the first space of `text`.
pub open spec fn is_first_space(text: Seq<char>, k: int) -> bool {
    &&& 0 <= k < text.len()
    &&& text[k] == ' '
    &&& forall|j: int| 0 <= j < k ==> #[trigger] text[j] != ' '
}

/// The parts of `s` before and after its first space, where it has one.
pub fn split_at_space<'a>(s: &'a str) -> (parts: Option<(&'a str, &'a str)>)
    ensures
        match parts {
            Some((left, right)) => {
                &&& is_first_space(s@, left@.len() as int)
                &&& left@ == s@.take(left@.len() as int)
                &&& right@ == s@.skip(left@.len() as int + 1)
            },
            None => forall|k: int| 0 <= k < s@.len() ==> #[trigger] s@[k] != ' ',
        },
{
    proof {
        reveal_strlit(" ");
    }
    let ghost text = s@;
    let ghost needle = " "@;
    assert(needle.len() == 1 && needle[0] == ' ');
    assert forall|k: int| 0 <= k < text.len() implies (occurs_at(text, needle, k) <==> text[k]
        == ' ') by {
        if text[k] == ' ' {
            assert(text.subrange(k, k + 1) =~= needle);
        } else {
            assert(text.subrange(k, k + 1)[0] == text[k]);
        }
    }
    match str_find(s, " ") {
        Some(offset) => {
            let ghost k = char_index(text, offset as int);
            proof {
                lemma_boundary(text, offset as int);
                lemma_boundary_ends(text);
                assert(occurs_at(text, needle, k));
                assert forall|j: int| 0 <= j < k implies #[trigger] text[j] != ' ' by {
                    assert(!occurs_at(text, needle, j));
                }
                lemma_offset_step(text, k);
                lemma_scalar_len(' ');
                lemma_char_index(text, k + 1);
                lemma_offset_split(text, k + 1, text.len() as int);
                assert(text.take(text.len() as int) =~= text);
            }
            let n = byte_len(s);
            assert(offset + 1 <= n);
            let left = slice(s, 0, offset);
            let right = slice(s, offset + 1, n);
            proof {
                assert(left@ =~= text.take(k));
                assert(right@ =~= text.skip(k + 1));
            }
            Some((left, right))
        },
        None => {
            proof {
                assert forall|k: int| 0 <= k < text.len() implies #[trigger] text[k] != ' ' by {
                    assert(!occurs_at(text, needle, k));
                }
            }
            None
        },
    }
}

/// The maximal runs without white space among the characters `lo..hi` of
/// `text`, in order, each as the index of its first character and the index
/// after its last.
pub open spec fn ws_ranges(text: Seq<char>, lo: int, hi: int) -> Seq<(int, int)>
    decreases hi - lo,
{
    if hi <= lo {
        Seq::empty()
    } else {
        let before = ws_ranges(text, lo, hi - 1);
        if is_whitespace_char(text[hi - 1]) {
            before
        } else if hi - 1 > lo && !is_whitespace_char(text[hi - 2]) && before.len() > 0 {
            before.drop_last().push((before.last().0, hi))
        } else {
            before.push((hi - 1, hi))
        }
    }
}

/// The characters of `text` in the given ranges, one range after the other.
pub open spec fn join(text: Seq<char>, ranges: Seq<(int, int)>) -> Seq<char>
    decreases ranges.len(),
{
    if ranges.len() == 0 {
        Seq::empty()
    } else {
        join(text, ranges.drop_last()) + text.subrange(ranges.last().0, ranges.last().1)
    }
}

/// Joining distributes over concatenation of the ranges.
pub proof fn lemma_join_concat(text: Seq<char>, a: Seq<(int, int)>, b: Seq<(int, int)>)
    ensures
        join(text, a + b) == join(text, a) + join(text, b),
    decreases b.len(),
{
    if b.len() == 0 {
        assert(a + b =~= a);
        assert(join(text, a) + join(text, b) =~= join(text, a));
    } else {
        lemma_join_concat(text, a, b.drop_last());
        assert((a + b).drop_last() =~= a + b.drop_last());
        assert((a + b).last() == b.last());
        assert(join(text, a + b) =~= join(text, a) + join(text, b));
    }
}

/// What is known of the runs without white space: they lie in `lo..hi`, and
/// where the last character is no white space the last run ends with it.
pub proof fn lemma_ws_ranges_last(text: Seq<char>, lo: int, hi: int)
    requires
        0 <= lo <= hi <= text.len(),
    ensures
        forall|t: int|
            0 <= t < ws_ranges(text, lo, hi).len() ==> lo <= (#[trigger] ws_ranges(
                text,
                lo,
                hi,
            )[t]).0 < ws_ranges(text, lo, hi)[t].1 <= hi,
        hi > lo && !is_whitespace_char(text[hi - 1]) ==> ws_ranges(text, lo, hi).len() > 0
            && ws_ranges(text, lo, hi).last().1 == hi,
    decreases hi - lo,
{
    if hi > lo {
        lemma_ws_ranges_last(text, lo, hi - 1);
        let before = ws_ranges(text, lo, hi - 1);
        let now = ws_ranges(text, lo, hi);
        assert forall|t: int| 0 <= t < now.len() implies lo <= (#[trigger] now[t]).0 < now[t].1
            <= hi by {
            if is_whitespace_char(text[hi - 1]) {
                assert(now[t] == before[t]);
            } else if hi - 1 > lo && !is_whitespace_char(text[hi - 2]) && before.len() > 0 {
                if t < now.len() - 1 {
                    assert(now[t] == before[t]);
                } else {
                    assert(now[t].0 == before[before.len() - 1].0);
                }
            } else {
                if t < before.len() {
                    assert(now[t] == before[t]);
                }
            }
        }
    }
}

/// Joining the runs without white space gives the text without its white
/// space.
pub proof fn lemma_ws_ranges_join(text: Seq<char>, lo: int, hi: int)
    requires
        0 <= lo <= hi <= text.len(),
    ensures
        join(text, ws_ranges(text, lo, hi)) == without_whitespace(text.subrange(lo, hi)),
    decreases hi - lo,
{
    if hi <= lo {
        assert(text.subrange(lo, hi) =~= Seq::<char>::empty());
    } else {
        lemma_ws_ranges_join(text, lo, hi - 1);
        lemma_ws_ranges_last(text, lo, hi - 1);
        let before = ws_ranges(text, lo, hi - 1);
        let part = text.subrange(lo, hi);
        assert(part.drop_last() =~= text.subrange(lo, hi - 1));
        assert(part.last() == text[hi - 1]);
        if is_whitespace_char(text[hi - 1]) {
        } else if hi - 1 > lo && !is_whitespace_char(text[hi - 2]) && before.len() > 0 {
            let merged = before.drop_last().push((before.last().0, hi));
            assert(merged.drop_last() =~= before.drop_last());
            assert(text.subrange(before.last().0, hi) =~= text.subrange(
                before.last().0,
                before.last().1,
            ).push(text[hi - 1]));
            assert(join(text, merged) =~= join(text, before).push(text[hi - 1]));
        } else {
            let more = before.push((hi - 1, hi));
            assert(more.drop_last() =~= before);
            assert(text.subrange(hi - 1, hi) =~= Seq::<char>::empty().push(text[hi - 1]));
            assert(join(text, more) =~= join(text, before).push(text[hi - 1]));
        }
    }
}

} // verus!
