//! Byte strings: searching, splitting into lines, words and pieces, and
//! trimming.
//!
//! Every function here works on raw bytes, as they arrive on the wire. The
//! specification functions are stated over `Seq<u8>`.

use vstd::prelude::*;
use vstd::slice::{slice_subrange, slice_to_vec};
use vstd::utf8::{encode_utf8, is_ascii_chars, is_ascii_chars_encode_utf8};

verus! {

/// The horizontal tab.
pub const TAB: u8 = 9;

/// The line feed.
pub const LF: u8 = 10;

/// The carriage return.
pub const CR: u8 = 13;

/// The space.
pub const SPACE: u8 = 32;

/// The byte `&`.
pub const AMPERSAND: u8 = 38;

/// The byte `+`.
pub const PLUS: u8 = 43;

/// The digit `0`.
pub const ZERO: u8 = 48;

/// The digit `9`.
pub const NINE: u8 = 57;

/// The byte `;`.
pub const SEMICOLON: u8 = 59;

/// The byte `?`.
pub const QUESTION_MARK: u8 = 63;

/// Whether `b` is one of the six ASCII whitespace bytes: tab, line feed,
/// vertical tab, form feed, carriage return or space.
pub open spec fn is_space(b: u8) -> bool {
    b == SPACE || (TAB <= b && b <= CR)
}

/// The index of the first `b` in `s`, or `s.len()` if `s` holds none.
pub open spec fn index_of(s: Seq<u8>, b: u8) -> int
    decreases s.len(),
{
    if s.len() == 0 || s[0] == b {
        0
    } else {
        1 + index_of(s.skip(1), b)
    }
}

/// `index_of` stays within `s`, nothing before it is `b`, and where it is
/// inside `s` it points at a `b`.
pub proof fn lemma_index_of(s: Seq<u8>, b: u8)
    ensures
        0 <= index_of(s, b) <= s.len(),
        forall|j: int| 0 <= j < index_of(s, b) ==> s[j] != b,
        index_of(s, b) < s.len() ==> s[index_of(s, b)] == b,
    decreases s.len(),
{
    if s.len() == 0 || s[0] == b {
    } else {
        let t = s.skip(1);
        lemma_index_of(t, b);
        assert forall|j: int| 0 <= j < index_of(s, b) implies s[j] != b by {
            if j > 0 {
                assert(s[j] == t[j - 1]);
            }
        }
        assert(index_of(s, b) < s.len() ==> s[index_of(s, b)] == t[index_of(t, b)]);
    }
}

/// The only index with the three properties of `lemma_index_of` is
/// `index_of` itself.
pub proof fn lemma_index_of_unique(s: Seq<u8>, b: u8, i: int)
    requires
        0 <= i <= s.len(),
        forall|j: int| 0 <= j < i ==> s[j] != b,
        i < s.len() ==> s[i] == b,
    ensures
        index_of(s, b) == i,
    decreases s.len(),
{
    if s.len() == 0 || s[0] == b {
    } else {
        let t = s.skip(1);
        assert forall|j: int| 0 <= j < i - 1 implies t[j] != b by {
            assert(t[j] == s[j + 1]);
        }
        lemma_index_of_unique(t, b, i - 1);
    }
}

/// Finds the first `b` in `s`; returns `s.len()` if there is none.
pub fn find_byte(s: &[u8], b: u8) -> (i: usize)
    ensures
        i == index_of(s@, b),
{
    let mut i: usize = 0;
    while i < s.len() && s[i] != b
        invariant
            i <= s.len(),
            forall|j: int| 0 <= j < i ==> s@[j] != b,
        decreases s.len() - i,
    {
        i += 1;
    }
    proof {
        lemma_index_of_unique(s@, b, i as int);
    }
    i
}

/// Whether `a` and `b` hold the same bytes.
pub fn bytes_equal(a: &[u8], b: &[u8]) -> (same: bool)
    ensures
        same == (a@ == b@),
{
    if a.len() != b.len() {
        return false;
    }
    let mut i: usize = 0;
    while i < a.len()
        invariant
            i <= a.len(),
            a.len() == b.len(),
            forall|j: int| 0 <= j < i ==> a@[j] == b@[j],
        decreases a.len() - i,
    {
        if a[i] != b[i] {
            return false;
        }
        i += 1;
    }
    assert(a@ =~= b@);
    true
}

/// Whether `pat` stands in `s` at index `i`.
pub open spec fn occurs_at(s: Seq<u8>, pat: Seq<u8>, i: int) -> bool {
    0 <= i && i + pat.len() <= s.len() && s.subrange(i, i + pat.len()) == pat
}

/// The first index at or after `from` where `pat` stands in `s`.
pub open spec fn first_match_from(s: Seq<u8>, pat: Seq<u8>, from: int) -> Option<int>
    decreases s.len() + 1 - from,
{
    if from < 0 || from + pat.len() > s.len() {
        None
    } else if occurs_at(s, pat, from) {
        Some(from)
    } else {
        first_match_from(s, pat, from + 1)
    }
}

/// The first index where `pat` stands in `s`. The empty pattern stands at 0.
pub open spec fn first_match(s: Seq<u8>, pat: Seq<u8>) -> Option<int> {
    first_match_from(s, pat, 0)
}

/// Whether `pat` stands somewhere in `s`.
pub open spec fn contains(s: Seq<u8>, pat: Seq<u8>) -> bool {
    first_match(s, pat) is Some
}

/// What `first_match_from` finds is an occurrence no earlier than `from`, and
/// no occurrence lies between `from` and it; if it finds none, there is none
/// at or after `from`.
pub proof fn lemma_first_match_from(s: Seq<u8>, pat: Seq<u8>, from: int)
    requires
        0 <= from,
    ensures
        match first_match_from(s, pat, from) {
            Some(i) => from <= i && occurs_at(s, pat, i) && forall|j: int|
                from <= j < i ==> !occurs_at(s, pat, j),
            None => forall|j: int| from <= j ==> !occurs_at(s, pat, j),
        },
    decreases s.len() + 1 - from,
{
    if from + pat.len() > s.len() {
    } else if occurs_at(s, pat, from) {
    } else {
        lemma_first_match_from(s, pat, from + 1);
    }
}

/// An occurrence at or after `from` that no other occurrence at or after
/// `from` precedes is what `first_match_from` finds.
pub proof fn lemma_first_match_from_unique(s: Seq<u8>, pat: Seq<u8>, from: int, i: int)
    requires
        0 <= from <= i,
        occurs_at(s, pat, i),
        forall|j: int| from <= j < i ==> !occurs_at(s, pat, j),
    ensures
        first_match_from(s, pat, from) == Some(i),
    decreases i - from,
{
    if from < i {
        lemma_first_match_from_unique(s, pat, from + 1, i);
    }
}

/// Whether `pat` stands in `s` at index `i`.
fn matches_at(s: &[u8], pat: &[u8], i: usize) -> (hit: bool)
    requires
        i + pat@.len() <= s@.len(),
    ensures
        hit == occurs_at(s@, pat@, i as int),
{
    let n: usize = s.len();
    let mut k: usize = 0;
    while k < pat.len()
        invariant
            k <= pat.len(),
            i + pat@.len() <= s@.len() == n,
            forall|j: int| 0 <= j < k ==> s@[i + j] == pat@[j],
        decreases pat.len() - k,
    {
        if s[i + k] != pat[k] {
            assert(s@.subrange(i as int, i + pat@.len())[k as int] != pat@[k as int]);
            return false;
        }
        k += 1;
    }
    assert(s@.subrange(i as int, i + pat@.len()) =~= pat@);
    true
}

/// Finds the first place where `pat` stands in `s`.
pub fn find_subslice(s: &[u8], pat: &[u8]) -> (found: Option<usize>)
    ensures
        match found {
            Some(i) => first_match(s@, pat@) == Some(i as int) && i + pat@.len() <= s@.len(),
            None => first_match(s@, pat@) is None,
        },
{
    if pat.len() > s.len() {
        return None;
    }
    let last: usize = s.len() - pat.len();
    let mut i: usize = 0;
    loop
        invariant
            last + pat@.len() == s@.len(),
            i <= last,
            first_match(s@, pat@) == first_match_from(s@, pat@, i as int),
        decreases last - i,
    {
        if matches_at(s, pat, i) {
            return Some(i);
        }
        if i == last {
            assert(first_match_from(s@, pat@, i + 1) is None);
            return None;
        }
        i += 1;
    }
}

/// `s` without its leading whitespace.
pub open spec fn trimmed_start(s: Seq<u8>) -> Seq<u8>
    decreases s.len(),
{
    if s.len() > 0 && is_space(s[0]) {
        trimmed_start(s.skip(1))
    } else {
        s
    }
}

/// `s` without its trailing whitespace.
pub open spec fn trimmed_end(s: Seq<u8>) -> Seq<u8>
    decreases s.len(),
{
    if s.len() > 0 && is_space(s.last()) {
        trimmed_end(s.drop_last())
    } else {
        s
    }
}

/// `s` without its leading and trailing whitespace.
pub open spec fn trimmed(s: Seq<u8>) -> Seq<u8> {
    trimmed_end(trimmed_start(s))
}

/// Whether `s` holds nothing but whitespace.
pub open spec fn is_blank(s: Seq<u8>) -> bool {
    forall|i: int| 0 <= i < s.len() ==> is_space(#[trigger] s[i])
}

/// Whether `b` is an ASCII whitespace byte.
pub fn is_space_byte(b: u8) -> (r: bool)
    ensures
        r == is_space(b),
{
    b == SPACE || (TAB <= b && b <= CR)
}

/// The part of `s` that is left when the whitespace at both ends is dropped.
pub fn trim(s: &[u8]) -> (r: &[u8])
    ensures
        r@ == trimmed(s@),
{
    let mut start: usize = 0;
    assert(s@.skip(0) =~= s@);
    while start < s.len() && is_space_byte(s[start])
        invariant
            start <= s.len(),
            trimmed_start(s@) == trimmed_start(s@.skip(start as int)),
        decreases s.len() - start,
    {
        assert(s@.skip(start as int).skip(1) =~= s@.skip(start + 1));
        start += 1;
    }
    let mut end: usize = s.len();
    while end > start && is_space_byte(s[end - 1])
        invariant
            start <= end <= s.len(),
            trimmed_start(s@) == s@.skip(start as int),
            trimmed(s@) == trimmed_end(s@.subrange(start as int, end as int)),
        decreases end,
    {
        assert(s@.subrange(start as int, end as int).drop_last() =~= s@.subrange(
            start as int,
            end - 1,
        ));
        end -= 1;
    }
    slice_subrange(s, start, end)
}

/// A blank byte string is one whose trimmed form is empty.
pub proof fn lemma_blank_iff_trimmed_empty(s: Seq<u8>)
    ensures
        is_blank(s) <==> trimmed(s).len() == 0,
    decreases s.len(),
{
    lemma_trimmed_start(s);
    let t = trimmed_start(s);
    lemma_trimmed_end(t);
    if trimmed(s).len() == 0 {
        assert forall|i: int| 0 <= i < s.len() implies is_space(#[trigger] s[i]) by {
            let k = s.len() - t.len();
            if i >= k {
                assert(s[i] == t[i - k]);
            }
        }
    }
    if is_blank(s) {
        if t.len() > 0 {
            assert(t[0] == s[s.len() - t.len()]);
        }
    }
}

/// `trimmed_start(s)` is a suffix of `s`; what stands before it is
/// whitespace, and it does not begin with whitespace.
pub proof fn lemma_trimmed_start(s: Seq<u8>)
    ensures
        trimmed_start(s).len() <= s.len(),
        trimmed_start(s) == s.skip(s.len() - trimmed_start(s).len()),
        forall|i: int| 0 <= i < s.len() - trimmed_start(s).len() ==> is_space(#[trigger] s[i]),
        trimmed_start(s).len() > 0 ==> !is_space(trimmed_start(s)[0]),
    decreases s.len(),
{
    if s.len() > 0 && is_space(s[0]) {
        let t = s.skip(1);
        lemma_trimmed_start(t);
        let k = t.len() - trimmed_start(t).len();
        assert(t.skip(k) =~= s.skip(k + 1));
        assert forall|i: int| 0 <= i < s.len() - trimmed_start(s).len() implies is_space(
            #[trigger] s[i],
        ) by {
            if i > 0 {
                assert(s[i] == t[i - 1]);
            }
        }
    } else {
        assert(s.skip(0) =~= s);
    }
}

/// `trimmed_end(s)` is a prefix of `s`; what stands behind it is whitespace,
/// and it does not end with whitespace.
pub proof fn lemma_trimmed_end(s: Seq<u8>)
    ensures
        trimmed_end(s).len() <= s.len(),
        trimmed_end(s) == s.take(trimmed_end(s).len() as int),
        forall|i: int| trimmed_end(s).len() <= i < s.len() ==> is_space(#[trigger] s[i]),
        trimmed_end(s).len() > 0 ==> !is_space(trimmed_end(s).last()),
    decreases s.len(),
{
    if s.len() > 0 && is_space(s.last()) {
        let t = s.drop_last();
        lemma_trimmed_end(t);
        let k = trimmed_end(t).len() as int;
        assert(t.take(k) =~= s.take(k));
        assert forall|i: int| trimmed_end(s).len() <= i < s.len() implies is_space(
            #[trigger] s[i],
        ) by {
            if i < s.len() - 1 {
                assert(s[i] == t[i]);
            }
        }
    } else {
        assert(s.take(s.len() as int) =~= s);
    }
}

/// The bytes that stand for `text` on the wire: its UTF-8 encoding.
pub open spec fn bytes_of(text: Seq<char>) -> Seq<u8> {
    encode_utf8(text)
}

/// The bytes of `text`.
pub fn to_bytes(text: &str) -> (bytes: Vec<u8>)
    ensures
        bytes@ == bytes_of(text@),
{
    slice_to_vec(text.as_bytes())
}

/// Appends `bytes` to `out`.
pub fn append(out: &mut Vec<u8>, bytes: &[u8])
    ensures
        final(out)@ == old(out)@ + bytes@,
{
    out.extend_from_slice(bytes);
    assert(out@ =~= old(out)@ + bytes@);
}

/// What stands before and after the first `pat` in `s`, or `None` if `pat`
/// does not stand in `s`.
pub open spec fn sides(s: Seq<u8>, pat: Seq<u8>) -> Option<(Seq<u8>, Seq<u8>)> {
    match first_match(s, pat) {
        Some(i) => Some((s.take(i), s.skip(i + pat.len()))),
        None => None,
    }
}

/// Splits `s` at the first `pat`.
pub fn split_once<'a>(s: &'a [u8], pat: &[u8]) -> (halves: Option<(&'a [u8], &'a [u8])>)
    ensures
        match halves {
            Some((before, after)) => sides(s@, pat@) == Some((before@, after@)),
            None => sides(s@, pat@) is None,
        },
{
    let n: usize = s.len();
    match find_subslice(s, pat) {
        Some(i) => Some((slice_subrange(s, 0, i), slice_subrange(s, i + pat.len(), n))),
        None => None,
    }
}

/// The first line of `s`: what stands before the first line feed, without
/// the carriage return that may precede it; all of `s` if it holds no line
/// feed.
pub open spec fn first_line(s: Seq<u8>) -> Seq<u8> {
    let i = index_of(s, LF);
    if 0 < i < s.len() && s[i - 1] == CR {
        s.take(i - 1)
    } else {
        s.take(i)
    }
}

/// What follows the first line feed of `s`; empty if `s` holds none.
pub open spec fn after_first_line(s: Seq<u8>) -> Seq<u8> {
    let i = index_of(s, LF);
    if 0 <= i < s.len() {
        s.skip(i + 1)
    } else {
        Seq::empty()
    }
}

/// Whether `s` holds neither a line feed nor a carriage return.
pub open spec fn on_one_line(s: Seq<u8>) -> bool {
    forall|i: int| 0 <= i < s.len() ==> #[trigger] s[i] != LF && s[i] != CR
}

/// Where `content` stands on one line, the first line of `content`, a
/// carriage return, a line feed and `rest` is `content`, and `rest` is what
/// follows it.
pub proof fn lemma_first_line(content: Seq<u8>, rest: Seq<u8>)
    requires
        on_one_line(content),
    ensures
        first_line(content + seq![CR, LF] + rest) == content,
        after_first_line(content + seq![CR, LF] + rest) == rest,
        index_of(content + seq![CR, LF] + rest, LF) == content.len() + 1,
{
    let s = content + seq![CR, LF] + rest;
    let i = content.len() as int + 1;
    assert forall|j: int| 0 <= j < i implies s[j] != LF by {
        if j < content.len() {
            assert(s[j] == content[j]);
        }
    }
    assert(s[i] == LF);
    lemma_index_of_unique(s, LF, i);
    assert(s[i - 1] == CR);
    assert(s.take(i - 1) =~= content);
    assert(s.skip(i + 1) =~= rest);
}

/// The bytes of a text of ASCII characters are its characters, one byte
/// each.
pub proof fn lemma_ascii_bytes(text: Seq<char>)
    requires
        is_ascii_chars(text),
    ensures
        bytes_of(text).len() == text.len(),
        forall|i: int| 0 <= i < text.len() ==> #[trigger] bytes_of(text)[i] == text[i] as u8,
{
    is_ascii_chars_encode_utf8(text);
}

/// Splits `s` into its first line and what follows it.
pub fn split_line(s: &[u8]) -> (parts: (&[u8], &[u8]))
    ensures
        parts.0@ == first_line(s@),
        parts.1@ == after_first_line(s@),
{
    let i = find_byte(s, LF);
    proof {
        lemma_index_of(s@, LF);
    }
    let rest = if i < s.len() {
        slice_subrange(s, i + 1, s.len())
    } else {
        slice_subrange(s, i, i)
    };
    assert(rest@ =~= after_first_line(s@));
    let end: usize = if 0 < i && i < s.len() && s[i - 1] == CR {
        i - 1
    } else {
        i
    };
    (slice_subrange(s, 0, end), rest)
}

/// The pieces into which the delimiter `b` cuts `s`. There is always at
/// least one piece; pieces may be empty.
pub open spec fn split(s: Seq<u8>, b: u8) -> Seq<Seq<u8>>
    decreases s.len(),
{
    let i = index_of(s, b);
    if 0 <= i < s.len() {
        seq![s.take(i)] + split(s.skip(i + 1), b)
    } else {
        seq![s]
    }
}

/// The length of the run of bytes at the start of `s` that are not
/// whitespace.
pub open spec fn word_len(s: Seq<u8>) -> int
    decreases s.len(),
{
    if s.len() == 0 || is_space(s[0]) {
        0
    } else {
        1 + word_len(s.skip(1))
    }
}

/// `word_len` stays within `s`, covers no whitespace, and ends at the end of
/// `s` or at a whitespace byte.
pub proof fn lemma_word_len(s: Seq<u8>)
    ensures
        0 <= word_len(s) <= s.len(),
        forall|j: int| 0 <= j < word_len(s) ==> !is_space(s[j]),
        word_len(s) < s.len() ==> is_space(s[word_len(s)]),
        s.len() > 0 && !is_space(s[0]) ==> word_len(s) > 0,
    decreases s.len(),
{
    if s.len() == 0 || is_space(s[0]) {
    } else {
        let t = s.skip(1);
        lemma_word_len(t);
        assert forall|j: int| 0 <= j < word_len(s) implies !is_space(s[j]) by {
            if j > 0 {
                assert(s[j] == t[j - 1]);
            }
        }
        assert(word_len(s) < s.len() ==> s[word_len(s)] == t[word_len(t)]);
    }
}

/// The only length with the first three properties of `lemma_word_len` is
/// `word_len` itself.
pub proof fn lemma_word_len_unique(s: Seq<u8>, n: int)
    requires
        0 <= n <= s.len(),
        forall|j: int| 0 <= j < n ==> !is_space(s[j]),
        n < s.len() ==> is_space(s[n]),
    ensures
        word_len(s) == n,
    decreases s.len(),
{
    if s.len() == 0 || is_space(s[0]) {
    } else {
        let t = s.skip(1);
        assert forall|j: int| 0 <= j < n - 1 implies !is_space(t[j]) by {
            assert(t[j] == s[j + 1]);
        }
        lemma_word_len_unique(t, n - 1);
    }
}

/// The words of `s`: its maximal runs of bytes that are not whitespace, in
/// order.
pub open spec fn tokens(s: Seq<u8>) -> Seq<Seq<u8>>
    decreases s.len(),
{
    let t = trimmed_start(s);
    if t.len() == 0 {
        Seq::empty()
    } else {
        proof {
            lemma_trimmed_start(s);
            lemma_word_len(t);
        }
        seq![t.take(word_len(t))] + tokens(t.skip(word_len(t)))
    }
}

/// Takes the first word off `s`: returns it with what follows it, or `None`
/// if `s` holds no word.
pub fn next_token(s: &[u8]) -> (r: Option<(&[u8], &[u8])>)
    ensures
        match r {
            Some((word, rest)) => tokens(s@) == seq![word@] + tokens(rest@),
            None => tokens(s@).len() == 0,
        },
{
    let mut start: usize = 0;
    assert(s@.skip(0) =~= s@);
    while start < s.len() && is_space_byte(s[start])
        invariant
            start <= s.len(),
            trimmed_start(s@) == trimmed_start(s@.skip(start as int)),
        decreases s.len() - start,
    {
        assert(s@.skip(start as int).skip(1) =~= s@.skip(start + 1));
        start += 1;
    }
    let ghost t = s@.skip(start as int);
    assert(trimmed_start(s@) == t);
    if start == s.len() {
        return None;
    }
    let mut end: usize = start;
    while end < s.len() && !is_space_byte(s[end])
        invariant
            start <= end <= s.len(),
            forall|j: int| start <= j < end ==> !is_space(s@[j]),
        decreases s.len() - end,
    {
        end += 1;
    }
    proof {
        lemma_word_len_unique(t, end - start);
    }
    let word = slice_subrange(s, start, end);
    let rest = slice_subrange(s, end, s.len());
    assert(word@ =~= t.take(word_len(t)));
    assert(rest@ =~= t.skip(word_len(t)));
    Some((word, rest))
}

} // verus!
