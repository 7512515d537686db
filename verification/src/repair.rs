//! Repair of the two malformations that cost a readable file its text: stream
//! lengths that disagree with the data, and cross-reference entries that are a
//! byte short.

use crate::bytes::{
    self, append_bytes, copy_bytes, count_digits, find_from, find_last, matches_at, only_digits,
    read_decimal, write_decimal,
};
use crate::text::{self, chars_of, read_unsigned, split_words, string_of, trim};
use crate::tokens::{self, regular};
use vstd::prelude::*;
use vstd::slice::slice_subrange;
use vstd::string::StringSliceAdditionalSpecFns;

verus! {

/// Index of the first byte at or after `i` that is not a space.
pub open spec fn after_spaces(s: Seq<u8>, i: int) -> int
    decreases s.len() - i,
{
    if 0 <= i < s.len() && s[i] == 0x20 {
        after_spaces(s, i + 1)
    } else {
        i
    }
}

/// Only spaces lie between `i` and the index that follows them.
pub proof fn lemma_after_spaces(s: Seq<u8>, i: int)
    requires
        0 <= i <= s.len(),
    ensures
        i <= after_spaces(s, i) <= s.len(),
        forall|j: int| i <= j < after_spaces(s, i) ==> s[j] == 0x20,
        after_spaces(s, i) < s.len() ==> s[after_spaces(s, i)] != 0x20,
    decreases s.len() - i,
{
    if i < s.len() && s[i] == 0x20 {
        lemma_after_spaces(s, i + 1);
    }
}

/// Where the data of the stream whose keyword stands at `kw` begins: after the
/// end of line that follows the keyword.
pub open spec fn data_start(s: Seq<u8>, kw: int) -> int {
    let p = kw + 6;
    if p + 2 <= s.len() && s[p] == 0x0D && s[p + 1] == 0x0A {
        p + 2
    } else if p < s.len() && (s[p] == 0x0A || s[p] == 0x0D) {
        p + 1
    } else {
        p
    }
}

/// Where the `endstream` that closes the stream at `kw` stands.
pub open spec fn data_end(s: Seq<u8>, kw: int) -> Option<int> {
    bytes::first_at(s, "endstream".spec_bytes(), data_start(s, kw))
}

/// The key `/Length` stands at `l`, and not the beginning of a longer name.
pub open spec fn is_length_key(s: Seq<u8>, l: int) -> bool {
    bytes::occurs_at(s, "/Length".spec_bytes(), l) && l + 7 < s.len() && !tokens::is_regular(
        s[l + 7],
    )
}

/// The first key `/Length` at or after `from` that ends before `to`.
pub open spec fn length_key(s: Seq<u8>, from: int, to: int) -> Option<int>
    decreases to - from,
{
    if from < 0 || from + 7 > to {
        None
    } else if is_length_key(s, from) {
        Some(from)
    } else {
        length_key(s, from + 1, to)
    }
}

/// Where the number of the `/Length` entry stands in the dictionary just before
/// the keyword at `kw`.
pub open spec fn length_at(s: Seq<u8>, kw: int) -> Option<int> {
    let open = match bytes::last_before(s, "<".spec_bytes(), kw) {
        Some(p) => p,
        None => 0,
    };
    match length_key(s, open, kw) {
        Some(l) => Some(after_spaces(s, l + 7)),
        None => None,
    }
}

/// The number of digits of the number at `d`.
pub open spec fn number_len(s: Seq<u8>, d: int) -> nat {
    bytes::digit_run(s.skip(d))
}

/// The number that stands at `d`.
pub open spec fn number_at(s: Seq<u8>, d: int) -> nat {
    bytes::decimal_value(s.subrange(d, d + number_len(s, d)))
}

/// The number at `d` is written as it would be, without leading zeros.
pub open spec fn number_spelled(s: Seq<u8>, d: int) -> bool {
    s.subrange(d, d + number_len(s, d)) == bytes::decimal(number_at(s, d))
}

/// `n` spaces.
pub open spec fn spaces(n: nat) -> Seq<u8> {
    Seq::new(n, |i: int| 0x20u8)
}

/// The `n` digits at `d` replaced by the number `v`, padded with spaces.
pub open spec fn with_number(s: Seq<u8>, d: int, n: nat, v: nat) -> Seq<u8> {
    let t = bytes::decimal(v);
    s.take(d) + t + spaces((n - t.len()) as nat) + s.skip(d + n)
}

/// Whether the number at `d` is one that `v` can and should replace.
pub open spec fn replaceable(s: Seq<u8>, d: int, v: nat) -> bool {
    &&& number_len(s, d) > 0
    &&& number_at(s, d) <= usize::MAX
    &&& number_at(s, d) != v
    &&& bytes::decimal(v).len() <= number_len(s, d)
}

/// The file after the stream at `kw` has been looked at: its `/Length` is the
/// length of the data, where the digits leave room for it.
pub open spec fn corrected(s: Seq<u8>, kw: int) -> Seq<u8> {
    if bytes::occurs_at(s, "end".spec_bytes(), kw - 3) {
        s
    } else {
        match (data_end(s, kw), length_at(s, kw)) {
            (Some(end), Some(d)) => {
                let actual = (end - data_start(s, kw)) as nat;
                if replaceable(s, d, actual) {
                    with_number(s, d, number_len(s, d), actual)
                } else {
                    s
                }
            },
            _ => s,
        }
    }
}

/// Bytes that differ were digits, and are digits or spaces now.
pub open spec fn only_digits_differ(a: Seq<u8>, b: Seq<u8>) -> bool {
    &&& a.len() == b.len()
    &&& forall|i: int|
        0 <= i < a.len() && #[trigger] a[i] != b[i] ==> bytes::is_digit(a[i]) && (
        bytes::is_digit(b[i]) || b[i] == 0x20)
}

/// The literals of this file are as long as they look.
pub proof fn lemma_keywords()
    ensures
        "stream".spec_bytes().len() == 6,
        "stream".spec_bytes()[0] == 0x73,
        "endstream".spec_bytes().len() == 9,
        "/Length".spec_bytes().len() == 7,
        "<".spec_bytes().len() == 1,
        "end".spec_bytes().len() == 3,
        "xref".spec_bytes().len() == 4,
        "xref".spec_bytes()[0] == 0x78,
        "xref\n".spec_bytes().len() == 5,
        "obj".spec_bytes().len() == 3,
        "obj".spec_bytes()[1] == 0x62,
        "obj".spec_bytes()[2] == 0x6A,
        " \n".spec_bytes() == seq![0x20u8, 0x0Au8],
        "trailer".spec_bytes().len() == 7,
{
    reveal_strlit("stream");
    reveal_strlit("endstream");
    reveal_strlit("/Length");
    reveal_strlit("<");
    reveal_strlit("end");
    reveal_strlit("xref");
    reveal_strlit("xref\n");
    reveal_strlit("obj");
    reveal_strlit(" \n");
    reveal_strlit("trailer");
    vstd::string::is_ascii_spec_bytes("stream");
    vstd::string::is_ascii_spec_bytes("endstream");
    vstd::string::is_ascii_spec_bytes("/Length");
    vstd::string::is_ascii_spec_bytes("<");
    vstd::string::is_ascii_spec_bytes("end");
    vstd::string::is_ascii_spec_bytes("xref");
    vstd::string::is_ascii_spec_bytes("xref\n");
    vstd::string::is_ascii_spec_bytes("obj");
    vstd::string::is_ascii_spec_bytes(" \n");
    vstd::string::is_ascii_spec_bytes("trailer");
    assert(" \n".spec_bytes() =~= seq![0x20u8, 0x0Au8]);
}

/// The key found lies in its range.
pub proof fn lemma_length_key(s: Seq<u8>, from: int, to: int)
    ensures
        length_key(s, from, to) matches Some(l) ==> from <= l && l + 7 <= to && is_length_key(s, l),
    decreases to - from,
{
    if from >= 0 && from + 7 <= to && !is_length_key(s, from) {
        lemma_length_key(s, from + 1, to);
    }
}

/// The parts of a stream lie in order, and the digits of its `/Length` lie
/// before its keyword.
pub proof fn lemma_stream_parts(s: Seq<u8>, kw: int)
    requires
        bytes::occurs_at(s, "stream".spec_bytes(), kw),
    ensures
        kw + 6 <= data_start(s, kw) <= s.len(),
        data_end(s, kw) matches Some(end) ==> data_start(s, kw) <= end <= s.len(),
        length_at(s, kw) matches Some(d) ==> 0 <= d && d + number_len(s, d) <= kw,
{
    lemma_keywords();
    let data = data_start(s, kw);
    bytes::lemma_first_at(s, "endstream".spec_bytes(), data);
    let open = match bytes::last_before(s, "<".spec_bytes(), kw) {
        Some(p) => p,
        None => 0,
    };
    bytes::lemma_last_before(s, "<".spec_bytes(), kw);
    lemma_length_key(s, open, kw);
    if length_at(s, kw) is Some {
        let l = length_key(s, open, kw).unwrap();
        assert(s[kw] == s.subrange(kw, kw + 6)[0]);
        lemma_after_spaces(s, l + 7);
        let d = after_spaces(s, l + 7);
        if d > kw {
            assert(s[kw] == 0x20);
        }
        let t = s.skip(d);
        bytes::lemma_digit_run(t);
        if d + number_len(s, d) > kw {
            assert(t.take(number_len(s, d) as int)[kw - d] == s[kw]);
        }
    }
}

/// Looking at one stream keeps the length of the file.
pub proof fn lemma_corrected(s: Seq<u8>, kw: int)
    requires
        bytes::occurs_at(s, "stream".spec_bytes(), kw),
    ensures
        only_digits_differ(s, corrected(s, kw)),
{
    lemma_stream_parts(s, kw);
    match (data_end(s, kw), length_at(s, kw)) {
        (Some(end), Some(d)) => {
            let v = (end - data_start(s, kw)) as nat;
            let n = number_len(s, d);
            let t = bytes::decimal(v);
            bytes::law_decimal_reads_back(v);
            bytes::lemma_digit_run(s.skip(d));
            if replaceable(s, d, v) {
                let r = with_number(s, d, n, v);
                assert forall|i: int| 0 <= i < s.len() && #[trigger] s[i] != r[i] implies
                    bytes::is_digit(s[i]) && (bytes::is_digit(r[i]) || r[i]
                    == 0x20) by {
                    if i < d {
                    } else if i >= d + n {
                    } else {
                        assert(s.skip(d).take(n as int)[i - d] == s[i]);
                        if i < d + t.len() {
                            assert(r[i] == t[i - d]);
                        }
                    }
                }
            }
        },
        _ => {},
    }
}

/// The file after every stream from index `i` on has been looked at.
pub open spec fn lengths_fixed_from(s: Seq<u8>, i: int) -> Seq<u8>
    decreases s.len() - i,
{
    if i < 0 {
        s
    } else {
        match bytes::first_at(s, "stream".spec_bytes(), i) {
            Some(kw) => {
                proof {
                    bytes::lemma_first_at(s, "stream".spec_bytes(), i);
                    lemma_keywords();
                    lemma_corrected(s, kw);
                }
                lengths_fixed_from(corrected(s, kw), kw + 6)
            },
            None => s,
        }
    }
}

/// The file with every `/Length` that disagrees with its data corrected.
pub open spec fn lengths_fixed(s: Seq<u8>) -> Seq<u8> {
    lengths_fixed_from(s, 0)
}

/// Nothing moves from index `i` on, and only digits change.
proof fn lemma_lengths_fixed_from(s: Seq<u8>, i: int)
    ensures
        only_digits_differ(s, lengths_fixed_from(s, i)),
    decreases s.len() - i,
{
    if i >= 0 {
        match bytes::first_at(s, "stream".spec_bytes(), i) {
            Some(kw) => {
                bytes::lemma_first_at(s, "stream".spec_bytes(), i);
                lemma_keywords();
                lemma_corrected(s, kw);
                let m = corrected(s, kw);
                let r = lengths_fixed_from(m, kw + 6);
                lemma_lengths_fixed_from(m, kw + 6);
                assert forall|j: int| 0 <= j < s.len() && #[trigger] s[j] != r[j] implies
                    bytes::is_digit(s[j]) && (bytes::is_digit(r[j]) || r[j]
                    == 0x20) by {
                    if s[j] != m[j] {
                        if m[j] != r[j] {
                            assert(bytes::is_digit(m[j]));
                        }
                    } else {
                        assert(m[j] != r[j]);
                    }
                }
            },
            None => {},
        }
    }
}

/// Correcting stream lengths keeps every byte where it is: the file stays as
/// long as it was, and the only bytes that change are digits, which become
/// digits or spaces.
pub proof fn law_length_fix_moves_nothing(s: Seq<u8>)
    ensures
        only_digits_differ(s, lengths_fixed(s)),
{
    lemma_lengths_fixed_from(s, 0);
}

/// A number that is written over another one reads as itself.
pub proof fn lemma_written(s: Seq<u8>, d: int, v: nat)
    requires
        0 <= d <= s.len(),
        bytes::decimal(v).len() <= number_len(s, d),
    ensures
        number_len(with_number(s, d, number_len(s, d), v), d) == bytes::decimal(v).len(),
        number_at(with_number(s, d, number_len(s, d), v), d) == v,
        number_spelled(with_number(s, d, number_len(s, d), v), d),
{
    let n = number_len(s, d);
    let t = bytes::decimal(v);
    let r = with_number(s, d, n, v);
    bytes::law_decimal_reads_back(v);
    bytes::lemma_digit_run(s.skip(d));
    bytes::lemma_digit_run(r.skip(d));
    let m = number_len(r, d);
    if m < t.len() {
        assert(r.skip(d)[m as int] == t[m as int]);
    }
    if m > t.len() {
        assert(r.skip(d).take(m as int)[t.len() as int] == r[d + t.len()]);
        if t.len() == n {
            assert(r[d + n] == s[d + n]);
            assert(s.skip(d)[n as int] == s[d + n]);
        }
    }
    assert(r.subrange(d, d + m) =~= t);
}

/// A length that is rewritten then reads as the number of bytes between the
/// start of the data and its `endstream`.
pub proof fn law_corrected_length_is_the_data_length(s: Seq<u8>, kw: int)
    requires
        bytes::occurs_at(s, "stream".spec_bytes(), kw),
        corrected(s, kw) != s,
    ensures
        data_end(s, kw) is Some,
        length_at(s, kw) is Some,
        number_at(corrected(s, kw), length_at(s, kw).unwrap()) == data_end(s, kw).unwrap()
            - data_start(s, kw),
{
    lemma_stream_parts(s, kw);
    let d = length_at(s, kw).unwrap();
    lemma_written(s, d, (data_end(s, kw).unwrap() - data_start(s, kw)) as nat);
}

/// The stream at `kw` needs no correction, or has no room for one.
pub open spec fn settled(s: Seq<u8>, kw: int) -> bool {
    bytes::occurs_at(s, "end".spec_bytes(), kw - 3) || match (data_end(s, kw), length_at(s, kw)) {
        (Some(end), Some(d)) => !replaceable(s, d, (end - data_start(s, kw)) as nat),
        _ => true,
    }
}

/// The declared length of the stream at `kw` is the length of its data, or none
/// is declared as a number.
pub open spec fn length_is_true(s: Seq<u8>, kw: int) -> bool {
    match (data_end(s, kw), length_at(s, kw)) {
        (Some(end), Some(d)) => number_len(s, d) > 0 ==> number_at(s, d) == end - data_start(s, kw),
        _ => true,
    }
}

/// Where every stream is settled, nothing changes.
proof fn lemma_all_settled(s: Seq<u8>, i: int)
    requires
        0 <= i,
        forall|kw: int|
            i <= kw && #[trigger] bytes::occurs_at(s, "stream".spec_bytes(), kw) ==> settled(s, kw),
    ensures
        lengths_fixed_from(s, i) == s,
    decreases s.len() - i,
{
    bytes::lemma_first_at(s, "stream".spec_bytes(), i);
    match bytes::first_at(s, "stream".spec_bytes(), i) {
        Some(kw) => {
            lemma_keywords();
            assert(corrected(s, kw) == s);
            lemma_all_settled(s, kw + 6);
        },
        None => {},
    }
}

/// A file whose streams declare their true lengths is kept as it is.
pub proof fn law_true_lengths_are_kept(s: Seq<u8>)
    requires
        forall|kw: int| #[trigger]
            bytes::occurs_at(s, "stream".spec_bytes(), kw) && !bytes::occurs_at(
                s,
                "end".spec_bytes(),
                kw - 3,
            ) ==> length_is_true(s, kw),
    ensures
        lengths_fixed(s) == s,
{
    lemma_all_settled(s, 0);
}

/// Where the data of a stream begins.
fn find_data_start(s: &[u8], kw: usize) -> (r: usize)
    requires
        kw + 6 <= s@.len(),
    ensures
        r == data_start(s@, kw as int),
        r <= s@.len(),
{
    let len: usize = s.len();
    let p: usize = kw + 6;
    if len - p >= 2 && s[p] == 0x0D && s[p + 1] == 0x0A {
        p + 2
    } else if p < len && (s[p] == 0x0A || s[p] == 0x0D) {
        p + 1
    } else {
        p
    }
}

/// Where the number of the `/Length` entry before `kw` stands.
fn find_length(s: &[u8], kw: usize) -> (r: Option<usize>)
    requires
        bytes::occurs_at(s@, "stream".spec_bytes(), kw as int),
    ensures
        match r {
            Some(d) => length_at(s@, kw as int) == Some(d as int),
            None => length_at(s@, kw as int) is None,
        },
{
    proof {
        lemma_keywords();
        lemma_stream_parts(s@, kw as int);
    }
    let head = slice_subrange(s, 0, kw);
    assert(head@ =~= s@.take(kw as int));
    proof {
        lemma_last_before_take(s@, "<".spec_bytes(), kw as int);
    }
    let open: usize = match find_last(head, "<".as_bytes()) {
        Some(p) => p,
        None => 0,
    };
    proof {
        bytes::lemma_last_before(s@, "<".spec_bytes(), kw as int);
    }
    let mut l: usize = open;
    while l < kw && kw - l >= 7
        invariant
            l <= kw < s@.len(),
            length_key(s@, open as int, kw as int) == length_key(s@, l as int, kw as int),
            length_at(s@, kw as int) == (match length_key(s@, l as int, kw as int) {
                Some(l) => Some(after_spaces(s@, l + 7)),
                None => None,
            }),
        decreases kw - l,
    {
        if matches_at(s, "/Length".as_bytes(), l) && !regular(s[l + 7]) {
            let mut d: usize = l + 7;
            while d < s.len() && s[d] == 0x20
                invariant
                    d <= s@.len(),
                    after_spaces(s@, d as int) == after_spaces(s@, l + 7),
                decreases s@.len() - d,
            {
                d += 1;
            }
            return Some(d);
        }
        l += 1;
    }
    None
}

/// A needle of one byte has the same last occurrence below `end` in a string
/// and in its first `end` bytes.
proof fn lemma_last_before_take(s: Seq<u8>, needle: Seq<u8>, end: int)
    requires
        0 <= end <= s.len(),
        needle.len() == 1,
    ensures
        bytes::last_before(s.take(end), needle, end) == bytes::last_before(
            s,
            needle,
            end,
        ),
{
    let a = s.take(end);
    assert forall|j: int| j < end implies bytes::occurs_at(a, needle, j)
        == bytes::occurs_at(s, needle, j) by {
        if 0 <= j {
            assert(a.subrange(j, j + 1) =~= s.subrange(j, j + 1));
        }
    }
    bytes::lemma_last_before(a, needle, end);
    bytes::lemma_last_before(s, needle, end);
}

/// Overwrite the `n` digits at `d` with `digits`, padded with spaces.
fn overwrite_number(s: &mut Vec<u8>, d: usize, n: usize, digits: &[u8])
    requires
        d + n <= old(s)@.len(),
        digits@.len() <= n,
    ensures
        final(s)@ == old(s)@.take(d as int) + digits@ + spaces((n - digits@.len()) as nat)
            + old(s)@.skip(d + n),
{
    let mut k: usize = 0;
    while k < n
        invariant
            k <= n,
            d + n <= s.len(),
            s@.len() == old(s)@.len(),
            digits@.len() <= n,
            forall|j: int|
                0 <= j < s@.len() ==> #[trigger] s@[j] == (if d <= j < d + k {
                    if j - d < digits@.len() {
                        digits@[j - d]
                    } else {
                        0x20u8
                    }
                } else {
                    old(s)@[j]
                }),
        decreases n - k,
    {
        let b: u8 = if k < digits.len() {
            digits[k]
        } else {
            0x20
        };
        s.set(d + k, b);
        k += 1;
    }
    assert(s@ =~= old(s)@.take(d as int) + digits@ + spaces((n - digits@.len()) as nat)
        + old(s)@.skip(d + n));
}

/// Look at the stream whose keyword stands at `kw`.
fn correct_stream(s: &mut Vec<u8>, kw: usize)
    requires
        bytes::occurs_at(old(s)@, "stream".spec_bytes(), kw as int),
    ensures
        final(s)@ == corrected(old(s)@, kw as int),
{
    proof {
        lemma_keywords();
        lemma_stream_parts(s@, kw as int);
    }
    if kw >= 3 && matches_at(s.as_slice(), "end".as_bytes(), kw - 3) {
        return ;
    }
    let data: usize = find_data_start(s.as_slice(), kw);
    let end: usize = match find_from(s.as_slice(), "endstream".as_bytes(), data) {
        Some(e) => e,
        None => {
            return ;
        },
    };
    let d: usize = match find_length(s.as_slice(), kw) {
        Some(d) => d,
        None => {
            return ;
        },
    };
    let n: usize = count_digits(s.as_slice(), d);
    if n == 0 {
        return ;
    }
    let number = slice_subrange(s.as_slice(), d, d + n);
    proof {
        bytes::lemma_digit_run(s@.skip(d as int));
        assert(number@ =~= s@.skip(d as int).take(n as int));
    }
    let declared: usize = match read_decimal(number) {
        Some(v) => v,
        None => {
            return ;
        },
    };
    let actual: usize = end - data;
    let replacement = write_decimal(actual);
    if actual == declared || replacement.len() > n {
        return ;
    }
    overwrite_number(s, d, n, replacement.as_slice());
}

/// Correct `/Length` values that disagree with where `endstream` actually is.
///
/// A reader that trusts an overstated `/Length` runs past the data, finds no
/// `endstream` there and drops the stream. The corrected number is written over
/// the old digits and padded with spaces, so every offset in the file stays
/// valid.
pub fn fix_stream_lengths(bytes: &[u8]) -> (out: Vec<u8>)
    ensures
        out@ == lengths_fixed(bytes@),
{
    let mut out = copy_bytes(bytes);
    let mut i: usize = 0;
    loop
        invariant
            i <= out.len(),
            lengths_fixed_from(out@, i as int) == lengths_fixed(bytes@),
        decreases out@.len() - i,
    {
        match find_from(out.as_slice(), "stream".as_bytes(), i) {
            None => {
                return out;
            },
            Some(kw) => {
                proof {
                    bytes::lemma_first_at(out@, "stream".spec_bytes(), i as int);
                    lemma_keywords();
                    lemma_corrected(out@, kw as int);
                }
                let next: usize = kw + 6;
                correct_stream(&mut out, kw);
                i = next;
            },
        }
    }
}

/// An end-of-line byte.
pub open spec fn is_eol(b: u8) -> bool {
    b == 0x0A || b == 0x0D
}

/// A cross-reference section starts at `i`: the keyword at the start of a line,
/// with at least one byte after it.
pub open spec fn is_xref_start(b: Seq<u8>, i: int) -> bool {
    &&& 0 <= i < b.len() - 4
    &&& bytes::occurs_at(b, "xref".spec_bytes(), i)
    &&& i == 0 || is_eol(b[i - 1])
}

/// The first cross-reference section at or after `from`.
pub open spec fn next_xref(b: Seq<u8>, from: int) -> Option<int>
    decreases b.len() - from,
{
    if from < 0 || from >= b.len() - 4 {
        None
    } else if is_xref_start(b, from) {
        Some(from)
    } else {
        next_xref(b, from + 1)
    }
}

/// Index of the first byte at or after `i` that is neither a space nor an end
/// of line.
pub open spec fn after_blank(b: Seq<u8>, i: int) -> int
    decreases b.len() - i,
{
    if 0 <= i < b.len() && (is_eol(b[i]) || b[i] == 0x20) {
        after_blank(b, i + 1)
    } else {
        i
    }
}

/// Index of the first end-of-line byte at or after `i`.
pub open spec fn line_end(b: Seq<u8>, i: int) -> Option<int>
    decreases b.len() - i,
{
    if i < 0 || i >= b.len() {
        None
    } else if is_eol(b[i]) {
        Some(i)
    } else {
        line_end(b, i + 1)
    }
}

/// `nnnnnnnnnn ggggg n`: a cross-reference entry without its end of line.
pub open spec fn is_entry(e: Seq<u8>) -> bool {
    &&& e.len() == 18
    &&& bytes::all_digits(e.subrange(0, 10))
    &&& e[10] == 0x20
    &&& bytes::all_digits(e.subrange(11, 16))
    &&& e[16] == 0x20
    &&& e[17] == 0x6E || e[17] == 0x66
}

/// `count` entries from index `i` on, each with a two-byte end of line, and the
/// index after the last; or what is wrong with them.
pub open spec fn padded_entries(b: Seq<u8>, i: int, count: nat) -> Result<
    (Seq<u8>, int),
    Seq<char>,
>
    decreases count,
{
    if count == 0 {
        Ok((Seq::empty(), i))
    } else {
        let j = after_blank(b, i);
        if j + 18 > b.len() {
            Err("xref entry runs off the end"@)
        } else if !is_entry(b.subrange(j, j + 18)) {
            Err("xref entry is not `nnnnnnnnnn ggggg n`"@)
        } else {
            match padded_entries(b, j + 18, (count - 1) as nat) {
                Ok((rest, end)) => Ok(
                    (b.subrange(j, j + 18) + " \n".spec_bytes() + rest, end),
                ),
                Err(why) => Err(why),
            }
        }
    }
}

/// A subsection header, `first count`, on the line at `i`: its text without
/// surrounding blanks, the count, and where the line ends.
pub open spec fn section_header(b: Seq<u8>, i: int) -> Result<(Seq<u8>, nat, int), Seq<char>> {
    match line_end(b, i) {
        None => Err("subsection header runs off the end"@),
        Some(end) => {
            let line = b.subrange(i, end);
            if !vstd::utf8::valid_utf8(line) {
                Err("subsection header is not text"@)
            } else {
                let text = text::trimmed(vstd::utf8::decode_utf8(line));
                let parts = text::words(text);
                if parts.len() < 2 {
                    Err("unparseable subsection header"@)
                } else {
                    match text::unsigned_value(parts[1]) {
                        Some(count) => if count > usize::MAX {
                            Err("unparseable subsection header"@)
                        } else if parts.len() > 2 || count == 0 {
                            Err("unexpected subsection header shape"@)
                        } else {
                            Ok((vstd::utf8::encode_utf8(text), count, end))
                        },
                        None => Err("unparseable subsection header"@),
                    }
                }
            }
        },
    }
}

/// The rest of a cross-reference table from index `i` on, up to and with the
/// trailer, every entry padded; or what is wrong with it.
pub open spec fn padded_sections(b: Seq<u8>, i: int) -> Result<Seq<u8>, Seq<char>>
    decreases b.len() - i,
{
    let j = after_blank(b, i);
    if i < 0 || i > b.len() {
        Err(Seq::empty())
    } else if bytes::occurs_at(b, "trailer".spec_bytes(), j) {
        Ok(b.skip(j))
    } else {
        match section_header(b, j) {
            Err(why) => Err(why),
            Ok((header, count, end)) => match padded_entries(b, end, count) {
                Err(why) => Err(why),
                Ok((entries, next)) => {
                    proof {
                        lemma_after_blank(b, i);
                        lemma_line_end(b, j);
                        lemma_padded_entries(b, end, count);
                    }
                    match padded_sections(b, next) {
                        Err(why) => Err(why),
                        Ok(rest) => Ok(header.push(0x0A) + entries + rest),
                    }
                },
            },
        }
    }
}

/// The file with its cross-reference entries padded to 20 bytes; or why that
/// would not be safe.
pub open spec fn padded_xref(b: Seq<u8>) -> Result<Seq<u8>, Seq<char>> {
    match next_xref(b, 0) {
        None => Err("no classic `xref` section (an xref stream?)"@),
        Some(x) => if next_xref(b, x + 1) is Some {
            Err("more than one xref section (incremental update)"@)
        } else {
            match bytes::last_before(b, "obj".spec_bytes(), b.len() as int) {
                None => Err("no objects found"@),
                Some(o) => if o > x {
                    Err("an object follows the xref \u{2014} padding would move it"@)
                } else {
                    match padded_sections(b, x + 4) {
                        Err(why) => Err(why),
                        Ok(rest) => Ok(b.take(x) + "xref\n".spec_bytes() + rest),
                    }
                },
            }
        },
    }
}

/// Skipping blanks stays inside the file.
pub proof fn lemma_after_blank(b: Seq<u8>, i: int)
    requires
        0 <= i <= b.len(),
    ensures
        i <= after_blank(b, i) <= b.len(),
    decreases b.len() - i,
{
    if i < b.len() && (is_eol(b[i]) || b[i] == 0x20) {
        lemma_after_blank(b, i + 1);
    }
}

/// The end of a line lies inside the file.
pub proof fn lemma_line_end(b: Seq<u8>, i: int)
    ensures
        line_end(b, i) matches Some(e) ==> i <= e < b.len(),
    decreases b.len() - i,
{
    if 0 <= i < b.len() && !is_eol(b[i]) {
        lemma_line_end(b, i + 1);
    }
}

/// Each entry read moves the index forward, and never past the end.
pub proof fn lemma_padded_entries(b: Seq<u8>, i: int, count: nat)
    requires
        0 <= i <= b.len(),
    ensures
        padded_entries(b, i, count) matches Ok((es, end)) ==> i + 18 * count <= end <= b.len()
            && es.len() == 20 * count,
    decreases count,
{
    if count > 0 {
        lemma_keywords();
        lemma_after_blank(b, i);
        let j = after_blank(b, i);
        if j + 18 <= b.len() {
            lemma_padded_entries(b, j + 18, (count - 1) as nat);
        }
    }
}

/// The first cross-reference section found is one, and none lies before it.
pub proof fn lemma_next_xref(b: Seq<u8>, from: int)
    requires
        0 <= from,
    ensures
        match next_xref(b, from) {
            Some(x) => from <= x && is_xref_start(b, x) && forall|j: int|
                from <= j < x ==> !is_xref_start(b, j),
            None => forall|j: int| from <= j ==> !is_xref_start(b, j),
        },
    decreases b.len() - from,
{
    if from < b.len() - 4 && !is_xref_start(b, from) {
        lemma_next_xref(b, from + 1);
    }
}

/// Padding moves no object: the file has one cross-reference section, every
/// `obj` keyword stands before it, and all bytes before it are kept.
pub proof fn law_padding_moves_no_object(b: Seq<u8>, out: Seq<u8>)
    requires
        padded_xref(b) == Ok::<Seq<u8>, Seq<char>>(out),
    ensures
        exists|x: int|
            {
                &&& #[trigger] is_xref_start(b, x)
                &&& forall|y: int| is_xref_start(b, y) ==> y == x
                &&& x <= out.len() && out.take(x) == b.take(x)
                &&& forall|i: int|
                    bytes::occurs_at(b, "obj".spec_bytes(), i) ==> i + 3 <= x
            },
{
    let x = next_xref(b, 0).unwrap();
    lemma_next_xref(b, 0);
    lemma_next_xref(b, x + 1);
    lemma_keywords();
    bytes::lemma_last_before(b, "obj".spec_bytes(), b.len() as int);
    assert(out.take(x) =~= b.take(x));
    assert forall|i: int| bytes::occurs_at(b, "obj".spec_bytes(), i) implies i + 3 <= x by {
        assert(i < b.len());
        assert(i <= x);
        let w = b.subrange(i, i + 3);
        let k = b.subrange(x, x + 4);
        assert(b[x] == k[0]);
        assert(b[i + 1] == w[1]);
        assert(b[i + 2] == w[2]);
        reveal_strlit("obj");
        vstd::string::is_ascii_spec_bytes("obj");
        assert(b[i] == w[0]);
    }
}

/// Where the entry `n` of those from index `i` on starts.
pub open spec fn entry_start(b: Seq<u8>, i: int, n: int) -> int
    decreases n,
{
    if n <= 0 {
        after_blank(b, i)
    } else {
        entry_start(b, after_blank(b, i) + 18, n - 1)
    }
}

/// Every padded entry is 20 bytes: the 18 bytes of the entry as they stand in the
/// file, then a space and a line feed.
#[verifier::rlimit(40)]
pub proof fn law_padded_entries_are_twenty_bytes(b: Seq<u8>, i: int, count: nat, n: int)
    requires
        0 <= i <= b.len(),
        padded_entries(b, i, count) is Ok,
        0 <= n < count,
    ensures
        padded_entries(b, i, count)->Ok_0.0.len() == 20 * count,
        0 <= entry_start(b, i, n) <= b.len() - 18,
        is_entry(b.subrange(entry_start(b, i, n), entry_start(b, i, n) + 18)),
        padded_entries(b, i, count)->Ok_0.0.subrange(20 * n, 20 * n + 18) == b.subrange(
            entry_start(b, i, n),
            entry_start(b, i, n) + 18,
        ),
        padded_entries(b, i, count)->Ok_0.0[20 * n + 18] == 0x20,
        padded_entries(b, i, count)->Ok_0.0[20 * n + 19] == 0x0A,
    decreases count,
{
    lemma_padded_entries(b, i, count);
    lemma_keywords();
    lemma_after_blank(b, i);
    let j = after_blank(b, i);
    let all = padded_entries(b, i, count)->Ok_0.0;
    let rest = padded_entries(b, j + 18, (count - 1) as nat)->Ok_0.0;
    if n == 0 {
        assert(all.subrange(0, 18) =~= b.subrange(j, j + 18));
    } else {
        law_padded_entries_are_twenty_bytes(b, j + 18, (count - 1) as nat, n - 1);
        assert(all.subrange(20 * n, 20 * n + 18) =~= rest.subrange(
            20 * (n - 1),
            20 * (n - 1) + 18,
        ));
    }
}

/// Padding depends on the entries alone and not on how they are set apart: two
/// tables with the same entries, one with short ends of line and one with full
/// ones, are padded to the same bytes.
pub proof fn law_same_entries_pad_to_the_same_bytes(
    a: Seq<u8>,
    i: int,
    b: Seq<u8>,
    j: int,
    count: nat,
)
    requires
        0 <= i <= a.len(),
        0 <= j <= b.len(),
        padded_entries(a, i, count) is Ok,
        padded_entries(b, j, count) is Ok,
        forall|n: int|
            0 <= n < count ==> a.subrange(
                #[trigger] entry_start(a, i, n),
                entry_start(a, i, n) + 18,
            ) == b.subrange(entry_start(b, j, n), entry_start(b, j, n) + 18),
    ensures
        padded_entries(a, i, count)->Ok_0.0 == padded_entries(b, j, count)->Ok_0.0,
{
    lemma_padded_entries(a, i, count);
    lemma_padded_entries(b, j, count);
    let x = padded_entries(a, i, count)->Ok_0.0;
    let y = padded_entries(b, j, count)->Ok_0.0;
    assert forall|k: int| 0 <= k < x.len() implies #[trigger] x[k] == y[k] by {
        let n = k / 20;
        law_padded_entries_are_twenty_bytes(a, i, count, n);
        law_padded_entries_are_twenty_bytes(b, j, count, n);
        assert(a.subrange(entry_start(a, i, n), entry_start(a, i, n) + 18) == b.subrange(
            entry_start(b, j, n),
            entry_start(b, j, n) + 18,
        ));
        let m = k - 20 * n;
        if m < 18 {
            assert(x.subrange(20 * n, 20 * n + 18)[m] == x[k]);
            assert(y.subrange(20 * n, 20 * n + 18)[m] == y[k]);
        }
    }
    assert(x =~= y);
}

/// Skip spaces and ends of line.
fn skip_blank(b: &[u8], from: usize) -> (r: usize)
    requires
        from <= b@.len(),
    ensures
        r == after_blank(b@, from as int),
        from <= r <= b@.len(),
{
    let mut i: usize = from;
    while i < b.len() && (b[i] == 0x0A || b[i] == 0x0D || b[i] == 0x20)
        invariant
            from <= i <= b@.len(),
            after_blank(b@, from as int) == after_blank(b@, i as int),
        decreases b@.len() - i,
    {
        i += 1;
    }
    i
}

/// Find the end of the line that `from` stands in.
fn find_line_end(b: &[u8], from: usize) -> (r: Option<usize>)
    ensures
        match r {
            Some(e) => line_end(b@, from as int) == Some(e as int) && from <= e < b@.len(),
            None => line_end(b@, from as int) is None,
        },
{
    let mut i: usize = from;
    while i < b.len()
        invariant
            from <= i,
            line_end(b@, from as int) == line_end(b@, i as int),
        decreases b@.len() - i,
    {
        if b[i] == 0x0A || b[i] == 0x0D {
            return Some(i);
        }
        i += 1;
    }
    None
}

/// Find the first cross-reference section at or after `from`.
fn find_xref(b: &[u8], from: usize) -> (r: Option<usize>)
    ensures
        match r {
            Some(x) => next_xref(b@, from as int) == Some(x as int) && x + 4 < b.len(),
            None => next_xref(b@, from as int) is None,
        },
{
    let mut i: usize = from;
    while b.len() > 4 && i < b.len() - 4
        invariant
            from <= i,
            next_xref(b@, from as int) == next_xref(b@, i as int),
        decreases b@.len() - i,
    {
        if matches_at(b, "xref".as_bytes(), i) && (i == 0 || b[i - 1] == 0x0A || b[i - 1]
            == 0x0D) {
            return Some(i);
        }
        i += 1;
    }
    None
}

/// Whether 18 bytes are a cross-reference entry.
fn entry_well_formed(e: &[u8]) -> (r: bool)
    requires
        e@.len() == 18,
    ensures
        r == is_entry(e@),
{
    let offset = slice_subrange(e, 0, 10);
    let generation = slice_subrange(e, 11, 16);
    only_digits(offset) && e[10] == 0x20 && only_digits(generation) && e[16] == 0x20 && (e[17]
        == 0x6E || e[17] == 0x66)
}

/// Append `count` padded entries and give the index after the last.
fn pad_entries(b: &[u8], from: usize, count: usize, out: &mut Vec<u8>) -> (r: Result<
    usize,
    &'static str,
>)
    requires
        from <= b@.len(),
    ensures
        match padded_entries(b@, from as int, count as nat) {
            Ok((entries, end)) => r == Ok::<usize, &'static str>(end as usize) && end
                <= usize::MAX && final(out)@ == old(out)@ + entries,
            Err(why) => r matches Err(m) && m@ == why,
        },
{
    let mut i: usize = from;
    let mut left: usize = count;
    let ghost all = padded_entries(b@, from as int, count as nat);
    assert(out@ + Seq::<u8>::empty() =~= out@);
    let ghost mut done: Seq<u8> = Seq::empty();
    proof {
        match all {
            Ok((entries, end)) => {
                assert(done + entries =~= entries);
            },
            Err(why) => {},
        }
    }
    while left > 0
        invariant
            i <= b.len(),
            out@ == old(out)@ + done,
            all == padded_entries(b@, from as int, count as nat),
            match padded_entries(b@, i as int, left as nat) {
                Ok((rest, end)) => all == Ok::<(Seq<u8>, int), Seq<char>>((done + rest, end)),
                Err(why) => all == Err::<(Seq<u8>, int), Seq<char>>(why),
            },
        decreases left,
    {
        let j: usize = skip_blank(b, i);
        if b.len() - j < 18 {
            return Err("xref entry runs off the end");
        }
        let entry = slice_subrange(b, j, j + 18);
        if !entry_well_formed(entry) {
            return Err("xref entry is not `nnnnnnnnnn ggggg n`");
        }
        append_bytes(out, entry);
        append_bytes(out, " \n".as_bytes());
        proof {
            let piece = entry@ + " \n".spec_bytes();
            assert(out@ =~= old(out)@ + (done + piece));
            match padded_entries(b@, j + 18, (left - 1) as nat) {
                Ok((rest, end)) => {
                    assert(done + (piece + rest) =~= (done + piece) + rest);
                },
                Err(why) => {},
            }
            done = done + piece;
        }
        i = j + 18;
        left -= 1;
    }
    proof {
        assert(done + Seq::<u8>::empty() =~= done);
    }
    Ok(i)
}

/// Read the subsection header on the line at `from`: its text, the number of
/// entries, and where the line ends.
fn read_header(b: &[u8], from: usize) -> (r: Result<(String, usize, usize), &'static str>)
    requires
        from <= b@.len(),
    ensures
        match section_header(b@, from as int) {
            Ok((text, count, end)) => r matches Ok((t, c, e)) && vstd::utf8::encode_utf8(t@) == text
                && c == count && e == end && e <= b@.len(),
            Err(why) => r matches Err(m) && m@ == why,
        },
{
    broadcast use vstd::utf8::encode_utf8_decode_utf8;

    let end: usize = match find_line_end(b, from) {
        Some(e) => e,
        None => {
            return Err("subsection header runs off the end");
        },
    };
    let line = slice_subrange(b, from, end);
    let text = match std::str::from_utf8(line) {
        Ok(s) => s,
        Err(_) => {
            return Err("subsection header is not text");
        },
    };
    assert(text@ == vstd::utf8::decode_utf8(line@));
    let chars = chars_of(text);
    let header = trim(chars.as_slice());
    let parts = split_words(header.as_slice());
    assert(parts@.len() == text::words(header@).len());
    if parts.len() < 2 {
        return Err("unparseable subsection header");
    }
    assert(text::word_views(parts@)[1] == parts@[1]@);
    let count: usize = match read_unsigned(parts[1].as_slice(), usize::MAX) {
        Some(c) => c,
        None => {
            return Err("unparseable subsection header");
        },
    };
    if parts.len() > 2 || count == 0 {
        return Err("unexpected subsection header shape");
    }
    Ok((string_of(header.as_slice()), count, end))
}

/// Rewrite the entries of a classic cross-reference table to the 20 bytes that
/// the format asks for, or say why the shape of the file makes that unsafe.
///
/// An entry is `nnnnnnnnnn ggggg n` and a two-byte end of line; some writers
/// emit a bare line feed. Padding is attempted only where it cannot move
/// anything the table points at: a single `xref` section after the last object.
pub fn pad_short_xref_entries(bytes: &[u8]) -> (r: Result<Vec<u8>, &'static str>)
    ensures
        match padded_xref(bytes@) {
            Ok(out) => r matches Ok(v) && v@ == out,
            Err(why) => r matches Err(m) && m@ == why,
        },
{
    proof {
        lemma_keywords();
        lemma_next_xref(bytes@, 0);
    }
    let xref_at: usize = match find_xref(bytes, 0) {
        Some(x) => x,
        None => {
            return Err("no classic `xref` section (an xref stream?)");
        },
    };
    if find_xref(bytes, xref_at + 1).is_some() {
        return Err("more than one xref section (incremental update)");
    }
    match find_last(bytes, "obj".as_bytes()) {
        None => {
            return Err("no objects found");
        },
        Some(last_obj) => {
            if last_obj > xref_at {
                return Err("an object follows the xref \u{2014} padding would move it");
            }
        },
    }
    let mut out = copy_bytes(slice_subrange(bytes, 0, xref_at));
    append_bytes(&mut out, "xref\n".as_bytes());
    let ghost head = bytes@.take(xref_at as int) + "xref\n".spec_bytes();
    assert(out@ =~= head);
    let mut i: usize = xref_at + 4;
    let ghost all = padded_sections(bytes@, i as int);
    let ghost mut done: Seq<u8> = Seq::empty();
    proof {
        assert(out@ =~= head + done);
        match all {
            Ok(rest) => {
                assert(done + rest =~= rest);
            },
            Err(why) => {},
        }
    }
    loop
        invariant
            i <= bytes.len(),
            out@ == head + done,
            match all {
                Ok(rest) => padded_xref(bytes@) == Ok::<Seq<u8>, Seq<char>>(head + rest),
                Err(why) => padded_xref(bytes@) == Err::<Seq<u8>, Seq<char>>(why),
            },
            match padded_sections(bytes@, i as int) {
                Ok(rest) => all == Ok::<Seq<u8>, Seq<char>>(done + rest),
                Err(why) => all == Err::<Seq<u8>, Seq<char>>(why),
            },
        decreases bytes@.len() - i,
    {
        let j: usize = skip_blank(bytes, i);
        if matches_at(bytes, "trailer".as_bytes(), j) {
            let tail = slice_subrange(bytes, j, bytes.len());
            append_bytes(&mut out, tail);
            proof {
                assert(tail@ =~= bytes@.skip(j as int));
                assert(out@ =~= head + (done + tail@));
            }
            return Ok(out);
        }
        match read_header(bytes, j) {
            Err(why) => {
                return Err(why);
            },
            Ok((header, count, end)) => {
                let ghost before = out@;
                append_bytes(&mut out, header.as_str().as_bytes());
                out.push(0x0A);
                let ghost titled = out@;
                proof {
                    lemma_padded_entries(bytes@, end as int, count as nat);
                    lemma_line_end(bytes@, j as int);
                }
                match pad_entries(bytes, end, count, &mut out) {
                    Err(why) => {
                        return Err(why);
                    },
                    Ok(next) => {
                        proof {
                            let h = vstd::utf8::encode_utf8(header@).push(0x0A);
                            let es = padded_entries(bytes@, end as int, count as nat)->Ok_0.0;
                            assert(titled =~= before + h);
                            assert(out@ =~= head + (done + (h + es)));
                            match padded_sections(bytes@, next as int) {
                                Ok(rest) => {
                                    assert(done + (h + es + rest) =~= (done + (h + es)) + rest);
                                },
                                Err(why) => {},
                            }
                            done = done + (h + es);
                        }
                        i = next;
                    },
                }
            },
        }
    }
}

} // verus!
