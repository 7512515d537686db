//! Inline images in content streams, as far as it takes to tell which content
//! the reader can decode.

use crate::bytes::{self, count_digits, matches_at, only_digits, read_decimal, same_bytes};
use crate::loading::{self, skip_gap};
use crate::tokens::{
    self, delimiter, find_comment_end, find_group_end, find_hex_end, find_string_end, skip_run,
    space,
};
use vstd::prelude::*;
use vstd::slice::slice_subrange;
use vstd::string::StringSliceAdditionalSpecFns;

verus! {

/// What stands at a place where the dictionary of an inline image may be: none
/// at all, one that is not told apart here, or one with these keys and values.
#[verifier::ext_equal]
pub enum ImageDict {
    Absent,
    Unclear,
    Known(Seq<(Seq<u8>, Seq<u8>)>),
}

/// A byte of a number.
pub open spec fn is_numeric(c: u8) -> bool {
    bytes::is_digit(c) || c == 0x2B || c == 0x2D || c == 0x2E
}

/// Only bytes of numbers.
pub open spec fn all_numeric(s: Seq<u8>) -> bool {
    forall|i: int| 0 <= i < s.len() ==> is_numeric(#[trigger] s[i])
}

/// `true`, `false` or `null`.
pub open spec fn is_keyword(s: Seq<u8>) -> bool {
    s == "true".spec_bytes() || s == "false".spec_bytes() || s == "null".spec_bytes()
}

/// A value begins at `v`: a name, a number, a keyword, or a group.
pub open spec fn begins_value(b: Seq<u8>, v: int) -> bool {
    ||| b[v] == 0x2F || b[v] == 0x28 || b[v] == 0x5B || b[v] == 0x3C
    ||| is_numeric(b[v])
    ||| bytes::occurs_at(b, "true".spec_bytes(), v)
    ||| bytes::occurs_at(b, "false".spec_bytes(), v)
    ||| bytes::occurs_at(b, "null".spec_bytes(), v)
}

/// The end of a reference whose first number ends at `e`.
pub open spec fn reference_end(b: Seq<u8>, e: int) -> Option<int> {
    let n = loading::gap_end(b, e);
    let r = loading::gap_end(b, n + loading::digits_at(b, n));
    if loading::digits_at(b, n) > 0 && r < b.len() && b[r] == 0x52 {
        Some(r + 1)
    } else {
        None
    }
}

/// The end of the value that begins at `v`: a name, a number, a reference, a
/// keyword, or a group. `None` for anything else.
pub open spec fn value_end(b: Seq<u8>, v: int) -> Option<int> {
    if b[v] == 0x2F {
        Some(tokens::run_end(b, v + 1))
    } else if b[v] == 0x28 || b[v] == 0x5B || b[v] == 0x3C {
        tokens::group_end(b, v, 0)
    } else if tokens::is_regular(b[v]) {
        let e = tokens::run_end(b, v);
        let n = loading::gap_end(b, e);
        let t = b.subrange(v, e);
        if is_keyword(t) {
            Some(e)
        } else if !all_numeric(t) {
            None
        } else if n < b.len() && bytes::is_digit(b[n]) {
            reference_end(b, e)
        } else {
            Some(e)
        }
    } else {
        None
    }
}

/// The entries of the dictionary of an inline image from index `i` on, after
/// those in `known`: names and values up to `ID`.
pub open spec fn image_dict(b: Seq<u8>, i: int, known: Seq<(Seq<u8>, Seq<u8>)>) -> ImageDict
    decreases b.len() - i,
{
    if i < 0 || i >= b.len() {
        ImageDict::Absent
    } else if b[i] == 0x2F {
        let e = tokens::run_end(b, i + 1);
        let v = loading::gap_end(b, e);
        if v >= b.len() || !begins_value(b, v) {
            ImageDict::Absent
        } else if b.subrange(i + 1, e).contains(0x23) {
            ImageDict::Unclear
        } else {
            match value_end(b, v) {
                Some(end) => if i < end {
                    let n = loading::gap_end(b, end);
                    if i < n <= b.len() {
                        image_dict(
                            b,
                            n,
                            known.push((b.subrange(i + 1, e), b.subrange(v, end))),
                        )
                    } else {
                        ImageDict::Unclear
                    }
                } else {
                    ImageDict::Unclear
                },
                None => ImageDict::Unclear,
            }
        }
    } else if b[i] == 0x49 && i + 1 < b.len() && b[i + 1] == 0x44 {
        ImageDict::Known(known)
    } else {
        ImageDict::Absent
    }
}

/// The last value under a key.
pub open spec fn last_value(d: Seq<(Seq<u8>, Seq<u8>)>, key: Seq<u8>) -> Option<Seq<u8>>
    decreases d.len(),
{
    if d.len() == 0 {
        None
    } else if d.last().0 == key {
        Some(d.last().1)
    } else {
        last_value(d.drop_last(), key)
    }
}

/// The value under a short key, else under the long one.
pub open spec fn short_or_long(
    d: Seq<(Seq<u8>, Seq<u8>)>,
    short: Seq<u8>,
    long: Seq<u8>,
) -> Option<Seq<u8>> {
    match last_value(d, short) {
        Some(v) => Some(v),
        None => last_value(d, long),
    }
}

/// An integer that is written with digits alone, if it fits.
pub open spec fn plain_int(s: Seq<u8>) -> Option<nat> {
    if s.len() > 0 && bytes::all_digits(s) && bytes::decimal_value(s) <= usize::MAX {
        Some(bytes::decimal_value(s))
    } else {
        None
    }
}

/// An integer: digits, after a sign if there is one.
pub open spec fn is_integer(s: Seq<u8>) -> bool {
    if s.len() > 0 && (s[0] == 0x2B || s[0] == 0x2D) {
        s.len() > 1 && bytes::all_digits(s.skip(1))
    } else {
        s.len() > 0 && bytes::all_digits(s)
    }
}

/// An image of this size with four colors is not too large to count its bytes.
pub open spec fn size_fits(width: nat, height: nat, bits: nat) -> bool {
    &&& 4 * bits <= usize::MAX
    &&& width * (4 * bits) <= usize::MAX
    &&& height * (width * (4 * bits) / 8 + 1) <= usize::MAX
}

/// The reader can work out the size of an image with this dictionary: it lacks a
/// size in integers and is passed over, or it has one that is in range, and says
/// that it is a mask or has a color space.
pub open spec fn dict_safe(d: Seq<(Seq<u8>, Seq<u8>)>) -> bool {
    match (
        short_or_long(d, "W".spec_bytes(), "Width".spec_bytes()),
        short_or_long(d, "H".spec_bytes(), "Height".spec_bytes()),
        short_or_long(d, "BPC".spec_bytes(), "BitsPerComponent".spec_bytes()),
    ) {
        (Some(w), Some(h), Some(bits)) => is_integer(w) && is_integer(h) && is_integer(bits) ==> {
            &&& short_or_long(d, "IM".spec_bytes(), "ImageMask".spec_bytes()) == Some(
                "true".spec_bytes(),
            ) || short_or_long(d, "CS".spec_bytes(), "ColorSpace".spec_bytes()) is Some
            &&& match (plain_int(w), plain_int(h), plain_int(bits)) {
                (Some(w), Some(h), Some(bits)) => size_fits(w, h, bits),
                _ => false,
            }
        },
        _ => true,
    }
}

/// What stands after a `BI` at index `p`.
pub open spec fn image_at(b: Seq<u8>, p: int) -> ImageDict {
    image_dict(b, loading::gap_end(b, p + 2), Seq::empty())
}

/// An inline image may begin at index `p`.
pub open spec fn begins_image(b: Seq<u8>, p: int) -> bool {
    bytes::occurs_at(b, "BI".spec_bytes(), p) && !(image_at(b, p) is Absent)
}

/// No inline image begins at index `p`, or one that the reader can work out.
pub open spec fn image_safe(b: Seq<u8>, p: int) -> bool {
    begins_image(b, p) ==> (image_at(b, p) matches ImageDict::Known(d) && dict_safe(d))
}

/// Where the token, comment or white space ends that begins at `i`: a string is one
/// token, an array or a dictionary are those in them. `None` for a string or comment
/// without an end, where the reader stops.
pub open spec fn token_end(b: Seq<u8>, i: int) -> Option<int> {
    if b[i] == 0x25 {
        tokens::comment_end(b, i + 1)
    } else if b[i] == 0x28 {
        tokens::string_end(b, i + 1, 1)
    } else if b[i] == 0x3C && i + 1 < b.len() && b[i + 1] == 0x3C {
        Some(i + 2)
    } else if b[i] == 0x3C {
        tokens::hex_end(b, i + 1)
    } else if b[i] == 0x2F {
        Some(tokens::run_end(b, i + 1))
    } else if tokens::is_regular(b[i]) {
        Some(tokens::run_end(b, i))
    } else {
        Some(i + 1)
    }
}

/// The reader can work out the inline images that begin with a token from `i` on.
pub open spec fn safe_from(b: Seq<u8>, i: int) -> bool
    decreases b.len() - i,
{
    if i < 0 || i >= b.len() {
        true
    } else {
        image_safe(b, i) && match token_end(b, i) {
            Some(e) => if i < e <= b.len() {
                safe_from(b, e)
            } else {
                true
            },
            None => true,
        }
    }
}

/// The first inline image that begins with a token from `i` on.
pub open spec fn first_image(b: Seq<u8>, i: int) -> Option<int>
    decreases b.len() - i,
{
    if i < 0 || i >= b.len() {
        None
    } else if begins_image(b, i) {
        Some(i)
    } else {
        match token_end(b, i) {
            Some(e) => if i < e <= b.len() {
                first_image(b, e)
            } else {
                None
            },
            None => None,
        }
    }
}

/// Content whose inline images the reader can work out: from the beginning, and
/// after every `EI` that may end an image.
pub open spec fn all_safe(b: Seq<u8>) -> bool {
    &&& safe_from(b, 0)
    &&& first_image(b, 0) matches Some(f) ==> forall|k: int|
        f <= k && #[trigger] bytes::occurs_at(b, "EI".spec_bytes(), k) ==> safe_from(b, k + 2)
}

/// Whether an escape stands in a part of `b`.
fn escaped(b: &[u8], from: usize, to: usize) -> (r: bool)
    requires
        from <= to <= b@.len(),
    ensures
        r == b@.subrange(from as int, to as int).contains(0x23),
{
    let ghost s = b@.subrange(from as int, to as int);
    let mut i: usize = from;
    while i < to
        invariant
            from <= i <= to <= b@.len(),
            s == b@.subrange(from as int, to as int),
            forall|j: int| 0 <= j < i - from ==> s[j] != 0x23,
        decreases to - i,
    {
        if b[i] == 0x23 {
            assert(s[i - from] == 0x23);
            return true;
        }
        i += 1;
    }
    false
}

/// Whether a token is a keyword.
fn keyword(s: &[u8]) -> (r: bool)
    ensures
        r == is_keyword(s@),
{
    same_bytes(s, "true".as_bytes()) || same_bytes(s, "false".as_bytes()) || same_bytes(
        s,
        "null".as_bytes(),
    )
}

/// Whether a token has only bytes of numbers.
fn numeric(s: &[u8]) -> (r: bool)
    ensures
        r == all_numeric(s@),
{
    let mut i: usize = 0;
    while i < s.len()
        invariant
            i <= s@.len(),
            forall|j: int| 0 <= j < i ==> is_numeric(#[trigger] s@[j]),
        decreases s@.len() - i,
    {
        let c: u8 = s[i];
        if !((0x30 <= c && c <= 0x39) || c == 0x2B || c == 0x2D || c == 0x2E) {
            assert(!is_numeric(s@[i as int]));
            return false;
        }
        i += 1;
    }
    true
}

/// Whether a value begins at `v`.
fn starts_value(b: &[u8], v: usize) -> (r: bool)
    requires
        v < b@.len(),
    ensures
        r == begins_value(b@, v as int),
{
    let c: u8 = b[v];
    c == 0x2F || c == 0x28 || c == 0x5B || c == 0x3C || (0x30 <= c && c <= 0x39) || c == 0x2B || c
        == 0x2D || c == 0x2E || matches_at(b, "true".as_bytes(), v) || matches_at(
        b,
        "false".as_bytes(),
        v,
    ) || matches_at(b, "null".as_bytes(), v)
}

/// Find the end of a reference.
fn find_reference_end(b: &[u8], e: usize) -> (r: Option<usize>)
    requires
        e <= b@.len(),
    ensures
        match r {
            Some(x) => reference_end(b@, e as int) == Some(x as int) && e < x <= b@.len(),
            None => reference_end(b@, e as int) is None,
        },
{
    let n: usize = skip_gap(b, e);
    let k: usize = count_digits(b, n);
    proof {
        bytes::lemma_digit_run(b@.skip(n as int));
    }
    let len: usize = b.len();
    assert(n + k <= len);
    let r: usize = skip_gap(b, n + k);
    if k > 0 && r < len && b[r] == 0x52 {
        Some(r + 1)
    } else {
        None
    }
}

/// Find the end of a value.
fn find_value_end(b: &[u8], v: usize) -> (r: Option<usize>)
    requires
        v < b@.len(),
    ensures
        match r {
            Some(e) => value_end(b@, v as int) == Some(e as int) && v < e <= b@.len(),
            None => value_end(b@, v as int) is None,
        },
{
    let c: u8 = b[v];
    if c == 0x2F {
        Some(skip_run(b, v + 1))
    } else if c == 0x28 || c == 0x5B || c == 0x3C {
        find_group_end(b, v)
    } else if !space(c) && !delimiter(c) {
        let e: usize = skip_run(b, v);
        proof {
            tokens::lemma_run_end(b@, v as int);
        }
        let n: usize = skip_gap(b, e);
        let t = slice_subrange(b, v, e);
        if keyword(t) {
            Some(e)
        } else if !numeric(t) {
            None
        } else if n < b.len() && 0x30 <= b[n] && b[n] <= 0x39 {
            find_reference_end(b, e)
        } else {
            Some(e)
        }
    } else {
        None
    }
}

/// What the entries of an inline image's dictionary are: the places of its keys
/// and values.
pub open spec fn spans_model(b: Seq<u8>, spans: Seq<(usize, usize, usize, usize)>) -> Seq<
    (Seq<u8>, Seq<u8>),
> {
    Seq::new(
        spans.len(),
        |i: int|
            (
                b.subrange(spans[i].0 as int, spans[i].1 as int),
                b.subrange(spans[i].2 as int, spans[i].3 as int),
            ),
    )
}

/// The places lie in `b`.
pub open spec fn spans_in(b: Seq<u8>, spans: Seq<(usize, usize, usize, usize)>) -> bool {
    forall|i: int|
        0 <= i < spans.len() ==> (#[trigger] spans[i]).0 <= spans[i].1 <= b.len() && spans[i].2
            <= spans[i].3 <= b.len()
}

/// Find the last value under a key.
fn find_value(b: &[u8], spans: &Vec<(usize, usize, usize, usize)>, key: &[u8]) -> (r: Option<
    (usize, usize),
>)
    requires
        spans_in(b@, spans@),
    ensures
        match r {
            Some((f, t)) => f <= t <= b@.len() && last_value(spans_model(b@, spans@), key@) == Some(
                b@.subrange(f as int, t as int),
            ),
            None => last_value(spans_model(b@, spans@), key@) is None,
        },
{
    let ghost m = spans_model(b@, spans@);
    let mut i: usize = spans.len();
    assert(m.take(i as int) =~= m);
    while i > 0
        invariant
            i <= spans@.len(),
            spans_in(b@, spans@),
            m == spans_model(b@, spans@),
            last_value(m, key@) == last_value(m.take(i as int), key@),
        decreases i,
    {
        i -= 1;
        let (kf, kt, vf, vt) = spans[i];
        assert(m.take(i + 1).last() == m[i as int]);
        assert(m.take(i + 1).drop_last() =~= m.take(i as int));
        assert(spans@[i as int].0 <= spans@[i as int].1);
        if same_bytes(slice_subrange(b, kf, kt), key) {
            return Some((vf, vt));
        }
    }
    None
}

/// Find the value under a short key, else under the long one.
fn find_either(
    b: &[u8],
    spans: &Vec<(usize, usize, usize, usize)>,
    short: &[u8],
    long: &[u8],
) -> (r: Option<(usize, usize)>)
    requires
        spans_in(b@, spans@),
    ensures
        match r {
            Some((f, t)) => f <= t <= b@.len() && short_or_long(
                spans_model(b@, spans@),
                short@,
                long@,
            ) == Some(b@.subrange(f as int, t as int)),
            None => short_or_long(spans_model(b@, spans@), short@, long@) is None,
        },
{
    match find_value(b, spans, short) {
        Some(p) => Some(p),
        None => find_value(b, spans, long),
    }
}

/// Read an integer that is written with digits alone.
fn read_plain(s: &[u8]) -> (r: Option<usize>)
    ensures
        match r {
            Some(v) => plain_int(s@) == Some(v as nat),
            None => plain_int(s@) is None,
        },
{
    if s.len() == 0 || !only_digits(s) {
        return None;
    }
    read_decimal(s)
}

/// Whether a token is an integer.
fn integer(s: &[u8]) -> (r: bool)
    ensures
        r == is_integer(s@),
{
    if s.len() > 0 && (s[0] == 0x2B || s[0] == 0x2D) {
        let rest = slice_subrange(s, 1, s.len());
        assert(rest@ =~= s@.skip(1));
        s.len() > 1 && only_digits(rest)
    } else {
        s.len() > 0 && only_digits(s)
    }
}

/// Whether an image of this size is not too large.
fn small_size(width: usize, height: usize, bits: usize) -> (r: bool)
    ensures
        r == size_fits(width as nat, height as nat, bits as nat),
{
    let four: usize = match bits.checked_mul(4) {
        Some(v) => v,
        None => {
            return false;
        },
    };
    assert(four == 4 * bits);
    let row: usize = match width.checked_mul(four) {
        Some(v) => v,
        None => {
            return false;
        },
    };
    match height.checked_mul(row / 8 + 1) {
        Some(_) => true,
        None => false,
    }
}

/// Whether the reader can work out an image with this dictionary.
fn safe_dict(b: &[u8], spans: &Vec<(usize, usize, usize, usize)>) -> (r: bool)
    requires
        spans_in(b@, spans@),
    ensures
        r == dict_safe(spans_model(b@, spans@)),
{
    let w = find_either(b, spans, "W".as_bytes(), "Width".as_bytes());
    let h = find_either(b, spans, "H".as_bytes(), "Height".as_bytes());
    let c = find_either(b, spans, "BPC".as_bytes(), "BitsPerComponent".as_bytes());
    match (w, h, c) {
        (Some((wf, wt)), Some((hf, ht)), Some((cf, ct))) => {
            if !(integer(slice_subrange(b, wf, wt)) && integer(slice_subrange(b, hf, ht))
                && integer(slice_subrange(b, cf, ct))) {
                return true;
            }
            let mask: bool = match find_either(
                b,
                spans,
                "IM".as_bytes(),
                "ImageMask".as_bytes(),
            ) {
                Some((f, t)) => same_bytes(slice_subrange(b, f, t), "true".as_bytes()),
                None => false,
            };
            if !mask && find_either(
                b,
                spans,
                "CS".as_bytes(),
                "ColorSpace".as_bytes(),
            ).is_none() {
                return false;
            }
            match (
                read_plain(slice_subrange(b, wf, wt)),
                read_plain(slice_subrange(b, hf, ht)),
                read_plain(slice_subrange(b, cf, ct)),
            ) {
                (Some(w), Some(h), Some(c)) => small_size(w, h, c),
                _ => false,
            }
        },
        _ => true,
    }
}

/// What is known of an inline image.
enum Found {
    Absent,
    Unclear,
    Known(Vec<(usize, usize, usize, usize)>),
}

/// What is found of an inline image is what there is.
spec fn found_is(b: Seq<u8>, f: Found, d: ImageDict) -> bool {
    match f {
        Found::Absent => d is Absent,
        Found::Unclear => d is Unclear,
        Found::Known(spans) => spans_in(b, spans@) && d == ImageDict::Known(
            spans_model(b, spans@),
        ),
    }
}

/// Find what stands after a `BI`.
fn find_image(b: &[u8], p: usize) -> (r: Found)
    requires
        p + 2 <= b@.len(),
    ensures
        found_is(b@, r, image_at(b@, p as int)),
{
    let mut spans: Vec<(usize, usize, usize, usize)> = Vec::new();
    let len: usize = b.len();
    assert(p + 2 <= len);
    let mut i: usize = skip_gap(b, p + 2);
    let ghost whole = image_at(b@, p as int);
    assert(spans_model(b@, spans@) =~= Seq::<(Seq<u8>, Seq<u8>)>::empty());
    while i < b.len()
        invariant
            i <= b@.len(),
            spans_in(b@, spans@),
            whole == image_at(b@, p as int),
            whole == image_dict(b@, i as int, spans_model(b@, spans@)),
        decreases b@.len() - i,
    {
        let c: u8 = b[i];
        if c == 0x2F {
            let e: usize = skip_run(b, i + 1);
            let v: usize = skip_gap(b, e);
            if v >= b.len() || !starts_value(b, v) {
                return Found::Absent;
            }
            if escaped(b, i + 1, e) {
                return Found::Unclear;
            }
            match find_value_end(b, v) {
                Some(end) => {
                    let n: usize = skip_gap(b, end);
                    let ghost before = spans_model(b@, spans@);
                    let ghost old_spans = spans@;
                    spans.push((i + 1, e, v, end));
                    proof {
                        assert(spans_model(b@, spans@) =~= before.push(
                            (
                                b@.subrange(i + 1, e as int),
                                b@.subrange(v as int, end as int),
                            ),
                        ));
                        assert forall|k: int| 0 <= k < spans@.len() implies (
                        #[trigger] spans@[k]).0 <= spans@[k].1 <= b@.len() && spans@[k].2
                            <= spans@[k].3 <= b@.len() by {
                            if k < old_spans.len() {
                                assert(spans@[k] == old_spans[k]);
                            }
                        }
                    }
                    i = n;
                },
                None => {
                    return Found::Unclear;
                },
            }
        } else if c == 0x49 && b.len() - i > 1 && b[i + 1] == 0x44 {
            return Found::Known(spans);
        } else {
            return Found::Absent;
        }
    }
    Found::Absent
}

/// Whether an inline image may begin at index `p`, and whether the reader can work
/// it out.
fn look_at(b: &[u8], p: usize) -> (r: (bool, bool))
    requires
        p < b@.len(),
    ensures
        r.0 == begins_image(b@, p as int),
        r.1 == image_safe(b@, p as int),
{
    proof {
        reveal_strlit("BI");
        vstd::string::is_ascii_spec_bytes("BI");
    }
    if !matches_at(b, "BI".as_bytes(), p) {
        return (false, true);
    }
    let n: usize = b.len();
    assert(p + 2 <= n);
    match find_image(b, p) {
        Found::Absent => (false, true),
        Found::Unclear => (true, false),
        Found::Known(spans) => (true, safe_dict(b, &spans)),
    }
}

/// Find the end of a token.
fn find_token_end(b: &[u8], i: usize) -> (r: Option<usize>)
    requires
        i < b@.len(),
    ensures
        match r {
            Some(e) => token_end(b@, i as int) == Some(e as int) && i < e <= b@.len(),
            None => token_end(b@, i as int) is None,
        },
{
    let c: u8 = b[i];
    if c == 0x25 {
        find_comment_end(b, i + 1)
    } else if c == 0x28 {
        find_string_end(b, i + 1)
    } else if c == 0x3C && b.len() - i > 1 && b[i + 1] == 0x3C {
        Some(i + 2)
    } else if c == 0x3C {
        find_hex_end(b, i + 1)
    } else if c == 0x2F {
        Some(skip_run(b, i + 1))
    } else if !space(c) && !delimiter(c) {
        proof {
            tokens::lemma_run_end(b@, i as int);
        }
        Some(skip_run(b, i))
    } else {
        Some(i + 1)
    }
}

/// Every marked place is safe in itself, and its token ends at a marked place, at
/// the end or at `i`.
spec fn closed_but(b: Seq<u8>, marks: Seq<bool>, i: int) -> bool {
    &&& marks.len() == b.len()
    &&& forall|p: int|
        0 <= p < b.len() && #[trigger] marks[p] ==> image_safe(b, p) && (token_end(
            b,
            p,
        ) matches Some(e) ==> p < e <= b.len() ==> e == b.len() || e == i || marks[e])
}

/// Marked places are safe to go on from, where nothing is left out.
proof fn lemma_marked(b: Seq<u8>, marks: Seq<bool>, p: int)
    requires
        closed_but(b, marks, b.len() as int),
        0 <= p < b.len(),
        marks[p],
    ensures
        safe_from(b, p),
    decreases b.len() - p,
{
    if let Some(e) = token_end(b, p) {
        if p < e < b.len() {
            lemma_marked(b, marks, e);
        }
    }
}

/// Go on from `from` and mark the tokens, up to one that is marked.
fn mark_from(b: &[u8], marks: &mut Vec<bool>, from: usize) -> (r: bool)
    requires
        from <= b@.len(),
        closed_but(b@, old(marks)@, b@.len() as int),
    ensures
        r == safe_from(b@, from as int),
        r ==> closed_but(b@, final(marks)@, b@.len() as int),
{
    let mut i: usize = from;
    while i < b.len() && !marks[i]
        invariant
            from <= i <= b@.len(),
            closed_but(b@, marks@, i as int),
            safe_from(b@, from as int) ==> safe_from(b@, i as int),
            from < b@.len() ==> from == i || marks@[from as int],
        decreases b@.len() - i,
    {
        if !look_at(b, i).1 {
            assert(!safe_from(b@, i as int));
            return false;
        }
        let ghost before = marks@;
        marks.set(i, true);
        match find_token_end(b, i) {
            Some(e) => {
                proof {
                    assert forall|p: int| 0 <= p < b@.len() && #[trigger] marks@[p] implies
                        image_safe(b@, p) && (token_end(b@, p) matches Some(x) ==> p < x <= b@.len()
                        ==> x == b@.len() || x == e || marks@[x]) by {
                        if p != i {
                            assert(before[p]);
                        }
                    }
                }
                i = e;
            },
            None => {
                let ghost last = marks@;
                proof {
                    assert forall|p: int| 0 <= p < b@.len() && #[trigger] marks@[p] implies
                        image_safe(b@, p) && (token_end(b@, p) matches Some(x) ==> p < x <= b@.len()
                        ==> x == b@.len() || marks@[x]) by {
                        if p != i {
                            assert(before[p]);
                        }
                    }
                    assert(closed_but(b@, last, b@.len() as int));
                    lemma_marked(b@, last, from as int);
                }
                return true;
            },
        }
    }
    proof {
        assert(closed_but(b@, marks@, b@.len() as int));
        if from < b@.len() {
            lemma_marked(b@, marks@, from as int);
        }
    }
    true
}

/// Find the first inline image.
fn find_first_image(b: &[u8]) -> (r: Option<usize>)
    ensures
        match r {
            Some(f) => first_image(b@, 0) == Some(f as int) && f < b@.len(),
            None => first_image(b@, 0) is None,
        },
{
    let mut i: usize = 0;
    while i < b.len()
        invariant
            i <= b@.len(),
            first_image(b@, 0) == first_image(b@, i as int),
        decreases b@.len() - i,
    {
        if look_at(b, i).0 {
            return Some(i);
        }
        match find_token_end(b, i) {
            Some(e) => {
                i = e;
            },
            None => {
                return None;
            },
        }
    }
    None
}

/// Whether the reader can work out the inline images of content.
pub fn images_safe(b: &[u8]) -> (r: bool)
    ensures
        r == all_safe(b@),
{
    proof {
        reveal_strlit("EI");
        vstd::string::is_ascii_spec_bytes("EI");
    }
    let mut marks: Vec<bool> = Vec::new();
    let mut n: usize = 0;
    while n < b.len()
        invariant
            n <= b@.len(),
            marks@.len() == n,
            forall|p: int| 0 <= p < n ==> !#[trigger] marks@[p],
        decreases b@.len() - n,
    {
        marks.push(false);
        n += 1;
    }
    if !mark_from(b, &mut marks, 0) {
        return false;
    }
    let mut k: usize = match find_first_image(b) {
        Some(f) => f,
        None => {
            return true;
        },
    };
    let ghost f = k as int;
    while k < b.len()
        invariant
            0 <= f <= k <= b@.len(),
            "EI".spec_bytes().len() == 2,
            first_image(b@, 0) == Some(f),
            closed_but(b@, marks@, b@.len() as int),
            forall|x: int|
                f <= x < k && #[trigger] bytes::occurs_at(b@, "EI".spec_bytes(), x) ==> safe_from(
                    b@,
                    x + 2,
                ),
        decreases b@.len() - k,
    {
        if matches_at(b, "EI".as_bytes(), k) {
            let len: usize = b.len();
            assert(k + 2 <= len);
            if !mark_from(b, &mut marks, k + 2) {
                assert(bytes::occurs_at(b@, "EI".spec_bytes(), k as int));
                return false;
            }
        }
        k += 1;
    }
    true
}

} // verus!
