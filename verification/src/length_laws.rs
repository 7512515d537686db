//! That correcting the stream lengths of a file twice is correcting them once.

use crate::bytes;
use crate::repair;
use vstd::prelude::*;
use vstd::string::StringSliceAdditionalSpecFns;

verus! {

/// A digit or a space.
spec fn is_filler(b: u8) -> bool {
    bytes::is_digit(b) || b == 0x20
}

/// No digit or space in a word.
spec fn is_word(needle: Seq<u8>) -> bool {
    forall|k: int| 0 <= k < needle.len() ==> !is_filler(#[trigger] needle[k])
}

/// A word stands in a file and in its corrected form, or in neither.
proof fn lemma_same_occurs(a: Seq<u8>, b: Seq<u8>, needle: Seq<u8>, i: int)
    requires
        repair::only_digits_differ(a, b),
        is_word(needle),
    ensures
        bytes::occurs_at(a, needle, i) == bytes::occurs_at(b, needle, i),
{
    if 0 <= i && i + needle.len() <= a.len() {
        let x = a.subrange(i, i + needle.len());
        let y = b.subrange(i, i + needle.len());
        if x == needle {
            assert forall|k: int| 0 <= k < needle.len() implies y[k] == needle[k] by {
                assert(x[k] == a[i + k] && y[k] == b[i + k]);
                assert(!is_filler(needle[k]));
            }
            assert(y =~= needle);
        }
        if y == needle {
            assert forall|k: int| 0 <= k < needle.len() implies x[k] == needle[k] by {
                assert(x[k] == a[i + k] && y[k] == b[i + k]);
                assert(!is_filler(needle[k]));
            }
            assert(x =~= needle);
        }
    }
}

/// A word is found first at the same place.
proof fn lemma_same_first(a: Seq<u8>, b: Seq<u8>, needle: Seq<u8>, i: int)
    requires
        repair::only_digits_differ(a, b),
        is_word(needle),
    ensures
        bytes::first_at(a, needle, i) == bytes::first_at(b, needle, i),
    decreases a.len() + 1 - i,
{
    if i >= 0 && i + needle.len() <= a.len() {
        lemma_same_occurs(a, b, needle, i);
        if !bytes::occurs_at(a, needle, i) {
            lemma_same_first(a, b, needle, i + 1);
        }
    }
}

/// A word is found last at the same place.
proof fn lemma_same_last(a: Seq<u8>, b: Seq<u8>, needle: Seq<u8>, end: int)
    requires
        repair::only_digits_differ(a, b),
        is_word(needle),
    ensures
        bytes::last_before(a, needle, end) == bytes::last_before(b, needle, end),
    decreases end,
{
    if end > 0 {
        lemma_same_occurs(a, b, needle, end - 1);
        lemma_same_last(a, b, needle, end - 1);
    }
}

/// The words that the correction looks for.
proof fn lemma_words()
    ensures
        is_word("stream".spec_bytes()),
        is_word("endstream".spec_bytes()),
        is_word("end".spec_bytes()),
        is_word("<".spec_bytes()),
        is_word("/Length".spec_bytes()),
        "<".spec_bytes()[0] == 0x3C,
{
    repair::lemma_keywords();
    reveal_strlit("stream");
    reveal_strlit("endstream");
    reveal_strlit("/Length");
    reveal_strlit("<");
    reveal_strlit("end");
    vstd::string::is_ascii_spec_bytes("stream");
    vstd::string::is_ascii_spec_bytes("endstream");
    vstd::string::is_ascii_spec_bytes("/Length");
    vstd::string::is_ascii_spec_bytes("<");
    vstd::string::is_ascii_spec_bytes("end");
}

/// The data of a stream lies at the same place.
proof fn lemma_same_data(a: Seq<u8>, b: Seq<u8>, kw: int)
    requires
        repair::only_digits_differ(a, b),
        bytes::occurs_at(a, "stream".spec_bytes(), kw),
    ensures
        repair::data_start(a, kw) == repair::data_start(b, kw),
        repair::data_end(a, kw) == repair::data_end(b, kw),
        bytes::occurs_at(a, "end".spec_bytes(), kw - 3) == bytes::occurs_at(
            b,
            "end".spec_bytes(),
            kw - 3,
        ),
{
    lemma_words();
    repair::lemma_keywords();
    let p = kw + 6;
    if p < a.len() {
        assert(a[p] != b[p] ==> is_filler(a[p]) && is_filler(b[p]));
    }
    if p + 1 < a.len() {
        assert(a[p + 1] != b[p + 1] ==> is_filler(a[p + 1]) && is_filler(b[p + 1]));
    }
    lemma_same_first(a, b, "endstream".spec_bytes(), repair::data_start(a, kw));
    lemma_same_occurs(a, b, "end".spec_bytes(), kw - 3);
}

/// Only spaces up to `d` are passed over.
proof fn lemma_spaces_until(s: Seq<u8>, i: int, d: int)
    requires
        0 <= i <= d < s.len(),
        forall|j: int| i <= j < d ==> s[j] == 0x20,
        s[d] != 0x20,
    ensures
        repair::after_spaces(s, i) == d,
    decreases d - i,
{
    if i < d {
        lemma_spaces_until(s, i + 1, d);
    }
}

/// The first letter of `stream` is none of its others.
proof fn lemma_no_overlap()
    ensures
        forall|j: int|
            0 < j < 6 ==> #[trigger] "stream".spec_bytes()[j] != "stream".spec_bytes()[0],
{
    reveal_strlit("stream");
    vstd::string::is_ascii_spec_bytes("stream");
}

/// Where the length of the stream at `kw` is written, and how long its data is:
/// for a keyword that opens a stream with an end and a `/Length` entry.
#[verifier::opaque]
pub open spec fn measured(s: Seq<u8>, kw: int) -> Option<(int, nat)> {
    if bytes::occurs_at(s, "stream".spec_bytes(), kw) && !bytes::occurs_at(
        s,
        "end".spec_bytes(),
        kw - 3,
    ) {
        match (repair::data_end(s, kw), repair::length_at(s, kw)) {
            (Some(end), Some(d)) => Some((d, (end - repair::data_start(s, kw)) as nat)),
            _ => None,
        }
    } else {
        None
    }
}

/// What is measured is a stream.
proof fn lemma_measured(s: Seq<u8>, kw: int)
    requires
        measured(s, kw) is Some,
    ensures
        bytes::occurs_at(s, "stream".spec_bytes(), kw),
        measured(s, kw) matches Some((d, _)) && 0 <= d && d + repair::number_len(s, d) <= s.len(),
{
    reveal(measured);
    repair::lemma_keywords();
    repair::lemma_stream_parts(s, kw);
}

/// Before a length stands a space or the key.
proof fn lemma_before_length(s: Seq<u8>, kw: int)
    requires
        bytes::occurs_at(s, "stream".spec_bytes(), kw),
        repair::length_at(s, kw) is Some,
    ensures
        ({
            let d = repair::length_at(s, kw).unwrap();
            &&& 0 < d <= kw
            &&& !bytes::is_digit(s[d - 1])
            &&& repair::number_len(s, d) > 0 ==> s[d - 1] == 0x20
        }),
{
    repair::lemma_keywords();
    lemma_words();
    repair::lemma_stream_parts(s, kw);
    let open = match bytes::last_before(s, "<".spec_bytes(), kw) {
        Some(p) => p,
        None => 0,
    };
    bytes::lemma_last_before(s, "<".spec_bytes(), kw);
    repair::lemma_length_key(s, open, kw);
    let l = repair::length_key(s, open, kw).unwrap();
    let d = repair::length_at(s, kw).unwrap();
    repair::lemma_after_spaces(s, l + 7);
    assert(s[l + 6] == s.subrange(l, l + 7)[6]);
    assert(!is_filler("/Length".spec_bytes()[6]));
    bytes::lemma_digit_run(s.skip(d));
    if repair::number_len(s, d) > 0 {
        assert(s.skip(d).take(repair::number_len(s, d) as int)[0] == s[d]);
    }
}

/// The key is found at the same place after the number at `d` has been changed.
proof fn lemma_same_key(a: Seq<u8>, b: Seq<u8>, d: int, n: nat, from: int, to: int)
    requires
        repair::only_digits_differ(a, b),
        0 < d && d + n <= a.len(),
        a[d - 1] == 0x20,
        forall|j: int| d <= j < d + n ==> bytes::is_digit(#[trigger] a[j]),
        forall|j: int| 0 <= j < a.len() && #[trigger] a[j] != b[j] ==> d <= j < d + n,
        to <= a.len(),
    ensures
        repair::length_key(a, from, to) == repair::length_key(b, from, to),
    decreases to - from,
{
    repair::lemma_keywords();
    lemma_words();
    if from >= 0 && from + 7 <= to {
        lemma_same_occurs(a, b, "/Length".spec_bytes(), from);
        if bytes::occurs_at(a, "/Length".spec_bytes(), from) && from + 7 < a.len() {
            assert(a[from + 6] == a.subrange(from, from + 7)[6]);
            assert(!is_filler("/Length".spec_bytes()[6]));
            if a[from + 7] != b[from + 7] {
                assert(d <= from + 6 ==> bytes::is_digit(a[from + 6]));
            }
        }
        lemma_same_key(a, b, d, n, from + 1, to);
    }
}

/// What the correction at `kw` does to the length of the stream at `k`: it stays
/// where it is, and it is written anew where the two streams share it, or stays as
/// it is.
#[verifier::rlimit(40)]
proof fn lemma_step(s: Seq<u8>, kw: int, k: int)
    requires
        bytes::occurs_at(s, "stream".spec_bytes(), kw),
    ensures
        measured(repair::corrected(s, kw), k) == measured(s, k),
        measured(s, k) matches Some((d2, _)) ==> (measured(s, kw) matches Some((d, a)) && d == d2
            && repair::replaceable(s, d, a)) || same_slot(s, repair::corrected(s, kw), d2),
{
    reveal(measured);
    repair::lemma_keywords();
    lemma_words();
    let m = repair::corrected(s, kw);
    repair::lemma_corrected(s, kw);
    lemma_same_occurs(s, m, "stream".spec_bytes(), k);
    if m != s && bytes::occurs_at(s, "stream".spec_bytes(), k) {
        let (d, a) = measured(s, kw).unwrap();
        let n = repair::number_len(s, d);
        lemma_changed(s, kw);
        repair::lemma_stream_parts(s, kw);
        lemma_before_length(s, kw);
        bytes::lemma_digit_run(s.skip(d));
        assert forall|j: int| d <= j < d + n implies bytes::is_digit(#[trigger] s[j]) by {
            assert(s.skip(d).take(n as int)[j - d] == s[j]);
        }
        lemma_same_data(s, m, k);
        lemma_same_last(s, m, "<".spec_bytes(), k);
        repair::lemma_stream_parts(s, k);
        let open = match bytes::last_before(s, "<".spec_bytes(), k) {
            Some(p) => p,
            None => 0,
        };
        bytes::lemma_last_before(s, "<".spec_bytes(), k);
        repair::lemma_length_key(s, open, k);
        lemma_same_key(s, m, d, n, open, k);
        if let Some(l) = repair::length_key(s, open, k) {
            lemma_before_length(s, k);
            repair::lemma_after_spaces(s, l + 7);
            let d2 = repair::length_at(s, k).unwrap();
            // Only spaces lie before the number, and they stay.
            assert(s[k] == s.subrange(k, k + 6)[0]);
            assert forall|j: int| l + 7 <= j < d2 implies m[j] == 0x20 by {
                assert(s[j] == 0x20);
            }
            assert(d2 <= k < s.len());
            if m[d2] == 0x20 {
                assert(s[d2] != m[d2]);
                assert(d == d2);
                bytes::law_decimal_reads_back(a);
                assert(m[d] == bytes::decimal(a)[0]);
            }
            lemma_spaces_until(m, l + 7, d2);
            if d2 != d {
                lemma_same_run(s, m, d, n, d2);
            }
        }
    }
}

/// The number at `d` is written with the same bytes in two files.
pub open spec fn same_slot(a: Seq<u8>, b: Seq<u8>, d: int) -> bool {
    &&& repair::number_len(a, d) == repair::number_len(b, d)
    &&& a.subrange(d, d + repair::number_len(a, d)) == b.subrange(d, d + repair::number_len(a, d))
}

/// A number that begins elsewhere stays as it is when the one at `d` is changed.
proof fn lemma_same_run(a: Seq<u8>, b: Seq<u8>, d: int, n: nat, d2: int)
    requires
        a.len() == b.len(),
        0 < d && d + n <= a.len(),
        0 < d2 <= a.len(),
        d != d2,
        !bytes::is_digit(a[d - 1]),
        !bytes::is_digit(a[d2 - 1]),
        forall|j: int| d <= j < d + n ==> bytes::is_digit(#[trigger] a[j]),
        forall|j: int| 0 <= j < a.len() && #[trigger] a[j] != b[j] ==> d <= j < d + n,
    ensures
        same_slot(a, b, d2),
{
    let n2 = repair::number_len(a, d2);
    bytes::lemma_digit_run(a.skip(d2));
    bytes::lemma_digit_run(b.skip(d2));
    assert forall|j: int| d2 <= j < d2 + n2 implies bytes::is_digit(#[trigger] a[j]) by {
        assert(a.skip(d2).take(n2 as int)[j - d2] == a[j]);
    }
    if d2 < d {
        assert(d2 + n2 <= d - 1) by {
            if d2 + n2 > d - 1 {
                assert(bytes::is_digit(a[d - 1]));
            }
        }
    } else {
        assert(d + n <= d2 - 1) by {
            if d + n > d2 - 1 {
                assert(bytes::is_digit(a[d2 - 1]));
            }
        }
    }
    assert forall|j: int| d2 <= j < a.len() && j <= d2 + n2 implies a[j] == b[j] by {}
    let m2 = repair::number_len(b, d2);
    if m2 < n2 {
        assert(b.skip(d2)[m2 as int] == b[d2 + m2]);
        assert(bytes::is_digit(a[d2 + m2]));
    }
    if m2 > n2 {
        assert(b.skip(d2).take(m2 as int)[n2 as int] == b[d2 + n2]);
        assert(a.skip(d2)[n2 as int] == a[d2 + n2]);
    }
    assert(a.subrange(d2, d2 + n2) =~= b.subrange(d2, d2 + n2));
}

/// What a correction writes, and where.
proof fn lemma_changed(s: Seq<u8>, kw: int)
    requires
        bytes::occurs_at(s, "stream".spec_bytes(), kw),
    ensures
        match measured(s, kw) {
            Some((d, a)) => {
                let m = repair::corrected(s, kw);
                &&& repair::replaceable(s, d, a) ==> repair::number_len(m, d) == bytes::decimal(a).len()
                    && repair::number_at(m, d) == a && repair::number_spelled(m, d) && m.len() == s.len()
                &&& !repair::replaceable(s, d, a) ==> m == s
                &&& forall|j: int|
                    0 <= j < s.len() && #[trigger] s[j] != m[j] ==> d <= j < d + repair::number_len(s, d)
            },
            None => repair::corrected(s, kw) == s,
        },
{
    reveal(measured);
    repair::lemma_stream_parts(s, kw);
    repair::lemma_corrected(s, kw);
    if let Some((d, a)) = measured(s, kw) {
        let n = repair::number_len(s, d);
        bytes::lemma_digit_run(s.skip(d));
        if repair::replaceable(s, d, a) {
            repair::lemma_written(s, d, a);
            let m = repair::with_number(s, d, n, a);
            assert forall|j: int| 0 <= j < s.len() && #[trigger] s[j] != m[j] implies d <= j < d
                + n by {
                if j >= d + n {
                    assert(m[j] == s.skip(d + n)[j - d - n]);
                }
            }
        }
    }
}

/// A length that two streams share has no leading zeros.
pub open spec fn shared_lengths_plain(s: Seq<u8>) -> bool {
    forall|k: int, kw: int| #[trigger] shares(s, k, kw) ==> plain_at(s, measured(s, k).unwrap().0)
}

/// Two streams take their length from the same entry.
pub open spec fn shares(s: Seq<u8>, k: int, kw: int) -> bool {
    k != kw && (measured(s, k) matches Some((d, _)) && measured(s, kw) matches Some((d2, _)) && d
        == d2)
}

/// The number at `d` has as many digits as it needs.
pub open spec fn plain_at(s: Seq<u8>, d: int) -> bool {
    repair::number_len(s, d) > 0 ==> repair::number_len(s, d) == bytes::decimal(repair::number_at(s, d)).len()
}

/// A later stream before `to` gives the length at `d` the number that it has, and
/// `v` takes as many digits.
spec fn overruled(s: Seq<u8>, k: int, to: int, d: int, v: nat) -> bool {
    &&& v <= usize::MAX
    &&& bytes::decimal(v).len() == repair::number_len(s, d)
    &&& repair::number_spelled(s, d)
    &&& plain_at(s, d)
    &&& exists|k2: int|
        k < k2 < to && #[trigger] measured(s, k2) == Some((d, repair::number_at(s, d)))
}

/// The stream at `k` needs no correction, has no room for one, or is overruled by
/// one before `to`.
spec fn at_rest(s: Seq<u8>, k: int, to: int) -> bool {
    measured(s, k) matches Some((d, v)) ==> !repair::replaceable(s, d, v) || overruled(s, k, to, d, v)
}

/// A correction leaves every stream up to it at rest.
#[verifier::rlimit(40)]
proof fn lemma_rests(s: Seq<u8>, kw: int, k: int)
    requires
        bytes::occurs_at(s, "stream".spec_bytes(), kw),
        shared_lengths_plain(s),
        k <= kw,
        k < kw ==> at_rest(s, k, kw),
    ensures
        at_rest(repair::corrected(s, kw), k, kw + 6),
{
    let m = repair::corrected(s, kw);
    lemma_changed(s, kw);
    lemma_step(s, kw, k);
    lemma_step(s, kw, kw);
    if let Some((d, v)) = measured(s, k) {
        let written = measured(s, kw) matches Some((d2, a)) && d == d2 && repair::replaceable(s, d2, a);
        if k == kw {
        } else if written {
            let a = measured(s, kw).unwrap().1;
            assert(shares(s, k, kw));
            if bytes::decimal(v).len() == bytes::decimal(a).len() {
                assert(measured(m, kw) == Some((d, repair::number_at(m, d))));
            }
        } else if repair::replaceable(s, d, v) {
            let k2 = choose|k2: int|
                k < k2 < kw && #[trigger] measured(s, k2) == Some((d, repair::number_at(s, d)));
            lemma_step(s, kw, k2);
            assert(measured(m, k2) == Some((d, repair::number_at(m, d))));
        }
    }
}

/// A shared length stays without leading zeros.
proof fn lemma_stays_plain(s: Seq<u8>, kw: int)
    requires
        bytes::occurs_at(s, "stream".spec_bytes(), kw),
        shared_lengths_plain(s),
    ensures
        shared_lengths_plain(repair::corrected(s, kw)),
{
    let m = repair::corrected(s, kw);
    lemma_changed(s, kw);
    assert forall|k: int, k2: int| #[trigger] shares(m, k, k2) implies plain_at(
        m,
        measured(m, k).unwrap().0,
    ) by {
        lemma_step(s, kw, k);
        lemma_step(s, kw, k2);
        assert(shares(s, k, k2));
    }
}

/// No two keywords overlap.
proof fn lemma_apart(s: Seq<u8>, kw: int, k: int)
    requires
        bytes::occurs_at(s, "stream".spec_bytes(), kw),
        bytes::occurs_at(s, "stream".spec_bytes(), k),
        kw < k,
    ensures
        kw + 6 <= k,
{
    repair::lemma_keywords();
    lemma_no_overlap();
    if k < kw + 6 {
        assert(s.subrange(kw, kw + 6)[k - kw] == s.subrange(k, k + 6)[0]);
    }
}

/// Once the streams before `i` are at rest, all are after the others have been
/// looked at.
proof fn lemma_first_pass(s: Seq<u8>, i: int)
    requires
        0 <= i,
        shared_lengths_plain(s),
        forall|k: int| k < i ==> #[trigger] at_rest(s, k, i),
    ensures
        forall|k: int| #[trigger]
            at_rest(repair::lengths_fixed_from(s, i), k, repair::lengths_fixed_from(s, i).len() as int),
    decreases s.len() - i,
{
    reveal(measured);
    repair::lemma_keywords();
    bytes::lemma_first_at(s, "stream".spec_bytes(), i);
    match bytes::first_at(s, "stream".spec_bytes(), i) {
        Some(kw) => {
            let m = repair::corrected(s, kw);
            repair::lemma_corrected(s, kw);
            lemma_stays_plain(s, kw);
            assert forall|k: int| k < kw + 6 implies #[trigger] at_rest(m, k, kw + 6) by {
                if k <= kw {
                    if i <= k < kw {
                        assert(measured(s, k) is None);
                    } else if k < i {
                        assert(at_rest(s, k, i));
                        lemma_rests_longer(s, k, i, kw);
                    }
                    lemma_rests(s, kw, k);
                } else {
                    lemma_step(s, kw, k);
                    if bytes::occurs_at(s, "stream".spec_bytes(), k) {
                        lemma_apart(s, kw, k);
                    }
                }
            }
            lemma_first_pass(m, kw + 6);
            assert(repair::lengths_fixed_from(s, i) == repair::lengths_fixed_from(m, kw + 6));
        },
        None => {
            assert forall|k: int| #[trigger] at_rest(s, k, s.len() as int) by {
                if k < i {
                    assert(at_rest(s, k, i));
                    if let Some((d, v)) = measured(s, k) {
                        if repair::replaceable(s, d, v) {
                            let k2 = choose|k2: int|
                                k < k2 < i && #[trigger] measured(s, k2) == Some(
                                    (d, repair::number_at(s, d)),
                                );
                            assert(k2 < s.len());
                        }
                    }
                } else {
                    assert(measured(s, k) is None);
                }
            }
        },
    }
}

/// What is at rest for the streams before `i` is at rest for more.
proof fn lemma_rests_longer(s: Seq<u8>, k: int, i: int, to: int)
    requires
        at_rest(s, k, i),
        i <= to,
    ensures
        at_rest(s, k, to),
{
    if let Some((d, v)) = measured(s, k) {
        if repair::replaceable(s, d, v) {
            let k2 = choose|k2: int|
                k < k2 < i && #[trigger] measured(s, k2) == Some((d, repair::number_at(s, d)));
            assert(k2 < to);
        }
    }
}

/// The length at `d` of `t` is to be given the number that it has in `m` by a
/// stream from `i` on.
spec fn pending(m: Seq<u8>, t: Seq<u8>, i: int, d: int) -> bool {
    &&& repair::number_len(t, d) == repair::number_len(m, d)
    &&& repair::number_spelled(m, d)
    &&& repair::number_spelled(t, d)
    &&& repair::number_len(m, d) > 0
    &&& plain_at(m, d)
    &&& repair::number_at(m, d) <= usize::MAX
    &&& repair::number_at(t, d) <= usize::MAX
    &&& exists|k2: int| i <= k2 && #[trigger] measured(m, k2) == Some((d, repair::number_at(m, d)))
}

/// A file `t` in the course of the second pass over `m`.
spec fn on_the_way(m: Seq<u8>, t: Seq<u8>, i: int) -> bool {
    &&& m.len() == t.len()
    &&& forall|k: int| #[trigger] measured(t, k) == measured(m, k)
    &&& forall|k: int| #[trigger]
        measured(m, k) matches Some((d, _)) ==> same_slot(m, t, d) || pending(m, t, i, d)
    &&& forall|j: int|
        0 <= j < m.len() && #[trigger] m[j] != t[j] ==> exists|k: int|
            (#[trigger] measured(m, k) matches Some((d, _)) && d <= j < d + repair::number_len(m, d))
}

/// A stream of the second pass keeps the file on its way.
#[verifier::rlimit(40)]
proof fn lemma_stays_on_the_way(m: Seq<u8>, t: Seq<u8>, i: int, kw: int)
    requires
        0 <= i <= kw,
        bytes::occurs_at(t, "stream".spec_bytes(), kw),
        forall|k: int| i <= k < kw ==> measured(t, k) is None,
        forall|k: int| #[trigger] at_rest(m, k, m.len() as int),
        on_the_way(m, t, i),
    ensures
        on_the_way(m, repair::corrected(t, kw), kw + 6),
{
    let r = repair::corrected(t, kw);
    lemma_changed(t, kw);
    repair::lemma_corrected(t, kw);
    assert(measured(t, kw) == measured(m, kw));
    assert(at_rest(m, kw, m.len() as int));
    assert forall|k: int| #[trigger] measured(r, k) == measured(m, k) by {
        lemma_step(t, kw, k);
        assert(measured(t, k) == measured(m, k));
    }
    assert forall|k: int| #[trigger] measured(m, k) matches Some((d, _)) ==> same_slot(m, r, d)
        || pending(m, r, kw + 6, d) by {
        if let Some((d, v)) = measured(m, k) {
            lemma_step(t, kw, k);
            assert(measured(t, k) == measured(m, k));
            lemma_slot_on_the_way(m, t, i, kw, k);
        }
    }
    assert forall|j: int| 0 <= j < m.len() && #[trigger] m[j] != r[j] implies exists|k: int|
        (#[trigger] measured(m, k) matches Some((d, _)) && d <= j < d + repair::number_len(m, d)) by {
        if m[j] == t[j] {
            assert(t[j] != r[j]);
            let (d, a) = measured(m, kw).unwrap();
            assert(same_slot(m, t, d) || pending(m, t, i, d));
            assert(d <= j < d + repair::number_len(m, d));
        }
    }
}

/// The same, of one length.
#[verifier::rlimit(40)]
proof fn lemma_slot_on_the_way(m: Seq<u8>, t: Seq<u8>, i: int, kw: int, k: int)
    requires
        0 <= i <= kw,
        bytes::occurs_at(t, "stream".spec_bytes(), kw),
        forall|k: int| i <= k < kw ==> measured(t, k) is None,
        at_rest(m, kw, m.len() as int),
        forall|k: int| #[trigger] measured(t, k) == measured(m, k),
        measured(m, k) matches Some((d, _)) && (same_slot(m, t, d) || pending(m, t, i, d)),
    ensures
        ({
            let d = measured(m, k).unwrap().0;
            same_slot(m, repair::corrected(t, kw), d) || pending(m, repair::corrected(t, kw), kw + 6, d)
        }),
{
    let r = repair::corrected(t, kw);
    let (d, v) = measured(m, k).unwrap();
    lemma_changed(t, kw);
    lemma_step(t, kw, k);
    assert(measured(t, kw) == measured(m, kw));
    assert(measured(t, k) == measured(m, k));
    let written = measured(t, kw) matches Some((d2, a)) && d == d2 && repair::replaceable(t, d2, a);
    if !written {
        assert(same_slot(t, r, d));
        if pending(m, t, i, d) && !same_slot(m, t, d) {
            let k2 = choose|k2: int|
                i <= k2 && #[trigger] measured(m, k2) == Some((d, repair::number_at(m, d)));
            assert(measured(t, k2) == measured(m, k2));
            assert(k2 >= kw);
            if k2 == kw {
                assert(repair::number_at(t, d) == repair::number_at(m, d));
                assert(false);
            }
            lemma_measured(t, k2);
            lemma_apart(t, kw, k2);
            assert(repair::number_at(r, d) == repair::number_at(t, d));
            assert(pending(m, r, kw + 6, d));
        }
    } else {
        let a = measured(t, kw).unwrap().1;
        bytes::law_decimal_reads_back(a);
        bytes::law_decimal_reads_back(repair::number_at(m, d));
        if same_slot(m, t, d) {
            assert(repair::number_at(m, d) == repair::number_at(t, d));
        }
        if !repair::replaceable(m, d, a) {
            assert(repair::number_at(m, d) == a);
            assert(same_slot(m, r, d));
        } else {
            let k2 = choose|k2: int|
                kw < k2 < m.len() && #[trigger] measured(m, k2) == Some((d, repair::number_at(m, d)));
            assert(measured(t, k2) == measured(m, k2));
            lemma_measured(t, k2);
            lemma_apart(t, kw, k2);
            assert(pending(m, r, kw + 6, d));
        }
    }
}

/// The second pass over `m` ends where it began.
proof fn lemma_second_pass(m: Seq<u8>, t: Seq<u8>, i: int)
    requires
        0 <= i,
        forall|k: int| #[trigger] at_rest(m, k, m.len() as int),
        on_the_way(m, t, i),
    ensures
        repair::lengths_fixed_from(t, i) == m,
    decreases t.len() - i,
{
    repair::lemma_keywords();
    bytes::lemma_first_at(t, "stream".spec_bytes(), i);
    match bytes::first_at(t, "stream".spec_bytes(), i) {
        Some(kw) => {
            repair::lemma_corrected(t, kw);
            assert forall|k: int| i <= k < kw implies #[trigger] measured(t, k) is None by {
                if measured(t, k) is Some {
                    lemma_measured(t, k);
                }
            }
            lemma_stays_on_the_way(m, t, i, kw);
            lemma_second_pass(m, repair::corrected(t, kw), kw + 6);
        },
        None => {
            lemma_arrived(m, t, i);
        },
    }
}

/// A file on its way is there when no stream is left.
#[verifier::rlimit(40)]
proof fn lemma_arrived(m: Seq<u8>, t: Seq<u8>, i: int)
    requires
        on_the_way(m, t, i),
        forall|k: int| i <= k ==> !#[trigger] bytes::occurs_at(t, "stream".spec_bytes(), k),
    ensures
        m == t,
{
    assert forall|j: int| 0 <= j < m.len() implies m[j] == t[j] by {
        if m[j] != t[j] {
            let k = choose|k: int|
                (#[trigger] measured(m, k) matches Some((d, _)) && d <= j < d + repair::number_len(m, d));
            let d = measured(m, k).unwrap().0;
            lemma_measured(m, k);
            if pending(m, t, i, d) {
                let k2 = choose|k2: int|
                    i <= k2 && #[trigger] measured(m, k2) == Some((d, repair::number_at(m, d)));
                assert(measured(t, k2) == measured(m, k2));
                lemma_measured(t, k2);
            }
            assert(same_slot(m, t, d));
            let n = repair::number_len(m, d);
            assert(m.subrange(d, d + n)[j - d] == m[j]);
            assert(t.subrange(d, d + n)[j - d] == t[j]);
        }
    }
    assert(m =~= t);
}

/// Correcting the lengths a second time changes nothing, where no length that two
/// streams share has leading zeros.
pub proof fn law_second_length_fix_changes_nothing(s: Seq<u8>)
    requires
        shared_lengths_plain(s),
    ensures
        repair::lengths_fixed(repair::lengths_fixed(s)) == repair::lengths_fixed(s),
{
    reveal(measured);
    let m = repair::lengths_fixed(s);
    assert forall|k: int| k < 0 implies #[trigger] at_rest(s, k, 0) by {
        assert(measured(s, k) is None);
    }
    lemma_first_pass(s, 0);
    assert(on_the_way(m, m, 0));
    lemma_second_pass(m, m, 0);
}

/// No two streams take their length from the same entry.
pub open spec fn lengths_apart(s: Seq<u8>) -> bool {
    forall|k: int, kw: int| !(#[trigger] shares(s, k, kw))
}

/// A correction leaves lengths apart.
proof fn lemma_stays_apart(s: Seq<u8>, kw: int)
    requires
        bytes::occurs_at(s, "stream".spec_bytes(), kw),
        lengths_apart(s),
    ensures
        lengths_apart(repair::corrected(s, kw)),
{
    let m = repair::corrected(s, kw);
    assert forall|a: int, b: int| !(#[trigger] shares(m, a, b)) by {
        lemma_step(s, kw, a);
        lemma_step(s, kw, b);
        assert(!shares(s, a, b));
    }
}

/// The streams before `i` are left alone, those from `i` on get their length.
proof fn lemma_slot_after(s: Seq<u8>, i: int, kw: int)
    requires
        0 <= i,
        lengths_apart(s),
        measured(s, kw) is Some,
    ensures
        ({
            let (d, v) = measured(s, kw).unwrap();
            let m = repair::lengths_fixed_from(s, i);
            &&& kw < i ==> same_slot(s, m, d)
            &&& kw >= i && repair::number_len(s, d) > 0 && repair::number_at(s, d) <= usize::MAX
                && bytes::decimal(v).len() <= repair::number_len(s, d) ==> repair::number_at(m, d)
                == v
            &&& kw >= i && bytes::decimal(v).len() > repair::number_len(s, d) ==> same_slot(s, m, d)
        }),
    decreases s.len() - i,
{
    let (d, v) = measured(s, kw).unwrap();
    repair::lemma_keywords();
    bytes::lemma_first_at(s, "stream".spec_bytes(), i);
    lemma_measured(s, kw);
    match bytes::first_at(s, "stream".spec_bytes(), i) {
        Some(k) => {
            let t = repair::corrected(s, k);
            repair::lemma_corrected(s, k);
            lemma_step(s, k, kw);
            lemma_stays_apart(s, k);
            lemma_changed(s, k);
            if k == kw {
                lemma_slot_after(t, k + 6, kw);
            } else {
                assert(!shares(s, k, kw));
                if kw > k {
                    lemma_apart(s, k, kw);
                }
                lemma_slot_after(t, k + 6, kw);
            }
        },
        None => {},
    }
}

/// Every stream of the file gets the length of its data, from the first to the last,
/// where it has a number that leaves room for it; and where it leaves no room, the
/// number stays as it was.
pub proof fn law_every_stream_gets_its_length(s: Seq<u8>, kw: int)
    requires
        lengths_apart(s),
        bytes::occurs_at(s, "stream".spec_bytes(), kw),
        !bytes::occurs_at(s, "end".spec_bytes(), kw - 3),
        repair::data_end(s, kw) is Some,
        repair::length_at(s, kw) is Some,
    ensures
        ({
            let d = repair::length_at(s, kw)->0;
            let v = (repair::data_end(s, kw)->0 - repair::data_start(s, kw)) as nat;
            let m = repair::lengths_fixed(s);
            &&& repair::number_len(s, d) > 0 && repair::number_at(s, d) <= usize::MAX
                && bytes::decimal(v).len() <= repair::number_len(s, d) ==> repair::number_at(m, d)
                == v
            &&& bytes::decimal(v).len() > repair::number_len(s, d) ==> repair::number_at(m, d)
                == repair::number_at(s, d)
        }),
{
    reveal(measured);
    repair::lemma_keywords();
    lemma_slot_after(s, 0, kw);
}

} // verus!
