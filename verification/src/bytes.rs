//! Byte-string searching and decimal numbers in byte strings.

use vstd::prelude::*;

verus! {

/// `needle` stands in `hay` at index `i`.
pub open spec fn occurs_at(hay: Seq<u8>, needle: Seq<u8>, i: int) -> bool {
    0 <= i && i + needle.len() <= hay.len() && hay.subrange(i, i + needle.len()) == needle
}

/// The first index at or after `from` at which `needle` stands in `hay`.
pub open spec fn first_at(hay: Seq<u8>, needle: Seq<u8>, from: int) -> Option<int>
    decreases hay.len() + 1 - from,
{
    if from < 0 || from + needle.len() > hay.len() {
        None
    } else if occurs_at(hay, needle, from) {
        Some(from)
    } else {
        first_at(hay, needle, from + 1)
    }
}

/// The last index below `end` at which `needle` stands in `hay`.
pub open spec fn last_before(hay: Seq<u8>, needle: Seq<u8>, end: int) -> Option<int>
    decreases end,
{
    if end <= 0 {
        None
    } else if occurs_at(hay, needle, end - 1) {
        Some(end - 1)
    } else {
        last_before(hay, needle, end - 1)
    }
}

/// The first index found is an occurrence, and none lies before it.
pub proof fn lemma_first_at(hay: Seq<u8>, needle: Seq<u8>, from: int)
    requires
        0 <= from,
    ensures
        match first_at(hay, needle, from) {
            Some(k) => from <= k && occurs_at(hay, needle, k) && forall|j: int|
                from <= j < k ==> !occurs_at(hay, needle, j),
            None => forall|j: int| from <= j ==> !occurs_at(hay, needle, j),
        },
    decreases hay.len() + 1 - from,
{
    if from + needle.len() > hay.len() {
    } else if occurs_at(hay, needle, from) {
    } else {
        lemma_first_at(hay, needle, from + 1);
        assert forall|j: int| from <= j && (first_at(hay, needle, from) matches Some(k) ==> j < k)
            implies !occurs_at(hay, needle, j) by {
            if j > from {
                assert(from + 1 <= j);
            }
        }
    }
}

/// The last index found is an occurrence below the bound, and none lies
/// between it and the bound.
pub proof fn lemma_last_before(hay: Seq<u8>, needle: Seq<u8>, end: int)
    ensures
        match last_before(hay, needle, end) {
            Some(k) => 0 <= k < end && occurs_at(hay, needle, k) && forall|j: int|
                k < j < end ==> !occurs_at(hay, needle, j),
            None => forall|j: int| j < end ==> !occurs_at(hay, needle, j),
        },
    decreases end,
{
    if end <= 0 {
    } else if occurs_at(hay, needle, end - 1) {
    } else {
        lemma_last_before(hay, needle, end - 1);
    }
}

/// Whether `needle` stands in `hay` at index `i`.
pub fn matches_at(hay: &[u8], needle: &[u8], i: usize) -> (r: bool)
    ensures
        r == occurs_at(hay@, needle@, i as int),
{
    if i > hay.len() || needle.len() > hay.len() - i {
        return false;
    }
    let mut k: usize = 0;
    while k < needle.len()
        invariant
            k <= needle.len(),
            i + needle.len() <= hay.len(),
            forall|j: int| 0 <= j < k ==> hay@[i + j] == needle@[j],
        decreases needle.len() - k,
    {
        if hay[i + k] != needle[k] {
            assert(hay@.subrange(i as int, i + needle.len())[k as int] != needle@[k as int]);
            return false;
        }
        k += 1;
    }
    assert(hay@.subrange(i as int, i + needle.len()) =~= needle@);
    true
}

/// Whether two byte strings are the same.
pub fn same_bytes(a: &[u8], b: &[u8]) -> (r: bool)
    ensures
        r == (a@ == b@),
{
    if a.len() != b.len() {
        return false;
    }
    let r = matches_at(a, b, 0);
    assert(a@.subrange(0, a@.len() as int) =~= a@);
    r
}

/// Whether `hay` begins with `needle`.
pub fn has_prefix(hay: &[u8], needle: &[u8]) -> (r: bool)
    ensures
        r == occurs_at(hay@, needle@, 0),
{
    matches_at(hay, needle, 0)
}

/// Index of the first occurrence of `needle` at or after `from`.
pub fn find_from(hay: &[u8], needle: &[u8], from: usize) -> (r: Option<usize>)
    ensures
        match r {
            Some(k) => first_at(hay@, needle@, from as int) == Some(k as int),
            None => first_at(hay@, needle@, from as int) is None,
        },
{
    let mut i: usize = from;
    while i <= hay.len() && needle.len() <= hay.len() - i
        invariant
            from <= i,
            first_at(hay@, needle@, from as int) == first_at(hay@, needle@, i as int),
        decreases hay.len() + 1 - i,
    {
        if matches_at(hay, needle, i) {
            return Some(i);
        }
        assert(i == hay@.len() ==> hay@.subrange(i as int, i as int) =~= needle@);
        i += 1;
    }
    None
}

/// Index of the first occurrence of a non-empty `needle` in `haystack`.
pub fn find(haystack: &[u8], needle: &[u8]) -> (r: Option<usize>)
    requires
        needle@.len() > 0,
    ensures
        match r {
            Some(k) => first_at(haystack@, needle@, 0) == Some(k as int),
            None => first_at(haystack@, needle@, 0) is None,
        },
{
    find_from(haystack, needle, 0)
}

/// Index of the last occurrence of a non-empty `needle` in `hay`.
pub fn find_last(hay: &[u8], needle: &[u8]) -> (r: Option<usize>)
    requires
        needle@.len() > 0,
    ensures
        match r {
            Some(k) => last_before(hay@, needle@, hay@.len() as int) == Some(k as int),
            None => last_before(hay@, needle@, hay@.len() as int) is None,
        },
{
    let mut i: usize = hay.len();
    while i > 0
        invariant
            i <= hay.len(),
            last_before(hay@, needle@, hay@.len() as int) == last_before(hay@, needle@, i as int),
        decreases i,
    {
        if matches_at(hay, needle, i - 1) {
            return Some(i - 1);
        }
        i -= 1;
    }
    None
}

/// Append `other` to `out`.
pub fn append_bytes(out: &mut Vec<u8>, other: &[u8])
    ensures
        final(out)@ == old(out)@ + other@,
{
    out.extend_from_slice(other);
    assert(out@ =~= old(out)@ + other@);
}

/// A copy of a byte string.
pub fn copy_bytes(s: &[u8]) -> (r: Vec<u8>)
    ensures
        r@ == s@,
{
    let mut r: Vec<u8> = Vec::new();
    append_bytes(&mut r, s);
    r
}

/// An ASCII decimal digit.
pub open spec fn is_digit(b: u8) -> bool {
    0x30 <= b <= 0x39
}

/// Every byte is an ASCII decimal digit.
pub open spec fn all_digits(s: Seq<u8>) -> bool {
    forall|i: int| 0 <= i < s.len() ==> is_digit(#[trigger] s[i])
}

/// Whether a byte is an ASCII decimal digit.
pub fn digit(b: u8) -> (r: bool)
    ensures
        r == is_digit(b),
{
    0x30 <= b && b <= 0x39
}

/// Whether every byte is an ASCII decimal digit.
pub fn only_digits(s: &[u8]) -> (r: bool)
    ensures
        r == all_digits(s@),
{
    let mut i: usize = 0;
    while i < s.len()
        invariant
            i <= s.len(),
            forall|j: int| 0 <= j < i ==> is_digit(#[trigger] s@[j]),
        decreases s.len() - i,
    {
        if !digit(s[i]) {
            return false;
        }
        i += 1;
    }
    true
}

/// The number of leading digits of `s`.
pub open spec fn digit_run(s: Seq<u8>) -> nat
    decreases s.len(),
{
    if s.len() > 0 && is_digit(s[0]) {
        1 + digit_run(s.drop_first())
    } else {
        0
    }
}

/// A run of digits is a prefix of digits that the next byte ends.
pub proof fn lemma_digit_run(s: Seq<u8>)
    ensures
        digit_run(s) <= s.len(),
        all_digits(s.take(digit_run(s) as int)),
        digit_run(s) < s.len() ==> !is_digit(s[digit_run(s) as int]),
    decreases s.len(),
{
    if s.len() > 0 && is_digit(s[0]) {
        let t = s.drop_first();
        lemma_digit_run(t);
        assert forall|i: int| 0 <= i < digit_run(s) implies is_digit(
            #[trigger] s.take(digit_run(s) as int)[i],
        ) by {
            if i > 0 {
                assert(t.take(digit_run(t) as int)[i - 1] == s[i]);
            }
        }
    }
}

/// The number of digits that stand in `s` from `from` on.
pub fn count_digits(s: &[u8], from: usize) -> (r: usize)
    requires
        from <= s@.len(),
    ensures
        r == digit_run(s@.skip(from as int)),
        from + r <= s@.len(),
{
    let mut n: usize = 0;
    while from + n < s.len() && digit(s[from + n])
        invariant
            from + n <= s.len(),
            digit_run(s@.skip(from as int)) == n + digit_run(s@.skip(from + n)),
        decreases s.len() - from - n,
    {
        assert(s@.skip(from + n).drop_first() =~= s@.skip(from + n + 1));
        n += 1;
    }
    n
}

/// The value of a string of decimal digits.
pub open spec fn decimal_value(s: Seq<u8>) -> nat
    decreases s.len(),
{
    if s.len() == 0 {
        0
    } else {
        decimal_value(s.drop_last()) * 10 + (s.last() - 0x30) as nat
    }
}

/// A longer digit string has no smaller value than its prefix.
proof fn lemma_decimal_prefix(s: Seq<u8>, i: int)
    requires
        0 <= i <= s.len(),
    ensures
        decimal_value(s.take(i)) <= decimal_value(s),
    decreases s.len(),
{
    if i == s.len() {
        assert(s.take(i) =~= s);
    } else {
        assert(s.drop_last().take(i) =~= s.take(i));
        lemma_decimal_prefix(s.drop_last(), i);
    }
}

/// Read a non-empty string of decimal digits; `None` when the value does not
/// fit.
pub fn read_decimal(s: &[u8]) -> (r: Option<usize>)
    requires
        all_digits(s@),
    ensures
        match r {
            Some(v) => v == decimal_value(s@),
            None => decimal_value(s@) > usize::MAX,
        },
{
    let mut v: usize = 0;
    let mut i: usize = 0;
    while i < s.len()
        invariant
            i <= s.len(),
            all_digits(s@),
            v == decimal_value(s@.take(i as int)),
        decreases s.len() - i,
    {
        let d: usize = (s[i] - 0x30) as usize;
        proof {
            assert(is_digit(s@[i as int]));
            assert(s@.take(i + 1).drop_last() =~= s@.take(i as int));
            lemma_decimal_prefix(s@, i + 1);
        }
        match v.checked_mul(10) {
            None => {
                return None;
            },
            Some(t) => match t.checked_add(d) {
                None => {
                    return None;
                },
                Some(u) => {
                    v = u;
                },
            },
        }
        i += 1;
    }
    assert(s@.take(i as int) =~= s@);
    Some(v)
}

/// The decimal digits of a number, without leading zeros.
pub open spec fn decimal(n: nat) -> Seq<u8>
    decreases n,
{
    if n < 10 {
        seq![(0x30 + n) as u8]
    } else {
        decimal(n / 10).push((0x30 + n % 10) as u8)
    }
}

/// Writing a number in decimal and reading it back gives the number.
pub proof fn law_decimal_reads_back(n: nat)
    ensures
        decimal(n).len() > 0,
        all_digits(decimal(n)),
        decimal_value(decimal(n)) == n,
    decreases n,
{
    if n < 10 {
        assert(decimal(n).drop_last() =~= Seq::<u8>::empty());
        assert(decimal_value(decimal(n).drop_last()) == 0);
        assert(decimal(n).last() == (0x30 + n) as u8);
    } else {
        law_decimal_reads_back(n / 10);
        assert(decimal(n).drop_last() =~= decimal(n / 10));
    }
}

/// The decimal digits of a number.
pub fn write_decimal(n: usize) -> (r: Vec<u8>)
    ensures
        r@ == decimal(n as nat),
    decreases n,
{
    let mut r: Vec<u8> = if n < 10 {
        Vec::new()
    } else {
        write_decimal(n / 10)
    };
    r.push((0x30 + n % 10) as u8);
    assert(r@ =~= decimal(n as nat));
    r
}

} // verus!
