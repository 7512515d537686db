//! Which text a map gives to which code, told by the digits that are written.

use crate::cmap;
use crate::names;
use crate::text;
use vstd::prelude::*;
use vstd::string::StringSliceAdditionalSpecFns;

verus! {

/// The sixteen digits in order, in capitals or not.
pub open spec fn digits(capitals: bool) -> Seq<u8> {
    if capitals {
        "0123456789ABCDEF".spec_bytes()
    } else {
        "0123456789abcdef".spec_bytes()
    }
}

/// A number written with `n` digits to the base 16.
pub open spec fn hex_text(capitals: bool, v: nat, n: nat) -> Seq<u8>
    decreases n,
{
    if n == 0 {
        Seq::empty()
    } else {
        hex_text(capitals, v / 16, (n - 1) as nat).push(digits(capitals)[(v % 16) as int])
    }
}

/// 16 to a power.
pub open spec fn sixteens(n: nat) -> nat
    decreases n,
{
    if n == 0 {
        1
    } else {
        16 * sixteens((n - 1) as nat)
    }
}

/// The digits are worth 0 to 15.
proof fn lemma_digits(capitals: bool, k: int)
    requires
        0 <= k < 16,
    ensures
        digits(capitals).len() == 16,
        names::hex_digit(digits(capitals)[k]) == Some(k as nat),
        digits(capitals)[k] != 0x2B,
        digits(capitals)[k] != 0x3E,
        digits(capitals)[k] != 0x2E,
        digits(capitals)[k] < 0x80,
{
    reveal_strlit("0123456789ABCDEF");
    reveal_strlit("0123456789abcdef");
    vstd::string::is_ascii_spec_bytes("0123456789ABCDEF");
    vstd::string::is_ascii_spec_bytes("0123456789abcdef");
    let d = digits(capitals);
    assert(d[0] == 0x30 && d[1] == 0x31 && d[2] == 0x32 && d[3] == 0x33 && d[4] == 0x34);
    assert(d[5] == 0x35 && d[6] == 0x36 && d[7] == 0x37 && d[8] == 0x38 && d[9] == 0x39);
    if capitals {
        assert(d[10] == 0x41 && d[11] == 0x42 && d[12] == 0x43 && d[13] == 0x44 && d[14] == 0x45
            && d[15] == 0x46);
    } else {
        assert(d[10] == 0x61 && d[11] == 0x62 && d[12] == 0x63 && d[13] == 0x64 && d[14] == 0x65
            && d[15] == 0x66);
    }
}

/// A written number has as many digits as asked for, and is worth what was written.
pub proof fn law_hexadecimal_numbers_read_back(capitals: bool, v: nat, n: nat)
    requires
        v < sixteens(n),
    ensures
        hex_text(capitals, v, n).len() == n,
        names::hex_digits(hex_text(capitals, v, n)) == Some(v),
        n > 0 ==> names::hex_number(hex_text(capitals, v, n)) == Some(v),
        forall|i: int|
            0 <= i < n ==> #[trigger] hex_text(capitals, v, n)[i] != 0x2B && hex_text(
                capitals,
                v,
                n,
            )[i] != 0x3E && hex_text(capitals, v, n)[i] != 0x2E && hex_text(capitals, v, n)[i]
                < 0x80,
    decreases n,
{
    if n > 0 {
        let s = hex_text(capitals, v, n);
        let r = hex_text(capitals, v / 16, (n - 1) as nat);
        law_hexadecimal_numbers_read_back(capitals, v / 16, (n - 1) as nat);
        lemma_digits(capitals, (v % 16) as int);
        assert(s.drop_last() =~= r);
        assert(s.last() == digits(capitals)[(v % 16) as int]);
        assert forall|i: int| 0 <= i < n implies #[trigger] s[i] != 0x2B && s[i] != 0x3E && s[i]
            != 0x2E && s[i] < 0x80 by {
            if i < n - 1 {
                assert(s[i] == r[i]);
            }
        }
        assert(s[0] != 0x2B);
    }
}

/// Two bytes are the same but for the case of a hexadecimal digit.
pub open spec fn same_digit(a: u8, b: u8) -> bool {
    ||| a == b
    ||| 0x41 <= a <= 0x46 && b == a + 0x20
    ||| 0x41 <= b <= 0x46 && a == b + 0x20
}

/// Two strings are the same but for the case of hexadecimal digits.
pub open spec fn same_digits(a: Seq<u8>, b: Seq<u8>) -> bool {
    a.len() == b.len() && forall|i: int| 0 <= i < a.len() ==> same_digit(#[trigger] a[i], b[i])
}

/// Digits of either case are worth the same.
proof fn lemma_same_digits(a: Seq<u8>, b: Seq<u8>)
    requires
        same_digits(a, b),
    ensures
        names::hex_digits(a) == names::hex_digits(b),
        names::hex_number(a) == names::hex_number(b),
    decreases a.len(),
{
    if a.len() > 0 {
        assert(same_digit(a[a.len() - 1], b[a.len() - 1]));
        assert(same_digit(a[0], b[0]));
        assert forall|i: int| 0 <= i < a.drop_last().len() implies same_digit(
            #[trigger] a.drop_last()[i],
            b.drop_last()[i],
        ) by {
            assert(same_digit(a[i], b[i]));
        }
        lemma_same_digits(a.drop_last(), b.drop_last());
        if a[0] == 0x2B {
            let x = a.drop_first();
            let y = b.drop_first();
            assert forall|i: int| 0 <= i < x.len() implies same_digit(#[trigger] x[i], y[i]) by {
                assert(same_digit(a[i + 1], b[i + 1]));
            }
            lemma_same_digits(x, y);
        }
    }
}

/// Pairs of digits of either case are the same bytes.
proof fn lemma_same_pairs(a: Seq<u8>, b: Seq<u8>)
    requires
        same_digits(a, b),
    ensures
        cmap::hex_pairs(a) == cmap::hex_pairs(b),
    decreases a.len(),
{
    if a.len() >= 2 {
        assert forall|i: int| 0 <= i < 2 implies same_digit(#[trigger] a.take(2)[i], b.take(2)[i]) by {
            assert(same_digit(a[i], b[i]));
        }
        lemma_same_digits(a.take(2), b.take(2));
        assert forall|i: int| 0 <= i < a.skip(2).len() implies same_digit(
            #[trigger] a.skip(2)[i],
            b.skip(2)[i],
        ) by {
            assert(same_digit(a[i + 2], b[i + 2]));
        }
        lemma_same_pairs(a.skip(2), b.skip(2));
    }
}

/// Two tokens are the same, or groups that are but for the case of digits.
pub open spec fn same_token(a: Seq<u8>, b: Seq<u8>) -> bool {
    a == b || (a.len() > 0 && a[0] == 0x3C && same_digits(a, b))
}

/// Tokens that are the same but for case hold the same.
proof fn lemma_same_token(a: Seq<u8>, b: Seq<u8>)
    requires
        same_token(a, b),
    ensures
        cmap::group(a) == cmap::group(b),
        a == b || a[0] == 0x3C && b[0] == 0x3C && a.len() > 0 && b.len() > 0,
{
    if a != b {
        assert(same_digit(a[0], b[0]));
        assert(same_digit(a[a.len() - 1], b[a.len() - 1]));
        if a.len() >= 2 {
            let x = a.subrange(1, a.len() - 1);
            let y = b.subrange(1, b.len() - 1);
            assert forall|i: int| 0 <= i < x.len() implies same_digit(#[trigger] x[i], y[i]) by {
                assert(same_digit(a[i + 1], b[i + 1]));
            }
            lemma_same_pairs(x, y);
        }
    }
}

/// Two lists of tokens are the same but for the case of digits.
pub open spec fn same_tokens(a: Seq<Seq<u8>>, b: Seq<Seq<u8>>) -> bool {
    a.len() == b.len() && forall|i: int| 0 <= i < a.len() ==> same_token(#[trigger] a[i], b[i])
}

/// The keywords are no groups.
proof fn lemma_keywords()
    ensures
        "beginbfchar".spec_bytes().len() > 0 && "beginbfchar".spec_bytes()[0] == 0x62,
        "beginbfrange".spec_bytes().len() > 0 && "beginbfrange".spec_bytes()[0] == 0x62,
        "endbfchar".spec_bytes().len() > 0 && "endbfchar".spec_bytes()[0] == 0x65,
        "endbfrange".spec_bytes().len() > 0 && "endbfrange".spec_bytes()[0] == 0x65,
        "[".spec_bytes() == seq![0x5Bu8],
        "]".spec_bytes() == seq![0x5Du8],
        "beginbfchar".spec_bytes() != "beginbfrange".spec_bytes(),
{
    reveal_strlit("beginbfchar");
    reveal_strlit("beginbfrange");
    reveal_strlit("endbfchar");
    reveal_strlit("endbfrange");
    reveal_strlit("[");
    reveal_strlit("]");
    vstd::string::is_ascii_spec_bytes("beginbfchar");
    vstd::string::is_ascii_spec_bytes("beginbfrange");
    vstd::string::is_ascii_spec_bytes("endbfchar");
    vstd::string::is_ascii_spec_bytes("endbfrange");
    vstd::string::is_ascii_spec_bytes("[");
    vstd::string::is_ascii_spec_bytes("]");
    assert("[".spec_bytes() =~= seq![0x5Bu8]);
    assert("]".spec_bytes() =~= seq![0x5Du8]);
    assert("beginbfchar".spec_bytes().len() == 11);
    assert("beginbfrange".spec_bytes().len() == 12);
}

/// Entries read the same whatever the case of digits.
proof fn lemma_same_chars(a: Seq<Seq<u8>>, b: Seq<Seq<u8>>, i: int, m: Map<u32, Seq<char>>)
    requires
        same_tokens(a, b),
        0 <= i,
    ensures
        cmap::chars_read(a, i, m) == cmap::chars_read(b, i, m),
    decreases a.len() - i,
{
    if i + 1 < a.len() {
        assert(same_token(a[i], b[i]) && same_token(a[i + 1], b[i + 1]));
        lemma_same_token(a[i], b[i]);
        lemma_same_token(a[i + 1], b[i + 1]);
        lemma_keywords();
        if a[i] != "endbfchar".spec_bytes() {
            match (cmap::group(a[i]), cmap::group(a[i + 1])) {
                (Some(src), Some(dst)) => {
                    lemma_same_chars(
                        a,
                        b,
                        i + 2,
                        m.insert(cmap::code_of(src), text::utf16_text(dst)),
                    );
                },
                _ => {
                    lemma_same_chars(a, b, i + 2, m);
                },
            }
        }
    }
}

/// Lists read the same whatever the case of digits.
proof fn lemma_same_list(
    a: Seq<Seq<u8>>,
    b: Seq<Seq<u8>>,
    j: int,
    code: u32,
    m: Map<u32, Seq<char>>,
)
    requires
        same_tokens(a, b),
        0 <= j,
    ensures
        cmap::list_read(a, j, code, m) == cmap::list_read(b, j, code, m),
    decreases a.len() - j,
{
    if j < a.len() {
        assert(same_token(a[j], b[j]));
        lemma_same_token(a[j], b[j]);
        lemma_keywords();
        if a[j] != "]".spec_bytes() {
            match cmap::group(a[j]) {
                Some(dst) => {
                    lemma_same_list(
                        a,
                        b,
                        j + 1,
                        cmap::next_code(code),
                        m.insert(code, text::utf16_text(dst)),
                    );
                },
                None => {
                    lemma_same_list(a, b, j + 1, cmap::next_code(code), m);
                },
            }
        }
    }
}

/// Ranges read the same whatever the case of digits.
proof fn lemma_same_ranges(a: Seq<Seq<u8>>, b: Seq<Seq<u8>>, i: int, m: Map<u32, Seq<char>>)
    requires
        same_tokens(a, b),
        0 <= i,
    ensures
        cmap::ranges_read(a, i, m) == cmap::ranges_read(b, i, m),
    decreases a.len() - i,
{
    if i + 2 < a.len() {
        assert(same_token(a[i], b[i]) && same_token(a[i + 1], b[i + 1]) && same_token(
            a[i + 2],
            b[i + 2],
        ));
        lemma_same_token(a[i], b[i]);
        lemma_same_token(a[i + 1], b[i + 1]);
        lemma_same_token(a[i + 2], b[i + 2]);
        lemma_keywords();
        if a[i] != "endbfrange".spec_bytes() {
            match (cmap::group(a[i]), cmap::group(a[i + 1])) {
                (Some(lo), Some(hi)) => if a[i + 2] == "[".spec_bytes() {
                    lemma_same_list(a, b, i + 3, cmap::code_of(lo), m);
                    cmap::lemma_list_read(a, i + 3, cmap::code_of(lo), m);
                    let (next, listed) = cmap::list_read(a, i + 3, cmap::code_of(lo), m);
                    lemma_same_ranges(a, b, next, listed);
                } else {
                    match cmap::group(a[i + 2]) {
                        Some(dst) => {
                            lemma_same_ranges(
                                a,
                                b,
                                i + 3,
                                cmap::with_run(
                                    m,
                                    cmap::code_of(lo),
                                    cmap::code_of(hi),
                                    cmap::code_of(dst),
                                ),
                            );
                        },
                        None => {
                            lemma_same_ranges(a, b, i + 1, m);
                        },
                    }
                },
                _ => {
                    lemma_same_ranges(a, b, i + 1, m);
                },
            }
        }
    }
}

/// Sections read the same whatever the case of digits.
proof fn lemma_same_sections(a: Seq<Seq<u8>>, b: Seq<Seq<u8>>, i: int, m: Map<u32, Seq<char>>)
    requires
        same_tokens(a, b),
        0 <= i,
    ensures
        cmap::sections_read(a, i, m) == cmap::sections_read(b, i, m),
    decreases a.len() - i,
{
    if i < a.len() {
        assert(same_token(a[i], b[i]));
        lemma_same_token(a[i], b[i]);
        lemma_keywords();
        if a[i] == "beginbfchar".spec_bytes() {
            cmap::lemma_chars_read(a, i + 1, m);
            lemma_same_chars(a, b, i + 1, m);
            let (next, read) = cmap::chars_read(a, i + 1, m);
            lemma_same_sections(a, b, next, read);
        } else if a[i] == "beginbfrange".spec_bytes() {
            cmap::lemma_ranges_read(a, i + 1, m);
            lemma_same_ranges(a, b, i + 1, m);
            let (next, read) = cmap::ranges_read(a, i + 1, m);
            lemma_same_sections(a, b, next, read);
        } else {
            lemma_same_sections(a, b, i + 1, m);
        }
    }
}

/// The case of hexadecimal digits does not matter: two maps that are written with the
/// same tokens but for the case of the digits in groups define the same texts.
pub proof fn law_case_of_digits_does_not_matter(
    a: Seq<Seq<u8>>,
    b: Seq<Seq<u8>>,
    before: Seq<Seq<u8>>,
    after: Seq<Seq<u8>>,
)
    requires
        same_tokens(a, b),
        cmap::well_spaced(a, before),
        cmap::well_spaced(b, after),
    ensures
        cmap::unicode_map(cmap::spelled(a, before)) == cmap::unicode_map(cmap::spelled(b, after)),
{
    cmap::law_written_tokens_are_read_back(a, before);
    cmap::law_written_tokens_are_read_back(b, after);
    lemma_same_sections(a, b, 0, Map::empty());
}

/// The group that writes a number with `n` digits.
pub open spec fn written(capitals: bool, v: nat, n: nat) -> Seq<u8> {
    seq![0x3Cu8] + hex_text(capitals, v, n) + seq![0x3Eu8]
}

/// The pairs of four written digits are the two bytes of the number.
proof fn lemma_four_digits(capitals: bool, v: nat)
    requires
        v < 0x1_0000,
    ensures
        cmap::hex_pairs(hex_text(capitals, v, 4)) == seq![(v / 256) as u8, (v % 256) as u8],
{
    let s = hex_text(capitals, v, 4);
    reveal_with_fuel(sixteens, 5);
    law_hexadecimal_numbers_read_back(capitals, v, 4);
    law_hexadecimal_numbers_read_back(capitals, v / 256, 2);
    law_hexadecimal_numbers_read_back(capitals, v % 256, 2);
    reveal_with_fuel(hex_text, 5);
    let high = hex_text(capitals, v / 256, 2);
    let low = hex_text(capitals, v % 256, 2);
    assert(v / 16 / 16 == v / 256 && (v / 16) % 16 == (v % 256) / 16 && v % 16 == (v % 256) % 16);
    assert((v % 256) / 16 % 16 == (v % 256) / 16);
    assert(s.take(2) =~= high);
    assert(s.skip(2) =~= low);
    assert(low.take(2) =~= low);
    reveal_with_fuel(cmap::hex_pairs, 3);
    assert(low.skip(2).len() == 0);
    assert(cmap::hex_pairs(s) =~= seq![(v / 256) as u8, (v % 256) as u8]);
}

/// The pair of two written digits is the number.
proof fn lemma_two_digits(capitals: bool, v: nat)
    requires
        v < 256,
    ensures
        cmap::hex_pairs(hex_text(capitals, v, 2)) == seq![v as u8],
{
    let s = hex_text(capitals, v, 2);
    reveal_with_fuel(sixteens, 3);
    law_hexadecimal_numbers_read_back(capitals, v, 2);
    assert(s.take(2) =~= s);
    reveal_with_fuel(cmap::hex_pairs, 2);
    assert(s.skip(2).len() == 0);
    assert(cmap::hex_pairs(s) =~= seq![v as u8]);
}

/// A group of four digits that write a number is that one unit, and so is a group of
/// two.
pub proof fn law_groups_hold_the_numbers_they_write(capitals: bool, v: nat)
    ensures
        v < 0x1_0000 ==> cmap::group(written(capitals, v, 4)) == Some(seq![v as u16]),
        v < 0x1_0000 ==> cmap::is_closed_group(written(capitals, v, 4)),
        v < 0x100 ==> cmap::group(written(capitals, v, 2)) == Some(seq![v as u16]),
        v < 0x100 ==> cmap::is_closed_group(written(capitals, v, 2)),
{
    reveal_with_fuel(sixteens, 5);
    reveal_with_fuel(cmap::big_endian, 2);
    if v < 0x1_0000 {
        let g = written(capitals, v, 4);
        law_hexadecimal_numbers_read_back(capitals, v, 4);
        lemma_four_digits(capitals, v);
        assert(g.subrange(1, g.len() - 1) =~= hex_text(capitals, v, 4));
        let b = seq![(v / 256) as u8, (v % 256) as u8];
        assert(b.skip(2).len() == 0);
        assert(cmap::big_endian(b) =~= seq![v as u16]);
        assert forall|i: int| 0 < i < g.len() - 1 implies #[trigger] g[i] != 0x3E by {
            assert(g[i] == hex_text(capitals, v, 4)[i - 1]);
        }
    }
    if v < 0x100 {
        let g = written(capitals, v, 2);
        law_hexadecimal_numbers_read_back(capitals, v, 2);
        lemma_two_digits(capitals, v);
        assert(g.subrange(1, g.len() - 1) =~= hex_text(capitals, v, 2));
        assert(cmap::big_endian(seq![v as u8]) =~= seq![v as u16]);
        assert forall|i: int| 0 < i < g.len() - 1 implies #[trigger] g[i] != 0x3E by {
            assert(g[i] == hex_text(capitals, v, 2)[i - 1]);
        }
    }
}

/// The group that writes units one behind the other, four digits each.
pub open spec fn units_text(capitals: bool, u: Seq<u16>) -> Seq<u8>
    decreases u.len(),
{
    if u.len() == 0 {
        Seq::empty()
    } else {
        hex_text(capitals, u[0] as nat, 4) + units_text(capitals, u.drop_first())
    }
}

/// The closed group of some units.
pub open spec fn written_units(capitals: bool, u: Seq<u16>) -> Seq<u8> {
    seq![0x3Cu8] + units_text(capitals, u) + seq![0x3Eu8]
}

/// Written units are read back.
proof fn lemma_units_text(capitals: bool, u: Seq<u16>)
    ensures
        cmap::big_endian(cmap::hex_pairs(units_text(capitals, u))) == u,
        forall|i: int|
            0 <= i < units_text(capitals, u).len() ==> #[trigger] units_text(capitals, u)[i]
                != 0x3E,
    decreases u.len(),
{
    let s = units_text(capitals, u);
    if u.len() == 0 {
        assert(cmap::hex_pairs(s) =~= Seq::<u8>::empty());
        assert(cmap::big_endian(Seq::<u8>::empty()) =~= u);
    } else {
        let v = u[0] as nat;
        let d = hex_text(capitals, v, 4);
        let rest = units_text(capitals, u.drop_first());
        lemma_units_text(capitals, u.drop_first());
        reveal_with_fuel(sixteens, 5);
        law_hexadecimal_numbers_read_back(capitals, v, 4);
        lemma_four_digits(capitals, v);
        lemma_pairs_of_four(d, rest);
        let b = seq![(v / 256) as u8, (v % 256) as u8];
        let r = cmap::hex_pairs(rest);
        assert((b + r).skip(2) =~= r);
        assert(cmap::big_endian(b + r) =~= seq![u[0]] + cmap::big_endian(r));
        assert(seq![u[0]] + u.drop_first() =~= u);
        assert forall|i: int| 0 <= i < s.len() implies #[trigger] s[i] != 0x3E by {
            if i < 4 {
                assert(s[i] == d[i]);
            } else {
                assert(s[i] == rest[i - 4]);
            }
        }
    }
}

/// Two pairs go before the others.
proof fn lemma_pairs_of_four(d: Seq<u8>, rest: Seq<u8>)
    requires
        d.len() == 4,
    ensures
        cmap::hex_pairs(d + rest) == cmap::hex_pairs(d) + cmap::hex_pairs(rest),
{
    let s = d + rest;
    assert(s.take(2) =~= d.take(2));
    assert(s.skip(2).take(2) =~= d.skip(2).take(2));
    assert(s.skip(2).skip(2) =~= rest);
    assert(d.skip(2).skip(2) =~= Seq::<u8>::empty());
    reveal_with_fuel(cmap::hex_pairs, 3);
    assert(cmap::hex_pairs(s) =~= cmap::hex_pairs(d) + cmap::hex_pairs(rest));
}

/// A group of units, four digits for each, holds these units.
pub proof fn law_groups_hold_the_units_they_write(capitals: bool, u: Seq<u16>)
    ensures
        cmap::group(written_units(capitals, u)) == Some(u),
        cmap::is_closed_group(written_units(capitals, u)),
{
    let g = written_units(capitals, u);
    lemma_units_text(capitals, u);
    assert(g.subrange(1, g.len() - 1) =~= units_text(capitals, u));
    assert forall|i: int| 0 < i < g.len() - 1 implies #[trigger] g[i] != 0x3E by {
        assert(g[i] == units_text(capitals, u)[i - 1]);
    }
}

/// Units of a character outside the basic plane, or the one unit of a character in it.
pub open spec fn units_of(c: char) -> Seq<u16> {
    let v = c as int;
    if v < 0x1_0000 {
        seq![v as u16]
    } else {
        seq![(0xD800 + (v - 0x1_0000) / 0x400) as u16, (0xDC00 + (v - 0x1_0000) % 0x400) as u16]
    }
}

/// The UTF-16 units of a text.
pub open spec fn utf16_units(s: Seq<char>) -> Seq<u16>
    decreases s.len(),
{
    if s.len() == 0 {
        Seq::empty()
    } else {
        units_of(s[0]) + utf16_units(s.drop_first())
    }
}

/// The units of a character.
proof fn lemma_units_of(c: char)
    ensures
        0 <= (c as int) < 0x11_0000,
        (c as int) < 0xD800 || (c as int) >= 0xE000,
        (c as int) < 0x1_0000 ==> units_of(c).len() == 1 && units_of(c)[0] == c as int,
        (c as int) >= 0x1_0000 ==> units_of(c).len() == 2 && units_of(c)[0] == 0xD800 + (c as int
            - 0x1_0000) / 0x400 && units_of(c)[1] == 0xDC00 + (c as int - 0x1_0000) % 0x400,
{
    let v = c as int;
    assert(0 <= v < 0x11_0000);
}

/// The units of a text are read back as the text, whatever text it is.
pub proof fn law_utf16_units_are_read_back(s: Seq<char>)
    ensures
        text::utf16_text(utf16_units(s)) == s,
    decreases s.len(),
{
    let u = utf16_units(s);
    if s.len() == 0 {
        assert(text::utf16_text(u) =~= s);
    } else {
        let rest = utf16_units(s.drop_first());
        let v = s[0] as int;
        law_utf16_units_are_read_back(s.drop_first());
        assert(seq![s[0]] + s.drop_first() =~= s);
        let first = units_of(s[0]);
        lemma_units_of(s[0]);
        assert(u == first + rest);
        if v < 0x1_0000 {
            assert(first.len() == 1 && first[0] == v);
            assert(u.skip(1) =~= rest);
            assert(u[0] == v);
        } else {
            assert(first.len() == 2);
            assert(u.skip(2) =~= rest);
            assert(u[0] == first[0] && u[1] == first[1]);
            assert(u[0] == 0xD800 + (v - 0x1_0000) / 0x400);
            assert(u[1] == 0xDC00 + (v - 0x1_0000) % 0x400);
        }
    }
}

/// A surrogate that has no partner is shown as U+FFFD.
pub proof fn law_lone_surrogates_are_replaced(u: Seq<u16>)
    requires
        u.len() > 0,
        0xD800 <= u[0] <= 0xDFFF,
        u[0] >= 0xDC00 || u.len() == 1 || u[1] < 0xDC00 || u[1] > 0xDFFF,
    ensures
        text::utf16_text(u) == seq!['\u{FFFD}'] + text::utf16_text(u.skip(1)),
{
}

/// The code that a group writes with two, four or eight digits is its number.
pub proof fn law_codes_are_the_numbers_they_are_written_as(capitals: bool, v: nat, n: nat)
    requires
        n == 2 && v < 0x100 || n == 4 && v < 0x1_0000 || n == 8 && v < 0x1_0000_0000,
    ensures
        cmap::group(written(capitals, v, n)) is Some,
        cmap::code_of(cmap::group(written(capitals, v, n))->0) == v,
        cmap::is_closed_group(written(capitals, v, n)),
{
    if n == 8 {
        let u = seq![(v / 0x1_0000) as u16, (v % 0x1_0000) as u16];
        law_groups_hold_the_units_they_write(capitals, u);
        reveal_with_fuel(units_text, 3);
        reveal_with_fuel(hex_text, 9);
        let high = hex_text(capitals, v / 0x1_0000, 4);
        let low = hex_text(capitals, v % 0x1_0000, 4);
        let w = v % 0x1_0000;
        assert(v / 16 / 16 / 16 / 16 == v / 0x1_0000);
        assert(w % 16 == v % 16 && (w / 16) % 16 == (v / 16) % 16);
        assert((w / 16 / 16) % 16 == (v / 16 / 16) % 16);
        assert((w / 16 / 16 / 16) % 16 == (v / 16 / 16 / 16) % 16);
        assert(u.drop_first() =~= seq![u[1]]);
        assert(u.drop_first().drop_first().len() == 0);
        assert(hex_text(capitals, v, 8) =~= high + low);
        assert(units_text(capitals, u) =~= high + low);
        assert(written(capitals, v, 8) =~= written_units(capitals, u));
    } else {
        law_groups_hold_the_numbers_they_write(capitals, v);
    }
}

/// What is read depends on the tokens that are left only.
proof fn lemma_chars_alike(
    a: Seq<Seq<u8>>,
    i: int,
    b: Seq<Seq<u8>>,
    j: int,
    m: Map<u32, Seq<char>>,
)
    requires
        0 <= i <= a.len(),
        0 <= j <= b.len(),
        a.skip(i) == b.skip(j),
    ensures
        cmap::chars_read(a, i, m).0 - i == cmap::chars_read(b, j, m).0 - j,
        cmap::chars_read(a, i, m).1 == cmap::chars_read(b, j, m).1,
        i <= cmap::chars_read(a, i, m).0 <= a.len(),
    decreases a.len() - i,
{
    cmap::lemma_chars_read(a, i, m);
    assert(a.skip(i).len() == a.len() - i && b.skip(j).len() == b.len() - j);
    if i + 1 < a.len() {
        assert(a[i] == a.skip(i)[0] && b[j] == b.skip(j)[0]);
        assert(a[i + 1] == a.skip(i)[1] && b[j + 1] == b.skip(j)[1]);
        assert(a.skip(i + 2) =~= a.skip(i).skip(2));
        assert(b.skip(j + 2) =~= b.skip(j).skip(2));
        if a[i] != "endbfchar".spec_bytes() {
            match (cmap::group(a[i]), cmap::group(a[i + 1])) {
                (Some(src), Some(dst)) => {
                    let n = m.insert(cmap::code_of(src), text::utf16_text(dst));
                    lemma_chars_alike(a, i + 2, b, j + 2, n);
                },
                _ => {
                    lemma_chars_alike(a, i + 2, b, j + 2, m);
                },
            }
        }
    }
}

/// What is read depends on the tokens that are left only.
proof fn lemma_list_alike(
    a: Seq<Seq<u8>>,
    i: int,
    b: Seq<Seq<u8>>,
    j: int,
    code: u32,
    m: Map<u32, Seq<char>>,
)
    requires
        0 <= i <= a.len(),
        0 <= j <= b.len(),
        a.skip(i) == b.skip(j),
    ensures
        cmap::list_read(a, i, code, m).0 - i == cmap::list_read(b, j, code, m).0 - j,
        cmap::list_read(a, i, code, m).1 == cmap::list_read(b, j, code, m).1,
        i <= cmap::list_read(a, i, code, m).0 <= a.len(),
    decreases a.len() - i,
{
    cmap::lemma_list_read(a, i, code, m);
    assert(a.skip(i).len() == a.len() - i && b.skip(j).len() == b.len() - j);
    if i < a.len() {
        assert(a[i] == a.skip(i)[0] && b[j] == b.skip(j)[0]);
        assert(a.skip(i + 1) =~= a.skip(i).skip(1));
        assert(b.skip(j + 1) =~= b.skip(j).skip(1));
        if a[i] != "]".spec_bytes() {
            match cmap::group(a[i]) {
                Some(dst) => {
                    let n = m.insert(code, text::utf16_text(dst));
                    lemma_list_alike(a, i + 1, b, j + 1, cmap::next_code(code), n);
                },
                None => {
                    lemma_list_alike(a, i + 1, b, j + 1, cmap::next_code(code), m);
                },
            }
        }
    }
}

/// What is left behind the same number of tokens is the same.
proof fn lemma_skip_alike(a: Seq<Seq<u8>>, i: int, b: Seq<Seq<u8>>, j: int, n: int)
    requires
        0 <= i <= i + n <= a.len(),
        0 <= j <= b.len(),
        a.skip(i) == b.skip(j),
    ensures
        j + n <= b.len(),
        a.skip(i + n) == b.skip(j + n),
{
    assert(a.skip(i).len() == a.len() - i && b.skip(j).len() == b.len() - j);
    assert(a.skip(i + n) =~= a.skip(i).skip(n));
    assert(b.skip(j + n) =~= b.skip(j).skip(n));
}

/// What is read depends on the tokens that are left only.
proof fn lemma_ranges_alike(
    a: Seq<Seq<u8>>,
    i: int,
    b: Seq<Seq<u8>>,
    j: int,
    m: Map<u32, Seq<char>>,
)
    requires
        0 <= i <= a.len(),
        0 <= j <= b.len(),
        a.skip(i) == b.skip(j),
    ensures
        cmap::ranges_read(a, i, m).0 - i == cmap::ranges_read(b, j, m).0 - j,
        cmap::ranges_read(a, i, m).1 == cmap::ranges_read(b, j, m).1,
        i <= cmap::ranges_read(a, i, m).0 <= a.len(),
    decreases a.len() - i,
{
    cmap::lemma_ranges_read(a, i, m);
    assert(a.skip(i).len() == a.len() - i && b.skip(j).len() == b.len() - j);
    if i + 2 < a.len() {
        assert(a[i] == a.skip(i)[0] && b[j] == b.skip(j)[0]);
        assert(a[i + 1] == a.skip(i)[1] && b[j + 1] == b.skip(j)[1]);
        assert(a[i + 2] == a.skip(i)[2] && b[j + 2] == b.skip(j)[2]);
        lemma_skip_alike(a, i, b, j, 1);
        lemma_skip_alike(a, i, b, j, 3);
        if a[i] != "endbfrange".spec_bytes() {
            match (cmap::group(a[i]), cmap::group(a[i + 1])) {
                (Some(lo), Some(hi)) => if a[i + 2] == "[".spec_bytes() {
                    let c = cmap::code_of(lo);
                    lemma_list_alike(a, i + 3, b, j + 3, c, m);
                    let (next, listed) = cmap::list_read(a, i + 3, c, m);
                    let (after, same) = cmap::list_read(b, j + 3, c, m);
                    lemma_skip_alike(a, i, b, j, next - i);
                    assert(after == j + (next - i));
                    lemma_ranges_alike(a, next, b, after, listed);
                } else {
                    match cmap::group(a[i + 2]) {
                        Some(dst) => {
                            let n = cmap::with_run(
                                m,
                                cmap::code_of(lo),
                                cmap::code_of(hi),
                                cmap::code_of(dst),
                            );
                            lemma_ranges_alike(a, i + 3, b, j + 3, n);
                        },
                        None => {
                            lemma_ranges_alike(a, i + 1, b, j + 1, m);
                        },
                    }
                },
                _ => {
                    lemma_ranges_alike(a, i + 1, b, j + 1, m);
                },
            }
        }
    }
}

/// What is read depends on the tokens that are left only.
proof fn lemma_sections_alike(
    a: Seq<Seq<u8>>,
    i: int,
    b: Seq<Seq<u8>>,
    j: int,
    m: Map<u32, Seq<char>>,
)
    requires
        0 <= i <= a.len(),
        0 <= j <= b.len(),
        a.skip(i) == b.skip(j),
    ensures
        cmap::sections_read(a, i, m) == cmap::sections_read(b, j, m),
    decreases a.len() - i,
{
    assert(a.skip(i).len() == a.len() - i && b.skip(j).len() == b.len() - j);
    if i < a.len() {
        assert(a[i] == a.skip(i)[0] && b[j] == b.skip(j)[0]);
        lemma_skip_alike(a, i, b, j, 1);
        if a[i] == "beginbfchar".spec_bytes() {
            lemma_chars_alike(a, i + 1, b, j + 1, m);
            let (next, read) = cmap::chars_read(a, i + 1, m);
            lemma_skip_alike(a, i, b, j, next - i);
            lemma_sections_alike(a, next, b, j + (next - i), read);
        } else if a[i] == "beginbfrange".spec_bytes() {
            lemma_ranges_alike(a, i + 1, b, j + 1, m);
            let (next, read) = cmap::ranges_read(a, i + 1, m);
            lemma_skip_alike(a, i, b, j, next - i);
            lemma_sections_alike(a, next, b, j + (next - i), read);
        } else {
            lemma_sections_alike(a, i + 1, b, j + 1, m);
        }
    }
}

/// A section that starts with `k` more tokens and goes on alike.
proof fn lemma_char_section(
    a: Seq<Seq<u8>>,
    i: int,
    b: Seq<Seq<u8>>,
    m: Map<u32, Seq<char>>,
    n: Map<u32, Seq<char>>,
)
    requires
        1 <= i <= a.len(),
        1 <= b.len(),
        a[0] == "beginbfchar".spec_bytes(),
        b[0] == "beginbfchar".spec_bytes(),
        a.skip(i) == b.skip(1),
        cmap::chars_read(a, 1, m) == cmap::chars_read(a, i, n),
    ensures
        cmap::sections_read(a, 0, m) == cmap::sections_read(b, 0, n),
{
    lemma_keywords();
    lemma_chars_alike(a, i, b, 1, n);
    let (next, read) = cmap::chars_read(a, i, n);
    lemma_skip_alike(a, i, b, 1, next - i);
    lemma_sections_alike(a, next, b, 1 + (next - i), read);
}

/// A section that starts with `k` more tokens and goes on alike.
proof fn lemma_range_section(
    a: Seq<Seq<u8>>,
    i: int,
    b: Seq<Seq<u8>>,
    m: Map<u32, Seq<char>>,
    n: Map<u32, Seq<char>>,
)
    requires
        1 <= i <= a.len(),
        1 <= b.len(),
        a[0] == "beginbfrange".spec_bytes(),
        b[0] == "beginbfrange".spec_bytes(),
        a.skip(i) == b.skip(1),
        cmap::ranges_read(a, 1, m) == cmap::ranges_read(a, i, n),
    ensures
        cmap::sections_read(a, 0, m) == cmap::sections_read(b, 0, n),
{
    lemma_keywords();
    lemma_ranges_alike(a, i, b, 1, n);
    let (next, read) = cmap::ranges_read(a, i, n);
    lemma_skip_alike(a, i, b, 1, next - i);
    lemma_sections_alike(a, next, b, 1 + (next - i), read);
}

/// What stands outside of sections defines nothing, and neither does an empty section.
pub proof fn law_only_sections_define_texts(
    word: Seq<u8>,
    rest: Seq<Seq<u8>>,
    m: Map<u32, Seq<char>>,
)
    requires
        word != "beginbfchar".spec_bytes(),
        word != "beginbfrange".spec_bytes(),
    ensures
        cmap::sections_read(Seq::empty(), 0, m) == m,
        cmap::sections_read(seq![word] + rest, 0, m) == cmap::sections_read(rest, 0, m),
        cmap::sections_read(
            seq!["beginbfchar".spec_bytes(), "endbfchar".spec_bytes()] + rest,
            0,
            m,
        ) == cmap::sections_read(rest, 0, m),
        cmap::sections_read(
            seq!["beginbfrange".spec_bytes(), "endbfrange".spec_bytes()] + rest,
            0,
            m,
        ) == cmap::sections_read(rest, 0, m),
{
    lemma_keywords();
    let a = seq![word] + rest;
    assert(a.skip(1) =~= rest.skip(0));
    lemma_sections_alike(a, 1, rest, 0, m);
    let c = seq!["beginbfchar".spec_bytes(), "endbfchar".spec_bytes()] + rest;
    assert(c.skip(2) =~= rest.skip(0));
    lemma_sections_alike(c, 2, rest, 0, m);
    assert(cmap::chars_read(c, 1, m) == (1int, m));
    assert(cmap::sections_read(c, 1, m) == cmap::sections_read(c, 2, m));
    let r = seq!["beginbfrange".spec_bytes(), "endbfrange".spec_bytes()] + rest;
    assert(r.skip(2) =~= rest.skip(0));
    lemma_sections_alike(r, 2, rest, 0, m);
    assert(cmap::ranges_read(r, 1, m) == (1int, m));
    assert(cmap::sections_read(r, 1, m) == cmap::sections_read(r, 2, m));
}

/// An entry `<code> <text>` gives the code its text, and the section goes on behind it.
/// Codes are written with two, four or eight digits, texts in UTF-16.
pub proof fn law_entries_give_codes_their_texts(
    capitals: bool,
    code: u32,
    n: nat,
    s: Seq<char>,
    rest: Seq<Seq<u8>>,
    m: Map<u32, Seq<char>>,
)
    requires
        n == 2 && code < 0x100 || n == 4 && code < 0x1_0000 || n == 8,
    ensures
        cmap::sections_read(
            seq![
                "beginbfchar".spec_bytes(),
                written(capitals, code as nat, n),
                written_units(capitals, utf16_units(s)),
            ] + rest,
            0,
            m,
        ) == cmap::sections_read(
            seq!["beginbfchar".spec_bytes()] + rest,
            0,
            m.insert(code, s),
        ),
{
    lemma_keywords();
    let c = written(capitals, code as nat, n);
    let d = written_units(capitals, utf16_units(s));
    let a = seq!["beginbfchar".spec_bytes(), c, d] + rest;
    let b = seq!["beginbfchar".spec_bytes()] + rest;
    law_codes_are_the_numbers_they_are_written_as(capitals, code as nat, n);
    law_groups_hold_the_units_they_write(capitals, utf16_units(s));
    law_utf16_units_are_read_back(s);
    assert(a.skip(3) =~= b.skip(1));
    assert(a[1] == c && a[2] == d && c[0] == 0x3C);
    lemma_char_section(a, 3, b, m, m.insert(code, s));
}

/// An entry with anything but two groups is passed over.
pub proof fn law_broken_entries_are_passed_over(
    src: Seq<u8>,
    dst: Seq<u8>,
    rest: Seq<Seq<u8>>,
    m: Map<u32, Seq<char>>,
)
    requires
        src != "endbfchar".spec_bytes(),
        src.len() < 2 || src[0] != 0x3C || src.last() != 0x3E || dst.len() < 2 || dst[0] != 0x3C
            || dst.last() != 0x3E,
    ensures
        cmap::sections_read(seq!["beginbfchar".spec_bytes(), src, dst] + rest, 0, m)
            == cmap::sections_read(seq!["beginbfchar".spec_bytes()] + rest, 0, m),
{
    let a = seq!["beginbfchar".spec_bytes(), src, dst] + rest;
    let b = seq!["beginbfchar".spec_bytes()] + rest;
    assert(a.skip(3) =~= b.skip(1));
    assert(a[1] == src && a[2] == dst);
    lemma_char_section(a, 3, b, m, m);
}

/// A number that is a character.
pub open spec fn is_character(v: int) -> bool {
    0 <= v < 0xD800 || 0xE000 <= v < 0x11_0000
}

/// A range `<lo> <hi> <first>` gives the codes from `lo` to `hi` consecutive characters,
/// the first to `lo`; a number that is no character is left out, and so is every code
/// outside of the range.
pub proof fn law_ranges_give_consecutive_characters(
    capitals: bool,
    n: nat,
    lo: u32,
    hi: u32,
    first: u32,
    rest: Seq<Seq<u8>>,
    m: Map<u32, Seq<char>>,
) -> (r: Map<u32, Seq<char>>)
    requires
        n == 2 && lo < 0x100 && hi < 0x100 && first < 0x100 || n == 4 && lo < 0x1_0000 && hi
            < 0x1_0000 && first < 0x1_0000 || n == 8,
        first + hi < 0x1_0000_0000,
    ensures
        cmap::sections_read(
            seq![
                "beginbfrange".spec_bytes(),
                written(capitals, lo as nat, n),
                written(capitals, hi as nat, n),
                written(capitals, first as nat, n),
            ] + rest,
            0,
            m,
        ) == cmap::sections_read(seq!["beginbfrange".spec_bytes()] + rest, 0, r),
        forall|k: int|
            0 <= k <= hi - lo && is_character(first + k) ==> r.dom().contains(
                #[trigger] ((lo + k) as u32),
            ) && r[(lo + k) as u32] == seq![(first + k) as char],
        forall|c: u32|
            c < lo || c > hi || !is_character(first + (c - lo)) ==> (#[trigger] r.dom().contains(c)
                <==> m.dom().contains(c)) && (m.dom().contains(c) ==> r[c] == m[c]),
{
    lemma_keywords();
    let x = written(capitals, lo as nat, n);
    let y = written(capitals, hi as nat, n);
    let z = written(capitals, first as nat, n);
    let a = seq!["beginbfrange".spec_bytes(), x, y, z] + rest;
    let b = seq!["beginbfrange".spec_bytes()] + rest;
    law_codes_are_the_numbers_they_are_written_as(capitals, lo as nat, n);
    law_codes_are_the_numbers_they_are_written_as(capitals, hi as nat, n);
    law_codes_are_the_numbers_they_are_written_as(capitals, first as nat, n);
    let r = cmap::with_run(m, lo, hi, first);
    assert(a.skip(4) =~= b.skip(1));
    assert(a[1] == x && a[2] == y && a[3] == z && x[0] == 0x3C && z[0] == 0x3C);
    lemma_range_section(a, 4, b, m, r);
    assert forall|c: u32| c < lo || c > hi || !is_character(first + (c - lo)) implies (
    #[trigger] r.dom().contains(c) <==> m.dom().contains(c)) && (m.dom().contains(c) ==> r[c] == m[c]) by {
        if lo <= c <= hi {
            assert(cmap::advanced(first, c - lo) == first + (c - lo));
        }
    }
    r
}

/// A range with a list gives its first code the first text of the list, and goes on with
/// the next code and what is left of the list; a closed list ends the range.
pub proof fn law_lists_give_codes_their_texts(
    capitals: bool,
    lo: u32,
    hi: Seq<u8>,
    s: Seq<char>,
    rest: Seq<Seq<u8>>,
    m: Map<u32, Seq<char>>,
)
    requires
        cmap::is_closed_group(hi),
        lo < u32::MAX,
    ensures
        cmap::sections_read(
            seq![
                "beginbfrange".spec_bytes(),
                written(capitals, lo as nat, 8),
                hi,
                "[".spec_bytes(),
                written_units(capitals, utf16_units(s)),
            ] + rest,
            0,
            m,
        ) == cmap::sections_read(
            seq![
                "beginbfrange".spec_bytes(),
                written(capitals, (lo + 1) as nat, 8),
                hi,
                "[".spec_bytes(),
            ] + rest,
            0,
            m.insert(lo, s),
        ),
        cmap::sections_read(
            seq![
                "beginbfrange".spec_bytes(),
                written(capitals, lo as nat, 8),
                hi,
                "[".spec_bytes(),
                "]".spec_bytes(),
            ] + rest,
            0,
            m,
        ) == cmap::sections_read(seq!["beginbfrange".spec_bytes()] + rest, 0, m),
{
    lemma_keywords();
    let x = written(capitals, lo as nat, 8);
    let y = written(capitals, (lo + 1) as nat, 8);
    let d = written_units(capitals, utf16_units(s));
    let open = "[".spec_bytes();
    let close = "]".spec_bytes();
    let key = "beginbfrange".spec_bytes();
    law_codes_are_the_numbers_they_are_written_as(capitals, lo as nat, 8);
    law_codes_are_the_numbers_they_are_written_as(capitals, (lo + 1) as nat, 8);
    law_groups_hold_the_units_they_write(capitals, utf16_units(s));
    law_utf16_units_are_read_back(s);
    let m1 = m.insert(lo, s);
    let a = seq![key, x, hi, open, d] + rest;
    let b = seq![key, y, hi, open] + rest;
    assert(a[0] == key && a[1] == x && a[2] == hi && a[3] == open && a[4] == d);
    assert(b[0] == key && b[1] == y && b[2] == hi && b[3] == open);
    assert(x[0] == 0x3C && y[0] == 0x3C && d[0] == 0x3C);
    assert(a.skip(5) =~= b.skip(4));
    lemma_list_alike(a, 5, b, 4, (lo + 1) as u32, m1);
    let (p, q) = cmap::list_read(a, 5, (lo + 1) as u32, m1);
    assert(cmap::list_read(a, 4, lo, m) == (p, q));
    assert(cmap::list_read(b, 4, (lo + 1) as u32, m1) == (p - 1, q));
    lemma_skip_alike(a, 5, b, 4, p - 5);
    lemma_ranges_alike(a, p, b, p - 1, q);
    assert(cmap::ranges_read(a, 1, m) == cmap::ranges_read(a, p, q));
    assert(cmap::ranges_read(b, 1, m1) == cmap::ranges_read(b, p - 1, q));
    let (e, f) = cmap::ranges_read(a, p, q);
    lemma_skip_alike(a, p, b, p - 1, e - p);
    lemma_sections_alike(a, e, b, e - 1, f);
    let c = seq![key, x, hi, open, close] + rest;
    let g = seq![key] + rest;
    assert(c[0] == key && c[1] == x && c[2] == hi && c[3] == open && c[4] == close);
    assert(c.skip(5) =~= g.skip(1));
    assert(cmap::list_read(c, 4, lo, m) == (5int, m));
    lemma_range_section(c, 5, g, m, m);
}

/// What stands in a range section and is no group is passed over.
pub proof fn law_broken_ranges_are_passed_over(
    word: Seq<u8>,
    rest: Seq<Seq<u8>>,
    m: Map<u32, Seq<char>>,
)
    requires
        word != "endbfrange".spec_bytes(),
        word.len() < 2 || word[0] != 0x3C || word.last() != 0x3E,
        rest.len() >= 2,
    ensures
        cmap::sections_read(seq!["beginbfrange".spec_bytes(), word] + rest, 0, m)
            == cmap::sections_read(seq!["beginbfrange".spec_bytes()] + rest, 0, m),
{
    let a = seq!["beginbfrange".spec_bytes(), word] + rest;
    let b = seq!["beginbfrange".spec_bytes()] + rest;
    assert(a.skip(2) =~= b.skip(1));
    assert(a[1] == word);
    lemma_range_section(a, 2, b, m, m);
}

/// The texts of a map are those of the sections it is written with, whatever the blanks.
pub proof fn law_maps_are_read_by_sections(t: Seq<Seq<u8>>, gaps: Seq<Seq<u8>>)
    requires
        cmap::well_spaced(t, gaps),
    ensures
        cmap::unicode_map(cmap::spelled(t, gaps)) == cmap::sections_read(t, 0, Map::empty()),
{
    cmap::law_written_tokens_are_read_back(t, gaps);
}

/// Blanks in a map are spaces, tabs, line feeds, form feeds and carriage returns; a bare
/// word ends at these, at a group and at a bracket.
pub proof fn law_words_end_at_blanks_groups_and_brackets(b: u8)
    ensures
        cmap::is_blank(b) <==> b == 0x20 || b == 0x09 || b == 0x0A || b == 0x0C || b == 0x0D,
        cmap::ends_word(b) <==> cmap::is_blank(b) || b == 0x3C || b == 0x5B || b == 0x5D,
{
}

} // verus!
