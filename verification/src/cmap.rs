//! ToUnicode maps: from character codes to text.

use crate::bytes::{copy_bytes, same_bytes};
use crate::names::{self, read_hex};
use crate::text::{self, from_utf8_lossy, utf16_string};
use std::collections::HashMap;
use vstd::prelude::*;
use vstd::slice::slice_subrange;
use vstd::string::StringSliceAdditionalSpecFns;

verus! {

/// ASCII white space.
pub open spec fn is_blank(b: u8) -> bool {
    b == 0x20 || b == 0x09 || b == 0x0A || b == 0x0C || b == 0x0D
}

/// A byte that ends a bare word.
pub open spec fn ends_word(b: u8) -> bool {
    is_blank(b) || b == 0x3C || b == 0x5B || b == 0x5D
}

/// Index after the `>` that closes a group, or the end of the text.
pub open spec fn group_end(s: Seq<u8>, i: int) -> int
    decreases s.len() - i,
{
    if i < 0 || i >= s.len() {
        s.len() as int
    } else if s[i] == 0x3E {
        i + 1
    } else {
        group_end(s, i + 1)
    }
}

/// Index of the byte that ends a bare word.
pub open spec fn word_end(s: Seq<u8>, i: int) -> int
    decreases s.len() - i,
{
    if i < 0 || i >= s.len() {
        s.len() as int
    } else if ends_word(s[i]) {
        i
    } else {
        word_end(s, i + 1)
    }
}

/// A group ends after it starts, and inside the text.
pub proof fn lemma_group_end(s: Seq<u8>, i: int)
    requires
        0 <= i <= s.len(),
    ensures
        i <= group_end(s, i) <= s.len(),
        i < s.len() ==> i < group_end(s, i),
    decreases s.len() - i,
{
    if i < s.len() && s[i] != 0x3E {
        lemma_group_end(s, i + 1);
    }
}

/// A word ends inside the text.
pub proof fn lemma_word_end(s: Seq<u8>, i: int)
    requires
        0 <= i <= s.len(),
    ensures
        i <= word_end(s, i) <= s.len(),
    decreases s.len() - i,
{
    if i < s.len() && !ends_word(s[i]) {
        lemma_word_end(s, i + 1);
    }
}

/// The tokens of a map from index `i` on: `<...>` groups, brackets and bare
/// words, with or without blanks between them.
pub open spec fn tokens_from(s: Seq<u8>, i: int) -> Seq<Seq<u8>>
    decreases s.len() - i,
{
    if i < 0 || i >= s.len() {
        Seq::empty()
    } else if is_blank(s[i]) {
        tokens_from(s, i + 1)
    } else if s[i] == 0x3C {
        proof {
            lemma_group_end(s, i);
        }
        seq![s.subrange(i, group_end(s, i))] + tokens_from(s, group_end(s, i))
    } else if s[i] == 0x5B || s[i] == 0x5D {
        seq![seq![s[i]]] + tokens_from(s, i + 1)
    } else {
        proof {
            lemma_word_end(s, i + 1);
        }
        seq![s.subrange(i, word_end(s, i))] + tokens_from(s, word_end(s, i))
    }
}

/// The bytes that pairs of hexadecimal digits give; a pair that is no number is
/// left out, and so is a last digit without a partner.
pub open spec fn hex_pairs(h: Seq<u8>) -> Seq<u8>
    decreases h.len(),
{
    if h.len() < 2 {
        Seq::empty()
    } else {
        match names::hex_number(h.take(2)) {
            Some(v) => seq![v as u8] + hex_pairs(h.skip(2)),
            None => hex_pairs(h.skip(2)),
        }
    }
}

/// Bytes taken two by two, the high one first; a last single byte is its value.
pub open spec fn big_endian(b: Seq<u8>) -> Seq<u16>
    decreases b.len(),
{
    if b.len() == 0 {
        Seq::empty()
    } else if b.len() == 1 {
        seq![b[0] as u16]
    } else {
        seq![(b[0] * 256 + b[1]) as u16] + big_endian(b.skip(2))
    }
}

/// The units that a closed `<...>` group holds; `None` for any other token.
pub open spec fn group(t: Seq<u8>) -> Option<Seq<u16>> {
    if t.len() >= 2 && t[0] == 0x3C && t.last() == 0x3E {
        Some(big_endian(hex_pairs(t.subrange(1, t.len() - 1))))
    } else {
        None
    }
}

/// The character code of some units: the last two, the high one first.
pub open spec fn code_of(u: Seq<u16>) -> u32 {
    if u.len() == 0 {
        0
    } else if u.len() == 1 {
        u[0] as u32
    } else {
        (u[u.len() - 2] * 0x1_0000 + u.last()) as u32
    }
}

/// The next code; the last is followed by 0.
pub open spec fn next_code(c: u32) -> u32 {
    if c == u32::MAX {
        0
    } else {
        (c + 1) as u32
    }
}

/// `base` advanced by `k`, modulo the range of codes.
pub open spec fn advanced(base: u32, k: int) -> u32 {
    ((base + k) % 0x1_0000_0000) as u32
}

/// The `bfchar` entries from token `i` on, and the token after them.
pub open spec fn chars_read(
    t: Seq<Seq<u8>>,
    i: int,
    m: Map<u32, Seq<char>>,
) -> (int, Map<u32, Seq<char>>)
    decreases t.len() - i,
{
    if i < 0 || i + 1 >= t.len() || t[i] == "endbfchar".spec_bytes() {
        (i, m)
    } else {
        match (group(t[i]), group(t[i + 1])) {
            (Some(src), Some(dst)) => chars_read(
                t,
                i + 2,
                m.insert(code_of(src), text::utf16_text(dst)),
            ),
            _ => chars_read(t, i + 2, m),
        }
    }
}

/// The bracketed texts from token `j` on, one per code, and the token after the
/// closing bracket.
pub open spec fn list_read(
    t: Seq<Seq<u8>>,
    j: int,
    code: u32,
    m: Map<u32, Seq<char>>,
) -> (int, Map<u32, Seq<char>>)
    decreases t.len() - j,
{
    if j < 0 || j >= t.len() {
        (t.len() as int, m)
    } else if t[j] == "]".spec_bytes() {
        (j + 1, m)
    } else {
        match group(t[j]) {
            Some(dst) => list_read(
                t,
                j + 1,
                next_code(code),
                m.insert(code, text::utf16_text(dst)),
            ),
            None => list_read(t, j + 1, next_code(code), m),
        }
    }
}

/// Consecutive characters from `base` for the codes from `lo` to `hi`; a code
/// whose turn is no character keeps what it had.
pub open spec fn with_run(
    m: Map<u32, Seq<char>>,
    lo: u32,
    hi: u32,
    base: u32,
) -> Map<u32, Seq<char>> {
    Map::new(
        |c: u32|
            m.dom().contains(c) || (lo <= c <= hi && text::is_scalar(
                advanced(base, c - lo),
            )),
        |c: u32|
            if lo <= c <= hi && text::is_scalar(advanced(base, c - lo)) {
                seq![advanced(base, c - lo) as char]
            } else {
                m[c]
            },
    )
}

/// The end of a list lies behind its start.
pub proof fn lemma_list_read(t: Seq<Seq<u8>>, j: int, code: u32, m: Map<u32, Seq<char>>)
    requires
        0 <= j <= t.len(),
    ensures
        j <= list_read(t, j, code, m).0 <= t.len(),
        j < t.len() ==> j < list_read(t, j, code, m).0,
    decreases t.len() - j,
{
    if j < t.len() && t[j] != "]".spec_bytes() {
        match group(t[j]) {
            Some(dst) => {
                lemma_list_read(
                    t,
                    j + 1,
                    next_code(code),
                    m.insert(code, text::utf16_text(dst)),
                );
            },
            None => {
                lemma_list_read(t, j + 1, next_code(code), m);
            },
        }
    }
}

/// The `bfrange` entries from token `i` on, and the token after them.
pub open spec fn ranges_read(
    t: Seq<Seq<u8>>,
    i: int,
    m: Map<u32, Seq<char>>,
) -> (int, Map<u32, Seq<char>>)
    decreases t.len() - i,
{
    if i < 0 || i + 2 >= t.len() || t[i] == "endbfrange".spec_bytes() {
        (i, m)
    } else {
        match (group(t[i]), group(t[i + 1])) {
            (Some(lo), Some(hi)) => if t[i + 2] == "[".spec_bytes() {
                proof {
                    lemma_list_read(t, i + 3, code_of(lo), m);
                }
                let (next, listed) = list_read(t, i + 3, code_of(lo), m);
                ranges_read(t, next, listed)
            } else {
                match group(t[i + 2]) {
                    Some(dst) => ranges_read(
                        t,
                        i + 3,
                        with_run(m, code_of(lo), code_of(hi), code_of(dst)),
                    ),
                    None => ranges_read(t, i + 1, m),
                }
            },
            _ => ranges_read(t, i + 1, m),
        }
    }
}

/// Reading entries does not go back.
pub proof fn lemma_chars_read(t: Seq<Seq<u8>>, i: int, m: Map<u32, Seq<char>>)
    requires
        0 <= i,
    ensures
        i <= chars_read(t, i, m).0,
        i <= t.len() ==> chars_read(t, i, m).0 <= t.len(),
    decreases t.len() - i,
{
    if i + 1 < t.len() && t[i] != "endbfchar".spec_bytes() {
        match (group(t[i]), group(t[i + 1])) {
            (Some(src), Some(dst)) => {
                lemma_chars_read(t, i + 2, m.insert(code_of(src), text::utf16_text(dst)));
            },
            _ => {
                lemma_chars_read(t, i + 2, m);
            },
        }
    }
}

/// Reading entries does not go back.
pub proof fn lemma_ranges_read(t: Seq<Seq<u8>>, i: int, m: Map<u32, Seq<char>>)
    requires
        0 <= i,
    ensures
        i <= ranges_read(t, i, m).0,
        i <= t.len() ==> ranges_read(t, i, m).0 <= t.len(),
    decreases t.len() - i,
{
    if i + 2 < t.len() && t[i] != "endbfrange".spec_bytes() {
        match (group(t[i]), group(t[i + 1])) {
            (Some(lo), Some(hi)) => if t[i + 2] == "[".spec_bytes() {
                lemma_list_read(t, i + 3, code_of(lo), m);
                let (next, listed) = list_read(t, i + 3, code_of(lo), m);
                lemma_ranges_read(t, next, listed);
            } else {
                match group(t[i + 2]) {
                    Some(dst) => {
                        lemma_ranges_read(
                            t,
                            i + 3,
                            with_run(m, code_of(lo), code_of(hi), code_of(dst)),
                        );
                    },
                    None => {
                        lemma_ranges_read(t, i + 1, m);
                    },
                }
            },
            _ => {
                lemma_ranges_read(t, i + 1, m);
            },
        }
    }
}

/// The map that the tokens from `i` on add to `m`.
pub open spec fn sections_read(
    t: Seq<Seq<u8>>,
    i: int,
    m: Map<u32, Seq<char>>,
) -> Map<u32, Seq<char>>
    decreases t.len() - i,
{
    if i < 0 || i >= t.len() {
        m
    } else if t[i] == "beginbfchar".spec_bytes() {
        proof {
            lemma_chars_read(t, i + 1, m);
        }
        let (next, read) = chars_read(t, i + 1, m);
        sections_read(t, next, read)
    } else if t[i] == "beginbfrange".spec_bytes() {
        proof {
            lemma_ranges_read(t, i + 1, m);
        }
        let (next, read) = ranges_read(t, i + 1, m);
        sections_read(t, next, read)
    } else {
        sections_read(t, i + 1, m)
    }
}

/// The text of each code that a map, given by its text, defines.
pub open spec fn unicode_map(text: Seq<u8>) -> Map<u32, Seq<char>> {
    sections_read(tokens_from(text, 0), 0, Map::empty())
}

/// The text of each code that a map, given by its bytes, defines.
pub open spec fn tounicode(data: Seq<u8>) -> Map<u32, Seq<char>> {
    unicode_map(vstd::utf8::encode_utf8(text::utf8_lossy(data)))
}

/// The texts of a table.
pub open spec fn texts(m: Map<u32, String>) -> Map<u32, Seq<char>> {
    Map::new(|c: u32| m.dom().contains(c), |c: u32| m[c]@)
}

/// The contents of some tokens.
pub open spec fn token_views(t: Seq<Vec<u8>>) -> Seq<Seq<u8>> {
    Seq::new(t.len(), |i: int| t[i]@)
}

/// Split a map into tokens.
fn tokenize(s: &[u8]) -> (r: Vec<Vec<u8>>)
    ensures
        token_views(r@) == tokens_from(s@, 0),
{
    let mut r: Vec<Vec<u8>> = Vec::new();
    let mut i: usize = 0;
    assert(token_views(r@) + tokens_from(s@, 0) =~= tokens_from(s@, 0));
    while i < s.len()
        invariant
            i <= s@.len(),
            token_views(r@) + tokens_from(s@, i as int) == tokens_from(s@, 0),
        decreases s@.len() - i,
    {
        let c: u8 = s[i];
        if c == 0x20 || c == 0x09 || c == 0x0A || c == 0x0C || c == 0x0D {
            i += 1;
        } else {
            let start: usize = i;
            let ghost before = token_views(r@);
            if c == 0x3C {
                while i < s.len() && s[i] != 0x3E
                    invariant
                        start <= i <= s@.len(),
                        group_end(s@, start as int) == group_end(s@, i as int),
                    decreases s@.len() - i,
                {
                    i += 1;
                }
                if i < s.len() {
                    i += 1;
                }
                proof {
                    lemma_group_end(s@, start as int);
                }
            } else if c == 0x5B || c == 0x5D {
                i += 1;
                assert(s@.subrange(start as int, i as int) =~= seq![c]);
            } else {
                while i < s.len() && !(s[i] == 0x20 || s[i] == 0x09 || s[i] == 0x0A || s[i] == 0x0C
                    || s[i] == 0x0D || s[i] == 0x3C || s[i] == 0x5B || s[i] == 0x5D)
                    invariant
                        start <= i <= s@.len(),
                        word_end(s@, start as int) == word_end(s@, i as int),
                    decreases s@.len() - i,
                {
                    i += 1;
                }
                proof {
                    lemma_word_end(s@, start + 1);
                }
            }
            let token = copy_bytes(slice_subrange(s, start, i));
            r.push(token);
            proof {
                assert(token_views(r@) =~= before.push(token@));
                assert(tokens_from(s@, start as int) == seq![token@] + tokens_from(s@, i as int));
                assert(before + tokens_from(s@, start as int) =~= token_views(r@) + tokens_from(
                    s@,
                    i as int,
                ));
            }
        }
    }
    assert(token_views(r@) + tokens_from(s@, i as int) =~= token_views(r@));
    r
}

/// Read pairs of hexadecimal digits.
fn read_pairs(h: &[u8]) -> (r: Vec<u8>)
    ensures
        r@ == hex_pairs(h@),
{
    let mut r: Vec<u8> = Vec::new();
    let mut i: usize = 0;
    assert(h@.skip(0) =~= h@);
    assert(r@ + hex_pairs(h@) =~= hex_pairs(h@));
    while i < h.len() && h.len() - i >= 2
        invariant
            i <= h@.len(),
            r@ + hex_pairs(h@.skip(i as int)) == hex_pairs(h@),
        decreases h@.len() - i,
    {
        let ghost rest = h@.skip(i as int);
        let ghost before = r@;
        let pair = slice_subrange(h, i, i + 2);
        assert(pair@ =~= rest.take(2));
        assert(rest.skip(2) =~= h@.skip(i + 2));
        if let Some(v) = read_hex(pair) {
            proof {
                lemma_two_digits(pair@);
            }
            r.push(v as u8);
            assert(before + (seq![v as u8] + hex_pairs(rest.skip(2))) =~= r@ + hex_pairs(
                rest.skip(2),
            ));
        }
        i += 2;
    }
    assert(r@ + hex_pairs(h@.skip(i as int)) =~= r@);
    r
}

/// Two hexadecimal digits are less than 256.
proof fn lemma_two_digits(s: Seq<u8>)
    requires
        s.len() == 2,
    ensures
        names::hex_number(s) matches Some(v) ==> v < 256,
{
    reveal_with_fuel(names::hex_digits, 3);
}

/// Put bytes together two by two.
fn read_units(b: &[u8]) -> (r: Vec<u16>)
    ensures
        r@ == big_endian(b@),
{
    let mut r: Vec<u16> = Vec::new();
    let mut i: usize = 0;
    assert(b@.skip(0) =~= b@);
    assert(r@ + big_endian(b@) =~= big_endian(b@));
    while i < b.len()
        invariant
            i <= b@.len(),
            r@ + big_endian(b@.skip(i as int)) == big_endian(b@),
        decreases b@.len() - i,
    {
        let ghost rest = b@.skip(i as int);
        let ghost before = r@;
        if b.len() - i == 1 {
            r.push(b[i] as u16);
            assert(before + big_endian(rest) =~= r@);
            assert(big_endian(b@.skip(i + 1)) =~= Seq::<u16>::empty());
            assert(r@ + big_endian(b@.skip(i + 1)) =~= r@);
            i += 1;
        } else {
            let u: u16 = b[i] as u16 * 256 + b[i + 1] as u16;
            r.push(u);
            assert(rest.skip(2) =~= b@.skip(i + 2));
            assert(before + (seq![u] + big_endian(rest.skip(2))) =~= r@ + big_endian(rest.skip(2)));
            i += 2;
        }
    }
    assert(r@ + big_endian(b@.skip(i as int)) =~= r@);
    r
}

/// The units that a closed group holds.
fn read_group(t: &[u8]) -> (r: Option<Vec<u16>>)
    ensures
        match r {
            Some(u) => group(t@) == Some(u@),
            None => group(t@) is None,
        },
{
    if t.len() >= 2 && t[0] == 0x3C && t[t.len() - 1] == 0x3E {
        let pairs = read_pairs(slice_subrange(t, 1, t.len() - 1));
        Some(read_units(pairs.as_slice()))
    } else {
        None
    }
}

/// The character code of some units.
fn read_code(u: &[u16]) -> (r: u32)
    ensures
        r == code_of(u@),
{
    if u.len() == 0 {
        0
    } else if u.len() == 1 {
        u[0] as u32
    } else {
        u[u.len() - 2] as u32 * 0x1_0000 + u[u.len() - 1] as u32
    }
}

/// Give a code a text.
fn put(m: &mut HashMap<u32, String>, code: u32, text: String)
    ensures
        texts(final(m)@) == texts(old(m)@).insert(code, text@),
{
    broadcast use vstd::std_specs::hash::group_hash_axioms;

    m.insert(code, text);
    assert(texts(m@) =~= texts(old(m)@).insert(code, text@));
}

/// Read `bfchar` entries.
fn read_chars(t: &Vec<Vec<u8>>, from: usize, m: &mut HashMap<u32, String>) -> (r: usize)
    requires
        from <= t@.len(),
    ensures
        (r as int, texts(final(m)@)) == chars_read(token_views(t@), from as int, texts(old(m)@)),
        from <= r <= t@.len(),
{
    let ghost tv = token_views(t@);
    let mut i: usize = from;
    while i < t.len() && t.len() - i > 1 && !same_bytes(t[i].as_slice(), "endbfchar".as_bytes())
        invariant
            from <= i <= t@.len(),
            tv == token_views(t@),
            chars_read(tv, i as int, texts(m@)) == chars_read(tv, from as int, texts(old(m)@)),
        decreases t@.len() - i,
    {
        assert(tv[i as int] == t@[i as int]@ && tv[i + 1] == t@[i + 1]@);
        if let Some(src) = read_group(t[i].as_slice()) {
            if let Some(dst) = read_group(t[i + 1].as_slice()) {
                put(m, read_code(src.as_slice()), utf16_string(dst.as_slice()));
            }
        }
        i += 2;
    }
    assert(i < t@.len() ==> tv[i as int] == t@[i as int]@);
    i
}

/// Read a bracketed list of texts.
fn read_list(t: &Vec<Vec<u8>>, from: usize, lo: u32, m: &mut HashMap<u32, String>) -> (r: usize)
    requires
        from <= t@.len(),
    ensures
        (r as int, texts(final(m)@)) == list_read(
            token_views(t@),
            from as int,
            lo,
            texts(old(m)@),
        ),
        from <= r <= t@.len(),
{
    let ghost tv = token_views(t@);
    let mut j: usize = from;
    let mut code: u32 = lo;
    while j < t.len() && !same_bytes(t[j].as_slice(), "]".as_bytes())
        invariant
            from <= j <= t@.len(),
            tv == token_views(t@),
            list_read(tv, j as int, code, texts(m@)) == list_read(
                tv,
                from as int,
                lo,
                texts(old(m)@),
            ),
        decreases t@.len() - j,
    {
        assert(tv[j as int] == t@[j as int]@);
        if let Some(dst) = read_group(t[j].as_slice()) {
            put(m, code, utf16_string(dst.as_slice()));
        }
        code = if code == 0xFFFF_FFFF {
            0
        } else {
            code + 1
        };
        j += 1;
    }
    assert(j < t@.len() ==> tv[j as int] == t@[j as int]@);
    if j < t.len() {
        j + 1
    } else {
        j
    }
}

/// Give consecutive characters to a run of codes.
fn put_run(m: &mut HashMap<u32, String>, lo: u32, hi: u32, base: u32)
    ensures
        texts(final(m)@) == with_run(texts(old(m)@), lo, hi, base),
{
    let ghost before = texts(m@);
    let mut code: u64 = lo as u64;
    assert(texts(m@) =~= with_part(before, lo, hi, base, lo as int));
    while code <= hi as u64
        invariant
            lo <= code <= 0x1_0000_0000,
            before == texts(old(m)@),
            texts(m@) == with_part(before, lo, hi, base, code as int),
        decreases 0x1_0000_0000 - code,
    {
        let v: u32 = ((base as u64 + (code - lo as u64)) % 0x1_0000_0000) as u32;
        assert(v == advanced(base, code - lo));
        if let Some(ch) = char::from_u32(v) {
            let mut s: String = String::new();
            s.push(ch);
            assert(s@ =~= seq![ch]);
            put(m, code as u32, s);
        }
        assert(texts(m@) =~= with_part(before, lo, hi, base, code + 1));
        code += 1;
    }
    assert(texts(m@) =~= with_run(before, lo, hi, base));
}

/// The codes of a run below `end` have their characters.
spec fn with_part(
    m: Map<u32, Seq<char>>,
    lo: u32,
    hi: u32,
    base: u32,
    end: int,
) -> Map<u32, Seq<char>> {
    Map::new(
        |c: u32|
            m.dom().contains(c) || (lo <= c <= hi && c < end && text::is_scalar(
                advanced(base, c - lo),
            )),
        |c: u32|
            if lo <= c <= hi && c < end && text::is_scalar(advanced(base, c - lo)) {
                seq![advanced(base, c - lo) as char]
            } else {
                m[c]
            },
    )
}

/// Read `bfrange` entries.
fn read_ranges(t: &Vec<Vec<u8>>, from: usize, m: &mut HashMap<u32, String>) -> (r: usize)
    requires
        from <= t@.len(),
    ensures
        (r as int, texts(final(m)@)) == ranges_read(token_views(t@), from as int, texts(old(m)@)),
        from <= r <= t@.len(),
{
    let ghost tv = token_views(t@);
    let mut i: usize = from;
    while i < t.len() && t.len() - i > 2 && !same_bytes(t[i].as_slice(), "endbfrange".as_bytes())
        invariant
            from <= i <= t@.len(),
            tv == token_views(t@),
            ranges_read(tv, i as int, texts(m@)) == ranges_read(tv, from as int, texts(old(m)@)),
        decreases t@.len() - i,
    {
        assert(tv[i as int] == t@[i as int]@ && tv[i + 1] == t@[i + 1]@ && tv[i + 2] == t@[i
            + 2]@);
        match (read_group(t[i].as_slice()), read_group(t[i + 1].as_slice())) {
            (Some(lo), Some(hi)) => {
                let first: u32 = read_code(lo.as_slice());
                let last: u32 = read_code(hi.as_slice());
                if same_bytes(t[i + 2].as_slice(), "[".as_bytes()) {
                    i = read_list(t, i + 3, first, m);
                } else if let Some(dst) = read_group(t[i + 2].as_slice()) {
                    put_run(m, first, last, read_code(dst.as_slice()));
                    i += 3;
                } else {
                    i += 1;
                }
            },
            _ => {
                i += 1;
            },
        }
    }
    assert(i < t@.len() ==> tv[i as int] == t@[i as int]@);
    i
}

/// Read the sections of a map that is already text.
pub fn parse_unicode_map(text: &[u8]) -> (m: HashMap<u32, String>)
    ensures
        texts(m@) == unicode_map(text@),
{
    let mut m: HashMap<u32, String> = HashMap::new();
    let t = tokenize(text);
    let ghost tv = token_views(t@);
    proof {
        assert(texts(m@) =~= Map::<u32, Seq<char>>::empty());
    }
    let mut i: usize = 0;
    while i < t.len()
        invariant
            i <= t@.len(),
            tv == token_views(t@),
            sections_read(tv, i as int, texts(m@)) == unicode_map(text@),
        decreases t@.len() - i,
    {
        assert(tv[i as int] == t@[i as int]@);
        if same_bytes(t[i].as_slice(), "beginbfchar".as_bytes()) {
            i = read_chars(&t, i + 1, &mut m);
        } else if same_bytes(t[i].as_slice(), "beginbfrange".as_bytes()) {
            i = read_ranges(&t, i + 1, &mut m);
        } else {
            i += 1;
        }
    }
    m
}

/// Parse a ToUnicode map's `bfchar` and `bfrange` sections.
pub fn parse_tounicode(data: &[u8]) -> (m: HashMap<u32, String>)
    ensures
        texts(m@) == tounicode(data@),
        vstd::utf8::valid_utf8(data@) ==> texts(m@) == unicode_map(data@),
{
    broadcast use vstd::utf8::decode_utf8_encode_utf8;

    let text = from_utf8_lossy(data);
    parse_unicode_map(text.as_str().as_bytes())
}

/// A closed group: `<`, no `>`, then `>`.
pub open spec fn is_closed_group(g: Seq<u8>) -> bool {
    &&& g.len() >= 2
    &&& g[0] == 0x3C
    &&& g.last() == 0x3E
    &&& forall|i: int| 0 <= i < g.len() - 1 ==> #[trigger] g[i] != 0x3E
}

/// A group ends after its first `>`.
proof fn lemma_group_end_at(s: Seq<u8>, i: int, e: int)
    requires
        0 <= i <= e < s.len(),
        forall|j: int| i <= j < e ==> #[trigger] s[j] != 0x3E,
        s[e] == 0x3E,
    ensures
        group_end(s, i) == e + 1,
    decreases e - i,
{
    if i < e {
        lemma_group_end_at(s, i + 1, e);
    }
}

/// Where groups and words end does not depend on what stands before them.
proof fn lemma_ends_shift(a: Seq<u8>, s: Seq<u8>, i: int)
    requires
        0 <= i <= s.len(),
    ensures
        group_end(a + s, a.len() + i) == a.len() + group_end(s, i),
        word_end(a + s, a.len() + i) == a.len() + word_end(s, i),
    decreases s.len() - i,
{
    if i < s.len() {
        assert((a + s)[a.len() + i] == s[i]);
        lemma_ends_shift(a, s, i + 1);
    }
}

/// The tokens from an index on do not depend on what stands before it.
proof fn lemma_tokens_shift(a: Seq<u8>, s: Seq<u8>, i: int)
    requires
        0 <= i <= s.len(),
    ensures
        tokens_from(a + s, a.len() + i) == tokens_from(s, i),
    decreases s.len() - i,
{
    let n = a.len() as int;
    if i < s.len() {
        assert((a + s)[n + i] == s[i]);
        lemma_ends_shift(a, s, i);
        if is_blank(s[i]) {
            lemma_tokens_shift(a, s, i + 1);
        } else if s[i] == 0x3C {
            lemma_group_end(s, i);
            let e = group_end(s, i);
            lemma_tokens_shift(a, s, e);
            assert((a + s).subrange(n + i, n + e) =~= s.subrange(i, e));
        } else if s[i] == 0x5B || s[i] == 0x5D {
            lemma_tokens_shift(a, s, i + 1);
        } else {
            lemma_word_end(s, i + 1);
            let e = word_end(s, i);
            lemma_tokens_shift(a, s, e);
            assert((a + s).subrange(n + i, n + e) =~= s.subrange(i, e));
        }
    }
}

/// Groups need no separators: a closed group is one token, whatever follows it
/// directly, and a blank before the rest changes nothing.
pub proof fn law_groups_need_no_separators(g: Seq<u8>, rest: Seq<u8>, blank: u8)
    requires
        is_closed_group(g),
        is_blank(blank),
    ensures
        tokens_from(g + rest, 0) == seq![g] + tokens_from(rest, 0),
        tokens_from(g + (seq![blank] + rest), 0) == tokens_from(g + rest, 0),
{
    lemma_leading_group(g, rest);
    lemma_leading_group(g, seq![blank] + rest);
    lemma_tokens_shift(seq![blank], rest, 0);
    assert((seq![blank] + rest)[0] == blank);
}

/// A closed group in front is the first token.
proof fn lemma_leading_group(g: Seq<u8>, rest: Seq<u8>)
    requires
        is_closed_group(g),
    ensures
        tokens_from(g + rest, 0) == seq![g] + tokens_from(rest, 0),
{
    let s = g + rest;
    assert forall|j: int| 0 <= j < g.len() - 1 implies #[trigger] s[j] != 0x3E by {
        assert(s[j] == g[j]);
    }
    assert(s[0] == g[0]);
    lemma_group_end_at(s, 0, g.len() - 1);
    assert(s.subrange(0, g.len() as int) =~= g);
    lemma_tokens_shift(g, rest, 0);
}

/// A bare word.
pub open spec fn is_bare_word(w: Seq<u8>) -> bool {
    w.len() > 0 && forall|i: int| 0 <= i < w.len() ==> !ends_word(#[trigger] w[i])
}

/// A token of a map: a closed group, a bracket, or a bare word.
pub open spec fn is_token(t: Seq<u8>) -> bool {
    is_closed_group(t) || t == seq![0x5Bu8] || t == seq![0x5Du8] || is_bare_word(t)
}

/// Only blanks.
pub open spec fn all_blank(g: Seq<u8>) -> bool {
    forall|i: int| 0 <= i < g.len() ==> is_blank(#[trigger] g[i])
}

/// Tokens written out with gaps before, between and after them.
pub open spec fn spelled(t: Seq<Seq<u8>>, gaps: Seq<Seq<u8>>) -> Seq<u8>
    decreases t.len(),
{
    if t.len() == 0 {
        gaps[0]
    } else {
        gaps[0] + (t[0] + spelled(t.drop_first(), gaps.drop_first()))
    }
}

/// The gaps are blanks, and two bare words are set apart.
pub open spec fn well_spaced(t: Seq<Seq<u8>>, gaps: Seq<Seq<u8>>) -> bool {
    &&& gaps.len() == t.len() + 1
    &&& forall|k: int| 0 <= k < t.len() ==> is_token(#[trigger] t[k])
    &&& forall|k: int| 0 <= k < gaps.len() ==> all_blank(#[trigger] gaps[k])
    &&& forall|k: int|
        0 < k < t.len() && is_bare_word(t[k - 1]) && is_bare_word(t[k]) ==> (
        #[trigger] gaps[k]).len() > 0
}

/// Leading blanks hold no token.
proof fn lemma_leading_blanks(g: Seq<u8>, s: Seq<u8>, i: int)
    requires
        all_blank(g),
        0 <= i <= g.len(),
    ensures
        tokens_from(g + s, i) == tokens_from(s, 0),
    decreases g.len() - i,
{
    if i < g.len() {
        assert((g + s)[i] == g[i]);
        assert(is_blank(g[i]));
        lemma_leading_blanks(g, s, i + 1);
    } else {
        lemma_tokens_shift(g, s, 0);
    }
}

/// A word ends at the first byte that ends it.
proof fn lemma_word_end_at(s: Seq<u8>, i: int, e: int)
    requires
        0 <= i <= e <= s.len(),
        forall|j: int| i <= j < e ==> !ends_word(#[trigger] s[j]),
        e < s.len() ==> ends_word(s[e]),
    ensures
        word_end(s, i) == e,
    decreases e - i,
{
    if i < e {
        lemma_word_end_at(s, i + 1, e);
    }
}

/// A token that stands first is the first token.
proof fn lemma_leading_token(t: Seq<u8>, s: Seq<u8>)
    requires
        is_token(t),
        is_bare_word(t) && s.len() > 0 ==> ends_word(s[0]),
    ensures
        tokens_from(t + s, 0) == seq![t] + tokens_from(s, 0),
{
    let all = t + s;
    let n = t.len() as int;
    lemma_tokens_shift(t, s, 0);
    if is_closed_group(t) {
        assert forall|j: int| 0 <= j < n - 1 implies #[trigger] all[j] != 0x3E by {
            assert(all[j] == t[j]);
        }
        lemma_group_end_at(all, 0, n - 1);
        assert(all.subrange(0, n) =~= t);
    } else if is_bare_word(t) {
        assert forall|j: int| 0 <= j < n implies !ends_word(#[trigger] all[j]) by {
            assert(all[j] == t[j]);
        }
        if s.len() > 0 {
            assert(all[n] == s[0]);
        }
        lemma_word_end_at(all, 0, n);
        assert(all.subrange(0, n) =~= t);
        assert(!ends_word(all[0]));
    } else {
        assert(all[0] == t[0]);
        assert(seq![all[0]] =~= t);
    }
}

/// The tokens of a text that is written out of tokens are these tokens.
pub proof fn law_written_tokens_are_read_back(t: Seq<Seq<u8>>, gaps: Seq<Seq<u8>>)
    requires
        well_spaced(t, gaps),
    ensures
        tokens_from(spelled(t, gaps), 0) == t,
    decreases t.len(),
{
    assert(all_blank(gaps[0]));
    if t.len() == 0 {
        lemma_leading_blanks(gaps[0], Seq::empty(), 0);
        assert(gaps[0] + Seq::<u8>::empty() =~= gaps[0]);
        assert(tokens_from(Seq::<u8>::empty(), 0) =~= t);
    } else {
        let ts = t.drop_first();
        let gs = gaps.drop_first();
        let s = spelled(ts, gs);
        assert forall|k: int| 0 <= k < ts.len() implies is_token(#[trigger] ts[k]) by {
            assert(ts[k] == t[k + 1]);
        }
        assert forall|k: int| 0 <= k < gs.len() implies all_blank(#[trigger] gs[k]) by {
            assert(gs[k] == gaps[k + 1]);
        }
        assert forall|k: int|
            0 < k < ts.len() && is_bare_word(ts[k - 1]) && is_bare_word(ts[k]) implies (
        #[trigger] gs[k]).len() > 0 by {
            assert(gs[k] == gaps[k + 1]);
        }
        law_written_tokens_are_read_back(ts, gs);
        assert(is_token(t[0]));
        if is_bare_word(t[0]) && s.len() > 0 {
            assert(gs[0] == gaps[1]);
            if gs[0].len() > 0 {
                assert(s[0] == gs[0][0]);
                assert(is_blank(gs[0][0]));
            } else if ts.len() > 0 {
                assert(is_token(ts[0]));
                assert(ts[0] == t[1]);
                assert(!is_bare_word(ts[0]));
                assert(s[0] == ts[0][0]);
            }
        }
        lemma_leading_token(t[0], s);
        lemma_leading_blanks(gaps[0], t[0] + s, 0);
        assert(seq![t[0]] + ts =~= t);
    }
}

/// Tokens are found by their structure: two maps with the same tokens, that
/// differ in the blanks around and between them alone, define the same texts.
pub proof fn law_blanks_do_not_matter(
    a: Seq<u8>,
    b: Seq<u8>,
    t: Seq<Seq<u8>>,
    before: Seq<Seq<u8>>,
    after: Seq<Seq<u8>>,
)
    requires
        well_spaced(t, before),
        well_spaced(t, after),
    ensures
        unicode_map(spelled(t, before)) == unicode_map(spelled(t, after)),
        vstd::utf8::encode_utf8(text::utf8_lossy(a)) == spelled(t, before)
            && vstd::utf8::encode_utf8(text::utf8_lossy(b)) == spelled(t, after) ==> tounicode(a)
            == tounicode(b),
{
    law_written_tokens_are_read_back(t, before);
    law_written_tokens_are_read_back(t, after);
}

} // verus!
