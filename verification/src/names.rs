//! Glyph names.

use crate::bytes::{self, find_from, has_prefix, only_digits, same_bytes};
use crate::text;
use vstd::prelude::*;
use vstd::slice::slice_subrange;
use vstd::string::StringSliceAdditionalSpecFns;

verus! {

/// Glyph names of the Adobe Glyph List and their characters, none of them with a
/// `.`. The Latin ligatures come first; they name the presentation forms, which
/// are spelled out later.
pub const GLYPH_NAMES: [(&'static str, char); 141] = [
    ("ff", '\u{FB00}'),
    ("fi", '\u{FB01}'),
    ("fl", '\u{FB02}'),
    ("ffi", '\u{FB03}'),
    ("ffl", '\u{FB04}'),
    ("ft", '\u{FB05}'),
    ("st", '\u{FB06}'),
    ("space", ' '),
    ("exclam", '!'),
    ("quotedbl", '"'),
    ("numbersign", '#'),
    ("dollar", '$'),
    ("percent", '%'),
    ("ampersand", '&'),
    ("quotesingle", '\''),
    ("parenleft", '('),
    ("parenright", ')'),
    ("asterisk", '*'),
    ("plus", '+'),
    ("comma", ','),
    ("hyphen", '-'),
    ("period", '.'),
    ("slash", '/'),
    ("zero", '0'),
    ("one", '1'),
    ("two", '2'),
    ("three", '3'),
    ("four", '4'),
    ("five", '5'),
    ("six", '6'),
    ("seven", '7'),
    ("eight", '8'),
    ("nine", '9'),
    ("colon", ':'),
    ("semicolon", ';'),
    ("less", '<'),
    ("equal", '='),
    ("greater", '>'),
    ("question", '?'),
    ("at", '@'),
    ("bracketleft", '['),
    ("backslash", '\\'),
    ("bracketright", ']'),
    ("asciicircum", '^'),
    ("underscore", '_'),
    ("grave", '`'),
    ("braceleft", '{'),
    ("bar", '|'),
    ("braceright", '}'),
    ("asciitilde", '~'),
    ("bullet", '\u{2022}'),
    ("periodcentered", '\u{00B7}'),
    ("endash", '\u{2013}'),
    ("emdash", '\u{2014}'),
    ("quoteright", '\u{2019}'),
    ("quoteleft", '\u{2018}'),
    ("quotedblleft", '\u{201C}'),
    ("quotedblright", '\u{201D}'),
    ("quotedblbase", '\u{201E}'),
    ("quotesinglbase", '\u{201A}'),
    ("degree", '\u{00B0}'),
    ("trademark", '\u{2122}'),
    ("registered", '\u{00AE}'),
    ("copyright", '\u{00A9}'),
    ("ellipsis", '\u{2026}'),
    ("minus", '\u{2212}'),
    ("fraction", '\u{2044}'),
    ("nbspace", '\u{00A0}'),
    ("alpha", '\u{03B1}'),
    ("beta", '\u{03B2}'),
    ("gamma", '\u{03B3}'),
    ("delta", '\u{03B4}'),
    ("epsilon", '\u{03B5}'),
    ("epsilon1", '\u{03B5}'),
    ("zeta", '\u{03B6}'),
    ("eta", '\u{03B7}'),
    ("theta", '\u{03B8}'),
    ("theta1", '\u{03B8}'),
    ("iota", '\u{03B9}'),
    ("kappa", '\u{03BA}'),
    ("lambda", '\u{03BB}'),
    ("mu", '\u{03BC}'),
    ("nu", '\u{03BD}'),
    ("xi", '\u{03BE}'),
    ("omicron", '\u{03BF}'),
    ("pi", '\u{03C0}'),
    ("pi1", '\u{03C0}'),
    ("rho", '\u{03C1}'),
    ("rho1", '\u{03C1}'),
    ("sigma", '\u{03C3}'),
    ("sigma1", '\u{03C2}'),
    ("tau", '\u{03C4}'),
    ("upsilon", '\u{03C5}'),
    ("phi", '\u{03C6}'),
    ("phi1", '\u{03C6}'),
    ("chi", '\u{03C7}'),
    ("psi", '\u{03C8}'),
    ("omega", '\u{03C9}'),
    ("omega1", '\u{03C9}'),
    ("Gamma", '\u{0393}'),
    ("Delta", '\u{0394}'),
    ("Theta", '\u{0398}'),
    ("Lambda", '\u{039B}'),
    ("Xi", '\u{039E}'),
    ("Pi", '\u{03A0}'),
    ("Sigma", '\u{03A3}'),
    ("Upsilon", '\u{03A5}'),
    ("Phi", '\u{03A6}'),
    ("Psi", '\u{03A8}'),
    ("Omega", '\u{03A9}'),
    ("lessequal", '\u{2264}'),
    ("greaterequal", '\u{2265}'),
    ("notequal", '\u{2260}'),
    ("approxequal", '\u{2248}'),
    ("equivalence", '\u{2261}'),
    ("element", '\u{2208}'),
    ("plusminus", '\u{00B1}'),
    ("multiply", '\u{00D7}'),
    ("divide", '\u{00F7}'),
    ("infinity", '\u{221E}'),
    ("partialdiff", '\u{2202}'),
    ("gradient", '\u{2207}'),
    ("summation", '\u{2211}'),
    ("product", '\u{220F}'),
    ("integral", '\u{222B}'),
    ("radical", '\u{221A}'),
    ("proportional", '\u{221D}'),
    ("arrowright", '\u{2192}'),
    ("arrowleft", '\u{2190}'),
    ("arrowup", '\u{2191}'),
    ("arrowdown", '\u{2193}'),
    ("arrowboth", '\u{2194}'),
    ("arrowdblright", '\u{21D2}'),
    ("logicaland", '\u{2227}'),
    ("logicalor", '\u{2228}'),
    ("intersection", '\u{2229}'),
    ("union", '\u{222A}'),
    ("similar", '\u{223C}'),
    ("congruent", '\u{2245}'),
    ("dotmath", '\u{22C5}'),
    ("asteriskmath", '\u{2217}'),
];

/// The value of a hexadecimal digit.
pub open spec fn hex_digit(b: u8) -> Option<nat> {
    if 0x30 <= b <= 0x39 {
        Some((b - 0x30) as nat)
    } else if 0x41 <= b <= 0x46 {
        Some((b - 0x41 + 10) as nat)
    } else if 0x61 <= b <= 0x66 {
        Some((b - 0x61 + 10) as nat)
    } else {
        None
    }
}

/// The value of a string of hexadecimal digits.
pub open spec fn hex_digits(s: Seq<u8>) -> Option<nat>
    decreases s.len(),
{
    if s.len() == 0 {
        Some(0)
    } else {
        match (hex_digits(s.drop_last()), hex_digit(s.last())) {
            (Some(v), Some(d)) => Some(v * 16 + d),
            _ => None,
        }
    }
}

/// A hexadecimal number: digits, with at most one `+` before them.
pub open spec fn hex_number(s: Seq<u8>) -> Option<nat> {
    let d = if s.len() > 0 && s[0] == 0x2B {
        s.drop_first()
    } else {
        s
    };
    if d.len() == 0 {
        None
    } else {
        hex_digits(d)
    }
}

/// The value of a hexadecimal digit.
pub fn read_hex_digit(b: u8) -> (r: Option<u32>)
    ensures
        match r {
            Some(v) => hex_digit(b) == Some(v as nat) && v < 16,
            None => hex_digit(b) is None,
        },
{
    if 0x30 <= b && b <= 0x39 {
        Some((b - 0x30) as u32)
    } else if 0x41 <= b && b <= 0x46 {
        Some((b - 0x41) as u32 + 10)
    } else if 0x61 <= b && b <= 0x66 {
        Some((b - 0x61) as u32 + 10)
    } else {
        None
    }
}

/// Strings with a digit that is none have no value.
proof fn lemma_hex_digits_prefix(s: Seq<u8>, n: int)
    requires
        0 <= n <= s.len(),
        hex_digits(s.take(n)) is None,
    ensures
        hex_digits(s) is None,
    decreases s.len(),
{
    if n == s.len() {
        assert(s.take(n) =~= s);
    } else {
        assert(s.drop_last().take(n) =~= s.take(n));
        lemma_hex_digits_prefix(s.drop_last(), n);
    }
}

/// Read a hexadecimal number of at most four bytes.
pub fn read_hex(s: &[u8]) -> (r: Option<u32>)
    requires
        s@.len() <= 4,
    ensures
        match r {
            Some(v) => hex_number(s@) == Some(v as nat) && v <= 0xFFFF,
            None => hex_number(s@) is None,
        },
{
    let start: usize = if s.len() > 0 && s[0] == 0x2B {
        1
    } else {
        0
    };
    let ghost d = if s@.len() > 0 && s@[0] == 0x2B {
        s@.drop_first()
    } else {
        s@
    };
    assert(d =~= s@.skip(start as int));
    if s.len() == start {
        return None;
    }
    let mut v: u32 = 0;
    let mut i: usize = start;
    while i < s.len()
        invariant
            start <= i <= s@.len(),
            start <= 1,
            s@.len() <= 4,
            d == s@.skip(start as int),
            d.len() > 0,
            hex_number(s@) == hex_digits(d),
            hex_digits(d.take(i - start)) == Some(v as nat),
            i - start == 0 ==> v == 0,
            i - start == 1 ==> v <= 0xF,
            i - start == 2 ==> v <= 0xFF,
            i - start == 3 ==> v <= 0xFFF,
            i - start == 4 ==> v <= 0xFFFF,
        decreases s@.len() - i,
    {
        assert(d.take(i + 1 - start).drop_last() =~= d.take(i - start));
        assert(d.take(i + 1 - start).last() == s@[i as int]);
        match read_hex_digit(s[i]) {
            Some(x) => {
                v = v * 16 + x;
            },
            None => {
                proof {
                    lemma_hex_digits_prefix(d, i + 1 - start);
                }
                return None;
            },
        }
        i += 1;
    }
    assert(d.take(i - start) =~= d);
    Some(v)
}

/// An ASCII letter.
pub open spec fn is_letter(b: u8) -> bool {
    0x41 <= b <= 0x5A || 0x61 <= b <= 0x7A
}

/// The character of a name in the table, from its entry `i` on.
pub open spec fn named_from(name: Seq<u8>, i: int) -> Option<char>
    decreases GLYPH_NAMES@.len() - i,
{
    if i < 0 || i >= GLYPH_NAMES@.len() {
        None
    } else if name == GLYPH_NAMES@[i].0.spec_bytes() {
        Some(GLYPH_NAMES@[i].1)
    } else {
        named_from(name, i + 1)
    }
}

/// What a `uniXXXX` name says by the four bytes after `uni`: a character, or
/// none where the number is not one of a character. Nothing for a name that does
/// not begin with `uni` and the digits of a number.
pub open spec fn uni_char(name: Seq<u8>) -> Option<Option<char>> {
    if bytes::occurs_at(name, "uni".spec_bytes(), 0) && name.len() >= 7 {
        match hex_number(name.subrange(3, 7)) {
            Some(v) => Some(text::scalar_char(v as u32)),
            None => None,
        }
    } else {
        None
    }
}

/// The character that a glyph name stands for: `uniXXXX`, else what is left of
/// the first `.` stands for, if something is; without a `.` a single letter, or a
/// name of the table.
pub open spec fn glyph_char(name: Seq<u8>) -> Option<char>
    decreases name.len(),
{
    if !vstd::utf8::valid_utf8(name) {
        None
    } else {
        match uni_char(name) {
            Some(c) => c,
            None => match bytes::first_at(name, ".".spec_bytes(), 0) {
                Some(k) => if 0 < k < name.len() {
                    glyph_char(name.take(k))
                } else {
                    None
                },
                None => if name.len() == 1 && is_letter(name[0]) {
                    Some(name[0] as char)
                } else {
                    named_from(name, 0)
                },
            },
        }
    }
}

/// A string with a `.` in it is no hexadecimal number.
proof fn lemma_no_number_with_dot(s: Seq<u8>, k: int)
    requires
        0 <= k < s.len(),
        s[k] == 0x2E,
    ensures
        hex_number(s) is None,
{
    let d = if s[0] == 0x2B {
        s.drop_first()
    } else {
        s
    };
    let n = if s[0] == 0x2B {
        k - 1
    } else {
        k
    };
    assert(d[n] == 0x2E);
    assert(d.take(n + 1).last() == 0x2E);
    assert(hex_digits(d.take(n + 1)) is None);
    lemma_hex_digits_prefix(d, n + 1);
}

/// A name with a suffix that is text is text where the name is.
proof fn lemma_dotted_text(base: Seq<u8>, suffix: Seq<u8>)
    requires
        vstd::utf8::valid_utf8(suffix),
    ensures
        vstd::utf8::valid_utf8(base + seq![0x2Eu8] + suffix) == vstd::utf8::valid_utf8(base),
{
    let dot = seq![0x2Eu8];
    let name = base + dot + suffix;
    let n = base.len() as int;
    reveal_strlit(".");
    vstd::string::is_ascii_spec_bytes(".");
    vstd::utf8::encode_utf8_valid_utf8("."@);
    assert(".".spec_bytes() =~= dot);
    if vstd::utf8::valid_utf8(base) {
        vstd::utf8::valid_utf8_concat(base, dot);
        vstd::utf8::valid_utf8_concat(base + dot, suffix);
    }
    if vstd::utf8::valid_utf8(name) {
        assert(name[n] == 0x2E);
        vstd::utf8::is_char_boundary_iff_not_is_continuation_byte(name, n);
        vstd::utf8::valid_utf8_split(name, n);
        assert(name.subrange(0, n) =~= base);
    }
}

/// The first `.` of a name with a suffix is the first of its base, or else the one
/// after it.
proof fn lemma_dot_after_base(base: Seq<u8>, suffix: Seq<u8>)
    ensures
        bytes::first_at(base + seq![0x2Eu8] + suffix, ".".spec_bytes(), 0) == match bytes::first_at(
            base,
            ".".spec_bytes(),
            0,
        ) {
            Some(k) => Some(k),
            None => Some(base.len() as int),
        },
        bytes::first_at(base, ".".spec_bytes(), 0) matches Some(k) ==> k < base.len(),
{
    reveal_strlit(".");
    vstd::string::is_ascii_spec_bytes(".");
    let dot = seq![0x2Eu8];
    let name = base + dot + suffix;
    let n = base.len() as int;
    assert(".".spec_bytes() =~= dot);
    assert(name.subrange(n, n + 1) =~= dot);
    assert(bytes::occurs_at(name, dot, n));
    bytes::lemma_first_at(name, dot, 0);
    bytes::lemma_first_at(base, dot, 0);
    assert forall|j: int| 0 <= j < n implies bytes::occurs_at(name, dot, j) == bytes::occurs_at(
        base,
        dot,
        j,
    ) by {
        assert(name.subrange(j, j + 1) =~= base.subrange(j, j + 1));
    }
}

/// A suffix does not change what a name says by `uniXXXX`.
proof fn lemma_uni_of_base(base: Seq<u8>, suffix: Seq<u8>)
    ensures
        uni_char(base + seq![0x2Eu8] + suffix) == uni_char(base),
{
    reveal_strlit("uni");
    vstd::string::is_ascii_spec_bytes("uni");
    let name = base + seq![0x2Eu8] + suffix;
    let n = base.len() as int;
    if bytes::occurs_at(name, "uni".spec_bytes(), 0) && name.len() >= 7 {
        let w = name.subrange(0, 3);
        assert(w[0] == name[0] && w[1] == name[1] && w[2] == name[2]);
        if n < 7 {
            assert(name[n] == 0x2E);
            assert(n >= 3);
            assert(name.subrange(3, 7)[n - 3] == 0x2E);
            lemma_no_number_with_dot(name.subrange(3, 7), n - 3);
        } else {
            assert(base.subrange(0, 3) =~= w);
            assert(base.subrange(3, 7) =~= name.subrange(3, 7));
        }
    }
    if n >= 7 && bytes::occurs_at(base, "uni".spec_bytes(), 0) {
        assert(base.subrange(0, 3) =~= name.subrange(0, 3));
    }
}

/// A suffix after a `.` never changes which character a name stands for.
pub proof fn law_suffix_is_stripped(base: Seq<u8>, suffix: Seq<u8>)
    requires
        base.len() > 0,
        vstd::utf8::valid_utf8(suffix),
    ensures
        glyph_char(base + seq![0x2Eu8] + suffix) == glyph_char(base),
{
    let name = base + seq![0x2Eu8] + suffix;
    lemma_dotted_text(base, suffix);
    lemma_dot_after_base(base, suffix);
    lemma_uni_of_base(base, suffix);
    assert(base.len() < name.len());
    match bytes::first_at(base, ".".spec_bytes(), 0) {
        Some(k) => {
            bytes::lemma_first_at(base, ".".spec_bytes(), 0);
            assert(name.take(k) =~= base.take(k));
        },
        None => {
            assert(name.take(base.len() as int) =~= base);
        },
    }
}

/// The first entry with a name gives its character.
pub proof fn lemma_named_at(name: Seq<u8>, i: int, k: int)
    requires
        0 <= i <= k < GLYPH_NAMES@.len(),
        name == GLYPH_NAMES@[k].0.spec_bytes(),
        forall|j: int| i <= j < k ==> name != (#[trigger] GLYPH_NAMES@[j]).0.spec_bytes(),
    ensures
        named_from(name, i) == Some(GLYPH_NAMES@[k].1),
    decreases k - i,
{
    if i < k {
        assert(name != GLYPH_NAMES@[i].0.spec_bytes());
        lemma_named_at(name, i + 1, k);
    }
}

/// The number of ligatures at the beginning of the table.
pub const LIGATURES: usize = 7;

/// The glyph name of a ligature stands for a character that is spelled out as
/// that name.
pub proof fn law_ligature_names_spell_themselves(k: int)
    requires
        0 <= k < LIGATURES,
    ensures
        glyph_char(GLYPH_NAMES@[k].0.spec_bytes()) == Some(GLYPH_NAMES@[k].1),
        text::is_ligature(GLYPH_NAMES@[k].1),
        text::spelled_out(seq![GLYPH_NAMES@[k].1]) == GLYPH_NAMES@[k].0@,
{
    reveal_strlit("ff");
    reveal_strlit("fi");
    reveal_strlit("fl");
    reveal_strlit("ffi");
    reveal_strlit("ffl");
    reveal_strlit("ft");
    reveal_strlit("st");
    reveal_strlit("uni");
    reveal_strlit(".");
    vstd::string::is_ascii_spec_bytes("ff");
    vstd::string::is_ascii_spec_bytes("fi");
    vstd::string::is_ascii_spec_bytes("fl");
    vstd::string::is_ascii_spec_bytes("ffi");
    vstd::string::is_ascii_spec_bytes("ffl");
    vstd::string::is_ascii_spec_bytes("ft");
    vstd::string::is_ascii_spec_bytes("st");
    vstd::string::is_ascii_spec_bytes("uni");
    vstd::string::is_ascii_spec_bytes(".");
    let name = GLYPH_NAMES@[k].0;
    let b = name.spec_bytes();
    let c = GLYPH_NAMES@[k].1;
    vstd::utf8::encode_utf8_valid_utf8(name@);
    assert(b == vstd::utf8::encode_utf8(name@));
    bytes::lemma_first_at(b, ".".spec_bytes(), 0);
    assert forall|j: int| 0 <= j < b.len() implies b[j] != 0x2E by {}
    if let Some(j) = bytes::first_at(b, ".".spec_bytes(), 0) {
        assert(b.subrange(j, j + 1)[0] == b[j]);
    }
    assert forall|j: int| 0 <= j < k implies b != (#[trigger] GLYPH_NAMES@[j]).0.spec_bytes() by {
        let e = GLYPH_NAMES@[j].0.spec_bytes();
        assert(e.len() != b.len() || e[0] != b[0] || e[1] != b[1] || e[2] != b[2]);
    }
    lemma_named_at(b, 0, k);
    reveal_with_fuel(text::spelled_out, 2);
    assert(seq![c].drop_last() =~= Seq::<char>::empty());
    assert(text::spelled_out(seq![c]) =~= text::spelled(c));
    assert(text::spelled(c) =~= name@);
}

/// Find a name in the table.
fn find_named(name: &[u8]) -> (r: Option<char>)
    ensures
        r == named_from(name@, 0),
{
    let mut i: usize = 0;
    while i < GLYPH_NAMES.len()
        invariant
            i <= GLYPH_NAMES@.len(),
            named_from(name@, 0) == named_from(name@, i as int),
        decreases GLYPH_NAMES@.len() - i,
    {
        if same_bytes(name, GLYPH_NAMES[i].0.as_bytes()) {
            return Some(GLYPH_NAMES[i].1);
        }
        i += 1;
    }
    None
}

/// Resolve a glyph name to a character.
pub fn glyph_name_to_char(name: &[u8]) -> (r: Option<char>)
    ensures
        r == glyph_char(name@),
    decreases name@.len(),
{
    if std::str::from_utf8(name).is_err() {
        return None;
    }
    proof {
        reveal_strlit("uni");
        vstd::string::is_ascii_spec_bytes("uni");
        reveal_strlit(".");
        vstd::string::is_ascii_spec_bytes(".");
        bytes::lemma_first_at(name@, ".".spec_bytes(), 0);
    }
    if name.len() >= 7 && has_prefix(name, "uni".as_bytes()) {
        if let Some(v) = read_hex(slice_subrange(name, 3, 7)) {
            return char::from_u32(v);
        }
    }
    match find_from(name, ".".as_bytes(), 0) {
        Some(k) => {
            if k > 0 {
                let base = slice_subrange(name, 0, k);
                assert(base@ =~= name@.take(k as int));
                glyph_name_to_char(base)
            } else {
                None
            }
        },
        None => {
            if name.len() == 1 {
                let b: u8 = name[0];
                if (0x41 <= b && b <= 0x5A) || (0x61 <= b && b <= 0x7A) {
                    return Some(b as char);
                }
            }
            find_named(name)
        },
    }
}

/// `prefix` followed by digits and nothing else.
pub open spec fn is_numbered(name: Seq<u8>, prefix: Seq<u8>) -> bool {
    bytes::occurs_at(name, prefix, 0) && name.len() > prefix.len()
        && bytes::all_digits(name.skip(prefix.len() as int))
}

/// The number of leading letters.
pub open spec fn letter_run(s: Seq<u8>) -> nat
    decreases s.len(),
{
    if s.len() > 0 && is_letter(s[0]) {
        1 + letter_run(s.drop_first())
    } else {
        0
    }
}

/// One to three letters followed by three or more digits and nothing else.
pub open spec fn is_code_name(name: Seq<u8>) -> bool {
    let n = letter_run(name);
    1 <= n <= 3 && name.len() - n >= 3 && bytes::all_digits(name.skip(n as int))
}

/// A glyph name that is a placeholder for a glyph number and has no meaning:
/// `g115`, `cid42`, `glyph7`, `index9`, or a code name such as `SM590000`. The
/// names `afii...` and `uni...` have one.
pub open spec fn is_placeholder(name: Seq<u8>) -> bool {
    &&& !bytes::occurs_at(name, "afii".spec_bytes(), 0)
    &&& !bytes::occurs_at(name, "uni".spec_bytes(), 0)
    &&& {
        ||| is_numbered(name, "g".spec_bytes())
        ||| is_numbered(name, "G".spec_bytes())
        ||| is_numbered(name, "cid".spec_bytes())
        ||| is_numbered(name, "CID".spec_bytes())
        ||| is_numbered(name, "glyph".spec_bytes())
        ||| is_numbered(name, "index".spec_bytes())
        ||| is_code_name(name)
    }
}

/// Whether a name is a prefix followed by digits.
fn numbered(name: &[u8], prefix: &[u8]) -> (r: bool)
    ensures
        r == is_numbered(name@, prefix@),
{
    if !has_prefix(name, prefix) || name.len() == prefix.len() {
        return false;
    }
    let rest = slice_subrange(name, prefix.len(), name.len());
    assert(rest@ =~= name@.skip(prefix@.len() as int));
    only_digits(rest)
}

/// Whether a name is a few letters followed by digits.
fn code_name(name: &[u8]) -> (r: bool)
    ensures
        r == is_code_name(name@),
{
    let mut n: usize = 0;
    assert(name@.skip(0) =~= name@);
    while n < name.len() && ((0x41 <= name[n] && name[n] <= 0x5A) || (0x61 <= name[n] && name[n]
        <= 0x7A))
        invariant
            n <= name@.len(),
            letter_run(name@) == n + letter_run(name@.skip(n as int)),
        decreases name@.len() - n,
    {
        assert(name@.skip(n as int).drop_first() =~= name@.skip(n + 1));
        n += 1;
    }
    assert(letter_run(name@.skip(n as int)) == 0);
    if n < 1 || n > 3 || name.len() - n < 3 {
        return false;
    }
    let rest = slice_subrange(name, n, name.len());
    assert(rest@ =~= name@.skip(n as int));
    only_digits(rest)
}

/// Is this glyph name a synthetic placeholder rather than a real one?
pub fn is_gid_name(name: &[u8]) -> (r: bool)
    ensures
        r == is_placeholder(name@),
{
    if has_prefix(name, "afii".as_bytes()) || has_prefix(name, "uni".as_bytes()) {
        return false;
    }
    numbered(name, "g".as_bytes()) || numbered(name, "G".as_bytes()) || numbered(
        name,
        "cid".as_bytes(),
    ) || numbered(name, "CID".as_bytes()) || numbered(name, "glyph".as_bytes()) || numbered(
        name,
        "index".as_bytes(),
    ) || code_name(name)
}

} // verus!
