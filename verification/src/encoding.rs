//! Character encodings of simple fonts.

use std::collections::HashMap;
use vstd::prelude::*;

verus! {

/// The MacRoman characters of the codes 0x80 to 0xFF. All 128 are defined; 0xCA
/// is the non-breaking space.
pub const MACROMAN_HIGH: [char; 128] = [
    '\u{00C4}', '\u{00C5}', '\u{00C7}', '\u{00C9}', '\u{00D1}', '\u{00D6}', '\u{00DC}', '\u{00E1}',
    '\u{00E0}', '\u{00E2}', '\u{00E4}', '\u{00E3}', '\u{00E5}', '\u{00E7}', '\u{00E9}', '\u{00E8}',
    '\u{00EA}', '\u{00EB}', '\u{00ED}', '\u{00EC}', '\u{00EE}', '\u{00EF}', '\u{00F1}', '\u{00F3}',
    '\u{00F2}', '\u{00F4}', '\u{00F6}', '\u{00F5}', '\u{00FA}', '\u{00F9}', '\u{00FB}', '\u{00FC}',
    '\u{2020}', '\u{00B0}', '\u{00A2}', '\u{00A3}', '\u{00A7}', '\u{2022}', '\u{00B6}', '\u{00DF}',
    '\u{00AE}', '\u{00A9}', '\u{2122}', '\u{00B4}', '\u{00A8}', '\u{2260}', '\u{00C6}', '\u{00D8}',
    '\u{221E}', '\u{00B1}', '\u{2264}', '\u{2265}', '\u{00A5}', '\u{00B5}', '\u{2202}', '\u{2211}',
    '\u{220F}', '\u{03C0}', '\u{222B}', '\u{00AA}', '\u{00BA}', '\u{2126}', '\u{00E6}', '\u{00F8}',
    '\u{00BF}', '\u{00A1}', '\u{00AC}', '\u{221A}', '\u{0192}', '\u{2248}', '\u{2206}', '\u{00AB}',
    '\u{00BB}', '\u{2026}', '\u{00A0}', '\u{00C0}', '\u{00C3}', '\u{00D5}', '\u{0152}', '\u{0153}',
    '\u{2013}', '\u{2014}', '\u{201C}', '\u{201D}', '\u{2018}', '\u{2019}', '\u{00F7}', '\u{25CA}',
    '\u{00FF}', '\u{0178}', '\u{2044}', '\u{00A4}', '\u{2039}', '\u{203A}', '\u{FB01}', '\u{FB02}',
    '\u{2021}', '\u{00B7}', '\u{201A}', '\u{201E}', '\u{2030}', '\u{00C2}', '\u{00CA}', '\u{00C1}',
    '\u{00CB}', '\u{00C8}', '\u{00CD}', '\u{00CE}', '\u{00CF}', '\u{00CC}', '\u{00D3}', '\u{00D4}',
    '\u{F8FF}', '\u{00D2}', '\u{00DA}', '\u{00DB}', '\u{00D9}', '\u{0131}', '\u{02C6}', '\u{02DC}',
    '\u{00AF}', '\u{02D8}', '\u{02D9}', '\u{02DA}', '\u{00B8}', '\u{02DD}', '\u{02DB}', '\u{02C7}',
];

/// The built-in layout of the TeX math symbol fonts.
pub const CMSY: [char; 128] = [
    '\u{2212}', '\u{00B7}', '\u{00D7}', '\u{2217}', '\u{00F7}', '\u{22C4}', '\u{00B1}', '\u{2213}',
    '\u{2295}', '\u{2296}', '\u{2297}', '\u{2298}', '\u{2299}', '\u{25EF}', '\u{2218}', '\u{2022}',
    '\u{224D}', '\u{2261}', '\u{2286}', '\u{2287}', '\u{2264}', '\u{2265}', '\u{227C}', '\u{227D}',
    '\u{223C}', '\u{2248}', '\u{2282}', '\u{2283}', '\u{226A}', '\u{226B}', '\u{227A}', '\u{227B}',
    '\u{2190}', '\u{2192}', '\u{2191}', '\u{2193}', '\u{2194}', '\u{2197}', '\u{2198}', '\u{2243}',
    '\u{21D0}', '\u{21D2}', '\u{21D1}', '\u{21D3}', '\u{21D4}', '\u{2196}', '\u{2199}', '\u{221D}',
    '\u{2032}', '\u{221E}', '\u{2208}', '\u{220B}', '\u{25B3}', '\u{25BD}', '\u{0338}', '\u{21A6}',
    '\u{2200}', '\u{2203}', '\u{00AC}', '\u{2205}', '\u{211C}', '\u{2111}', '\u{22A4}', '\u{22A5}',
    '\u{2135}', 'A', 'B', 'C', 'D', 'E', 'F', 'G',
    'H', 'I', 'J', 'K', 'L', 'M', 'N', 'O',
    'P', 'Q', 'R', 'S', 'T', 'U', 'V', 'W',
    'X', 'Y', 'Z', '\u{222A}', '\u{2229}', '\u{228E}', '\u{2227}', '\u{2228}',
    '\u{22A2}', '\u{22A3}', '\u{230A}', '\u{230B}', '\u{2308}', '\u{2309}', '{', '}',
    '\u{27E8}', '\u{27E9}', '|', '\u{2225}', '\u{2195}', '\u{21D5}', '\\', '\u{2240}',
    '\u{221A}', '\u{2210}', '\u{2207}', '\u{222B}', '\u{2294}', '\u{2293}', '\u{2291}', '\u{2292}',
    '\u{00A7}', '\u{2020}', '\u{2021}', '\u{00B6}', '\u{2663}', '\u{2662}', '\u{2661}', '\u{2660}',
];

/// The built-in layout of the TeX math italic fonts.
pub const CMMI: [char; 128] = [
    '\u{0393}', '\u{0394}', '\u{0398}', '\u{039B}', '\u{039E}', '\u{03A0}', '\u{03A3}', '\u{03A5}',
    '\u{03A6}', '\u{03A8}', '\u{03A9}', '\u{03B1}', '\u{03B2}', '\u{03B3}', '\u{03B4}', '\u{03B5}',
    '\u{03B6}', '\u{03B7}', '\u{03B8}', '\u{03B9}', '\u{03BA}', '\u{03BB}', '\u{03BC}', '\u{03BD}',
    '\u{03BE}', '\u{03C0}', '\u{03C1}', '\u{03C3}', '\u{03C4}', '\u{03C5}', '\u{03C6}', '\u{03C7}',
    '\u{03C8}', '\u{03C9}', '\u{03F5}', '\u{03D1}', '\u{03D6}', '\u{03F1}', '\u{03C2}', '\u{03D5}',
    '\u{21BC}', '\u{21BD}', '\u{21C0}', '\u{21C1}', '\u{21A9}', '\u{21AA}', '\u{25B7}', '\u{25C1}',
    '0', '1', '2', '3', '4', '5', '6', '7',
    '8', '9', '.', ',', '<', '/', '>', '\u{22C6}',
    '\u{2202}', 'A', 'B', 'C', 'D', 'E', 'F', 'G',
    'H', 'I', 'J', 'K', 'L', 'M', 'N', 'O',
    'P', 'Q', 'R', 'S', 'T', 'U', 'V', 'W',
    'X', 'Y', 'Z', '\u{266D}', '\u{266E}', '\u{266F}', '\u{2323}', '\u{2322}',
    '\u{2113}', 'a', 'b', 'c', 'd', 'e', 'f', 'g',
    'h', 'i', 'j', 'k', 'l', 'm', 'n', 'o',
    'p', 'q', 'r', 's', 't', 'u', 'v', 'w',
    'x', 'y', 'z', '\u{0131}', '\u{0237}', '\u{2118}', '\u{20D7}', '\u{2040}',
];

/// The characters of a table with an entry for some codes.
pub open spec fn is_table(m: Map<u8, char>, f: spec_fn(u8) -> Option<char>) -> bool {
    forall|b: u8|
        #![trigger m.dom().contains(b)]
        #![trigger f(b)]
        match f(b) {
            Some(c) => m.dom().contains(b) && m[b] == c,
            None => !m.dom().contains(b),
        }
}

/// WinAnsi: ASCII, the typographic points of Windows-1252 that are used, and
/// Latin-1 from 0xA0 on.
pub open spec fn winansi(b: u8) -> Option<char> {
    if 0x20 <= b <= 0x7E || 0xA0 <= b {
        Some(b as char)
    } else if b == 0x85 {
        Some('\u{2026}')
    } else if b == 0x91 {
        Some('\u{2018}')
    } else if b == 0x92 {
        Some('\u{2019}')
    } else if b == 0x93 {
        Some('\u{201C}')
    } else if b == 0x94 {
        Some('\u{201D}')
    } else if b == 0x95 {
        Some('\u{2022}')
    } else if b == 0x96 {
        Some('\u{2013}')
    } else if b == 0x97 {
        Some('\u{2014}')
    } else {
        None
    }
}

/// MacRoman: ASCII and 128 characters from 0x80 on.
pub open spec fn macroman(b: u8) -> Option<char> {
    if 0x20 <= b <= 0x7E {
        Some(b as char)
    } else if b >= 0x80 {
        Some(MACROMAN_HIGH[b - 0x80])
    } else {
        None
    }
}

/// A layout of 128 codes from 0 on.
pub open spec fn layout(t: [char; 128], b: u8) -> Option<char> {
    if b < 128 {
        Some(t[b as int])
    } else {
        None
    }
}

/// The character of a code in WinAnsi.
fn winansi_char(b: u8) -> (r: Option<char>)
    ensures
        r == winansi(b),
{
    if (0x20 <= b && b <= 0x7E) || 0xA0 <= b {
        Some(b as char)
    } else {
        match b {
            0x85 => Some('\u{2026}'),
            0x91 => Some('\u{2018}'),
            0x92 => Some('\u{2019}'),
            0x93 => Some('\u{201C}'),
            0x94 => Some('\u{201D}'),
            0x95 => Some('\u{2022}'),
            0x96 => Some('\u{2013}'),
            0x97 => Some('\u{2014}'),
            _ => None,
        }
    }
}

/// WinAnsiEncoding, for simple fonts without a Unicode map.
pub fn winansi_table() -> (m: HashMap<u8, char>)
    ensures
        is_table(m@, |b: u8| winansi(b)),
{
    broadcast use vstd::std_specs::hash::group_hash_axioms;

    let mut m: HashMap<u8, char> = HashMap::new();
    let mut i: u16 = 0;
    while i < 256
        invariant
            i <= 256,
            forall|b: u8|
                #![trigger m@.dom().contains(b)]
                if b < i && winansi(b) is Some {
                    m@.dom().contains(b) && m@[b] == winansi(b).unwrap()
                } else {
                    !m@.dom().contains(b)
                },
        decreases 256 - i,
    {
        broadcast use vstd::std_specs::hash::group_hash_axioms;

        let b: u8 = i as u8;
        if let Some(c) = winansi_char(b) {
            m.insert(b, c);
        }
        i += 1;
    }
    m
}

/// MacRomanEncoding: ASCII and every code from 0x80 on.
pub fn macroman_table() -> (m: HashMap<u8, char>)
    ensures
        is_table(m@, |b: u8| macroman(b)),
{
    broadcast use vstd::std_specs::hash::group_hash_axioms;

    let mut m: HashMap<u8, char> = HashMap::new();
    let mut i: u16 = 0;
    while i < 256
        invariant
            i <= 256,
            forall|b: u8|
                #![trigger m@.dom().contains(b)]
                if b < i && macroman(b) is Some {
                    m@.dom().contains(b) && m@[b] == macroman(b).unwrap()
                } else {
                    !m@.dom().contains(b)
                },
        decreases 256 - i,
    {
        broadcast use vstd::std_specs::hash::group_hash_axioms;

        let b: u8 = i as u8;
        if 0x20 <= b && b <= 0x7E {
            m.insert(b, b as char);
        } else if b >= 0x80 {
            m.insert(b, MACROMAN_HIGH[(b - 0x80) as usize]);
        }
        i += 1;
    }
    m
}

/// A layout of 128 codes as a table.
pub fn layout_table(t: &[char; 128]) -> (m: HashMap<u8, char>)
    ensures
        is_table(m@, |b: u8| layout(*t, b)),
{
    broadcast use vstd::std_specs::hash::group_hash_axioms;

    let mut m: HashMap<u8, char> = HashMap::new();
    let mut i: u8 = 0;
    while i < 128
        invariant
            i <= 128,
            forall|b: u8|
                #![trigger m@.dom().contains(b)]
                if b < i {
                    m@.dom().contains(b) && m@[b] == t[b as int]
                } else {
                    !m@.dom().contains(b)
                },
        decreases 128 - i,
    {
        broadcast use vstd::std_specs::hash::group_hash_axioms;

        m.insert(i, t[i as usize]);
        i += 1;
    }
    m
}

/// Every code of MacRoman from 0x80 on is a character, and 0xCA is the
/// non-breaking space rather than a second ordinary space.
pub proof fn law_macroman_is_complete(b: u8)
    ensures
        b >= 0x80 ==> macroman(b) is Some,
        macroman(0xCA) == Some('\u{00A0}'),
        macroman(0x20) == Some(' '),
{
}

} // verus!
