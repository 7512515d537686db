use std::collections::HashMap;
use std::hash::{Hash, Hasher};
use textparse::bytes::{find, read_decimal, write_decimal};
use textparse::cmap::{parse_tounicode, parse_unicode_map};
use textparse::encoding::{layout_table, macroman_table, winansi_table, CMMI, CMSY};
use textparse::filters::{decode, short_groups};
use textparse::font::{hash_name, read_encoding_vector, Font};
use textparse::images::images_safe;
use textparse::loading::load_safe;
use textparse::machine::{classify, codes, Operator};
use textparse::names::{glyph_name_to_char, is_gid_name, GLYPH_NAMES, LIGATURES};
use textparse::number::{
    barely_above, finite, greatest, least, real_less, to_nearest_bits, to_single_bits, Number,
};
use textparse::object::{get, get_int, get_name, get_number, Entry, Obj};
use textparse::page_box::read_rect;
use textparse::pages::describe_page;
use textparse::pdf::operations;
use textparse::text::{
    chars_of, decompose_ligatures, read_unsigned, split_words, string_of, trim, utf16_string,
};
use textparse::widths::read_cid_widths;

// ---- bytes and text --------------------------------------------------------

#[test]
fn find_gives_the_first_occurrence() {
    assert_eq!(find(b"abcabc", b"bc"), Some(1));
    assert_eq!(find(b"abc", b"abc"), Some(0));
    assert_eq!(find(b"ab", b"abc"), None);
    assert_eq!(find(b"", b"a"), None);
}

#[test]
fn decimals_read_back() {
    for n in [0usize, 7, 10, 99, 100, 65535, usize::MAX] {
        assert_eq!(write_decimal(n), n.to_string().into_bytes());
        assert_eq!(read_decimal(&write_decimal(n)), Some(n));
    }
    assert_eq!(read_decimal(b"0012"), Some(12));
    assert_eq!(read_decimal(b"99999999999999999999999"), None);
}

#[test]
fn ligatures_are_spelled_out() {
    assert_eq!(decompose_ligatures("di\u{FB03}cult"), "difficult");
    assert_eq!(
        decompose_ligatures("\u{FB00}\u{FB01}\u{FB02}\u{FB03}\u{FB04}\u{FB05}\u{FB06}"),
        "fffiflffifflftst"
    );
    assert_eq!(decompose_ligatures("plain \u{e9}"), "plain \u{e9}");
    assert_eq!(decompose_ligatures(""), "");
}

#[test]
fn words_and_trimming_follow_unicode() {
    let words = |s: &str| -> Vec<String> {
        split_words(&chars_of(s)).iter().map(|w| string_of(w)).collect()
    };
    for s in ["", "  ", "a", " a  bc\t\nd ", "\u{00A0}x\u{2003}y\u{3000}", "\u{200B}z"] {
        let expected: Vec<String> = s.split_whitespace().map(|w| w.to_string()).collect();
        assert_eq!(words(s), expected);
        assert_eq!(string_of(&trim(&chars_of(s))), s.trim());
    }
}

#[test]
fn unsigned_numbers_are_read() {
    let read = |s: &str, limit: usize| read_unsigned(&chars_of(s), limit);
    assert_eq!(read("255", 255), Some(255));
    assert_eq!(read("256", 255), None);
    assert_eq!(read("+07", 255), Some(7));
    assert_eq!(read("", 255), None);
    assert_eq!(read("+", 255), None);
    assert_eq!(read("++1", 255), None);
    assert_eq!(read("-1", 255), None);
    assert_eq!(read("1x", 255), None);
    assert_eq!(read("99999999999999999999999", usize::MAX), None);
    assert_eq!(read(&usize::MAX.to_string(), usize::MAX), Some(usize::MAX));
}

#[test]
fn utf16_is_decoded_with_replacements() {
    for units in [
        vec![],
        vec![0x41u16, 0x42],
        vec![0xD83D, 0xDE00],
        vec![0xD83D],
        vec![0xDE00, 0x41],
        vec![0xD83D, 0xD83D, 0xDE00],
        vec![0xFFFF, 0xE000],
    ] {
        assert_eq!(utf16_string(&units), String::from_utf16_lossy(&units));
    }
}

// ---- numbers ---------------------------------------------------------------

#[test]
fn integers_round_to_single_precision() {
    let values: [i64; 20] = [
        0,
        1,
        -1,
        2,
        612,
        -250,
        16777215,
        16777216,
        16777217,
        16777219,
        -16777217,
        33554431,
        9007199254740993,
        4503599761588224,
        1 << 62,
        i64::MAX,
        i64::MIN,
        i64::MIN + 1,
        144115196665790465,
        72057598332895235,
    ];
    for i in values {
        assert_eq!(to_single_bits(Number::Int(i)), (i as f64 as f32).to_bits(), "{i}");
    }
    assert_eq!(to_single_bits(Number::Real(1.5f32.to_bits())), 1.5f32.to_bits());
}

#[test]
fn numbers_truncate_like_casts() {
    for i in [0i64, 5, -5, 4294967295, 4294967296, i64::MAX, i64::MIN] {
        assert_eq!(Number::Int(i).to_u32(), i as f64 as u32, "{i}");
    }
    let reals = [
        0.0f32,
        -0.0,
        0.99,
        1.0,
        -1.0,
        7.75,
        8388607.5,
        16777216.0,
        16777218.0,
        4294967040.0,
        4294967296.0,
        1e30,
        -1e30,
        f32::INFINITY,
        f32::NEG_INFINITY,
        f32::NAN,
        f32::MIN_POSITIVE,
        1e-45,
    ];
    for r in reals {
        assert_eq!(Number::Real(r.to_bits()).to_u32(), r as f64 as u32, "{r}");
        assert_eq!(Number::Real(r.to_bits()).zero(), r == 0.0, "{r}");
        assert_eq!(finite(r.to_bits()), r.is_finite(), "{r}");
    }
    assert!(Number::Int(0).zero() && !Number::Int(3).zero());
}

#[test]
fn reals_are_ordered_by_value() {
    let values = [-1e30f32, -2.5, -1.0, -1e-40, -0.0, 0.0, 1e-40, 0.5, 1.0, 612.0, 1e30];
    for a in values {
        for b in values {
            assert_eq!(real_less(a.to_bits(), b.to_bits()), a < b, "{a} {b}");
            assert_eq!(f32::from_bits(least(a.to_bits(), b.to_bits())), a.min(b));
            assert_eq!(f32::from_bits(greatest(a.to_bits(), b.to_bits())), a.max(b));
        }
    }
}

// ---- objects ---------------------------------------------------------------

fn entry(key: &str, value: Obj) -> Entry {
    Entry { key: key.as_bytes().to_vec(), value }
}

#[test]
fn dictionaries_are_searched() {
    let d = vec![
        entry("A", Obj::Num(Number::Int(7))),
        entry("B", Obj::Name(b"x".to_vec())),
        entry("C", Obj::Num(Number::Real(1.5f32.to_bits()))),
        entry("A", Obj::Other),
    ];
    assert_eq!(get_int(&d, b"A"), Some(7));
    assert_eq!(get_number(&d, b"C"), Some(Number::Real(1.5f32.to_bits())));
    assert_eq!(get_int(&d, b"C"), None);
    assert_eq!(get_name(&d, b"B"), Some(&b"x".to_vec()));
    assert_eq!(get_name(&d, b"A"), None);
    assert!(get(&d, b"D").is_none());
}

/// Deflated data as another writer makes it.
fn deflated(data: &[u8]) -> Vec<u8> {
    let mut s = lopdf::Stream::new(lopdf::Dictionary::new(), data.to_vec());
    s.compress().unwrap();
    assert_ne!(s.content, data);
    s.content
}

#[test]
fn streams_are_decoded() {
    let name = |n: &str| Obj::Name(n.as_bytes().to_vec());
    let filter = |o: Obj| vec![entry("Filter", o)];
    let text = b"stream data ".repeat(20);
    let flat = deflated(&text);
    // No filters, or what is no list of names: the data as it is.
    assert_eq!(decode(&vec![], b"ab"), Some(b"ab".to_vec()));
    assert_eq!(decode(&filter(Obj::Ref(1, 0)), b"ab"), Some(b"ab".to_vec()));
    assert_eq!(decode(&filter(Obj::Array(vec![name("FlateDecode"), Obj::Other])), &flat), Some(flat.clone()));
    assert_eq!(decode(&filter(Obj::Array(vec![])), b"ab"), Some(vec![]));
    // One filter, and two in order.
    assert_eq!(decode(&filter(name("FlateDecode")), &flat), Some(text.clone()));
    assert_eq!(decode(&filter(name("ASCII85Decode")), b"87cURDZ~>"), Some(b"Hello".to_vec()));
    let both = Obj::Array(vec![name("FlateDecode"), name("ASCII85Decode")]);
    let coded = deflated(&b"87cURDZ ".repeat(1).into_iter().chain(b" ".repeat(200)).chain(*b"~>").collect::<Vec<u8>>());
    assert_eq!(decode(&filter(both), &coded), Some(b"Hello".to_vec()));
    // What is not known, or fails.
    assert_eq!(decode(&filter(name("DCTDecode")), b"ab"), None);
    assert_eq!(decode(&filter(Obj::Array(vec![name("DCTDecode"), name("FlateDecode")])), b"ab"), None);
    assert_eq!(decode(&filter(name("ASCII85Decode")), b"abz~>"), None);
}

#[test]
fn numbers_out_of_range_are_not_decoded() {
    let name = |n: &str| Obj::Name(n.as_bytes().to_vec());
    let filter = vec![entry("Filter", name("ASCII85Decode"))];
    assert_eq!(decode(&filter, b"s8W-!~>"), Some(vec![0xFF; 4]));
    assert_eq!(decode(&filter, b"s8W-\"~>"), None);
    assert!(short_groups(b"zz87cURD]j7BEbo80"));
    assert!(short_groups(b"87cUz"));
    assert!(!short_groups(b"s8W-\""));
    assert!(!short_groups(b"s8W-"));
    assert!(short_groups(b"s8W."));
    // Rows of a predictor.
    let rows = |columns: i64| {
        let int = |i: i64| Obj::Num(Number::Int(i));
        vec![
            entry("Filter", name("FlateDecode")),
            entry("DecodeParms", Obj::Dict(vec![entry("Predictor", int(12)), entry("Columns", int(columns))])),
        ]
    };
    let text = [2u8, 1, 1, 1, 1].repeat(60);
    let flat = deflated(&text);
    let want: Vec<u8> = (1..=60u8).flat_map(|i| [i; 4]).collect();
    assert_eq!(decode(&rows(4), &flat), Some(want));
    assert_eq!(decode(&rows(i64::MAX), &flat), None);
    assert_eq!(decode(&rows(0x4000_0001), &flat), None);
}

#[test]
fn inline_images_are_looked_at() {
    let safe = |s: &str| images_safe(s.as_bytes());
    assert!(safe("BT (BI / big) Tj ET"));
    assert!(safe("BI /W 1 /H 1 /BPC 8 /CS /G ID a EI"));
    assert!(safe("BI /W 1 /H 1 /BPC 1 /IM true /D [1 0] ID a EI"));
    assert!(safe("BI /Width 1 /Height 1 /BitsPerComponent 8 /ColorSpace [/Indexed /RGB 1 (a\\)b)] ID a EI"));
    assert!(safe("BI /W 1 /H 1 /CS /G /DP <</K -1/Columns 8>> ID a EI"));
    assert!(safe("BI /W 1 /H 1 ID a EI"));
    assert!(!safe("BI /W 1 /H 1 /BPC 8 ID a EI"));
    assert!(!safe("q BI/W 1/H 1/BPC 8/IM false ID a EI Q"));
    assert!(!safe("BI /W 1 /H 1 /BPC 8 /IM true /IM false ID a EI"));
    assert!(!safe("BI /W 9999999999 /H 9999999999 /BPC 8 /CS /G ID a EI"));
    assert!(!safe("BI /W -1 /H 1 /BPC 8 /CS /G ID a EI"));
    assert!(!safe("BI /W 1 /H 1 /BPC 8 /CS /G ID a EI BI /W 1 /H 1 /BPC 8 ID a EI"));
    assert!(!safe("BI /W 1 % note\n /H 1 /BPC 8 ID a EI"));
    // A size that is not in integers is none.
    assert!(safe("BI /W 1.0 /H 1 /BPC 8 ID a EI"));
    // In strings, names and comments nothing begins.
    assert!(safe("(BI %) Tj"));
    assert!(safe("(BI /W 1 /H 1 /BPC 8 ID) Tj"));
    assert!(safe("% BI /W 1 /H 1 /BPC 8 ID\n/BI /W 1 gs"));
    assert!(operations(b"BI /W 1 /H 1 /BPC 8 ID a EI").is_none());
    let ops = operations(b"BI /W 1 /H 1 /BPC 8 /CS /G ID a EI (x) Tj").unwrap();
    let names: Vec<&str> = ops.iter().map(|o| o.operator.as_str()).collect();
    assert_eq!(names, ["BI", "Tj"]);
    for content in ["BT (BI %) Tj ET", "BT [(BI) 5 (%)] TJ ET", "BT (BI /W 1 /H 1 /BPC 8 ID) Tj ET"] {
        assert_eq!(operations(content.as_bytes()).unwrap().len(), 3, "{content}");
    }
}

/// Streams `1` to `n`, each with the next as its length.
fn streams_in_a_row(n: usize) -> Vec<u8> {
    let mut out = Vec::new();
    for i in 1..=n {
        let s = format!("{i} 0 obj<</Length {} 0 R>>stream\nendstream endobj\n", i + 1);
        out.extend_from_slice(s.as_bytes());
    }
    out
}

/// A file with one stream, which is announced as cross-references.
fn announced(dict: &str, data: &str) -> Vec<u8> {
    format!("1 0 obj<<{dict}>>stream\n{data}endstream endobj\nstartxref\n0\n").into_bytes()
}

/// A file with one object stream.
fn contained(dict: &str, data: &str) -> Vec<u8> {
    format!("1 0 obj<</Type/ObjStm{dict}>>stream\n{data}endstream endobj\n").into_bytes()
}

/// Chains of lengths that do not end soon are told beforehand.
#[test]
fn chains_are_looked_at() {
    let safe = |s: &str| load_safe(s.as_bytes());
    assert!(safe(""));
    assert!(safe("%PDF-1.4\n1 0 obj<</Length 2 0 R>>stream\nendstream endobj 2 0 obj 0 endobj"));
    assert!(load_safe(&streams_in_a_row(31)));
    assert!(!load_safe(&streams_in_a_row(32)));
    // A circle of lengths ends in itself.
    assert!(safe(
        "1 0 obj<</Length 2 0 R>>stream\nendstream 2 0 obj<</Length 1 0 R>>stream\nendstream"
    ));
    let circle = |n: usize| {
        let last = format!("{n} 0 obj % note\n<</#4Cength 1 % note\n0 R>>stream\nendstream endobj\n");
        load_safe(&[streams_in_a_row(n - 1), last.into_bytes()].concat())
    };
    assert!(circle(30));
    assert!(!circle(31));
    // A stream that is its own length has none.
    assert!(safe("1 0 obj<</Length 1 0 R>>stream\nendstream endobj"));
    assert!(safe("1 0 obj<</Length1 2 0 R>>stream\nendstream 2 0 obj<</Length1 1 0 R>>stream"));
    assert!(safe("1 0 obj<</Length 2 0 R>>endobj 2 0 obj<</Length 1 0 R>>endobj"));
    // The data of a cross-reference stream is not to be read as names.
    assert!(!load_safe(&announced("/W[1 1 1]/Length 20", "/Length 9 0 R ")));
    assert!(!load_safe(&announced("/W[1 1 1]/Length +20", "/Encrypt 9 0 R ")));
    assert!(load_safe(&announced("/W[1 1 1]/Length 0", " 2 0 obj<</Length 3 0 R>>stream\n")));
    assert!(safe("1 0 obj<</W[1 1 1]/Length 20>>stream\n/Length 9 0 R endstream"));
}

/// Numbers of the cross-references that are out of range are told beforehand, and
/// no others.
#[test]
fn tables_are_looked_at() {
    let safe = |s: &str| load_safe(s.as_bytes());
    assert!(safe("xref\n0 1\n0000000000 65535 f \n"));
    assert!(safe("xref\n2147483648 1\n0000000000 65535 f \n"));
    assert!(!safe(&format!("xref\n{} 1\n0000000000 65535 f \n", usize::MAX)));
    assert!(safe(&format!("xref\n{}0 1\n0000000000 65535 f \n", usize::MAX)));
    let table = |dict: &str| load_safe(&announced(dict, ""));
    assert!(table("/W[1 2 1]/Index[0 9]"));
    assert!(table("/W[]"));
    assert!(table("/W[0 [500 600]]"));
    assert!(!table("/W[0 0 0]"));
    assert!(!table("/W[0 %]\n 0 0]/Size 9223372036854775807"));
    assert!(!table("/W[0 % 1\n 0 0]"));
    assert!(!table("/W[1 16777216 1]"));
    assert!(!table("/Index[0 2147483648]"));
    assert!(!table("/Index[0 1 %]\n9223372036854775807 5]"));
    assert!(!table("/Index % note\n[0 1 +9223372036854775807 5]"));
    assert!(table("/Index[0 1 % 9223372036854775807\n 5 6]"));
    // The same elsewhere means something else.
    assert!(safe("1 0 obj<</W[0 0 0 1 95 500]/Index[0 9223372036854775807]>>endobj"));
    assert!(safe("1 0 obj<</W[0 0 0]>>stream\nendstream endobj"));
    // Tables that others lead to.
    let before = "1 0 obj<</W[0 0 0]>>stream\nendstream endobj ";
    assert!(!safe(&format!("{before}<</Prev 0>>")));
    assert!(!safe(&format!("{before}<</XRefStm +0>>")));
    assert!(!safe(&format!("junk%PDF-{before}startxref 5")));
    assert!(safe(&format!("{before}<</Prev 9>>")));
}

/// Rows and groups out of range in what is decoded while a file loads are told
/// beforehand, and no others.
#[test]
fn streams_are_looked_at() {
    for file in [announced, contained] {
        let safe = |dict: &str| load_safe(&file(dict, ""));
        assert!(safe("/Columns 1048576"));
        assert!(safe("/DecodeParms<</Predictor 12/Columns 1073741824>>"));
        assert!(!safe("/DecodeParms<</Predictor 12/Columns 1073741825>>"));
        assert!(!safe("/DecodeParms<</Predictor 12/Columns +9223372036854775807>>"));
        assert!(!safe("/DecodeParms<</Predictor 12/Columns -9223372036854775807>>"));
        assert!(safe("/DecodeParms<</Colors 65536/BitsPerComponent 64/Columns 1000>>"));
        assert!(!safe("/DecodeParms<</Colors 65536/BitsPerComponent 64/Columns 3000>>"));
        let safe = |dict: &str, data: &str| load_safe(&file(dict, data));
        assert!(safe("/Filter/ASCII85Decode/Length 5", "s8W-!"));
        assert!(!safe("/Filter/ASCII85Decode/Length 5", "s8W-\""));
        assert!(safe("/Filter[/ASCII85Decode/FlateDecode]/Length 7", "s8W-!~>"));
        assert!(!safe("/Filter[/ASCII85Decode/FlateDecode]/Length 7", "s8W-\"~>"));
        assert!(!safe("/Filter[/FlateDecode/ASCII85Decode]/Length 5", "s8W-!"));
        assert!(!safe("/Filter/ASCII85Decode/Length 2 0 R", "s8W-!"));
    }
    let safe = |s: &str| load_safe(s.as_bytes());
    assert!(safe("1 0 obj<</DecodeParms<</Columns 9223372036854775807>>>>stream\nendstream"));
    assert!(safe("1 0 obj<</Filter/ASCII85Decode/Length 5>>stream\ns8W-\"endstream"));
}

#[test]
fn rectangles_need_four_finite_numbers() {
    let int = |i: i64| Obj::Num(Number::Int(i));
    let real = |r: f32| Obj::Num(Number::Real(r.to_bits()));
    let r = read_rect(&vec![int(5), real(7.5), int(1), int(-2)]).unwrap();
    assert_eq!([r.l, r.b, r.r, r.t].map(f32::from_bits), [1.0, -2.0, 5.0, 7.5]);
    assert!(read_rect(&vec![int(0), int(0), int(1)]).is_none());
    assert!(read_rect(&vec![int(0), int(0), int(1), real(f32::INFINITY)]).is_none());
    assert!(read_rect(&vec![int(0), int(0), int(1), Obj::Ref(1, 0)]).is_none());
}

#[test]
fn cid_width_arrays_are_read() {
    let int = |i: i64| Obj::Num(Number::Int(i));
    let w = |v: Vec<Obj>| {
        let m = read_cid_widths(&v);
        let mut r: Vec<(u32, Number)> = m.into_iter().collect();
        r.sort_by_key(|e| e.0);
        r
    };
    let n = Number::Int;
    assert_eq!(
        w(vec![int(3), Obj::Array(vec![int(10), Obj::Other, int(30)]), int(7), int(8), int(5)]),
        vec![(3, n(10)), (5, n(30)), (7, n(5)), (8, n(5))]
    );
    // A later entry wins; an upside-down run is empty; what is no number ends it.
    assert_eq!(w(vec![int(1), int(1), int(5), int(1), int(1), int(6)]), vec![(1, n(6))]);
    assert!(w(vec![int(2), int(1), int(5)]).is_empty());
    assert!(w(vec![Obj::Other, int(1), int(5), int(1), int(1), int(6)]).is_empty());
    assert_eq!(
        w(vec![int(1), Obj::Other, int(5), int(4), Obj::Array(vec![int(9)])]),
        vec![(4, n(9))]
    );
    assert!(w(vec![int(1), int(2)]).is_empty());
    assert_eq!(
        w(vec![int(4294967295), Obj::Array(vec![int(1), int(2)])]),
        vec![(0, n(2)), (4294967295, n(1))]
    );
}

// ---- glyph names and encodings ---------------------------------------------

#[test]
fn glyph_names_resolve() {
    let c = |s: &str| glyph_name_to_char(s.as_bytes());
    assert_eq!(c("A"), Some('A'));
    assert_eq!(c("space"), Some(' '));
    assert_eq!(c("lambda"), Some('\u{03BB}'));
    assert_eq!(c("asteriskmath"), Some('\u{2217}'));
    assert_eq!(c("theta1"), Some('\u{03B8}'));
    assert_eq!(c("sigma1"), Some('\u{03C2}'));
    assert_eq!(c("ffi"), Some('\u{FB03}'));
    assert_eq!(c("one.taboldstyle"), Some('1'));
    assert_eq!(c("a.sc"), Some('a'));
    assert_eq!(c("a.sc.alt"), Some('a'));
    assert_eq!(c("nosuch.alt"), None);
    assert_eq!(c(".notdef"), None);
    assert_eq!(c("nosuch"), None);
    assert_eq!(c(""), None);
    assert_eq!(c("1"), None);
    assert_eq!(c("uni00E9"), Some('\u{e9}'));
    assert_eq!(c("uni20ACextra"), Some('\u{20AC}'));
    assert_eq!(c("uniD800"), None);
    assert_eq!(c("uni+041"), Some('A'));
    assert_eq!(c("uniXYZW"), None);
    assert_eq!(c("uni12"), None);
    assert_eq!(c("union"), Some('\u{222A}'));
    assert_eq!(c("union.alt"), Some('\u{222A}'));
    assert_eq!(c("uni"), None);
    assert_eq!(c("uni004\u{e9}"), None);
    assert_eq!(glyph_name_to_char(b"\xff"), None);
}

/// The name of a ligature stands for a character that is spelled as the name.
#[test]
fn ligature_names_spell_themselves() {
    for (name, c) in &GLYPH_NAMES[..LIGATURES] {
        assert_eq!(glyph_name_to_char(name.as_bytes()), Some(*c));
        assert_eq!(decompose_ligatures(&c.to_string()), name.to_string());
    }
    assert_eq!(GLYPH_NAMES[3], ("ffi", '\u{FB03}'));
}

#[test]
fn placeholder_names_are_told_from_real_ones() {
    for s in ["g115", "G12", "cid42", "CID42", "glyph7", "index9", "SM590000", "abc123"] {
        assert!(is_gid_name(s.as_bytes()), "{s}");
    }
    for s in [
        "g", "afii10017", "uni0041", "abcd123", "ab12", "123", "one", "a.sc", "g11x", "SM590000x", "",
        "\u{e9}123",
    ] {
        assert!(!is_gid_name(s.as_bytes()), "{s}");
    }
    assert!(!is_gid_name(b"g1\xff"));
}

#[test]
fn encoding_tables_are_complete() {
    let win = winansi_table();
    assert_eq!(win.len(), 95 + 8 + 96);
    assert_eq!(win.get(&0x85), Some(&'\u{2026}'));
    assert_eq!(win.get(&0x91), Some(&'\u{2018}'));
    assert_eq!(win.get(&0x97), Some(&'\u{2014}'));
    assert_eq!(win.get(&0xA0), Some(&'\u{A0}'));
    assert_eq!(win.get(&0xFF), Some(&'\u{FF}'));
    assert_eq!(win.get(&0x7F), None);
    let mac = macroman_table();
    assert_eq!(mac.len(), 95 + 128);
    assert!((0x80..=0xFFu8).all(|b| mac.contains_key(&b)));
    for (b, c) in [
        (0x41u8, 'A'),
        (0x80, '\u{C4}'),
        (0xB1, '\u{B1}'),
        (0xB5, '\u{B5}'),
        (0xCA, '\u{A0}'),
        (0xF0, '\u{F8FF}'),
        (0xFB, '\u{2DA}'),
        (0xFF, '\u{2C7}'),
    ] {
        assert_eq!(mac.get(&b), Some(&c));
    }
    let sy = layout_table(&CMSY);
    assert_eq!(sy.len(), 128);
    assert_eq!((sy[&0], sy[&0x66], sy[&0x67], sy[&127]), ('\u{2212}', '{', '}', '\u{2660}'));
    let mi = layout_table(&CMMI);
    assert_eq!((mi[&0], mi[&21], mi[&127]), ('\u{393}', '\u{3BB}', '\u{2040}'));
}

#[test]
fn encoding_vectors_are_read() {
    let words = |s: &str| split_words(&chars_of(s));
    let m = read_encoding_vector(&words("dup 20 /lessequal put dup 20 /alpha put x dup 21 /b put"));
    assert_eq!(m.len(), 2);
    assert_eq!((m[&20], m[&21]), ('\u{3B1}', 'b'));
    assert!(read_encoding_vector(&words("dup 256 /a put dup 1 a put dup x /a put")).is_empty());
    assert!(read_encoding_vector(&words("dup 1 /a")).is_empty());
}

// ---- ToUnicode maps --------------------------------------------------------

fn sorted(m: HashMap<u32, String>) -> Vec<(u32, String)> {
    let mut v: Vec<(u32, String)> = m.into_iter().collect();
    v.sort();
    v
}

fn unicode(s: &str) -> Vec<(u32, String)> {
    sorted(parse_unicode_map(s.as_bytes()))
}

fn pairs(v: &[(u32, &str)]) -> Vec<(u32, String)> {
    v.iter().map(|(c, s)| (*c, s.to_string())).collect()
}

#[test]
fn unicode_maps_are_read() {
    assert_eq!(
        unicode("2 beginbfchar <21> <0054> <0022><00660069> endbfchar"),
        pairs(&[(0x21, "T"), (0x22, "fi")])
    );
    // Groups may stand back to back.
    assert_eq!(unicode("beginbfrange<21><23><0054>endbfrange"), unicode("beginbfrange <21> <23> <0054> endbfrange"));
    assert_eq!(
        unicode("beginbfrange<21><23><0054>endbfrange"),
        pairs(&[(0x21, "T"), (0x22, "U"), (0x23, "V")])
    );
    assert_eq!(
        unicode("beginbfrange <01> <03> [<0041> x <0043>] <09><09><0030> endbfrange"),
        pairs(&[(1, "A"), (3, "C"), (9, "0")])
    );
    // An upside-down run is empty, and surrogates have no character.
    assert_eq!(unicode("beginbfrange<05><01><0041>endbfrange"), pairs(&[]));
    assert_eq!(
        unicode("beginbfrange<01><03><D7FF>endbfrange"),
        pairs(&[(1, "\u{D7FF}")])
    );
    // What is no group is skipped.
    assert_eq!(
        unicode("beginbfrange x <01><02><0041> endbfrange beginbfchar <05> y <06> <0042> endbfchar"),
        pairs(&[(1, "A"), (2, "B"), (6, "B")])
    );
    assert_eq!(unicode("beginbfchar <zz41> <0042> endbfchar"), pairs(&[(0x41, "B")]));
    assert_eq!(unicode("beginbfchar <41> <D83DDE00> endbfchar"), pairs(&[(0x41, "\u{1F600}")]));
    assert_eq!(unicode("beginbfchar <00010002> <41> endbfchar"), pairs(&[(0x10002, "A")]));
    assert_eq!(unicode("beginbfchar <000300010002> <0041> endbfchar"), pairs(&[(0x10002, "A")]));
    assert_eq!(unicode("beginbfchar <41> <0042"), pairs(&[]));
    assert_eq!(unicode("beginbfchar <41>"), pairs(&[]));
    assert_eq!(unicode("beginbfrange <01><02> [ <0041>"), pairs(&[(1, "A")]));
    assert_eq!(unicode("beginbfchar <41> <> endbfchar"), pairs(&[(0x41, "")]));
    assert_eq!(unicode(""), pairs(&[]));
}

/// Blanks around and between tokens do not matter, nor does their want where
/// tokens end by themselves.
#[test]
fn blanks_do_not_matter() {
    let dense = "beginbfrange<21><23>[<0054><0055><0056>]endbfrange beginbfchar<41><0042>endbfchar";
    let spaced = " beginbfrange\r\n<21>\t<23> [ <0054>  <0055>\n<0056> ]\x0cendbfrange\n\
        beginbfchar <41>\n\n<0042> endbfchar\n";
    assert_eq!(unicode(dense), unicode(spaced));
    assert_eq!(
        unicode(dense),
        pairs(&[(0x21, "T"), (0x22, "U"), (0x23, "V"), (0x41, "B")])
    );
    let read = |s: &str| sorted(parse_tounicode(s.as_bytes()));
    assert_eq!(read(dense), read(spaced));
}

#[test]
fn maps_need_not_be_utf8() {
    let m = parse_tounicode(b"\xff beginbfchar <41> <0042> \xfe endbfchar");
    assert_eq!(sorted(m), pairs(&[(0x41, "B")]));
}

// ---- fonts and codes -------------------------------------------------------

#[test]
fn names_hash_as_slices_do() {
    for name in [b"".as_slice(), b"F1", b"TT12", b"a name that is longer than one block of bytes"] {
        let mut h = std::collections::hash_map::DefaultHasher::new();
        name.hash(&mut h);
        assert_eq!(hash_name(name), h.finish());
    }
    assert_ne!(hash_name(b"F1"), hash_name(b"F2"));
}

#[test]
fn flat_boxes_are_told() {
    let reals = [
        0.0f32, -0.0, 1.0, -1.0, 0.5, 1.5, 2.0, 750.0, -250.0, 1.0e-45, -1.0e-45, 1.0e-20, -1.0e-20,
        1.1102230e-16, -1.1102230e-16, 1.2e-16, -1.2e-16, 0.99999994, -0.99999994, 1.0000001,
        -1.0000001, 1.6777216e7, 1.6777217e7, -1.6777216e7, 3.0e20, -3.0e20, 3.4e38, -3.4e38,
        1.0e30, -1.0e30, f32::INFINITY, f32::NEG_INFINITY, f32::NAN,
    ];
    for a in reals {
        for b in reals {
            let want = a as f64 - b as f64 <= 1.0;
            assert_eq!(barely_above(a.to_bits(), b.to_bits()), want, "{a:e} {b:e}");
        }
    }
    for i in [0i64, 1, -1, 750, -250, 16_777_217, 16_777_219, -16_777_217, i64::MAX, i64::MIN] {
        assert_eq!(to_nearest_bits(Number::Int(i)), (i as f32).to_bits(), "{i}");
    }
}

#[test]
fn codes_are_one_byte_or_two() {
    assert_eq!(codes(false, &[1, 2, 255]), vec![1, 2, 255]);
    assert_eq!(codes(true, &[1, 2, 3]), vec![0x102, 3]);
    assert!(codes(true, &[]).is_empty());
}

#[test]
fn a_code_is_decoded_in_order_of_precedence() {
    let mut f = Font {
        two_byte: false,
        to_unicode: HashMap::new(),
        widths: HashMap::from([(65, Number::Int(600))]),
        default_width: Number::Int(250),
        simple_encoding: Some(HashMap::from([(65, 'E'), (66, '\u{FB01}')])),
        fallback_names: HashMap::new(),
        program_encoding: HashMap::from([(65, 'P'), (67, 'Q')]),
        ascent: Number::Int(750),
        descent: Number::Int(-250),
        hash: 0,
    };
    let text = |f: &Font, c: u32| f.decode_code(c).0;
    let some = |s: &str| Some(s.to_string());
    assert_eq!(f.decode_code(65), (some("E"), Number::Int(600)));
    assert_eq!(f.decode_code(66), (some("fi"), Number::Int(250)));
    assert_eq!(text(&f, 67), some("Q"));
    assert_eq!(text(&f, 68), None);
    f.fallback_names.insert(65, "g12".to_string());
    assert_eq!(text(&f, 65), some("/g12"));
    f.to_unicode.insert(65, "\u{FB04}".to_string());
    assert_eq!(text(&f, 65), some("ffl"));
    f.two_byte = true;
    assert_eq!(text(&f, 66), None);
    assert_eq!(text(&f, 65), some("ffl"));
}

#[test]
fn operators_are_known_by_name() {
    assert_eq!(classify("q"), Operator::Save);
    assert_eq!(classify("TJ"), Operator::ShowArray);
    assert_eq!(classify("T*"), Operator::NextLine);
    assert_eq!(classify("\""), Operator::SpacedShow);
    assert_eq!(classify("tj"), Operator::Other);
    assert_eq!(classify("ET"), Operator::Other);
    assert_eq!(classify(""), Operator::Other);
}

#[test]
fn pages_are_described() {
    assert_eq!(
        describe_page(12, 0, None, None, 0),
        "\n   page 12: content 0 B, ops UNDECODABLE, resources MISSING, fonts -, glyphs 0"
    );
    assert_eq!(
        describe_page(1, 345, Some(6), Some(0), 78),
        "\n   page 1: content 345 B, ops 6, resources ok, fonts 0, glyphs 78"
    );
}
