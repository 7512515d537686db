//! Which names and codes stand for which characters.

use crate::bytes;
use crate::cmap_laws;
use crate::encoding;
use crate::names;
use crate::text;
use vstd::prelude::*;
use vstd::string::StringSliceAdditionalSpecFns;

verus! {

/// Bytes below 0x80 are text.
proof fn lemma_ascii_is_text(s: Seq<u8>)
    requires
        text::ascii_only(s),
    ensures
        vstd::utf8::valid_utf8(s),
    decreases s.len(),
{
    if s.len() > 0 {
        assert(s[0] < 0x80);
        assert(s.skip(1) =~= s.drop_first());
        assert forall|i: int| 0 <= i < s.drop_first().len() implies #[trigger] s.drop_first()[i]
            < 0x80 by {
            assert(s.drop_first()[i] == s[i + 1]);
        }
        lemma_ascii_is_text(s.drop_first());
        let head = seq![s[0]];
        let c = s[0] as char;
        lemma_ascii_char(s[0]);
        vstd::utf8::valid_utf8_concat(head, s.drop_first());
        assert(head + s.drop_first() =~= s);
    }
}

/// One byte below 0x80 is text.
proof fn lemma_ascii_char(b: u8)
    requires
        b < 0x80,
    ensures
        vstd::utf8::valid_utf8(seq![b]),
{
    let s = seq![b as char];
    vstd::utf8::encode_utf8_valid_utf8(s);
    vstd::utf8::is_ascii_chars_encode_utf8(s);
    assert(vstd::utf8::encode_utf8(s) =~= seq![b]);
}

/// A name of `uni` and four hexadecimal digits, in either case, stands for the character
/// with this number, and for none where no character has it; whatever comes behind.
pub proof fn law_numbers_in_names_are_characters(capitals: bool, v: u32, tail: Seq<u8>)
    requires
        v < 0x1_0000,
        vstd::utf8::valid_utf8(tail),
    ensures
        names::glyph_char("uni".spec_bytes() + cmap_laws::hex_text(capitals, v as nat, 4) + tail)
            == if v < 0xD800 || v >= 0xE000 {
            Some(v as char)
        } else {
            None
        },
{
    reveal_strlit("uni");
    vstd::string::is_ascii_spec_bytes("uni");
    let uni = "uni".spec_bytes();
    let h = cmap_laws::hex_text(capitals, v as nat, 4);
    let name = uni + h + tail;
    reveal_with_fuel(cmap_laws::sixteens, 5);
    cmap_laws::law_hexadecimal_numbers_read_back(capitals, v as nat, 4);
    assert(name.subrange(0, 3) =~= uni);
    assert(name.subrange(3, 7) =~= h);
    assert forall|i: int| 0 <= i < (uni + h).len() implies #[trigger] (uni + h)[i] < 0x80 by {
        if i >= 3 {
            assert((uni + h)[i] == h[i - 3]);
        }
    }
    lemma_ascii_is_text(uni + h);
    vstd::utf8::valid_utf8_concat(uni + h, tail);
}

/// A single letter stands for itself.
pub proof fn law_letters_stand_for_themselves(b: u8)
    requires
        0x41 <= b <= 0x5A || 0x61 <= b <= 0x7A,
    ensures
        names::glyph_char(seq![b]) == Some(b as char),
{
    reveal_strlit(".");
    vstd::string::is_ascii_spec_bytes(".");
    let name = seq![b];
    lemma_ascii_char(b);
    bytes::lemma_first_at(name, ".".spec_bytes(), 0);
    if let Some(k) = bytes::first_at(name, ".".spec_bytes(), 0) {
        assert(name.subrange(k, k + 1)[0] == name[k]);
    }
}

/// A name that begins with a dot stands for nothing.
pub proof fn law_dotted_names_stand_for_nothing(rest: Seq<u8>)
    ensures
        names::glyph_char(seq![0x2Eu8] + rest) is None,
{
    reveal_strlit(".");
    reveal_strlit("uni");
    vstd::string::is_ascii_spec_bytes(".");
    vstd::string::is_ascii_spec_bytes("uni");
    let name = seq![0x2Eu8] + rest;
    bytes::lemma_first_at(name, ".".spec_bytes(), 0);
    assert(name.subrange(0, 1) =~= ".".spec_bytes());
    assert(bytes::occurs_at(name, ".".spec_bytes(), 0));
    if bytes::occurs_at(name, "uni".spec_bytes(), 0) {
        assert(name.subrange(0, 3)[0] == name[0]);
    }
}

/// Decimal digits, at least one.
pub open spec fn is_number(d: Seq<u8>) -> bool {
    d.len() > 0 && forall|i: int| 0 <= i < d.len() ==> 0x30 <= #[trigger] d[i] <= 0x39
}

/// Letters only.
pub open spec fn is_word(a: Seq<u8>) -> bool {
    forall|i: int|
        0 <= i < a.len() ==> (0x41 <= #[trigger] a[i] <= 0x5A || 0x61 <= a[i] <= 0x7A)
}

/// A word that numbers glyphs.
pub open spec fn numbers_glyphs(a: Seq<u8>) -> bool {
    a == "g".spec_bytes() || a == "G".spec_bytes() || a == "cid".spec_bytes() || a
        == "CID".spec_bytes() || a == "glyph".spec_bytes() || a == "index".spec_bytes()
}

/// The words that number glyphs are words.
proof fn lemma_words()
    ensures
        forall|a: Seq<u8>| #[trigger] numbers_glyphs(a) ==> is_word(a) && a.len() > 0 && a[0] != 0x75
            && a[0] != 0x61,
        is_word("uni".spec_bytes()),
        is_word("afii".spec_bytes()),
        "uni".spec_bytes().len() == 3 && "uni".spec_bytes()[0] == 0x75,
        "afii".spec_bytes().len() == 4 && "afii".spec_bytes()[0] == 0x61,
{
    reveal_strlit("g");
    reveal_strlit("G");
    reveal_strlit("cid");
    reveal_strlit("CID");
    reveal_strlit("glyph");
    reveal_strlit("index");
    reveal_strlit("uni");
    reveal_strlit("afii");
    vstd::string::is_ascii_spec_bytes("g");
    vstd::string::is_ascii_spec_bytes("G");
    vstd::string::is_ascii_spec_bytes("cid");
    vstd::string::is_ascii_spec_bytes("CID");
    vstd::string::is_ascii_spec_bytes("glyph");
    vstd::string::is_ascii_spec_bytes("index");
    vstd::string::is_ascii_spec_bytes("uni");
    vstd::string::is_ascii_spec_bytes("afii");
}

/// The letters of a word and what is no letter.
proof fn lemma_letter_run(a: Seq<u8>, d: Seq<u8>)
    requires
        is_word(a),
        d.len() > 0,
        0x30 <= d[0] <= 0x39,
    ensures
        names::letter_run(a + d) == a.len(),
    decreases a.len(),
{
    let s = a + d;
    if a.len() == 0 {
        assert(s =~= d);
    } else {
        assert(s[0] == a[0]);
        assert(s.drop_first() =~= a.drop_first() + d);
        assert forall|i: int| 0 <= i < a.drop_first().len() implies (0x41
            <= #[trigger] a.drop_first()[i] <= 0x5A || 0x61 <= a.drop_first()[i] <= 0x7A) by {
            assert(a.drop_first()[i] == a[i + 1]);
        }
        lemma_letter_run(a.drop_first(), d);
    }
}

/// A name of a word and a number begins with what its word begins with.
proof fn lemma_begins(a: Seq<u8>, d: Seq<u8>, p: Seq<u8>)
    requires
        is_number(d),
        is_word(p),
    ensures
        bytes::occurs_at(a + d, p, 0) <==> p.len() <= a.len() && a.take(p.len() as int) == p,
{
    let s = a + d;
    let n = p.len() as int;
    if n <= s.len() {
        let w = s.subrange(0, n);
        if n <= a.len() {
            assert(w =~= a.take(n));
        } else if w == p {
            assert(w[a.len() as int] == d[0]);
            assert(p[a.len() as int] == d[0]);
        }
    }
}

/// Which names of a word and a number are placeholders: those of a word that numbers
/// glyphs, and those of one to three letters with at least three digits, but for what
/// begins with `uni` or `afii`.
pub proof fn law_numbered_names_are_placeholders(a: Seq<u8>, d: Seq<u8>)
    requires
        is_word(a),
        is_number(d),
    ensures
        names::is_placeholder(a + d) <==> {
            &&& numbers_glyphs(a) || 1 <= a.len() <= 3 && d.len() >= 3
            &&& !(a.len() >= 3 && a.take(3) == "uni".spec_bytes())
            &&& !(a.len() >= 4 && a.take(4) == "afii".spec_bytes())
        },
{
    let name = a + d;
    lemma_words();
    lemma_letter_run(a, d);
    lemma_begins(a, d, "uni".spec_bytes());
    lemma_begins(a, d, "afii".spec_bytes());
    assert(name.skip(a.len() as int) =~= d);
    assert(numbers_glyphs("g".spec_bytes()) && numbers_glyphs("G".spec_bytes())
        && numbers_glyphs("cid".spec_bytes()) && numbers_glyphs("CID".spec_bytes())
        && numbers_glyphs("glyph".spec_bytes()) && numbers_glyphs("index".spec_bytes()));
    lemma_numbered(a, d, "g".spec_bytes());
    lemma_numbered(a, d, "G".spec_bytes());
    lemma_numbered(a, d, "cid".spec_bytes());
    lemma_numbered(a, d, "CID".spec_bytes());
    lemma_numbered(a, d, "glyph".spec_bytes());
    lemma_numbered(a, d, "index".spec_bytes());
}

/// A name of a word and a number has the word as its numbered prefix, and no other.
proof fn lemma_numbered(a: Seq<u8>, d: Seq<u8>, p: Seq<u8>)
    requires
        is_word(a),
        is_number(d),
        is_word(p),
        p.len() > 0,
    ensures
        names::is_numbered(a + d, p) <==> a == p,
{
    let name = a + d;
    let n = p.len() as int;
    lemma_begins(a, d, p);
    if a == p {
        assert(a.take(n) =~= p);
        assert(name.skip(n) =~= d);
    }
    if names::is_numbered(name, p) {
        if n < a.len() {
            assert(name.skip(n)[0] == a[n]);
        } else {
            assert(a.take(n) =~= a);
        }
    }
}

/// A name that does not end with a digit, or has anything but letters before its last
/// digits, is no placeholder.
pub proof fn law_placeholders_are_words_with_numbers(name: Seq<u8>) -> (n: int)
    requires
        names::is_placeholder(name),
    ensures
        0 < n < name.len(),
        is_word(name.take(n)),
        is_number(name.skip(n)),
{
    lemma_words();
    assert(numbers_glyphs("g".spec_bytes()) && numbers_glyphs("G".spec_bytes())
        && numbers_glyphs("cid".spec_bytes()) && numbers_glyphs("CID".spec_bytes())
        && numbers_glyphs("glyph".spec_bytes()) && numbers_glyphs("index".spec_bytes()));
    let p = if names::is_numbered(name, "g".spec_bytes()) {
        "g".spec_bytes()
    } else if names::is_numbered(name, "G".spec_bytes()) {
        "G".spec_bytes()
    } else if names::is_numbered(name, "cid".spec_bytes()) {
        "cid".spec_bytes()
    } else if names::is_numbered(name, "CID".spec_bytes()) {
        "CID".spec_bytes()
    } else if names::is_numbered(name, "glyph".spec_bytes()) {
        "glyph".spec_bytes()
    } else {
        "index".spec_bytes()
    };
    if names::is_numbered(name, p) {
        assert(name.take(p.len() as int) =~= name.subrange(0, p.len() as int));
        p.len() as int
    } else {
        lemma_run_is_word(name);
        names::letter_run(name) as int
    }
}

/// The leading letters are a word.
proof fn lemma_run_is_word(s: Seq<u8>)
    ensures
        names::letter_run(s) <= s.len(),
        is_word(s.take(names::letter_run(s) as int)),
    decreases s.len(),
{
    if s.len() > 0 && names::is_letter(s[0]) {
        let rest = s.drop_first();
        lemma_run_is_word(rest);
        let n = names::letter_run(s) as int;
        assert forall|i: int| 0 <= i < n implies (0x41 <= #[trigger] s.take(n)[i] <= 0x5A || 0x61
            <= s.take(n)[i] <= 0x7A) by {
            if i > 0 {
                assert(s.take(n)[i] == rest.take(n - 1)[i - 1]);
            }
        }
    }
}

/// Printable ASCII is itself in both encodings of text fonts, codes below it stand for
/// nothing, in WinAnsi the codes from 0xA0 on are themselves, and in MacRoman all high
/// codes stand for something.
pub proof fn law_plain_codes_are_themselves(b: u8)
    ensures
        0x20 <= b <= 0x7E ==> encoding::winansi(b) == Some(b as char) && encoding::macroman(b)
            == Some(b as char),
        b < 0x20 || b == 0x7F ==> encoding::winansi(b) is None && encoding::macroman(b) is None,
        b >= 0xA0 ==> encoding::winansi(b) == Some(b as char),
        b >= 0x80 ==> encoding::macroman(b) is Some,
{
}

/// The codes of quotes, dashes, bullet and ellipsis in WinAnsi, and in MacRoman.
pub open spec fn typographic_codes() -> Seq<(u8, u8)> {
    seq![
        (0x85u8, 0xC9u8),
        (0x91u8, 0xD4u8),
        (0x92u8, 0xD5u8),
        (0x93u8, 0xD2u8),
        (0x94u8, 0xD3u8),
        (0x95u8, 0xA5u8),
        (0x96u8, 0xD0u8),
        (0x97u8, 0xD1u8),
    ]
}

/// Between 0x7F and 0xA0, WinAnsi has the quotes, dashes, bullet and ellipsis that
/// MacRoman has at other codes, and nothing else.
pub proof fn law_typographic_codes_agree(k: int, b: u8)
    ensures
        0 <= k < typographic_codes().len() ==> encoding::winansi(typographic_codes()[k].0) is Some
            && encoding::winansi(typographic_codes()[k].0) == encoding::macroman(
            typographic_codes()[k].1,
        ),
        0x7F <= b < 0xA0 && (forall|i: int|
            0 <= i < typographic_codes().len() ==> (#[trigger] typographic_codes()[i]).0 != b)
            ==> encoding::winansi(b) is None,
{
    let t = typographic_codes();
    assert(t[0].0 == 0x85 && t[1].0 == 0x91 && t[2].0 == 0x92 && t[3].0 == 0x93);
    assert(t[4].0 == 0x94 && t[5].0 == 0x95 && t[6].0 == 0x96 && t[7].0 == 0x97);
}

/// The layouts of the math fonts have capital letters at their ASCII codes, and math
/// italic has small letters and digits there too.
pub proof fn law_layouts_keep_letters(b: u8)
    ensures
        0x41 <= b <= 0x5A ==> encoding::layout(encoding::CMMI, b) == Some(b as char)
            && encoding::layout(encoding::CMSY, b) == Some(b as char),
        0x61 <= b <= 0x7A || 0x30 <= b <= 0x39 ==> encoding::layout(encoding::CMMI, b) == Some(
            b as char,
        ),
        b >= 128 ==> encoding::layout(encoding::CMMI, b) is None && encoding::layout(
            encoding::CMSY,
            b,
        ) is None,
{
}

/// No white space.
pub open spec fn is_solid(w: Seq<char>) -> bool {
    forall|i: int| 0 <= i < w.len() ==> !text::is_white(#[trigger] w[i])
}

/// A word goes to the next white space.
proof fn lemma_word_len_is(w: Seq<char>, rest: Seq<char>)
    requires
        is_solid(w),
        rest.len() > 0 ==> text::is_white(rest[0]),
    ensures
        text::word_len(w + rest) == w.len(),
    decreases w.len(),
{
    let s = w + rest;
    if w.len() == 0 {
        assert(s =~= rest);
    } else {
        assert(s[0] == w[0]);
        assert(s.drop_first() =~= w.drop_first() + rest);
        assert forall|i: int| 0 <= i < w.drop_first().len() implies !text::is_white(
            #[trigger] w.drop_first()[i],
        ) by {
            assert(w.drop_first()[i] == w[i + 1]);
        }
        lemma_word_len_is(w.drop_first(), rest);
    }
}

/// Words are what stands between white space: white space before a text does not
/// matter, and a word that ends at white space or at the end comes first.
pub proof fn law_words_stand_between_white_space(c: char, w: Seq<char>, rest: Seq<char>)
    requires
        text::is_white(c),
        w.len() > 0,
        is_solid(w),
    ensures
        text::words(seq![c] + rest) == text::words(rest),
        text::words(w + seq![c] + rest) == seq![w] + text::words(rest),
        text::words(w) == seq![w],
        text::words(Seq::empty()) == Seq::<Seq<char>>::empty(),
{
    let gap = seq![c] + rest;
    assert(gap.drop_first() =~= rest);
    let s = w + gap;
    assert(w + seq![c] + rest =~= s);
    lemma_word_len_is(w, gap);
    assert(s[0] == w[0]);
    assert(s.take(w.len() as int) =~= w);
    assert(s.skip(w.len() as int) =~= gap);
    let e = Seq::<char>::empty();
    lemma_word_len_is(w, e);
    assert(w + e =~= w);
    assert(w.take(w.len() as int) =~= w);
    assert(w.skip(w.len() as int) =~= e);
    assert(text::words(e) =~= Seq::<Seq<char>>::empty());
    assert(text::words(w) == seq![w] + text::words(e));
    assert(seq![w] + text::words(e) =~= seq![w]);
}

/// Blanks, tabs and line ends are white space; letters, digits and signs are not.
pub proof fn law_white_space_is_what_is_blank(c: char)
    requires
        (c as u32) < 0x80,
    ensures
        text::is_white(c) <==> c == ' ' || 0x9 <= (c as u32) <= 0xD,
{
}

/// The digits of a number.
pub open spec fn digits_of(n: nat) -> Seq<char>
    decreases n,
{
    if n < 10 {
        seq![(0x30 + n) as char]
    } else {
        digits_of(n / 10).push((0x30 + n % 10) as char)
    }
}

/// A written number is read back, with a `+` before it or without.
pub proof fn law_written_numbers_are_read_back(n: nat)
    ensures
        text::unsigned_value(digits_of(n)) == Some(n),
        text::unsigned_value(seq!['+'] + digits_of(n)) == Some(n),
{
    lemma_digits_of(n);
    let d = digits_of(n);
    let p = seq!['+'] + d;
    assert(p.drop_first() =~= d);
    assert(text::is_digit_char(d[0]));
}

/// The digits of a number are digits, and worth the number.
pub proof fn lemma_digits_of(n: nat)
    ensures
        digits_of(n).len() > 0,
        text::digits_value(digits_of(n)) == n,
        forall|i: int| 0 <= i < digits_of(n).len() ==> text::is_digit_char(#[trigger] digits_of(n)[i]),
    decreases n,
{
    let d = digits_of(n);
    if n < 10 {
        reveal_with_fuel(text::digits_value, 2);
        assert(d.drop_last().len() == 0);
        assert(d.last() as u32 == 0x30 + n);
    } else {
        lemma_digits_of(n / 10);
        assert(d.drop_last() =~= digits_of(n / 10));
        assert(d.last() as u32 == 0x30 + n % 10);
        assert forall|i: int| 0 <= i < d.len() implies text::is_digit_char(#[trigger] d[i]) by {
            if i < d.len() - 1 {
                assert(d[i] == digits_of(n / 10)[i]);
            }
        }
    }
}

/// Bytes write numbers with the same decimal digits as characters do.
pub proof fn law_decimal_bytes_are_decimal_digits(n: nat)
    ensures
        text::as_chars(bytes::decimal(n)) == digits_of(n),
    decreases n,
{
    let b = bytes::decimal(n);
    if n < 10 {
        assert(text::as_chars(b) =~= digits_of(n));
    } else {
        law_decimal_bytes_are_decimal_digits(n / 10);
        let c = bytes::decimal(n / 10);
        assert forall|i: int| 0 <= i < c.len() implies text::as_chars(b)[i] == digits_of(n)[i] by {
            assert(text::as_chars(b)[i] == text::as_chars(c)[i]);
        }
        assert(text::as_chars(b) =~= digits_of(n));
    }
}

/// A digit behind a number is worth ten times the number and itself.
pub proof fn law_digits_count_by_ten(s: Seq<u8>, d: u8)
    requires
        0x30 <= d <= 0x39,
    ensures
        bytes::decimal_value(s.push(d)) == 10 * bytes::decimal_value(s) + (d - 0x30),
        bytes::decimal_value(Seq::empty()) == 0,
{
    assert(s.push(d).drop_last() =~= s);
}

/// No byte of a name is a dot.
pub open spec fn is_undotted(name: Seq<u8>) -> bool {
    forall|i: int| 0 <= i < name.len() ==> #[trigger] name[i] != 0x2E
}

/// A name without a dot has none.
proof fn lemma_undotted(name: Seq<u8>)
    requires
        is_undotted(name),
    ensures
        bytes::first_at(name, ".".spec_bytes(), 0) is None,
{
    reveal_strlit(".");
    vstd::string::is_ascii_spec_bytes(".");
    bytes::lemma_first_at(name, ".".spec_bytes(), 0);
    if let Some(k) = bytes::first_at(name, ".".spec_bytes(), 0) {
        assert(name.subrange(k, k + 1)[0] == name[k]);
    }
}

/// A name of the table stands for the character beside it, and a name that is not in the
/// table, is no letter and no number stands for nothing.
pub proof fn law_names_are_looked_up_whole(k: int, other: Seq<u8>)
    requires
        0 <= k < names::GLYPH_NAMES@.len(),
        forall|j: int|
            0 <= j < k ==> names::GLYPH_NAMES@[k].0.spec_bytes() != (
            #[trigger] names::GLYPH_NAMES@[j]).0.spec_bytes(),
        1 < names::GLYPH_NAMES@[k].0.spec_bytes().len(),
        names::GLYPH_NAMES@[k].0.spec_bytes().len() < 7 || !bytes::occurs_at(
            names::GLYPH_NAMES@[k].0.spec_bytes(),
            "uni".spec_bytes(),
            0,
        ),
        is_undotted(names::GLYPH_NAMES@[k].0.spec_bytes()),
        is_undotted(other),
        other.len() > 1,
        other.len() < 7 || !bytes::occurs_at(other, "uni".spec_bytes(), 0),
        forall|j: int|
            0 <= j < names::GLYPH_NAMES@.len() ==> other != (
            #[trigger] names::GLYPH_NAMES@[j]).0.spec_bytes(),
    ensures
        names::glyph_char(names::GLYPH_NAMES@[k].0.spec_bytes()) == Some(names::GLYPH_NAMES@[k].1),
        names::glyph_char(other) is None,
{
    let name = names::GLYPH_NAMES@[k].0;
    vstd::utf8::encode_utf8_valid_utf8(name@);
    lemma_undotted(name.spec_bytes());
    lemma_undotted(other);
    names::lemma_named_at(name.spec_bytes(), 0, k);
    lemma_not_named(other, 0);
}

/// A name that is not in the table is not found.
proof fn lemma_not_named(name: Seq<u8>, i: int)
    requires
        0 <= i,
        forall|j: int|
            0 <= j < names::GLYPH_NAMES@.len() ==> name != (
            #[trigger] names::GLYPH_NAMES@[j]).0.spec_bytes(),
    ensures
        names::named_from(name, i) is None,
    decreases names::GLYPH_NAMES@.len() - i,
{
    if i < names::GLYPH_NAMES@.len() {
        assert(name != names::GLYPH_NAMES@[i].0.spec_bytes());
        lemma_not_named(name, i + 1);
    }
}

} // verus!
