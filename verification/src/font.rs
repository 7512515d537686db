//! Fonts: how the bytes of a string become text and advances.

use crate::bytes::{self, copy_bytes, find_from, has_prefix, same_bytes};
use crate::cmap::{self, parse_tounicode};
use crate::document::{as_dict, look_up, Meant};
use crate::encoding::{self, layout_table, macroman_table, winansi_table, CMMI, CMSY};
use crate::names::{self, glyph_name_to_char, is_gid_name};
use crate::number::{self, barely_above, to_nearest_bits, Number};
use crate::object::{self, get_name, get_number, Entry, Obj, ObjModel};
use crate::pdf::Doc;
use crate::text::{
    self, ascii_string, chars_of, decompose_ligatures, from_utf8_lossy, push_text, read_unsigned,
    spells, split_words, string_of,
};
use crate::widths::{self, cid_widths, simple_widths};
use std::collections::hash_map::DefaultHasher;
use std::collections::HashMap;
use std::hash::Hasher;
use vstd::prelude::*;
use vstd::slice::slice_subrange;
use vstd::std_specs::hash::DefaultHasherAdditionalSpecFns;
use vstd::string::StringSliceAdditionalSpecFns;

verus! {

/// The advance of each character of a face that readers carry built in.
pub struct CoreFace {
    /// The name under which fonts ask for the face.
    pub name: Vec<u8>,
    /// Characters and their advances, in units of a thousandth of an em.
    pub widths: Vec<(char, Number)>,
}

/// What a built-in face is.
pub struct FaceModel {
    pub name: Seq<u8>,
    pub widths: Seq<(char, Number)>,
}

/// What some built-in faces are.
pub open spec fn faces_model(faces: Seq<CoreFace>) -> Seq<FaceModel> {
    Seq::new(faces.len(), |i: int| FaceModel { name: faces[i].name@, widths: faces[i].widths@ })
}

/// The first face with a name.
pub open spec fn face_named(faces: Seq<FaceModel>, name: Seq<u8>) -> Option<
    Seq<(char, Number)>,
>
    decreases faces.len(),
{
    if faces.len() == 0 {
        None
    } else if faces[0].name == name {
        Some(faces[0].widths)
    } else {
        face_named(faces.drop_first(), name)
    }
}

/// The first advance of a character.
pub open spec fn advance_of(widths: Seq<(char, Number)>, c: char) -> Option<Number>
    decreases widths.len(),
{
    if widths.len() == 0 {
        None
    } else if widths[0].0 == c {
        Some(widths[0].1)
    } else {
        advance_of(widths.drop_first(), c)
    }
}

/// What a font is.
#[verifier::ext_equal]
pub struct FontModel {
    /// Codes are two bytes rather than one.
    pub two_byte: bool,
    /// The text of a code, by the font's ToUnicode map.
    pub to_unicode: Map<u32, Seq<char>>,
    /// The advance of a code, in units of a thousandth of an em.
    pub widths: Map<u32, Number>,
    /// The advance of the other codes.
    pub default_width: Number,
    /// The characters of the font's encoding, for one-byte codes.
    pub simple_encoding: Option<Map<u8, char>>,
    /// Names of glyphs that stand for no character.
    pub fallback_names: Map<u8, Seq<char>>,
    /// The characters of the encoding that the font program carries.
    pub program_encoding: Map<u8, char>,
    /// Height above the base line, in units of a thousandth of an em.
    pub ascent: Number,
    /// Height below the base line, as a negative number.
    pub descent: Number,
    /// A number that tells fonts apart by their resource name.
    pub hash: u64,
}

/// A font: how to turn raw string bytes into text and advances.
pub struct Font {
    pub two_byte: bool,
    pub to_unicode: HashMap<u32, String>,
    pub widths: HashMap<u32, Number>,
    pub default_width: Number,
    pub simple_encoding: Option<HashMap<u8, char>>,
    pub fallback_names: HashMap<u8, String>,
    pub program_encoding: HashMap<u8, char>,
    pub ascent: Number,
    pub descent: Number,
    pub hash: u64,
}

/// The names of a table.
pub open spec fn name_texts(m: Map<u8, String>) -> Map<u8, Seq<char>> {
    Map::new(|c: u8| m.dom().contains(c), |c: u8| m[c]@)
}

impl Font {
    /// What the font is.
    pub open spec fn view(&self) -> FontModel {
        FontModel {
            two_byte: self.two_byte,
            to_unicode: cmap::texts(self.to_unicode@),
            widths: self.widths@,
            default_width: self.default_width,
            simple_encoding: match self.simple_encoding {
                Some(m) => Some(m@),
                None => None,
            },
            fallback_names: name_texts(self.fallback_names@),
            program_encoding: self.program_encoding@,
            ascent: self.ascent,
            descent: self.descent,
            hash: self.hash,
        }
    }
}

/// The low byte of a code.
pub open spec fn low_byte(code: u32) -> u8 {
    (code % 256) as u8
}

/// The advance of a code.
pub open spec fn width_of(f: FontModel, code: u32) -> Number {
    if f.widths.dom().contains(code) {
        f.widths[code]
    } else {
        f.default_width
    }
}

/// The text of a code: by the ToUnicode map; for one-byte codes else the name of
/// a glyph that stands for no character, after a `/`, else the character of the
/// encoding, else that of the font program. Ligatures are spelled out.
pub open spec fn text_of(f: FontModel, code: u32) -> Option<Seq<char>> {
    let b = low_byte(code);
    if f.to_unicode.dom().contains(code) {
        Some(text::spelled_out(f.to_unicode[code]))
    } else if f.two_byte {
        None
    } else if f.fallback_names.dom().contains(b) {
        Some(seq!['/'] + f.fallback_names[b])
    } else if f.simple_encoding matches Some(e) && e.dom().contains(b) {
        Some(text::spelled_out(seq![f.simple_encoding.unwrap()[b]]))
    } else if f.program_encoding.dom().contains(b) {
        Some(text::spelled_out(seq![f.program_encoding[b]]))
    } else {
        None
    }
}

/// The encoding of the font program fills only codes that nothing else maps.
pub proof fn law_program_encoding_only_fills_gaps(
    f: FontModel,
    p: Map<u8, char>,
    code: u32,
)
    ensures
        text_of((FontModel { program_encoding: Map::empty(), ..f }), code) is Some ==> text_of(
            (FontModel { program_encoding: p, ..f }),
            code,
        ) == text_of((FontModel { program_encoding: Map::empty(), ..f }), code),
{
}

impl Font {
    /// The text and the advance of a code.
    pub fn decode_code(&self, code: u32) -> (r: (Option<String>, Number))
        ensures
            match r.0 {
                Some(s) => text_of(self.view(), code) == Some(s@),
                None => text_of(self.view(), code) is None,
            },
            r.1 == width_of(self.view(), code),
    {
        broadcast use vstd::std_specs::hash::group_hash_axioms;

        let w: Number = match self.widths.get(&code) {
            Some(w) => *w,
            None => self.default_width,
        };
        if let Some(s) = self.to_unicode.get(&code) {
            return (Some(decompose_ligatures(s.as_str())), w);
        }
        if !self.two_byte {
            let b: u8 = (code % 256) as u8;
            if let Some(name) = self.fallback_names.get(&b) {
                let mut s: String = String::new();
                s.push('/');
                push_text(&mut s, name.as_str());
                assert(s@ =~= seq!['/'] + name@);
                return (Some(s), w);
            }
            if let Some(enc) = &self.simple_encoding {
                if let Some(ch) = enc.get(&b) {
                    return (Some(spell_char(*ch)), w);
                }
            }
            if let Some(ch) = self.program_encoding.get(&b) {
                return (Some(spell_char(*ch)), w);
            }
        }
        (None, w)
    }
}

/// One character as a text, spelled out.
fn spell_char(c: char) -> (r: String)
    ensures
        r@ == text::spelled_out(seq![c]),
{
    let mut s: String = String::new();
    s.push(c);
    assert(s@ =~= seq![c]);
    decompose_ligatures(s.as_str())
}

/// The low `k` bytes of a number, the lowest first.
pub open spec fn low_bytes(n: nat, k: nat) -> Seq<u8>
    decreases k,
{
    if k == 0 {
        Seq::empty()
    } else {
        seq![(n % 256) as u8] + low_bytes(n / 256, (k - 1) as nat)
    }
}

/// The hash of a name: its length in eight bytes, then the name itself.
pub open spec fn name_hash(name: Seq<u8>) -> u64 {
    DefaultHasher::spec_finish(seq![low_bytes(name.len(), 8), name])
}

/// The low eight bytes of a number.
fn write_low_bytes(n: u64) -> (r: Vec<u8>)
    ensures
        r@ == low_bytes(n as nat, 8),
{
    let mut r: Vec<u8> = Vec::new();
    let mut rest: u64 = n;
    let mut k: usize = 8;
    assert(r@ + low_bytes(n as nat, 8) =~= low_bytes(n as nat, 8));
    while k > 0
        invariant
            k <= 8,
            r@ + low_bytes(rest as nat, k as nat) == low_bytes(n as nat, 8),
        decreases k,
    {
        let ghost before = r@;
        let b: u8 = (rest % 256) as u8;
        r.push(b);
        assert(before + (seq![b] + low_bytes((rest / 256) as nat, (k - 1) as nat)) =~= r@
            + low_bytes((rest / 256) as nat, (k - 1) as nat));
        rest = rest / 256;
        k -= 1;
    }
    assert(r@ + low_bytes(rest as nat, 0) =~= r@);
    r
}

/// The hash of a name.
pub fn hash_name(name: &[u8]) -> (r: u64)
    ensures
        r == name_hash(name@),
{
    let len: usize = name.len();
    let mut h = DefaultHasher::new();
    h.write(write_low_bytes(len as u64).as_slice());
    h.write(name);
    assert(h@ =~= seq![low_bytes(name@.len(), 8), name@]);
    h.finish()
}

/// An integer modulo 256.
pub open spec fn low(i: int) -> u8 {
    (i % 256) as u8
}

/// An integer modulo 256.
fn low_of(i: i64) -> (r: u8)
    ensures
        r == low(i as int),
{
    let m: u128 = (i as i128 + 0x1_0000_0000_0000_0000) as u128 % 256;
    m as u8
}

/// The code that stands for the element `n` of a `/Differences` array: a number
/// sets it, each name takes one.
pub open spec fn code_at(diffs: Seq<ObjModel>, n: int) -> u8
    decreases n,
{
    if n <= 0 {
        0
    } else {
        match diffs[n - 1] {
            ObjModel::Num(Number::Int(i)) => low(i as int),
            ObjModel::Name(_) => low(code_at(diffs, n - 1) + 1),
            _ => code_at(diffs, n - 1),
        }
    }
}

/// A table with the first `n` elements of a `/Differences` array applied: each
/// name that stands for a character gives it to its code.
pub open spec fn with_differences(
    m: Map<u8, char>,
    diffs: Seq<ObjModel>,
    n: int,
) -> Map<u8, char>
    decreases n,
{
    if n <= 0 {
        m
    } else {
        let before = with_differences(m, diffs, n - 1);
        match diffs[n - 1] {
            ObjModel::Name(name) => match names::glyph_char(name) {
                Some(c) => before.insert(code_at(diffs, n - 1), c),
                None => before,
            },
            _ => before,
        }
    }
}

/// The placeholder names among the first `n` elements of a `/Differences` array,
/// by code.
pub open spec fn placeholder_names(diffs: Seq<ObjModel>, n: int) -> Map<u8, Seq<char>>
    decreases n,
{
    if n <= 0 {
        Map::empty()
    } else {
        let before = placeholder_names(diffs, n - 1);
        match diffs[n - 1] {
            ObjModel::Name(name) => if names::glyph_char(name) is None
                && names::is_placeholder(name) {
                before.insert(code_at(diffs, n - 1), text::as_chars(name))
            } else {
                before
            },
            _ => before,
        }
    }
}

/// The `/Differences` array of a font's encoding.
pub open spec fn differences(
    doc: object::DocModel,
    fdict: Seq<(Seq<u8>, ObjModel)>,
) -> Seq<ObjModel> {
    match object::dict_entry(doc, fdict, "Encoding".spec_bytes()) {
        Some(e) => match object::array_entry(doc, e, "Differences".spec_bytes()) {
            Some(a) => a,
            None => Seq::empty(),
        },
        None => Seq::empty(),
    }
}

/// The name of a font's base encoding; empty where it names none.
pub open spec fn base_encoding(
    doc: object::DocModel,
    fdict: Seq<(Seq<u8>, ObjModel)>,
) -> Seq<u8> {
    match object::entry(doc, fdict, "Encoding".spec_bytes()) {
        Some(ObjModel::Name(n)) => n,
        Some(ObjModel::Dict(d)) => match object::name_value(
            d,
            "BaseEncoding".spec_bytes(),
        ) {
            Some(n) => n,
            None => Seq::empty(),
        },
        _ => Seq::empty(),
    }
}

/// The `/BaseFont` name without a subset prefix of six letters and a `+`.
pub open spec fn base_font(fdict: Seq<(Seq<u8>, ObjModel)>) -> Option<Seq<u8>> {
    match object::name_value(fdict, "BaseFont".spec_bytes()) {
        Some(n) => if bytes::first_at(n, "+".spec_bytes(), 0) == Some(6int) {
            Some(n.skip(7))
        } else {
            Some(n)
        },
        None => None,
    }
}

/// An ASCII letter in upper case; any other byte is itself.
pub open spec fn upper(b: u8) -> u8 {
    if 0x61 <= b <= 0x7A {
        (b - 0x20) as u8
    } else {
        b
    }
}

/// A byte string in upper case.
pub open spec fn uppercase(s: Seq<u8>) -> Seq<u8> {
    Seq::new(s.len(), |i: int| upper(s[i]))
}

/// The built-in layout of a standard TeX math font, by its name.
pub open spec fn tex_layout(fdict: Seq<(Seq<u8>, ObjModel)>) -> Option<[char; 128]> {
    match base_font(fdict) {
        Some(n) => if bytes::occurs_at(uppercase(n), "CMSY".spec_bytes(), 0)
            || bytes::occurs_at(uppercase(n), "CMBSY".spec_bytes(), 0) {
            Some(CMSY)
        } else if bytes::occurs_at(uppercase(n), "CMMI".spec_bytes(), 0) {
            Some(CMMI)
        } else {
            None
        },
        None => None,
    }
}

/// The table that a function from codes gives.
pub open spec fn table_of(f: spec_fn(u8) -> Option<char>) -> Map<u8, char> {
    Map::new(|b: u8| f(b) is Some, |b: u8| f(b).unwrap())
}

/// The base table of a simple font: MacRoman where it is named; where no
/// encoding is named the built-in layout, for fonts that have a known one; else
/// WinAnsi.
pub open spec fn base_table(
    doc: object::DocModel,
    fdict: Seq<(Seq<u8>, ObjModel)>,
) -> Map<u8, char> {
    let base = base_encoding(doc, fdict);
    if base == "MacRomanEncoding".spec_bytes() {
        table_of(|b: u8| encoding::macroman(b))
    } else if base.len() == 0 && tex_layout(fdict) is Some {
        table_of(|b: u8| encoding::layout(tex_layout(fdict).unwrap(), b))
    } else {
        table_of(|b: u8| encoding::winansi(b))
    }
}

/// The table of a simple font: its base table with its `/Differences` applied.
pub open spec fn encoding_table(
    doc: object::DocModel,
    fdict: Seq<(Seq<u8>, ObjModel)>,
) -> Map<u8, char> {
    let diffs = differences(doc, fdict);
    with_differences(base_table(doc, fdict), diffs, diffs.len() as int)
}

/// The clear text of a Type 1 font program: what stands before `eexec`.
pub open spec fn clear_text(data: Seq<u8>) -> Seq<u8> {
    match bytes::first_at(data, "eexec".spec_bytes(), 0) {
        Some(k) => data.take(k),
        None => data,
    }
}

/// What four words `dup <code> /<name> put` say: the character of a code.
pub open spec fn vector_entry(w: Seq<Seq<char>>, i: int) -> Option<(u8, char)> {
    if w[i] == "dup"@ && w[i + 3] == "put"@ && w[i + 2].len() > 0 && w[i + 2][0] == '/' {
        match text::unsigned_value(w[i + 1]) {
            Some(code) => if code <= 255 {
                match names::glyph_char(
                    vstd::utf8::encode_utf8(w[i + 2].drop_first()),
                ) {
                    Some(c) => Some((code as u8, c)),
                    None => None,
                }
            } else {
                None
            },
            None => None,
        }
    } else {
        None
    }
}

/// The entries of an encoding vector at the first `n` words.
pub open spec fn vector_table(w: Seq<Seq<char>>, n: int) -> Map<u8, char>
    decreases n,
{
    if n <= 0 {
        Map::empty()
    } else {
        match vector_entry(w, n - 1) {
            Some((code, c)) => vector_table(w, n - 1).insert(code, c),
            None => vector_table(w, n - 1),
        }
    }
}

/// The encoding vector in the words of a program's clear text.
pub open spec fn program_words_table(w: Seq<Seq<char>>) -> Map<u8, char> {
    vector_table(w, w.len() - 3)
}

/// The Type 1 font program that a font embeds.
pub open spec fn program_of(doc: object::DocModel, fdict: Seq<(Seq<u8>, ObjModel)>) -> Option<
    Seq<u8>,
> {
    match object::dict_entry(doc, fdict, "FontDescriptor".spec_bytes()) {
        Some(d) => object::data_entry(doc, d, "FontFile".spec_bytes()),
        None => None,
    }
}

/// The encoding that an embedded Type 1 font program carries.
pub open spec fn program_table(
    doc: object::DocModel,
    fdict: Seq<(Seq<u8>, ObjModel)>,
) -> Map<u8, char> {
    match program_of(doc, fdict) {
        Some(data) => program_words_table(text::words(text::utf8_lossy(clear_text(data)))),
        None => Map::empty(),
    }
}

/// Only placeholder names are kept by name: a name that stands for a character
/// never is.
pub proof fn law_real_glyph_names_are_not_kept_by_name(diffs: Seq<ObjModel>, n: int, b: u8)
    requires
        n <= diffs.len(),
        placeholder_names(diffs, n).dom().contains(b),
    ensures
        exists|j: int|
            0 <= j < n && (#[trigger] diffs[j] matches ObjModel::Name(name)
                && names::is_placeholder(name) && names::glyph_char(name) is None
                && placeholder_names(diffs, n)[b] == text::as_chars(name) && code_at(
                diffs,
                j,
            ) == b),
    decreases n,
{
    if n > 0 {
        let before = placeholder_names(diffs, n - 1);
        let now = placeholder_names(diffs, n);
        match diffs[n - 1] {
            ObjModel::Name(name) => {
                if names::glyph_char(name) is None && names::is_placeholder(name)
                    && code_at(diffs, n - 1) == b {
                    assert(now[b] == text::as_chars(name));
                    assert(diffs[n - 1] == ObjModel::Name(name));
                } else {
                    law_real_glyph_names_are_not_kept_by_name(diffs, n - 1, b);
                    assert(now[b] == before[b]);
                }
            },
            _ => {
                law_real_glyph_names_are_not_kept_by_name(diffs, n - 1, b);
            },
        }
    }
}

/// Give the characters of a `/Differences` array to their codes.
fn apply_differences(diffs: &Vec<Obj>, m: &mut HashMap<u8, char>)
    ensures
        final(m)@ == with_differences(
            old(m)@,
            object::array_model(diffs@),
            diffs@.len() as int,
        ),
{
    let ghost model = object::array_model(diffs@);
    let mut code: u8 = 0;
    let mut i: usize = 0;
    while i < diffs.len()
        invariant
            i <= diffs@.len(),
            model == object::array_model(diffs@),
            code == code_at(model, i as int),
            m@ == with_differences(old(m)@, model, i as int),
        decreases diffs@.len() - i,
    {
        broadcast use vstd::std_specs::hash::group_hash_axioms;

        assert(model[i as int] == diffs@[i as int].view());
        match &diffs[i] {
            Obj::Num(Number::Int(v)) => {
                code = low_of(*v);
            },
            Obj::Name(name) => {
                if let Some(c) = glyph_name_to_char(name.as_slice()) {
                    m.insert(code, c);
                }
                code = next_byte(code);
            },
            _ => {},
        }
        i += 1;
    }
}

/// The next code; 255 is followed by 0.
fn next_byte(code: u8) -> (r: u8)
    ensures
        r == low(code + 1),
{
    if code == 255 {
        0
    } else {
        code + 1
    }
}

/// The placeholder names of a `/Differences` array, by code.
fn collect_placeholders(diffs: &Vec<Obj>) -> (names: HashMap<u8, String>)
    ensures
        name_texts(names@) == placeholder_names(
            object::array_model(diffs@),
            diffs@.len() as int,
        ),
{
    broadcast use vstd::std_specs::hash::group_hash_axioms;

    let ghost model = object::array_model(diffs@);
    let mut names: HashMap<u8, String> = HashMap::new();
    assert(name_texts(names@) =~= Map::<u8, Seq<char>>::empty());
    let mut code: u8 = 0;
    let mut i: usize = 0;
    while i < diffs.len()
        invariant
            i <= diffs@.len(),
            model == object::array_model(diffs@),
            code == code_at(model, i as int),
            name_texts(names@) == placeholder_names(model, i as int),
        decreases diffs@.len() - i,
    {
        broadcast use vstd::std_specs::hash::group_hash_axioms;

        assert(model[i as int] == diffs@[i as int].view());
        match &diffs[i] {
            Obj::Num(Number::Int(v)) => {
                code = low_of(*v);
            },
            Obj::Name(name) => {
                if glyph_name_to_char(name.as_slice()).is_none() && is_gid_name(name.as_slice()) {
                    proof {
                        lemma_placeholder_is_ascii(name@);
                    }
                    let s = ascii_string(name.as_slice());
                    let ghost before = name_texts(names@);
                    names.insert(code, s);
                    assert(name_texts(names@) =~= before.insert(code, s@));
                }
                code = next_byte(code);
            },
            _ => {},
        }
        i += 1;
    }
    names
}

/// Placeholder names are ASCII.
proof fn lemma_placeholder_is_ascii(name: Seq<u8>)
    requires
        names::is_placeholder(name),
    ensures
        text::ascii_only(name),
{
    if names::is_code_name(name) {
        lemma_letters_are_ascii(name);
        let n = names::letter_run(name) as int;
        assert forall|i: int| 0 <= i < name.len() implies #[trigger] name[i] < 0x80 by {
            if i >= n {
                assert(name.skip(n)[i - n] == name[i]);
            }
        }
    } else if names::is_numbered(name, "g".spec_bytes()) {
        reveal_strlit("g");
        vstd::string::is_ascii_spec_bytes("g");
        lemma_numbered_is_ascii(name, "g".spec_bytes());
    } else if names::is_numbered(name, "G".spec_bytes()) {
        reveal_strlit("G");
        vstd::string::is_ascii_spec_bytes("G");
        lemma_numbered_is_ascii(name, "G".spec_bytes());
    } else if names::is_numbered(name, "cid".spec_bytes()) {
        reveal_strlit("cid");
        vstd::string::is_ascii_spec_bytes("cid");
        lemma_numbered_is_ascii(name, "cid".spec_bytes());
    } else if names::is_numbered(name, "CID".spec_bytes()) {
        reveal_strlit("CID");
        vstd::string::is_ascii_spec_bytes("CID");
        lemma_numbered_is_ascii(name, "CID".spec_bytes());
    } else if names::is_numbered(name, "glyph".spec_bytes()) {
        reveal_strlit("glyph");
        vstd::string::is_ascii_spec_bytes("glyph");
        lemma_numbered_is_ascii(name, "glyph".spec_bytes());
    } else {
        reveal_strlit("index");
        vstd::string::is_ascii_spec_bytes("index");
        lemma_numbered_is_ascii(name, "index".spec_bytes());
    }
}

/// An ASCII prefix and digits are ASCII.
proof fn lemma_numbered_is_ascii(name: Seq<u8>, prefix: Seq<u8>)
    requires
        names::is_numbered(name, prefix),
        forall|i: int| 0 <= i < prefix.len() ==> #[trigger] prefix[i] < 0x80,
    ensures
        text::ascii_only(name),
{
    let n = prefix.len() as int;
    assert forall|i: int| 0 <= i < name.len() implies #[trigger] name[i] < 0x80 by {
        if i < n {
            assert(name.subrange(0, n)[i] == prefix[i]);
        } else {
            assert(name.skip(n)[i - n] == name[i]);
        }
    }
}

/// Leading letters are ASCII.
proof fn lemma_letters_are_ascii(s: Seq<u8>)
    ensures
        names::letter_run(s) <= s.len(),
        forall|i: int| 0 <= i < names::letter_run(s) ==> #[trigger] s[i] < 0x80,
    decreases s.len(),
{
    if s.len() > 0 && names::is_letter(s[0]) {
        let t = s.drop_first();
        lemma_letters_are_ascii(t);
        assert forall|i: int| 0 <= i < names::letter_run(s) implies #[trigger] s[i]
            < 0x80 by {
            if i > 0 {
                assert(t[i - 1] == s[i]);
            }
        }
    }
}

/// The names of glyphs that stand for no character, by code.
///
/// A placeholder name such as `g115` has no Unicode meaning; it is kept so that
/// the text of a subset font without a Unicode map is not silently dropped.
pub fn differences_gid_names(doc: &Doc, fdict: &Vec<Entry>) -> (r: HashMap<u8, String>)
    ensures
        name_texts(r@) == placeholder_names(
            differences(doc.view(), object::entries_model(fdict@)),
            differences(doc.view(), object::entries_model(fdict@)).len() as int,
        ),
{
    broadcast use vstd::std_specs::hash::group_hash_axioms;

    if let Some(enc) = look_up(doc, fdict, "Encoding".as_bytes()) {
        if let Some(d) = enc.dict() {
            if let Some(e) = look_up(doc, d, "Differences".as_bytes()) {
                if let Some(diffs) = e.array() {
                    return collect_placeholders(diffs);
                }
            }
        }
    }
    let r: HashMap<u8, String> = HashMap::new();
    assert(name_texts(r@) =~= Map::<u8, Seq<char>>::empty());
    r
}

/// The `/BaseFont` name without a subset prefix.
pub fn base_font_name(fdict: &Vec<Entry>) -> (r: Option<Vec<u8>>)
    ensures
        match r {
            Some(n) => base_font(object::entries_model(fdict@)) == Some(n@),
            None => base_font(object::entries_model(fdict@)) is None,
        },
{
    match get_name(fdict, "BaseFont".as_bytes()) {
        None => None,
        Some(name) => {
            proof {
                reveal_strlit("+");
                vstd::string::is_ascii_spec_bytes("+");
                bytes::lemma_first_at(name@, "+".spec_bytes(), 0);
            }
            match find_from(name.as_slice(), "+".as_bytes(), 0) {
                Some(i) => {
                    if i == 6 {
                        let rest = slice_subrange(name.as_slice(), 7, name.len());
                        assert(rest@ =~= name@.skip(7));
                        return Some(copy_bytes(rest));
                    }
                },
                None => {},
            }
            Some(copy_bytes(name.as_slice()))
        },
    }
}

/// A byte string in upper case.
fn to_upper(s: &[u8]) -> (r: Vec<u8>)
    ensures
        r@ == uppercase(s@),
{
    let mut r: Vec<u8> = Vec::new();
    let mut i: usize = 0;
    while i < s.len()
        invariant
            i <= s@.len(),
            r@.len() == i,
            forall|j: int| 0 <= j < i ==> #[trigger] r@[j] == upper(s@[j]),
        decreases s@.len() - i,
    {
        let b: u8 = s[i];
        r.push(
            if 0x61 <= b && b <= 0x7A {
                b - 0x20
            } else {
                b
            },
        );
        i += 1;
    }
    assert(r@ =~= uppercase(s@));
    r
}

/// The fixed built-in encodings of the standard TeX math fonts: `CMSY` and
/// `CMBSY` (symbols), `CMMI` (math italic). These fonts ship no encoding and no
/// Unicode map.
pub fn tex_math_builtin(fdict: &Vec<Entry>) -> (r: Option<HashMap<u8, char>>)
    ensures
        match r {
            Some(m) => tex_layout(object::entries_model(fdict@)) is Some && m@ == table_of(
                |b: u8|
                    encoding::layout(
                        tex_layout(object::entries_model(fdict@)).unwrap(),
                        b,
                    ),
            ),
            None => tex_layout(object::entries_model(fdict@)) is None,
        },
{
    let name = match base_font_name(fdict) {
        Some(n) => n,
        None => {
            return None;
        },
    };
    let up = to_upper(name.as_slice());
    if has_prefix(up.as_slice(), "CMSY".as_bytes()) || has_prefix(
        up.as_slice(),
        "CMBSY".as_bytes(),
    ) {
        let m = layout_table(&CMSY);
        assert(m@ =~= table_of(|b: u8| encoding::layout(CMSY, b)));
        Some(m)
    } else if has_prefix(up.as_slice(), "CMMI".as_bytes()) {
        let m = layout_table(&CMMI);
        assert(m@ =~= table_of(|b: u8| encoding::layout(CMMI, b)));
        Some(m)
    } else {
        None
    }
}

/// The base table of a simple font whose encoding has been resolved.
fn base_encoding_table(doc: &Doc, fdict: &Vec<Entry>, enc: &Option<Meant>) -> (m: HashMap<
    u8,
    char,
>)
    requires
        match enc {
            Some(e) => object::entry(
                doc.view(),
                object::entries_model(fdict@),
                "Encoding".spec_bytes(),
            ) == Some(e.view()),
            None => object::entry(
                doc.view(),
                object::entries_model(fdict@),
                "Encoding".spec_bytes(),
            ) is None,
        },
    ensures
        m@ == base_table(doc.view(), object::entries_model(fdict@)),
{
    broadcast use object::lemma_dict_view;

    let mut base: Vec<u8> = Vec::new();
    if let Some(e) = enc {
        match e.obj() {
            Obj::Name(n) => {
                base = copy_bytes(n.as_slice());
            },
            Obj::Dict(d) => {
                if let Some(n) = get_name(d, "BaseEncoding".as_bytes()) {
                    base = copy_bytes(n.as_slice());
                }
            },
            _ => {},
        }
    }
    assert(base@ =~= base_encoding(doc.view(), object::entries_model(fdict@)));
    proof {
        reveal_strlit("MacRomanEncoding");
        vstd::string::is_ascii_spec_bytes("MacRomanEncoding");
    }
    if same_bytes(base.as_slice(), "MacRomanEncoding".as_bytes()) {
        let m = macroman_table();
        assert(m@ =~= table_of(|b: u8| encoding::macroman(b)));
        return m;
    }
    if base.len() == 0 {
        if let Some(m) = tex_math_builtin(fdict) {
            return m;
        }
    }
    let m = winansi_table();
    assert(m@ =~= table_of(|b: u8| encoding::winansi(b)));
    m
}

/// A simple font's table from code to character, from its `/Encoding`: the base
/// encoding and any `/Differences`.
pub fn simple_encoding_table(doc: &Doc, fdict: &Vec<Entry>) -> (m: HashMap<u8, char>)
    ensures
        m@ == encoding_table(doc.view(), object::entries_model(fdict@)),
{
    let enc = look_up(doc, fdict, "Encoding".as_bytes());
    let mut m = base_encoding_table(doc, fdict, &enc);
    if let Some(e) = &enc {
        if let Some(d) = e.dict() {
            if let Some(a) = look_up(doc, d, "Differences".as_bytes()) {
                if let Some(diffs) = a.array() {
                    apply_differences(diffs, &mut m);
                }
            }
        }
    }
    m
}

/// The encoding vector in the words of a program's clear text: entries
/// `dup <code> /<name> put`.
pub fn read_encoding_vector(w: &Vec<Vec<char>>) -> (m: HashMap<u8, char>)
    ensures
        m@ == program_words_table(text::word_views(w@)),
{
    broadcast use vstd::std_specs::hash::group_hash_axioms;

    let ghost words = text::word_views(w@);
    let mut m: HashMap<u8, char> = HashMap::new();
    let mut i: usize = 0;
    while i < w.len() && w.len() - i > 3
        invariant
            i <= w@.len(),
            i <= w@.len() - 3 || i == 0,
            words == text::word_views(w@),
            m@ == vector_table(words, i as int),
        decreases w@.len() - i,
    {
        broadcast use vstd::std_specs::hash::group_hash_axioms;

        assert(words[i as int] == w@[i as int]@);
        assert(words[i + 1] == w@[i + 1]@);
        assert(words[i + 2] == w@[i + 2]@);
        assert(words[i + 3] == w@[i + 3]@);
        if spells(w[i].as_slice(), "dup") && spells(w[i + 3].as_slice(), "put") {
            let name = &w[i + 2];
            if name.len() > 0 && name[0] == '/' {
                if let Some(code) = read_unsigned(w[i + 1].as_slice(), 255) {
                    let rest = slice_subrange(name.as_slice(), 1, name.len());
                    assert(rest@ =~= name@.drop_first());
                    let text = string_of(rest);
                    if let Some(c) = glyph_name_to_char(text.as_str().as_bytes()) {
                        m.insert(code as u8, c);
                    }
                }
            }
        }
        i += 1;
    }
    m
}

/// The encoding that an embedded Type 1 font program carries in its clear text.
/// TeX math fonts have no other one.
pub fn type1_program_encoding(doc: &Doc, fdict: &Vec<Entry>) -> (m: HashMap<u8, char>)
    ensures
        m@ == program_table(doc.view(), object::entries_model(fdict@)),
        program_of(doc.view(), object::entries_model(fdict@)) matches Some(data) ==> (
        vstd::utf8::valid_utf8(clear_text(data)) ==> m@ == program_words_table(
            text::words(vstd::utf8::decode_utf8(clear_text(data))),
        )),
{
    broadcast use vstd::std_specs::hash::group_hash_axioms;

    if let Some(descriptor) = look_up(doc, fdict, "FontDescriptor".as_bytes()) {
        if let Some(d) = descriptor.dict() {
            if let Some(file) = look_up(doc, d, "FontFile".as_bytes()) {
                if let Some(data) = file.data() {
                    let end: usize = match find_from(data.as_slice(), "eexec".as_bytes(), 0) {
                        Some(k) => k,
                        None => data.len(),
                    };
                    proof {
                        bytes::lemma_first_at(data@, "eexec".spec_bytes(), 0);
                    }
                    let head = slice_subrange(data.as_slice(), 0, end);
                    assert(head@ =~= clear_text(data@));
                    let text = from_utf8_lossy(head);
                    let chars = chars_of(text.as_str());
                    let w = split_words(chars.as_slice());
                    return read_encoding_vector(&w);
                }
            }
        }
    }
    HashMap::new()
}

/// A typical height of text above the base line.
pub const TYPICAL_ASCENT: i64 = 750;

/// A typical height of text below the base line.
pub const TYPICAL_DESCENT: i64 = -250;

/// The ascent and descent in the `/FontDescriptor` of a dictionary, each typical
/// where it is not declared.
pub open spec fn metrics_in(doc: object::DocModel, owner: Seq<(Seq<u8>, ObjModel)>) -> (
    Number,
    Number,
) {
    match object::dict_entry(doc, owner, "FontDescriptor".spec_bytes()) {
        Some(d) => (
            match object::number_value(d, "Ascent".spec_bytes()) {
                Some(n) => n,
                None => Number::Int(TYPICAL_ASCENT),
            },
            match object::number_value(d, "Descent".spec_bytes()) {
                Some(n) => n,
                None => Number::Int(TYPICAL_DESCENT),
            },
        ),
        None => (Number::Int(TYPICAL_ASCENT), Number::Int(TYPICAL_DESCENT)),
    }
}

/// The ascent and descent that a font declares. For a composite font they stand
/// with its descendant.
pub open spec fn declared_metrics(
    doc: object::DocModel,
    fdict: Seq<(Seq<u8>, ObjModel)>,
    two_byte: bool,
) -> (Number, Number) {
    if two_byte {
        match widths::descendant(doc, fdict) {
            Some(d) => metrics_in(doc, d),
            None => (Number::Int(TYPICAL_ASCENT), Number::Int(TYPICAL_DESCENT)),
        }
    } else {
        metrics_in(doc, fdict)
    }
}

/// The box from descent to ascent is flat: no higher than a thousandth of an em.
pub open spec fn is_flat(m: (Number, Number)) -> bool {
    number::at_most_one_above(number::nearest_bits(m.0), number::nearest_bits(m.1))
}

/// The ascent and descent of a font: those that it declares, or typical ones
/// where its box would be flat, so that its glyphs have a height.
pub open spec fn metrics_of(
    doc: object::DocModel,
    fdict: Seq<(Seq<u8>, ObjModel)>,
    two_byte: bool,
) -> (Number, Number) {
    let declared = declared_metrics(doc, fdict, two_byte);
    if is_flat(declared) {
        (Number::Int(TYPICAL_ASCENT), Number::Int(TYPICAL_DESCENT))
    } else {
        declared
    }
}

/// The ascent and descent in the `/FontDescriptor` of a dictionary.
fn descriptor_metrics(doc: &Doc, owner: &Vec<Entry>) -> (r: (Number, Number))
    ensures
        r == metrics_in(doc.view(), object::entries_model(owner@)),
{
    let mut asc: Number = Number::Int(TYPICAL_ASCENT);
    let mut desc: Number = Number::Int(TYPICAL_DESCENT);
    if let Some(e) = look_up(doc, owner, "FontDescriptor".as_bytes()) {
        if let Some(d) = e.dict() {
            if let Some(n) = get_number(d, "Ascent".as_bytes()) {
                asc = n;
            }
            if let Some(n) = get_number(d, "Descent".as_bytes()) {
                desc = n;
            }
        }
    }
    (asc, desc)
}

/// The ascent and descent that a font declares.
fn read_metrics(doc: &Doc, fdict: &Vec<Entry>, two_byte: bool) -> (r: (Number, Number))
    ensures
        r == declared_metrics(doc.view(), object::entries_model(fdict@), two_byte),
{
    if !two_byte {
        return descriptor_metrics(doc, fdict);
    }
    if let Some(fonts) = look_up(doc, fdict, "DescendantFonts".as_bytes()) {
        if let Some(a) = fonts.array() {
            if a.len() > 0 {
                assert(object::array_model(a@)[0] == a@[0].view());
                if let Some(font) = as_dict(doc, &a[0]) {
                    if let Some(d) = font.dict() {
                        return descriptor_metrics(doc, d);
                    }
                }
            }
        }
    }
    (Number::Int(TYPICAL_ASCENT), Number::Int(TYPICAL_DESCENT))
}

/// The ascent and descent of a font. Some subsetted fonts declare both as 0, which
/// would leave their glyphs without a height; those get typical ones.
pub fn font_ascent_descent(doc: &Doc, fdict: &Vec<Entry>, two_byte: bool) -> (r: (Number, Number))
    ensures
        r == metrics_of(doc.view(), object::entries_model(fdict@), two_byte),
{
    let (asc, desc) = read_metrics(doc, fdict, two_byte);
    if barely_above(to_nearest_bits(asc), to_nearest_bits(desc)) {
        (Number::Int(TYPICAL_ASCENT), Number::Int(TYPICAL_DESCENT))
    } else {
        (asc, desc)
    }
}

/// The box of a font is never flat.
pub proof fn law_font_boxes_have_a_height(
    doc: object::DocModel,
    fdict: Seq<(Seq<u8>, ObjModel)>,
    two_byte: bool,
)
    ensures
        !is_flat(metrics_of(doc, fdict, two_byte)),
{
    number::lemma_typical_height();
}

/// The advances that a built-in face gives to the codes of an encoding.
pub open spec fn built_in_widths(enc: Map<u8, char>, face: Seq<(char, Number)>) -> Map<
    u32,
    Number,
> {
    Map::new(
        |c: u32| c < 256 && enc.dom().contains(c as u8) && advance_of(face, enc[c as u8]) is Some,
        |c: u32| advance_of(face, enc[c as u8]).unwrap(),
    )
}

/// The built-in face that stands in for a font's widths: only for a simple font
/// that declares no width at all.
pub open spec fn stand_in(
    faces: Seq<FaceModel>,
    fdict: Seq<(Seq<u8>, ObjModel)>,
    two_byte: bool,
    widths: Map<u32, Number>,
    default_width: Number,
) -> Option<Seq<(char, Number)>> {
    if !two_byte && widths == Map::<u32, Number>::empty() && number::is_zero(
        default_width,
    ) {
        match base_font(fdict) {
            Some(n) => face_named(faces, n),
            None => None,
        }
    } else {
        None
    }
}

/// What the font of a dictionary is, under a resource name.
pub open spec fn font_of(
    doc: object::DocModel,
    faces: Seq<FaceModel>,
    name: Seq<u8>,
    fdict: Seq<(Seq<u8>, ObjModel)>,
) -> FontModel {
    let two_byte = object::name_value(fdict, "Subtype".spec_bytes()) == Some(
        "Type0".spec_bytes(),
    );
    let declared = if two_byte {
        widths::composite_font_widths(doc, fdict)
    } else {
        widths::simple_font_widths(doc, fdict)
    };
    let face = stand_in(faces, fdict, two_byte, declared.0, declared.1);
    let diffs = differences(doc, fdict);
    FontModel {
        two_byte,
        to_unicode: match object::data_entry(doc, fdict, "ToUnicode".spec_bytes()) {
            Some(data) => cmap::tounicode(data),
            None => Map::empty(),
        },
        widths: match face {
            Some(f) => built_in_widths(encoding_table(doc, fdict), f),
            None => declared.0,
        },
        default_width: match face {
            Some(_) => Number::Int(500),
            None => declared.1,
        },
        simple_encoding: if two_byte {
            None
        } else {
            Some(encoding_table(doc, fdict))
        },
        fallback_names: if two_byte {
            Map::empty()
        } else {
            placeholder_names(diffs, diffs.len() as int)
        },
        program_encoding: if two_byte {
            Map::empty()
        } else {
            program_table(doc, fdict)
        },
        ascent: metrics_of(doc, fdict, two_byte).0,
        descent: metrics_of(doc, fdict, two_byte).1,
        hash: name_hash(name),
    }
}

/// Widths that a font declares win over those of a built-in face, and a font
/// that no built-in face is named for keeps what it declares.
pub proof fn law_declared_widths_win(
    doc: object::DocModel,
    faces: Seq<FaceModel>,
    name: Seq<u8>,
    fdict: Seq<(Seq<u8>, ObjModel)>,
)
    requires
        object::name_value(fdict, "Subtype".spec_bytes()) != Some("Type0".spec_bytes()),
        ({
            let (w, d) = widths::simple_font_widths(doc, fdict);
            ||| w != Map::<u32, Number>::empty()
            ||| !number::is_zero(d)
            ||| base_font(fdict) is None
            ||| face_named(faces, base_font(fdict).unwrap()) is None
        }),
    ensures
        font_of(doc, faces, name, fdict).widths == widths::simple_font_widths(doc, fdict).0,
        font_of(doc, faces, name, fdict).default_width == widths::simple_font_widths(
            doc,
            fdict,
        ).1,
{
}

/// A font that declares no width but is named for a built-in face never has a
/// code without an advance: codes that the face misses advance half an em.
pub proof fn law_built_in_faces_leave_no_zero_width(
    doc: object::DocModel,
    faces: Seq<FaceModel>,
    name: Seq<u8>,
    fdict: Seq<(Seq<u8>, ObjModel)>,
    face: Seq<(char, Number)>,
    code: u32,
)
    requires
        object::name_value(fdict, "Subtype".spec_bytes()) != Some("Type0".spec_bytes()),
        widths::simple_font_widths(doc, fdict).0 == Map::<u32, Number>::empty(),
        number::is_zero(widths::simple_font_widths(doc, fdict).1),
        base_font(fdict) is Some,
        face_named(faces, base_font(fdict).unwrap()) == Some(face),
        forall|i: int| 0 <= i < face.len() ==> !number::is_zero(#[trigger] face[i].1),
    ensures
        !number::is_zero(width_of(font_of(doc, faces, name, fdict), code)),
{
    let f = font_of(doc, faces, name, fdict);
    if f.widths.dom().contains(code) {
        lemma_advance_is_listed(face, encoding_table(doc, fdict)[code as u8]);
    }
}

/// An advance that is found is one of the list.
proof fn lemma_advance_is_listed(widths: Seq<(char, Number)>, c: char)
    ensures
        advance_of(widths, c) matches Some(n) ==> exists|i: int|
            0 <= i < widths.len() && #[trigger] widths[i].1 == n,
    decreases widths.len(),
{
    if widths.len() > 0 {
        let rest = widths.drop_first();
        lemma_advance_is_listed(rest, c);
        if widths[0].0 == c {
            assert(widths[0].1 == advance_of(widths, c).unwrap());
        } else if advance_of(rest, c) is Some {
            let k = choose|i: int|
                0 <= i < rest.len() && #[trigger] rest[i].1 == advance_of(rest, c).unwrap();
            assert(widths[k + 1].1 == rest[k].1);
        }
    }
}

/// Find the built-in face with a name.
fn find_face<'a>(faces: &'a Vec<CoreFace>, name: &[u8]) -> (r: Option<&'a CoreFace>)
    ensures
        match r {
            Some(f) => face_named(faces_model(faces@), name@) == Some(f.widths@),
            None => face_named(faces_model(faces@), name@) is None,
        },
{
    let ghost m = faces_model(faces@);
    let mut i: usize = 0;
    assert(m.skip(0) =~= m);
    while i < faces.len()
        invariant
            i <= faces@.len(),
            m == faces_model(faces@),
            face_named(m, name@) == face_named(m.skip(i as int), name@),
        decreases faces@.len() - i,
    {
        assert(m.skip(i as int)[0] == m[i as int]);
        if same_bytes(faces[i].name.as_slice(), name) {
            return Some(&faces[i]);
        }
        assert(m.skip(i as int).drop_first() =~= m.skip(i + 1));
        i += 1;
    }
    None
}

/// Find the advance of a character.
fn find_advance(widths: &Vec<(char, Number)>, c: char) -> (r: Option<Number>)
    ensures
        r == advance_of(widths@, c),
{
    let mut i: usize = 0;
    assert(widths@.skip(0) =~= widths@);
    while i < widths.len()
        invariant
            i <= widths@.len(),
            advance_of(widths@, c) == advance_of(widths@.skip(i as int), c),
        decreases widths@.len() - i,
    {
        assert(widths@.skip(i as int)[0] == widths@[i as int]);
        if widths[i].0 == c {
            return Some(widths[i].1);
        }
        assert(widths@.skip(i as int).drop_first() =~= widths@.skip(i + 1));
        i += 1;
    }
    None
}

/// The advances that a built-in face gives to the codes of an encoding.
fn face_widths(enc: &HashMap<u8, char>, face: &CoreFace) -> (m: HashMap<u32, Number>)
    ensures
        m@ == built_in_widths(enc@, face.widths@),
{
    broadcast use vstd::std_specs::hash::group_hash_axioms;

    let mut m: HashMap<u32, Number> = HashMap::new();
    let mut i: u32 = 0;
    while i < 256
        invariant
            i <= 256,
            forall|c: u32|
                #![trigger m@.dom().contains(c)]
                m@.dom().contains(c) == (c < i && built_in_widths(
                    enc@,
                    face.widths@,
                ).dom().contains(c)),
            forall|c: u32|
                #![trigger m@[c]]
                m@.dom().contains(c) ==> m@[c] == built_in_widths(enc@, face.widths@)[c],
        decreases 256 - i,
    {
        broadcast use vstd::std_specs::hash::group_hash_axioms;

        let b: u8 = i as u8;
        if let Some(c) = enc.get(&b) {
            if let Some(w) = find_advance(&face.widths, *c) {
                m.insert(i, w);
            }
        }
        i += 1;
    }
    assert(m@ =~= built_in_widths(enc@, face.widths@));
    m
}

/// Parse one font dictionary, under its resource name.
pub fn parse_font(doc: &Doc, faces: &Vec<CoreFace>, name: &[u8], fdict: &Vec<Entry>) -> (f: Font)
    ensures
        f.view() == font_of(
            doc.view(),
            faces_model(faces@),
            name@,
            object::entries_model(fdict@),
        ),
{
    broadcast use vstd::std_specs::hash::group_hash_axioms;

    let two_byte: bool = match get_name(fdict, "Subtype".as_bytes()) {
        Some(n) => same_bytes(n.as_slice(), "Type0".as_bytes()),
        None => false,
    };
    let mut to_unicode: HashMap<u32, String> = HashMap::new();
    assert(cmap::texts(to_unicode@) =~= Map::<u32, Seq<char>>::empty());
    if let Some(e) = look_up(doc, fdict, "ToUnicode".as_bytes()) {
        if let Some(data) = e.data() {
            to_unicode = parse_tounicode(data.as_slice());
        }
    }
    let (mut widths, mut default_width) = if two_byte {
        cid_widths(doc, fdict)
    } else {
        simple_widths(doc, fdict)
    };
    let (ascent, descent) = font_ascent_descent(doc, fdict, two_byte);
    let hash: u64 = hash_name(name);
    if two_byte {
        let fallback_names: HashMap<u8, String> = HashMap::new();
        assert(name_texts(fallback_names@) =~= Map::<u8, Seq<char>>::empty());
        return Font {
            two_byte,
            to_unicode,
            widths,
            default_width,
            simple_encoding: None,
            fallback_names,
            program_encoding: HashMap::new(),
            ascent,
            descent,
            hash,
        };
    }
    let encoding = simple_encoding_table(doc, fdict);
    if widths.is_empty() && default_width.zero() {
        assert(widths@ =~= Map::<u32, Number>::empty());
        if let Some(base) = base_font_name(fdict) {
            if let Some(face) = find_face(faces, base.as_slice()) {
                widths = face_widths(&encoding, face);
                default_width = Number::Int(500);
            }
        }
    }
    Font {
        two_byte,
        to_unicode,
        widths,
        default_width,
        simple_encoding: Some(encoding),
        fallback_names: differences_gid_names(doc, fdict),
        program_encoding: type1_program_encoding(doc, fdict),
        ascent,
        descent,
        hash,
    }
}

} // verus!
