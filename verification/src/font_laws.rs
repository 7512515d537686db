//! What a font makes of its dictionary: which code shows which text, and how tall and
//! wide glyphs are.

use crate::cmap;
use crate::encoding;
use crate::filters;
use crate::font::{self, FaceModel, FontModel};
use crate::names;
use crate::number::Number;
use crate::number_laws;
use crate::object::{DocModel, ObjModel};
use crate::reference_laws;
use crate::text;
use crate::width_laws;
use vstd::arithmetic::power2;
use vstd::prelude::*;
use vstd::std_specs::hash::DefaultHasherAdditionalSpecFns;
use vstd::string::StringSliceAdditionalSpecFns;

verus! {

/// A code shows its text by the map to text if it is there. Else a code of one byte
/// shows the name of a placeholder after a `/`, or else the character of the encoding,
/// or else that of the font program, or nothing; a code of two bytes shows nothing.
pub proof fn law_texts_have_an_order(f: FontModel, code: u32, b: u8, m: Map<u8, char>)
    requires
        b == code % 256,
    ensures
        f.to_unicode.dom().contains(code) ==> font::text_of(f, code) == Some(
            text::spelled_out(f.to_unicode[code]),
        ),
        !f.to_unicode.dom().contains(code) && f.two_byte ==> font::text_of(f, code) is None,
        !f.to_unicode.dom().contains(code) && !f.two_byte ==> {
            &&& f.fallback_names.dom().contains(b) ==> font::text_of(f, code) == Some(
                "/"@ + f.fallback_names[b],
            )
            &&& !f.fallback_names.dom().contains(b) && f.simple_encoding == Some(m) ==> {
                &&& m.dom().contains(b) ==> font::text_of(f, code) == Some(
                    text::spelled_out(seq![m[b]]),
                )
                &&& !m.dom().contains(b) && f.program_encoding.dom().contains(b) ==> font::text_of(
                    f,
                    code,
                ) == Some(text::spelled_out(seq![f.program_encoding[b]]))
                &&& !m.dom().contains(b) && !f.program_encoding.dom().contains(b)
                    ==> font::text_of(f, code) is None
            }
        },
{
    reveal_strlit("/");
    assert("/"@ =~= seq!['/']);
}

/// A code has its own advance, and that of the other codes if it has none.
pub proof fn law_advances_have_a_default(f: FontModel, code: u32)
    ensures
        f.widths.dom().contains(code) ==> font::width_of(f, code) == f.widths[code],
        !f.widths.dom().contains(code) ==> font::width_of(f, code) == f.default_width,
{
}

/// Names as they stand in an array.
pub open spec fn names_list(ns: Seq<Seq<u8>>) -> Seq<ObjModel> {
    Seq::new(ns.len(), |i: int| ObjModel::Name(ns[i]))
}

/// Two tables have the same at a key.
pub open spec fn same_at<K, V>(a: Map<K, V>, b: Map<K, V>, k: K) -> bool {
    a.dom().contains(k) == b.dom().contains(k) && (a.dom().contains(k) ==> a[k] == b[k])
}

/// What stands behind an element does not matter to what stands before.
proof fn lemma_differences_before(m: Map<u8, char>, a: Seq<ObjModel>, b: Seq<ObjModel>, n: int)
    requires
        n <= a.len(),
        n <= b.len(),
        forall|i: int| 0 <= i < n ==> #[trigger] a[i] == b[i],
    ensures
        font::code_at(a, n) == font::code_at(b, n),
        font::with_differences(m, a, n) == font::with_differences(m, b, n),
        font::placeholder_names(a, n) == font::placeholder_names(b, n),
    decreases n,
{
    if n > 0 {
        assert(a[n - 1] == b[n - 1]);
        lemma_differences_before(m, a, b, n - 1);
    }
}

/// The code `k` places behind `c`; 255 is followed by 0.
#[verifier::opaque]
pub open spec fn code_from(c: int, k: int) -> u8 {
    ((c + k) % 256) as u8
}

/// Codes of 256 places in a row are different, and follow each other.
proof fn lemma_codes_apart(c: int, j: int, l: int)
    requires
        0 <= j < l < 256,
    ensures
        code_from(c, j) != code_from(c, l),
{
    reveal(code_from);
    assert((c + j) % 256 != (c + l) % 256);
}

/// A place further is a code further.
proof fn lemma_code_after(c: int, l: int)
    ensures
        font::low(code_from(c, l) + 1) == code_from(c, l + 1),
{
    reveal(code_from);
    assert((((c + l) % 256) + 1) % 256 == (c + l + 1) % 256);
}

/// What a name gives to its code, over what the code had: the character it stands for,
/// or itself if it is a placeholder.
pub open spec fn named(
    glyph: Seq<u8>,
    code: u8,
    r: Map<u8, char>,
    q: Map<u8, Seq<char>>,
    r0: Map<u8, char>,
    q0: Map<u8, Seq<char>>,
) -> bool {
    match names::glyph_char(glyph) {
        Some(ch) => r.dom().contains(code) && r[code] == ch && same_at(q, q0, code),
        None => same_at(r, r0, code) && (if names::is_placeholder(glyph) {
            q.dom().contains(code) && q[code] == text::as_chars(glyph)
        } else {
            same_at(q, q0, code)
        }),
    }
}

/// A name behind an array takes the next code.
proof fn lemma_name_behind(m: Map<u8, char>, p: Seq<ObjModel>, glyph: Seq<u8>, code: u8)
    ensures
        ({
            let d = p + seq![ObjModel::Name(glyph)];
            let n = p.len() as int;
            let c = font::code_at(p, n);
            let r = font::with_differences(m, d, n + 1);
            let q = font::placeholder_names(d, n + 1);
            let r0 = font::with_differences(m, p, n);
            let q0 = font::placeholder_names(p, n);
            &&& font::code_at(d, n + 1) == font::low(c + 1)
            &&& c == code ==> named(glyph, code, r, q, r0, q0)
            &&& c != code ==> same_at(r, r0, code) && same_at(q, q0, code)
        }),
{
    let d = p + seq![ObjModel::Name(glyph)];
    let n = p.len() as int;
    lemma_differences_before(m, d, p, n);
    assert(d[n] == ObjModel::Name(glyph));
}

/// Names behind an array take codes one by one.
proof fn lemma_names_behind(
    m: Map<u8, char>,
    p: Seq<ObjModel>,
    ns: Seq<Seq<u8>>,
    c: int,
    code: u8,
    k: int,
)
    requires
        font::code_at(p, p.len() as int) == code_from(c, 0),
        ns.len() <= 256,
    ensures
        ({
            let d = p + names_list(ns);
            let n = p.len() as int;
            let r = font::with_differences(m, d, d.len() as int);
            let q = font::placeholder_names(d, d.len() as int);
            let r0 = font::with_differences(m, p, n);
            let q0 = font::placeholder_names(p, n);
            &&& font::code_at(d, d.len() as int) == code_from(c, ns.len() as int)
            &&& 0 <= k < ns.len() && code_from(c, k) == code ==> named(
                ns[k],
                code,
                r,
                q,
                r0,
                q0,
            )
            &&& (forall|j: int| 0 <= j < ns.len() ==> #[trigger] code_from(c, j) != code)
                ==> same_at(r, r0, code) && same_at(q, q0, code)
        }),
    decreases ns.len(),
{
    let d = p + names_list(ns);
    if ns.len() == 0 {
        assert(d =~= p);
    } else {
        let l = ns.len() - 1;
        let es = ns.drop_last();
        let e = p + names_list(es);
        lemma_names_behind(m, p, es, c, code, k);
        assert(d =~= e + seq![ObjModel::Name(ns[l])]);
        lemma_name_behind(m, e, ns[l], code);
        lemma_code_after(c, l);
        if 0 <= k < l && code_from(c, k) == code {
            assert(es[k] == ns[k]);
            lemma_codes_apart(c, k, l);
        }
        if k == l && code_from(c, k) == code {
            assert forall|j: int| 0 <= j < es.len() implies #[trigger] code_from(c, j) != code by {
                lemma_codes_apart(c, j, l);
            }
        }
        if forall|j: int| 0 <= j < ns.len() ==> #[trigger] code_from(c, j) != code {
            assert(code_from(c, l) != code);
        }
    }
}

/// In `/Differences`, a number and the names that follow it give the codes from this
/// number on, modulo 256, the characters of these names. A name that stands for no
/// character leaves the character of its code, and is kept itself if it is a
/// placeholder. Other codes are left alone.
pub proof fn law_differences_go_from_the_number(
    m: Map<u8, char>,
    a: Seq<ObjModel>,
    c: i64,
    ns: Seq<Seq<u8>>,
    code: u8,
    k: int,
)
    requires
        ns.len() <= 256,
    ensures
        ({
            let d = a + seq![ObjModel::Num(Number::Int(c))] + names_list(ns);
            let r = font::with_differences(m, d, d.len() as int);
            let q = font::placeholder_names(d, d.len() as int);
            let r0 = font::with_differences(m, a, a.len() as int);
            let q0 = font::placeholder_names(a, a.len() as int);
            &&& 0 <= k < ns.len() && (c + k) % 256 == code ==> named(ns[k], code, r, q, r0, q0)
            &&& (forall|j: int| 0 <= j < ns.len() ==> #[trigger] code_from(c as int, j) != code)
                ==> same_at(r, r0, code) && same_at(q, q0, code)
        }),
        font::with_differences(m, Seq::empty(), 0) == m,
        font::placeholder_names(Seq::empty(), 0) == Map::<u8, Seq<char>>::empty(),
{
    let p = a + seq![ObjModel::Num(Number::Int(c))];
    let n = a.len() as int;
    assert(p[n] == ObjModel::Num(Number::Int(c)));
    lemma_differences_before(m, p, a, n);
    assert(font::with_differences(m, p, n + 1) == font::with_differences(m, p, n));
    assert(font::placeholder_names(p, n + 1) == font::placeholder_names(p, n));
    reveal(code_from);
    assert(font::code_at(p, n + 1) == code_from(c as int, 0));
    lemma_names_behind(m, p, ns, c as int, code, k);
}

/// Names before any number give the codes from 0 on the characters of these names.
pub proof fn law_differences_go_from_zero(m: Map<u8, char>, ns: Seq<Seq<u8>>, k: int)
    requires
        0 <= k < ns.len() <= 256,
    ensures
        ({
            let r = font::with_differences(m, names_list(ns), ns.len() as int);
            match names::glyph_char(ns[k]) {
                Some(ch) => r.dom().contains(k as u8) && r[k as u8] == ch,
                None => same_at(r, m, k as u8),
            }
        }),
{
    let p = Seq::<ObjModel>::empty();
    assert(p + names_list(ns) =~= names_list(ns));
    reveal(code_from);
    lemma_names_behind(m, p, ns, 0, k as u8, k);
}

/// What is neither a whole number nor a name makes no difference.
pub proof fn law_other_elements_make_no_difference(
    m: Map<u8, char>,
    a: Seq<ObjModel>,
    o: ObjModel,
    b: Seq<ObjModel>,
)
    requires
        !(o is Name),
        !(o matches ObjModel::Num(Number::Int(_))),
    ensures
        font::with_differences(m, a + seq![o] + b, (a.len() + 1 + b.len()) as int)
            == font::with_differences(m, a + b, (a.len() + b.len()) as int),
        font::placeholder_names(a + seq![o] + b, (a.len() + 1 + b.len()) as int)
            == font::placeholder_names(a + b, (a.len() + b.len()) as int),
        font::code_at(a + seq![o] + b, (a.len() + 1 + b.len()) as int) == font::code_at(
            a + b,
            (a.len() + b.len()) as int,
        ),
    decreases b.len(),
{
    let x = a + seq![o] + b;
    let y = a + b;
    let n = x.len() as int;
    if b.len() == 0 {
        assert(y =~= a);
        assert(x[n - 1] == o);
        lemma_differences_before(m, x, a, n - 1);
    } else {
        let e = b.drop_last();
        law_other_elements_make_no_difference(m, a, o, e);
        lemma_differences_before(m, x, a + seq![o] + e, n - 1);
        lemma_differences_before(m, y, a + e, n - 2);
        assert(x[n - 1] == b.last() && y[n - 2] == b.last());
    }
}

/// A table holds what an encoding says, and nothing else.
pub open spec fn is_encoding(m: Map<u8, char>, of: spec_fn(u8) -> Option<char>) -> bool {
    forall|b: u8|
        match #[trigger] of(b) {
            Some(c) => m.dom().contains(b) && m[b] == c,
            None => !m.dom().contains(b),
        }
}

/// The encoding of a simple font starts from the base that `/Encoding` names, itself or
/// under `/BaseEncoding`, in place or behind references: MacRoman, or else WinAnsi. The
/// `/Differences` are made to this base.
pub proof fn law_encodings_have_a_base(
    doc: DocModel,
    faces: Seq<FaceModel>,
    name: Seq<u8>,
    fdict: Seq<(Seq<u8>, ObjModel)>,
    subtype: Seq<u8>,
    base: Seq<u8>,
    e: Seq<(Seq<u8>, ObjModel)>,
    diffs: Seq<ObjModel>,
) -> (m: Map<u8, char>)
    requires
        width_laws::is_simple(fdict, subtype),
        base.len() > 0,
        reference_laws::holds(doc, fdict, "Encoding".spec_bytes(), ObjModel::Name(base)) && diffs
            == Seq::<ObjModel>::empty() || reference_laws::holds(
            doc,
            fdict,
            "Encoding".spec_bytes(),
            ObjModel::Dict(e),
        ) && reference_laws::has(e, "BaseEncoding".spec_bytes(), ObjModel::Name(base))
            && reference_laws::holds(
            doc,
            e,
            "Differences".spec_bytes(),
            ObjModel::Array(diffs),
        ),
    ensures
        ({
            let f = font::font_of(doc, faces, name, fdict);
            &&& !f.two_byte
            &&& f.simple_encoding == Some(font::with_differences(m, diffs, diffs.len() as int))
            &&& f.fallback_names == font::placeholder_names(diffs, diffs.len() as int)
        }),
        base == "MacRomanEncoding".spec_bytes() ==> is_encoding(m, |b: u8| encoding::macroman(b)),
        base != "MacRomanEncoding".spec_bytes() ==> is_encoding(m, |b: u8| encoding::winansi(b)),
{
    width_laws::lemma_simple(fdict, subtype);
    reference_laws::law_entries_mean_what_they_stand_for(
        doc,
        fdict,
        "Encoding".spec_bytes(),
        ObjModel::Name(base),
    );
    reference_laws::law_entries_mean_what_they_stand_for(
        doc,
        fdict,
        "Encoding".spec_bytes(),
        ObjModel::Dict(e),
    );
    reference_laws::law_keys_are_looked_up(e, "BaseEncoding".spec_bytes(), ObjModel::Name(base));
    reference_laws::law_entries_mean_what_they_stand_for(
        doc,
        e,
        "Differences".spec_bytes(),
        ObjModel::Array(diffs),
    );
    assert(font::differences(doc, fdict) =~= diffs);
    font::base_table(doc, fdict)
}

/// A name as fonts with a subset prefix of six letters write it.
pub open spec fn prefixed(tag: Seq<u8>, n: Seq<u8>) -> Seq<u8> {
    tag + "+".spec_bytes() + n
}

/// The first `+` of a prefixed name stands behind the prefix.
proof fn lemma_prefixed(tag: Seq<u8>, n: Seq<u8>)
    requires
        tag.len() == 6,
        forall|i: int| 0 <= i < 6 ==> #[trigger] tag[i] != 0x2B,
    ensures
        crate::bytes::first_at(prefixed(tag, n), "+".spec_bytes(), 0) == Some(6int),
        prefixed(tag, n).skip(7) == n,
{
    reveal_strlit("+");
    vstd::string::is_ascii_spec_bytes("+");
    let plus = seq![0x2Bu8];
    assert("+".spec_bytes() =~= plus);
    let s = prefixed(tag, n);
    crate::bytes::lemma_first_at(s, plus, 0);
    assert(s.subrange(6, 7) =~= plus);
    assert(crate::bytes::occurs_at(s, plus, 6));
    assert forall|j: int| 0 <= j < 6 implies !crate::bytes::occurs_at(s, plus, j) by {
        assert(s.subrange(j, j + 1)[0] == tag[j]);
    }
    assert(s.skip(7) =~= n);
}

/// A prefix of six letters does not change which face a font is.
pub proof fn law_subset_prefixes_do_not_matter(
    doc: DocModel,
    faces: Seq<FaceModel>,
    name: Seq<u8>,
    a: Seq<(Seq<u8>, ObjModel)>,
    b: Seq<(Seq<u8>, ObjModel)>,
    tag: Seq<u8>,
    face: Seq<u8>,
)
    requires
        tag.len() == 6,
        forall|i: int| 0 <= i < 6 ==> #[trigger] tag[i] != 0x2B,
        forall|i: int| 0 <= i < face.len() ==> #[trigger] face[i] != 0x2B,
        reference_laws::equal_under(a, b, "Subtype".spec_bytes()),
        reference_laws::has(a, "BaseFont".spec_bytes(), ObjModel::Name(face)),
        reference_laws::has(b, "BaseFont".spec_bytes(), ObjModel::Name(prefixed(tag, face))),
        reference_laws::equal_under(a, b, "FirstChar".spec_bytes()),
        reference_laws::same_under(doc, a, b, "Widths".spec_bytes()),
        reference_laws::same_under(doc, a, b, "FontDescriptor".spec_bytes()),
        reference_laws::same_under(doc, a, b, "Encoding".spec_bytes()),
        reference_laws::same_under(doc, a, b, "DescendantFonts".spec_bytes()),
        reference_laws::same_under(doc, a, b, "ToUnicode".spec_bytes()),
    ensures
        font::font_of(doc, faces, name, a) == font::font_of(doc, faces, name, b),
{
    reference_laws::lemma_same_under(doc, a, b, "Subtype".spec_bytes());
    reference_laws::lemma_same_under(doc, a, b, "FirstChar".spec_bytes());
    reference_laws::lemma_same_under(doc, a, b, "Widths".spec_bytes());
    reference_laws::lemma_same_under(doc, a, b, "FontDescriptor".spec_bytes());
    reference_laws::lemma_same_under(doc, a, b, "Encoding".spec_bytes());
    reference_laws::lemma_same_under(doc, a, b, "DescendantFonts".spec_bytes());
    reference_laws::lemma_same_under(doc, a, b, "ToUnicode".spec_bytes());
    reference_laws::law_keys_are_looked_up(a, "BaseFont".spec_bytes(), ObjModel::Name(face));
    reference_laws::law_keys_are_looked_up(
        b,
        "BaseFont".spec_bytes(),
        ObjModel::Name(prefixed(tag, face)),
    );
    lemma_prefixed(tag, face);
    lemma_no_plus(face);
}

/// A name without a `+` has none.
proof fn lemma_no_plus(n: Seq<u8>)
    requires
        forall|i: int| 0 <= i < n.len() ==> #[trigger] n[i] != 0x2B,
    ensures
        crate::bytes::first_at(n, "+".spec_bytes(), 0) is None,
{
    reveal_strlit("+");
    vstd::string::is_ascii_spec_bytes("+");
    let plus = seq![0x2Bu8];
    assert("+".spec_bytes() =~= plus);
    crate::bytes::lemma_first_at(n, plus, 0);
    if let Some(k) = crate::bytes::first_at(n, plus, 0) {
        assert(n.subrange(k, k + 1)[0] == n[k]);
    }
}

/// Two bytes are the same letter in upper or lower case, or the same byte.
pub open spec fn same_letter(a: u8, b: u8) -> bool {
    ||| a == b
    ||| 0x41 <= a <= 0x5A && b == a + 0x20
    ||| 0x41 <= b <= 0x5A && a == b + 0x20
}

/// A name begins with some letters, in upper or lower case.
pub open spec fn begins_with(n: Seq<u8>, letters: Seq<u8>) -> bool {
    n.len() >= letters.len() && forall|i: int|
        0 <= i < letters.len() ==> same_letter(#[trigger] n[i], letters[i])
}

/// Letters in upper case.
proof fn lemma_begins(n: Seq<u8>, letters: Seq<u8>)
    requires
        forall|i: int| 0 <= i < letters.len() ==> 0x41 <= #[trigger] letters[i] <= 0x5A,
    ensures
        crate::bytes::occurs_at(font::uppercase(n), letters, 0) <==> begins_with(n, letters),
{
    let u = font::uppercase(n);
    if n.len() >= letters.len() {
        let w = u.subrange(0, letters.len() as int);
        if begins_with(n, letters) {
            assert forall|i: int| 0 <= i < letters.len() implies w[i] == letters[i] by {
                assert(same_letter(n[i], letters[i]));
                assert(w[i] == font::upper(n[i]));
            }
            assert(w =~= letters);
        }
        if w == letters {
            assert forall|i: int| 0 <= i < letters.len() implies same_letter(
                #[trigger] n[i],
                letters[i],
            ) by {
                assert(w[i] == font::upper(n[i]));
            }
        }
    }
}

/// The layout that a name asks for.
proof fn lemma_tex_layout(fdict: Seq<(Seq<u8>, ObjModel)>, face: Seq<u8>)
    requires
        reference_laws::has(fdict, "BaseFont".spec_bytes(), ObjModel::Name(face)),
        forall|i: int| 0 <= i < face.len() ==> #[trigger] face[i] != 0x2B,
    ensures
        begins_with(face, "CMMI".spec_bytes()) ==> font::tex_layout(fdict) == Some(encoding::CMMI),
        begins_with(face, "CMSY".spec_bytes()) || begins_with(face, "CMBSY".spec_bytes())
            ==> font::tex_layout(fdict) == Some(encoding::CMSY),
        !begins_with(face, "CMMI".spec_bytes()) && !begins_with(face, "CMSY".spec_bytes())
            && !begins_with(face, "CMBSY".spec_bytes()) ==> font::tex_layout(fdict) is None,
{
    reveal_strlit("CMMI");
    reveal_strlit("CMSY");
    reveal_strlit("CMBSY");
    vstd::string::is_ascii_spec_bytes("CMMI");
    vstd::string::is_ascii_spec_bytes("CMSY");
    vstd::string::is_ascii_spec_bytes("CMBSY");
    reference_laws::law_keys_are_looked_up(fdict, "BaseFont".spec_bytes(), ObjModel::Name(face));
    lemma_no_plus(face);
    lemma_begins(face, "CMMI".spec_bytes());
    lemma_begins(face, "CMSY".spec_bytes());
    lemma_begins(face, "CMBSY".spec_bytes());
    let mi = "CMMI".spec_bytes();
    let sy = "CMSY".spec_bytes();
    let bsy = "CMBSY".spec_bytes();
    assert(mi[2] == 0x4D && sy[2] == 0x53 && bsy[2] == 0x42);
    if begins_with(face, mi) {
        assert(same_letter(face[2], mi[2]));
        if begins_with(face, sy) {
            assert(same_letter(face[2], sy[2]));
        }
        if begins_with(face, bsy) {
            assert(same_letter(face[2], bsy[2]));
        }
    }
}

/// A font that names no encoding has the layout of the TeX math fonts if it is one of
/// them by its name: math italic (`CMMI`), or symbols (`CMSY`, `CMBSY`), in any case.
/// Else it has WinAnsi.
pub proof fn law_tex_fonts_have_their_layout(
    doc: DocModel,
    faces: Seq<FaceModel>,
    name: Seq<u8>,
    fdict: Seq<(Seq<u8>, ObjModel)>,
    subtype: Seq<u8>,
    face: Seq<u8>,
    code: u8,
)
    requires
        width_laws::is_simple(fdict, subtype),
        reference_laws::lacks(fdict, "Encoding".spec_bytes()),
        reference_laws::has(fdict, "BaseFont".spec_bytes(), ObjModel::Name(face)),
        forall|i: int| 0 <= i < face.len() ==> #[trigger] face[i] != 0x2B,
    ensures
        ({
            let f = font::font_of(doc, faces, name, fdict);
            &&& f.simple_encoding is Some
            &&& f.fallback_names == Map::<u8, Seq<char>>::empty()
            &&& begins_with(face, "CMMI".spec_bytes()) ==> (f.simple_encoding->0.dom().contains(code)
                <==> code < 128) && (code < 128 ==> f.simple_encoding->0[code]
                == encoding::CMMI[code as int])
            &&& begins_with(face, "CMSY".spec_bytes()) || begins_with(face, "CMBSY".spec_bytes())
                ==> (f.simple_encoding->0.dom().contains(code) <==> code < 128) && (code < 128
                ==> f.simple_encoding->0[code] == encoding::CMSY[code as int])
            &&& !begins_with(face, "CMMI".spec_bytes()) && !begins_with(face, "CMSY".spec_bytes())
                && !begins_with(face, "CMBSY".spec_bytes()) ==> is_encoding(
                f.simple_encoding->0,
                |b: u8| encoding::winansi(b),
            )
        }),
{
    width_laws::lemma_simple(fdict, subtype);
    reference_laws::law_entries_mean_what_they_stand_for(
        doc,
        fdict,
        "Encoding".spec_bytes(),
        ObjModel::Other,
    );
    lemma_tex_layout(fdict, face);
    reveal_strlit("MacRomanEncoding");
    vstd::string::is_ascii_spec_bytes("MacRomanEncoding");
    assert(font::base_encoding(doc, fdict).len() == 0);
    assert(font::differences(doc, fdict).len() == 0);
}

/// The map to text of a font is the one in its `/ToUnicode` stream, in place or behind
/// references, and empty without one.
pub proof fn law_fonts_have_the_map_of_their_stream(
    doc: DocModel,
    faces: Seq<FaceModel>,
    name: Seq<u8>,
    fdict: Seq<(Seq<u8>, ObjModel)>,
    d: Seq<(Seq<u8>, ObjModel)>,
    raw: Seq<u8>,
    data: Seq<u8>,
)
    ensures
        reference_laws::holds(doc, fdict, "ToUnicode".spec_bytes(), ObjModel::Stream(d, raw))
            && filters::decoded(d, raw) == Some(data) ==> font::font_of(
            doc,
            faces,
            name,
            fdict,
        ).to_unicode == cmap::tounicode(data),
        reference_laws::lacks(fdict, "ToUnicode".spec_bytes()) ==> font::font_of(
            doc,
            faces,
            name,
            fdict,
        ).to_unicode == Map::<u32, Seq<char>>::empty(),
{
    reference_laws::law_entries_mean_what_they_stand_for(
        doc,
        fdict,
        "ToUnicode".spec_bytes(),
        ObjModel::Stream(d, raw),
    );
}

/// Only a font of the subtype Type0 has codes of two bytes, and it has no encoding of
/// single bytes.
pub proof fn law_only_composite_fonts_have_pairs(
    doc: DocModel,
    faces: Seq<FaceModel>,
    name: Seq<u8>,
    fdict: Seq<(Seq<u8>, ObjModel)>,
    subtype: Seq<u8>,
)
    ensures
        reference_laws::has(
            fdict,
            "Subtype".spec_bytes(),
            ObjModel::Name("Type0".spec_bytes()),
        ) ==> {
            let f = font::font_of(doc, faces, name, fdict);
            &&& f.two_byte
            &&& f.simple_encoding is None
            &&& f.fallback_names == Map::<u8, Seq<char>>::empty()
            &&& f.program_encoding == Map::<u8, char>::empty()
        },
        width_laws::is_simple(fdict, subtype) ==> !font::font_of(
            doc,
            faces,
            name,
            fdict,
        ).two_byte,
{
    reference_laws::law_keys_are_looked_up(
        fdict,
        "Subtype".spec_bytes(),
        ObjModel::Name("Type0".spec_bytes()),
    );
    if width_laws::is_simple(fdict, subtype) {
        width_laws::lemma_simple(fdict, subtype);
    }
}

/// The dictionary with the descriptor of a font: the font itself, or the first of the
/// descendants of a composite font.
pub open spec fn describes(
    doc: DocModel,
    fdict: Seq<(Seq<u8>, ObjModel)>,
    subtype: Seq<u8>,
    owner: Seq<(Seq<u8>, ObjModel)>,
    fonts: Seq<ObjModel>,
) -> bool {
    ||| width_laws::is_simple(fdict, subtype) && owner == fdict
    ||| reference_laws::has(
        fdict,
        "Subtype".spec_bytes(),
        ObjModel::Name("Type0".spec_bytes()),
    ) && reference_laws::holds(
        doc,
        fdict,
        "DescendantFonts".spec_bytes(),
        ObjModel::Array(fonts),
    ) && fonts.len() > 0 && reference_laws::stands_for(doc, fonts[0], ObjModel::Dict(owner))
}

/// Whether a box of whole numbers is flat.
proof fn lemma_flat(a: i64, d: i64)
    requires
        -0x100_0000 < a < 0x100_0000,
        -0x100_0000 < d < 0x100_0000,
    ensures
        font::is_flat((Number::Int(a), Number::Int(d))) <==> a - d <= 1,
{
    number_laws::law_small_integers_keep_their_value(a);
    number_laws::law_small_integers_keep_their_value(d);
    power2::lemma_pow2_strictly_increases(96, 149);
    power2::lemma_pow2_pos(96);
    let u = power2::pow2(149) as int;
    let v = power2::pow2(96) as int;
    assert(a * u - d * u == (a - d) * u) by (nonlinear_arith);
    if a - d <= 1 {
        assert((a - d) * u <= u) by (nonlinear_arith)
            requires
                a - d <= 1,
                u > 0,
        ;
    } else {
        assert((a - d) * u >= 2 * u) by (nonlinear_arith)
            requires
                a - d >= 2,
                u > 0,
        ;
    }
}

/// A font is as tall as its descriptor says, in place or behind references; for a
/// composite font this is the descriptor of its descendant. Without a descriptor, and
/// where the box would not be higher than a unit, the font goes from 250 below the line
/// to 750 above it. What a descriptor does not say is 750 or -250.
pub proof fn law_fonts_are_as_tall_as_described(
    doc: DocModel,
    faces: Seq<FaceModel>,
    name: Seq<u8>,
    fdict: Seq<(Seq<u8>, ObjModel)>,
    subtype: Seq<u8>,
    owner: Seq<(Seq<u8>, ObjModel)>,
    fonts: Seq<ObjModel>,
    d: Seq<(Seq<u8>, ObjModel)>,
    asc: i64,
    desc: i64,
)
    requires
        describes(doc, fdict, subtype, owner, fonts),
        -0x100_0000 < asc < 0x100_0000,
        -0x100_0000 < desc < 0x100_0000,
        reference_laws::lacks(owner, "FontDescriptor".spec_bytes()) && asc == 750 && desc == -250
            || reference_laws::holds(
            doc,
            owner,
            "FontDescriptor".spec_bytes(),
            ObjModel::Dict(d),
        ) && (reference_laws::has(d, "Ascent".spec_bytes(), ObjModel::Num(Number::Int(asc)))
            || reference_laws::lacks(d, "Ascent".spec_bytes()) && asc == 750) && (
        reference_laws::has(d, "Descent".spec_bytes(), ObjModel::Num(Number::Int(desc)))
            || reference_laws::lacks(d, "Descent".spec_bytes()) && desc == -250),
    ensures
        ({
            let f = font::font_of(doc, faces, name, fdict);
            &&& asc - desc > 1 ==> f.ascent == Number::Int(asc) && f.descent == Number::Int(desc)
            &&& asc - desc <= 1 ==> f.ascent == Number::Int(750) && f.descent == Number::Int(
                (-250) as i64,
            )
        }),
{
    lemma_flat(asc, desc);
    if width_laws::is_simple(fdict, subtype) {
        width_laws::lemma_simple(fdict, subtype);
    }
    reference_laws::law_keys_are_looked_up(
        fdict,
        "Subtype".spec_bytes(),
        ObjModel::Name("Type0".spec_bytes()),
    );
    reference_laws::law_entries_mean_what_they_stand_for(
        doc,
        fdict,
        "DescendantFonts".spec_bytes(),
        ObjModel::Array(fonts),
    );
    if fonts.len() > 0 {
        reference_laws::law_references_are_followed(doc, fonts[0], ObjModel::Dict(owner));
    }
    reference_laws::law_entries_mean_what_they_stand_for(
        doc,
        owner,
        "FontDescriptor".spec_bytes(),
        ObjModel::Dict(d),
    );
    reference_laws::law_keys_are_looked_up(
        d,
        "Ascent".spec_bytes(),
        ObjModel::Num(Number::Int(asc)),
    );
    reference_laws::law_keys_are_looked_up(
        d,
        "Descent".spec_bytes(),
        ObjModel::Num(Number::Int(desc)),
    );
}

/// The first face under a name.
pub open spec fn first_face(faces: Seq<FaceModel>, i: int) -> bool {
    0 <= i < faces.len() && forall|j: int| 0 <= j < i ==> (#[trigger] faces[j]).name
        != faces[i].name
}

/// The first face under a name is found.
proof fn lemma_first_face(faces: Seq<FaceModel>, i: int)
    requires
        first_face(faces, i),
    ensures
        font::face_named(faces, faces[i].name) == Some(faces[i].widths),
    decreases i,
{
    if i > 0 {
        assert(faces[0].name != faces[i].name);
        let rest = faces.drop_first();
        assert(rest[i - 1] == faces[i]);
        assert forall|j: int| 0 <= j < i - 1 implies (#[trigger] rest[j]).name
            != rest[i - 1].name by {
            assert(rest[j] == faces[j + 1]);
        }
        lemma_first_face(rest, i - 1);
    }
}

/// The first advance of a character is found.
proof fn lemma_first_advance(w: Seq<(char, Number)>, k: int)
    requires
        0 <= k < w.len(),
        forall|j: int| 0 <= j < k ==> (#[trigger] w[j]).0 != w[k].0,
    ensures
        font::advance_of(w, w[k].0) == Some(w[k].1),
    decreases k,
{
    if k > 0 {
        assert(w[0].0 != w[k].0);
        let rest = w.drop_first();
        assert(rest[k - 1] == w[k]);
        assert forall|j: int| 0 <= j < k - 1 implies (#[trigger] rest[j]).0 != rest[k - 1].0 by {
            assert(rest[j] == w[j + 1]);
        }
        lemma_first_advance(rest, k - 1);
    }
}

/// A character that is not listed has no advance.
proof fn lemma_no_advance(w: Seq<(char, Number)>, c: char)
    requires
        forall|j: int| 0 <= j < w.len() ==> (#[trigger] w[j]).0 != c,
    ensures
        font::advance_of(w, c) is None,
    decreases w.len(),
{
    if w.len() > 0 {
        assert(w[0].0 != c);
        assert forall|j: int| 0 <= j < w.drop_first().len() implies (#[trigger] w.drop_first()[j]).0
            != c by {
            assert(w.drop_first()[j] == w[j + 1]);
        }
        lemma_no_advance(w.drop_first(), c);
    }
}

/// A simple font that says nothing of widths and is named for a built-in face has the
/// advances of this face: each code that of its character in the font's encoding, and
/// half an em where the face does not list the character.
pub proof fn law_built_in_faces_stand_in(
    doc: DocModel,
    faces: Seq<FaceModel>,
    name: Seq<u8>,
    fdict: Seq<(Seq<u8>, ObjModel)>,
    subtype: Seq<u8>,
    i: int,
    code: u32,
    k: int,
)
    requires
        width_laws::is_simple(fdict, subtype),
        reference_laws::lacks(fdict, "Widths".spec_bytes()),
        reference_laws::lacks(fdict, "FontDescriptor".spec_bytes()),
        first_face(faces, i),
        forall|j: int| 0 <= j < faces[i].name.len() ==> #[trigger] faces[i].name[j] != 0x2B,
        reference_laws::has(fdict, "BaseFont".spec_bytes(), ObjModel::Name(faces[i].name)),
    ensures
        ({
            let f = font::font_of(doc, faces, name, fdict);
            let w = faces[i].widths;
            &&& f.simple_encoding is Some
            &&& ({
                let e = f.simple_encoding->0;
                &&& code < 256 && e.dom().contains(code as u8) && 0 <= k < w.len() && w[k].0
                    == e[code as u8] && (forall|j: int| 0 <= j < k ==> (#[trigger] w[j]).0
                    != w[k].0) ==> font::width_of(f, code) == w[k].1
                &&& code >= 256 || !e.dom().contains(code as u8) || (forall|j: int|
                    0 <= j < w.len() ==> (#[trigger] w[j]).0 != e[code as u8]) ==> font::width_of(
                    f,
                    code,
                ) == Number::Int(500)
            })
        }),
{
    width_laws::lemma_simple(fdict, subtype);
    reference_laws::law_entries_mean_what_they_stand_for(
        doc,
        fdict,
        "Widths".spec_bytes(),
        ObjModel::Other,
    );
    reference_laws::law_entries_mean_what_they_stand_for(
        doc,
        fdict,
        "FontDescriptor".spec_bytes(),
        ObjModel::Other,
    );
    reference_laws::law_keys_are_looked_up(
        fdict,
        "BaseFont".spec_bytes(),
        ObjModel::Name(faces[i].name),
    );
    lemma_no_plus(faces[i].name);
    lemma_first_face(faces, i);
    let f = font::font_of(doc, faces, name, fdict);
    let w = faces[i].widths;
    let e = f.simple_encoding->0;
    assert(crate::widths::simple_font_widths(doc, fdict).0 =~= Map::<u32, Number>::empty());
    if code < 256 && e.dom().contains(code as u8) {
        if 0 <= k < w.len() && w[k].0 == e[code as u8] && (forall|j: int|
            0 <= j < k ==> (#[trigger] w[j]).0 != w[k].0) {
            lemma_first_advance(w, k);
        }
        if forall|j: int| 0 <= j < w.len() ==> (#[trigger] w[j]).0 != e[code as u8] {
            lemma_no_advance(w, e[code as u8]);
        }
    }
}

/// Words of an encoding vector for a code.
pub open spec fn is_entry(w: Seq<Seq<char>>, i: int, code: nat, glyph: Seq<char>) -> bool {
    0 <= i < w.len() - 3 && w[i] == "dup"@ && text::unsigned_value(w[i + 1]) == Some(code) && w[i
        + 2] == "/"@ + glyph && w[i + 3] == "put"@
}

/// The last entry for a code counts.
proof fn lemma_vector(w: Seq<Seq<char>>, n: int, i: int, code: u8, glyph: Seq<char>, c: char)
    requires
        i < n <= w.len() - 3,
        is_entry(w, i, code as nat, glyph),
        names::glyph_char(vstd::utf8::encode_utf8(glyph)) == Some(c),
        forall|j: int|
            i < j < n && #[trigger] w[j] == "dup"@ ==> text::unsigned_value(w[j + 1]) != Some(
                code as nat,
            ),
    ensures
        font::vector_table(w, n).dom().contains(code),
        font::vector_table(w, n)[code] == c,
    decreases n,
{
    reveal_strlit("/");
    if i == n - 1 {
        assert(w[i + 2].drop_first() =~= glyph);
        assert(w[i + 2][0] == '/');
    } else {
        lemma_vector(w, n - 1, i, code, glyph, c);
        assert(w[n - 1] == "dup"@ ==> text::unsigned_value(w[n]) != Some(code as nat));
    }
}

/// In the encoding vector of a font program, the words `dup <code> /<glyph> put` give a
/// code up to 255 the character of the glyph; of several the last counts.
pub proof fn law_program_vectors_name_codes(
    w: Seq<Seq<char>>,
    i: int,
    code: u8,
    glyph: Seq<char>,
    c: char,
)
    requires
        is_entry(w, i, code as nat, glyph),
        names::glyph_char(vstd::utf8::encode_utf8(glyph)) == Some(c),
        forall|j: int|
            i < j < w.len() - 3 && #[trigger] w[j] == "dup"@ ==> text::unsigned_value(w[j + 1])
                != Some(code as nat),
    ensures
        font::program_words_table(w).dom().contains(code),
        font::program_words_table(w)[code] == c,
{
    lemma_vector(w, w.len() - 3, i, code, glyph, c);
}

/// A code that no entry is for has no character in the vector.
pub proof fn law_program_vectors_name_no_other_codes(w: Seq<Seq<char>>, n: int, code: u8)
    requires
        n <= w.len() - 3,
        forall|j: int|
            0 <= j < n && #[trigger] w[j] == "dup"@ ==> text::unsigned_value(w[j + 1]) != Some(
                code as nat,
            ),
    ensures
        !font::vector_table(w, n).dom().contains(code),
    decreases n,
{
    if n > 0 {
        law_program_vectors_name_no_other_codes(w, n - 1, code);
        assert(w[n - 1] == "dup"@ ==> text::unsigned_value(w[n]) != Some(code as nat));
    }
}

/// What stands before the first mark.
proof fn lemma_clear(clear: Seq<u8>, secret: Seq<u8>)
    requires
        forall|i: int| 0 <= i < clear.len() ==> #[trigger] clear[i] != 0x65,
    ensures
        font::clear_text(clear + "eexec".spec_bytes() + secret) == clear,
{
    reveal_strlit("eexec");
    vstd::string::is_ascii_spec_bytes("eexec");
    let mark = "eexec".spec_bytes();
    let data = clear + mark + secret;
    let n = clear.len() as int;
    crate::bytes::lemma_first_at(data, mark, 0);
    assert(data.subrange(n, n + 5) =~= mark);
    assert(crate::bytes::occurs_at(data, mark, n));
    assert forall|j: int| 0 <= j < n implies !crate::bytes::occurs_at(data, mark, j) by {
        if j + 5 <= data.len() {
            assert(data.subrange(j, j + 5)[0] == clear[j]);
            assert(mark[0] == 0x65);
        }
    }
    assert(data.take(n) =~= clear);
}

/// The program of a font stands in the `/FontFile` of its descriptor, and its vector in
/// what stands before `eexec`.
pub proof fn law_programs_are_read_up_to_eexec(
    doc: DocModel,
    faces: Seq<FaceModel>,
    name: Seq<u8>,
    fdict: Seq<(Seq<u8>, ObjModel)>,
    subtype: Seq<u8>,
    d: Seq<(Seq<u8>, ObjModel)>,
    sd: Seq<(Seq<u8>, ObjModel)>,
    raw: Seq<u8>,
    clear: Seq<u8>,
    secret: Seq<u8>,
)
    requires
        width_laws::is_simple(fdict, subtype),
        reference_laws::holds(doc, fdict, "FontDescriptor".spec_bytes(), ObjModel::Dict(d)),
        reference_laws::holds(doc, d, "FontFile".spec_bytes(), ObjModel::Stream(sd, raw)),
        filters::decoded(sd, raw) == Some(clear + "eexec".spec_bytes() + secret),
        forall|i: int| 0 <= i < clear.len() ==> #[trigger] clear[i] != 0x65,
    ensures
        font::font_of(doc, faces, name, fdict).program_encoding == font::program_words_table(
            text::words(text::utf8_lossy(clear)),
        ),
{
    width_laws::lemma_simple(fdict, subtype);
    reference_laws::law_entries_mean_what_they_stand_for(
        doc,
        fdict,
        "FontDescriptor".spec_bytes(),
        ObjModel::Dict(d),
    );
    reference_laws::law_entries_mean_what_they_stand_for(
        doc,
        d,
        "FontFile".spec_bytes(),
        ObjModel::Stream(sd, raw),
    );
    lemma_clear(clear, secret);
}

/// The value of bytes, the lowest first.
pub open spec fn little_endian(b: Seq<u8>) -> nat
    decreases b.len(),
{
    if b.len() == 0 {
        0
    } else {
        b[0] as nat + 256 * little_endian(b.drop_first())
    }
}

proof fn lemma_low_bytes(n: nat, k: nat)
    ensures
        font::low_bytes(n, k).len() == k,
        n < power2::pow2(8 * k) ==> little_endian(font::low_bytes(n, k)) == n,
    decreases k,
{
    let b = font::low_bytes(n, k);
    if k == 0 {
        power2::lemma2_to64();
    } else {
        let j = (k - 1) as nat;
        lemma_low_bytes(n / 256, j);
        assert(b.drop_first() =~= font::low_bytes(n / 256, j));
        assert(b[0] == n % 256);
        power2::lemma2_to64();
        power2::lemma_pow2_adds(8, 8 * j);
        let p = power2::pow2(8 * j);
        assert(power2::pow2(8 * k) == 256 * p);
        if n < 256 * p {
            assert(n / 256 < p);
        }
        assert(n == n % 256 + 256 * (n / 256));
    }
}

/// The number of a font is the hash of its resource name, with the length of the name in
/// eight bytes before it; nothing else goes into it.
pub proof fn law_fonts_are_numbered_by_their_name(
    doc: DocModel,
    faces: Seq<FaceModel>,
    name: Seq<u8>,
    fdict: Seq<(Seq<u8>, ObjModel)>,
) -> (length: Seq<u8>)
    requires
        name.len() < 0x1_0000_0000,
    ensures
        length.len() == 8,
        little_endian(length) == name.len(),
        font::font_of(doc, faces, name, fdict).hash == std::collections::hash_map::DefaultHasher::spec_finish(
            seq![length, name],
        ),
{
    power2::lemma2_to64();
    power2::lemma2_to64_rest();
    lemma_low_bytes(name.len(), 8);
    font::low_bytes(name.len(), 8)
}

/// An encoding that names no base starts from WinAnsi, for a font that is none of the TeX
/// math fonts, and has the `/Differences` made to it, if there are any.
pub proof fn law_encodings_without_a_base_start_from_winansi(
    doc: DocModel,
    faces: Seq<FaceModel>,
    name: Seq<u8>,
    fdict: Seq<(Seq<u8>, ObjModel)>,
    subtype: Seq<u8>,
    face: Seq<u8>,
    e: Seq<(Seq<u8>, ObjModel)>,
    diffs: Seq<ObjModel>,
) -> (m: Map<u8, char>)
    requires
        width_laws::is_simple(fdict, subtype),
        reference_laws::has(fdict, "BaseFont".spec_bytes(), ObjModel::Name(face)),
        forall|i: int| 0 <= i < face.len() ==> #[trigger] face[i] != 0x2B,
        !begins_with(face, "CMMI".spec_bytes()),
        !begins_with(face, "CMSY".spec_bytes()),
        !begins_with(face, "CMBSY".spec_bytes()),
        reference_laws::holds(doc, fdict, "Encoding".spec_bytes(), ObjModel::Dict(e)),
        reference_laws::lacks(e, "BaseEncoding".spec_bytes()),
        reference_laws::holds(doc, e, "Differences".spec_bytes(), ObjModel::Array(diffs))
            || reference_laws::lacks(e, "Differences".spec_bytes()) && diffs.len() == 0,
    ensures
        ({
            let f = font::font_of(doc, faces, name, fdict);
            &&& f.simple_encoding == Some(font::with_differences(m, diffs, diffs.len() as int))
            &&& f.fallback_names == font::placeholder_names(diffs, diffs.len() as int)
        }),
        is_encoding(m, |b: u8| encoding::winansi(b)),
{
    reveal_strlit("MacRomanEncoding");
    vstd::string::is_ascii_spec_bytes("MacRomanEncoding");
    width_laws::lemma_simple(fdict, subtype);
    lemma_tex_layout(fdict, face);
    reference_laws::law_entries_mean_what_they_stand_for(
        doc,
        fdict,
        "Encoding".spec_bytes(),
        ObjModel::Dict(e),
    );
    reference_laws::law_keys_are_looked_up(e, "BaseEncoding".spec_bytes(), ObjModel::Other);
    reference_laws::law_entries_mean_what_they_stand_for(
        doc,
        e,
        "Differences".spec_bytes(),
        ObjModel::Array(diffs),
    );
    assert(font::differences(doc, fdict) =~= diffs);
    assert(font::base_encoding(doc, fdict).len() == 0);
    font::base_table(doc, fdict)
}

/// Only a prefix of six bytes is one: with any other number of them before the first `+`
/// the name is taken whole.
pub proof fn law_other_prefixes_belong_to_the_name(
    fdict: Seq<(Seq<u8>, ObjModel)>,
    tag: Seq<u8>,
    face: Seq<u8>,
)
    requires
        reference_laws::has(fdict, "BaseFont".spec_bytes(), ObjModel::Name(prefixed(tag, face))),
        forall|i: int| 0 <= i < tag.len() ==> #[trigger] tag[i] != 0x2B,
    ensures
        tag.len() != 6 ==> font::base_font(fdict) == Some(prefixed(tag, face)),
        tag.len() == 6 ==> font::base_font(fdict) == Some(face),
{
    reference_laws::law_keys_are_looked_up(
        fdict,
        "BaseFont".spec_bytes(),
        ObjModel::Name(prefixed(tag, face)),
    );
    reveal_strlit("+");
    vstd::string::is_ascii_spec_bytes("+");
    let plus = seq![0x2Bu8];
    assert("+".spec_bytes() =~= plus);
    let s = prefixed(tag, face);
    crate::bytes::lemma_first_at(s, plus, 0);
    let n = tag.len() as int;
    assert(s.subrange(n, n + 1) =~= plus);
    assert(crate::bytes::occurs_at(s, plus, n));
    assert forall|j: int| 0 <= j < n implies !crate::bytes::occurs_at(s, plus, j) by {
        assert(s.subrange(j, j + 1)[0] == tag[j]);
    }
    if n == 6 {
        assert(s.skip(7) =~= face);
    }
}

} // verus!
