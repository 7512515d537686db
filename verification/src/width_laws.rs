//! Which code has which advance.

use crate::font::{self, FaceModel};
use crate::number::Number;
use crate::object::{self, DocModel, ObjModel};
use crate::reference_laws;
use crate::widths;
use vstd::prelude::*;
use vstd::string::StringSliceAdditionalSpecFns;

verus! {

/// The width that a list gives to a code, if its first is for the code `first`.
pub open spec fn listed(first: int, list: Seq<ObjModel>, code: u32) -> Option<Number> {
    if first <= code < first + list.len() && list[code - first] is Num {
        Some(list[code - first]->Num_0)
    } else {
        None
    }
}

/// A list gives its widths one by one, and leaves other codes alone.
proof fn lemma_with_list(
    m: Map<u32, Number>,
    first: u32,
    list: Seq<ObjModel>,
    n: int,
    code: u32,
)
    requires
        0 <= n <= list.len(),
        first + list.len() <= 0x1_0000_0000,
    ensures
        ({
            let r = widths::with_list(m, first, list, n);
            match listed(first as int, list.take(n), code) {
                Some(w) => r.dom().contains(code) && r[code] == w,
                None => r.dom().contains(code) == m.dom().contains(code) && (m.dom().contains(code)
                    ==> r[code] == m[code]),
            }
        }),
    decreases n,
{
    if n > 0 {
        lemma_with_list(m, first, list, n - 1, code);
        assert(list.take(n).drop_last() =~= list.take(n - 1));
        assert(list.take(n)[n - 1] == list[n - 1]);
        assert(widths::wrapped(first + n - 1) == first + n - 1) by {
            assert((first + n - 1) % 0x1_0000_0000 == first + n - 1) by (nonlinear_arith)
                requires
                    0 <= first + n - 1 < 0x1_0000_0000,
            ;
        }
        if first <= code < first + n - 1 {
            assert(list.take(n)[code - first] == list.take(n - 1)[code - first]);
        }
    }
}

/// A font is not composite: its subtype is another, or it has none.
pub open spec fn is_simple(fdict: Seq<(Seq<u8>, ObjModel)>, subtype: Seq<u8>) -> bool {
    ||| reference_laws::lacks(fdict, "Subtype".spec_bytes())
    ||| subtype != "Type0".spec_bytes() && reference_laws::has(
        fdict,
        "Subtype".spec_bytes(),
        ObjModel::Name(subtype),
    )
}

/// A simple font is simple.
pub proof fn lemma_simple(fdict: Seq<(Seq<u8>, ObjModel)>, subtype: Seq<u8>)
    requires
        is_simple(fdict, subtype),
    ensures
        object::name_value(fdict, "Subtype".spec_bytes()) != Some("Type0".spec_bytes()),
{
    reference_laws::law_keys_are_looked_up(
        fdict,
        "Subtype".spec_bytes(),
        ObjModel::Name(subtype),
    );
}

/// In a simple font the code `FirstChar + k` has the width of element `k` of the
/// `/Widths` array, in place or behind references, for every element that is a number.
pub proof fn law_widths_go_from_the_first_code(
    doc: DocModel,
    faces: Seq<FaceModel>,
    name: Seq<u8>,
    fdict: Seq<(Seq<u8>, ObjModel)>,
    subtype: Seq<u8>,
    first: i64,
    a: Seq<ObjModel>,
    k: int,
    w: Number,
)
    requires
        is_simple(fdict, subtype),
        reference_laws::has(fdict, "FirstChar".spec_bytes(), ObjModel::Num(Number::Int(first))) || (
        first == 0 && reference_laws::lacks(fdict, "FirstChar".spec_bytes())),
        0 <= first,
        first + a.len() <= 0x1_0000_0000,
        reference_laws::holds(doc, fdict, "Widths".spec_bytes(), ObjModel::Array(a)),
        0 <= k < a.len(),
        a[k] == ObjModel::Num(w),
    ensures
        font::width_of(font::font_of(doc, faces, name, fdict), (first + k) as u32) == w,
{
    lemma_simple(fdict, subtype);
    lemma_first(fdict, first);
    reference_laws::law_entries_mean_what_they_stand_for(
        doc,
        fdict,
        "Widths".spec_bytes(),
        ObjModel::Array(a),
    );
    lemma_with_list(Map::empty(), first as u32, a, a.len() as int, (first + k) as u32);
    assert(a.take(a.len() as int) =~= a);
    let r = widths::simple_font_widths(doc, fdict).0;
    assert(r.dom().contains((first + k) as u32));
    assert(r != Map::<u32, Number>::empty());
}

/// The first code of a font.
proof fn lemma_first(fdict: Seq<(Seq<u8>, ObjModel)>, first: i64)
    requires
        reference_laws::has(fdict, "FirstChar".spec_bytes(), ObjModel::Num(Number::Int(first))) || (
        first == 0 && reference_laws::lacks(fdict, "FirstChar".spec_bytes())),
        0 <= first <= 0x1_0000_0000,
    ensures
        first < 0x1_0000_0000 ==> (match object::int_value(fdict, "FirstChar".spec_bytes()) {
            Some(i) => widths::wrapped(i as int),
            None => 0,
        }) == first,
{
    reference_laws::law_keys_are_looked_up(
        fdict,
        "FirstChar".spec_bytes(),
        ObjModel::Num(Number::Int(first)),
    );
    if first < 0x1_0000_0000 {
        assert(first as int % 0x1_0000_0000 == first) by (nonlinear_arith)
            requires
                0 <= first < 0x1_0000_0000,
        ;
    }
}

/// A code without a width in the array has the `/MissingWidth` of the font's
/// descriptor, in place or behind references, or 0.
pub proof fn law_other_codes_have_the_missing_width(
    doc: DocModel,
    faces: Seq<FaceModel>,
    name: Seq<u8>,
    fdict: Seq<(Seq<u8>, ObjModel)>,
    subtype: Seq<u8>,
    first: i64,
    a: Seq<ObjModel>,
    k: int,
    fd: Seq<(Seq<u8>, ObjModel)>,
    missing: Number,
    code: u32,
)
    requires
        is_simple(fdict, subtype),
        reference_laws::has(fdict, "FirstChar".spec_bytes(), ObjModel::Num(Number::Int(first))) || (
        first == 0 && reference_laws::lacks(fdict, "FirstChar".spec_bytes())),
        0 <= first,
        first + a.len() <= 0x1_0000_0000,
        reference_laws::holds(doc, fdict, "Widths".spec_bytes(), ObjModel::Array(a)),
        0 <= k < a.len(),
        a[k] is Num,
        listed(first as int, a, code) is None,
    ensures
        reference_laws::holds(doc, fdict, "FontDescriptor".spec_bytes(), ObjModel::Dict(fd))
            && reference_laws::has(fd, "MissingWidth".spec_bytes(), ObjModel::Num(missing))
            ==> font::width_of(font::font_of(doc, faces, name, fdict), code) == missing,
        reference_laws::holds(doc, fdict, "FontDescriptor".spec_bytes(), ObjModel::Dict(fd))
            && reference_laws::lacks(fd, "MissingWidth".spec_bytes()) ==> font::width_of(
            font::font_of(doc, faces, name, fdict),
            code,
        ) == Number::Int(0),
        reference_laws::lacks(fdict, "FontDescriptor".spec_bytes()) ==> font::width_of(
            font::font_of(doc, faces, name, fdict),
            code,
        ) == Number::Int(0),
{
    lemma_simple(fdict, subtype);
    lemma_first(fdict, first);
    reference_laws::law_entries_mean_what_they_stand_for(
        doc,
        fdict,
        "Widths".spec_bytes(),
        ObjModel::Array(a),
    );
    reference_laws::law_entries_mean_what_they_stand_for(
        doc,
        fdict,
        "FontDescriptor".spec_bytes(),
        ObjModel::Dict(fd),
    );
    reference_laws::law_keys_are_looked_up(
        fd,
        "MissingWidth".spec_bytes(),
        ObjModel::Num(missing),
    );
    lemma_with_list(Map::empty(), first as u32, a, a.len() as int, (first + k) as u32);
    lemma_with_list(Map::empty(), first as u32, a, a.len() as int, code);
    assert(a.take(a.len() as int) =~= a);
    let r = widths::simple_font_widths(doc, fdict).0;
    assert(r.dom().contains((first + k) as u32));
    assert(r != Map::<u32, Number>::empty());
}

/// The entries of a `/W` array do not depend on what stands before them.
proof fn lemma_cid_skip(w: Seq<ObjModel>, i: int, m: Map<u32, Number>)
    requires
        0 <= i <= w.len(),
    ensures
        widths::cid_entries(w, i, m) == widths::cid_entries(w.skip(i), 0, m),
    decreases w.len() - i,
{
    let v = w.skip(i);
    if i + 1 < w.len() {
        assert(v[0] == w[i] && v[1] == w[i + 1]);
        match object::number_of(w[i]) {
            None => {},
            Some(c) => match w[i + 1] {
                ObjModel::Array(list) => {
                    let n = widths::with_list(
                        m,
                        crate::number::truncated(c),
                        list,
                        list.len() as int,
                    );
                    lemma_cid_skip(w, i + 2, n);
                    lemma_cid_skip(v, 2, n);
                    assert(v.skip(2) =~= w.skip(i + 2));
                },
                other => {
                    if i + 2 < w.len() {
                        assert(v[2] == w[i + 2]);
                        let n = match (object::number_of(other), object::number_of(w[i + 2])) {
                            (Some(last), Some(x)) => widths::with_same(
                                m,
                                crate::number::truncated(c),
                                crate::number::truncated(last),
                                x,
                            ),
                            _ => m,
                        };
                        lemma_cid_skip(w, i + 3, n);
                        lemma_cid_skip(v, 3, n);
                        assert(v.skip(3) =~= w.skip(i + 3));
                    }
                },
            },
        }
    }
}

/// In a `/W` array `c [w1 w2 ...]` gives the widths of the list to the codes from `c`
/// on, keeps the others, and what follows adds to that.
pub proof fn law_cid_lists_give_consecutive_codes(
    c: i64,
    list: Seq<ObjModel>,
    rest: Seq<ObjModel>,
    m: Map<u32, Number>,
    code: u32,
)
    requires
        0 <= c,
        c + list.len() <= 0x1_0000_0000,
        list.len() > 0,
    ensures
        ({
            let e = seq![ObjModel::Num(Number::Int(c)), ObjModel::Array(list)];
            let r = widths::cid_entries(e, 0, m);
            &&& widths::cid_entries(e + rest, 0, m) == widths::cid_entries(rest, 0, r)
            &&& match listed(c as int, list, code) {
                Some(w) => r.dom().contains(code) && r[code] == w,
                None => r.dom().contains(code) == m.dom().contains(code) && (m.dom().contains(code)
                    ==> r[code] == m[code]),
            }
        }),
{
    let e = seq![ObjModel::Num(Number::Int(c)), ObjModel::Array(list)];
    let w = e + rest;
    let n = widths::with_list(m, c as u32, list, list.len() as int);
    assert(w[0] == e[0] && w[1] == e[1]);
    reveal_with_fuel(widths::cid_entries, 2);
    lemma_cid_skip(w, 2, n);
    lemma_cid_skip(e, 2, n);
    assert(w.skip(2) =~= rest);
    lemma_with_list(m, c as u32, list, list.len() as int, code);
    assert(list.take(list.len() as int) =~= list);
}

/// In a `/W` array `first last w` gives one width to all codes from the first to the
/// last, keeps the others, and what follows adds to that.
pub proof fn law_cid_runs_give_one_width(
    first: i64,
    last: i64,
    w: Number,
    rest: Seq<ObjModel>,
    m: Map<u32, Number>,
    code: u32,
)
    requires
        0 <= first < 0x1_0000_0000,
        0 <= last < 0x1_0000_0000,
    ensures
        ({
            let e = seq![
                ObjModel::Num(Number::Int(first)),
                ObjModel::Num(Number::Int(last)),
                ObjModel::Num(w),
            ];
            let r = widths::cid_entries(e, 0, m);
            &&& widths::cid_entries(e + rest, 0, m) == widths::cid_entries(rest, 0, r)
            &&& if first <= code <= last {
                r.dom().contains(code) && r[code] == w
            } else {
                r.dom().contains(code) == m.dom().contains(code) && (m.dom().contains(code)
                    ==> r[code] == m[code])
            }
        }),
{
    let e = seq![
        ObjModel::Num(Number::Int(first)),
        ObjModel::Num(Number::Int(last)),
        ObjModel::Num(w),
    ];
    let v = e + rest;
    let n = widths::with_same(m, first as u32, last as u32, w);
    assert(v[0] == e[0] && v[1] == e[1] && v[2] == e[2]);
    reveal_with_fuel(widths::cid_entries, 2);
    lemma_cid_skip(v, 3, n);
    lemma_cid_skip(e, 3, n);
    assert(v.skip(3) =~= rest);
}

/// A composite font has the widths of the `/W` array of its first descendant, each in
/// place or behind references, and `/DW` or 1000 for the other codes.
pub proof fn law_composite_widths_are_those_of_the_descendant(
    doc: DocModel,
    faces: Seq<FaceModel>,
    name: Seq<u8>,
    fdict: Seq<(Seq<u8>, ObjModel)>,
    fonts: Seq<ObjModel>,
    d: Seq<(Seq<u8>, ObjModel)>,
    w: Seq<ObjModel>,
    default: Number,
    code: u32,
)
    requires
        reference_laws::has(
            fdict,
            "Subtype".spec_bytes(),
            ObjModel::Name("Type0".spec_bytes()),
        ),
        reference_laws::holds(
            doc,
            fdict,
            "DescendantFonts".spec_bytes(),
            ObjModel::Array(fonts),
        ),
        fonts.len() > 0,
        reference_laws::stands_for(doc, fonts[0], ObjModel::Dict(d)),
        reference_laws::has(d, "DW".spec_bytes(), ObjModel::Num(default)) || (default
            == Number::Int(1000) && reference_laws::lacks(d, "DW".spec_bytes())),
    ensures
        ({
            let f = font::font_of(doc, faces, name, fdict);
            &&& f.two_byte
            &&& reference_laws::holds(doc, d, "W".spec_bytes(), ObjModel::Array(w)) ==> ({
                let given = widths::cid_entries(w, 0, Map::empty());
                font::width_of(f, code) == (if given.dom().contains(code) {
                    given[code]
                } else {
                    default
                })
            })
            &&& reference_laws::lacks(d, "W".spec_bytes()) ==> font::width_of(f, code) == default
        }),
{
    reference_laws::law_keys_are_looked_up(
        fdict,
        "Subtype".spec_bytes(),
        ObjModel::Name("Type0".spec_bytes()),
    );
    reference_laws::law_entries_mean_what_they_stand_for(
        doc,
        fdict,
        "DescendantFonts".spec_bytes(),
        ObjModel::Array(fonts),
    );
    reference_laws::law_references_are_followed(doc, fonts[0], ObjModel::Dict(d));
    reference_laws::law_keys_are_looked_up(d, "DW".spec_bytes(), ObjModel::Num(default));
    reference_laws::law_entries_mean_what_they_stand_for(
        doc,
        d,
        "W".spec_bytes(),
        ObjModel::Array(w),
    );
}

/// In a `/W` array, three elements that are no list and not all numbers are passed over
/// behind a first number, and without a number at its place the array ends.
pub proof fn law_broken_cid_entries_are_passed_over(
    c: Number,
    o: ObjModel,
    v: ObjModel,
    stop: ObjModel,
    rest: Seq<ObjModel>,
    m: Map<u32, Number>,
)
    requires
        !(o is Array),
        !(o is Num) || !(v is Num),
        !(stop is Num),
    ensures
        widths::cid_entries(seq![ObjModel::Num(c), o, v] + rest, 0, m) == widths::cid_entries(
            rest,
            0,
            m,
        ),
        widths::cid_entries(seq![stop] + rest, 0, m) == m,
        widths::cid_entries(Seq::empty(), 0, m) == m,
{
    let w = seq![ObjModel::Num(c), o, v] + rest;
    assert(w[0] == ObjModel::Num(c) && w[1] == o && w[2] == v);
    lemma_cid_skip(w, 3, m);
    assert(w.skip(3) =~= rest);
    let x = seq![stop] + rest;
    assert(x[0] == stop);
}

/// A composite font without a descendant has a width of 1000 for every code.
pub proof fn law_composite_fonts_without_descendant_have_default_widths(
    doc: DocModel,
    faces: Seq<FaceModel>,
    name: Seq<u8>,
    fdict: Seq<(Seq<u8>, ObjModel)>,
    code: u32,
)
    requires
        reference_laws::has(
            fdict,
            "Subtype".spec_bytes(),
            ObjModel::Name("Type0".spec_bytes()),
        ),
        reference_laws::lacks(fdict, "DescendantFonts".spec_bytes()) || reference_laws::holds(
            doc,
            fdict,
            "DescendantFonts".spec_bytes(),
            ObjModel::Array(Seq::empty()),
        ),
    ensures
        ({
            let f = font::font_of(doc, faces, name, fdict);
            &&& font::width_of(f, code) == Number::Int(1000)
            &&& f.ascent == Number::Int(750)
            &&& f.descent == Number::Int((-250) as i64)
        }),
{
    reference_laws::law_keys_are_looked_up(
        fdict,
        "Subtype".spec_bytes(),
        ObjModel::Name("Type0".spec_bytes()),
    );
    reference_laws::law_entries_mean_what_they_stand_for(
        doc,
        fdict,
        "DescendantFonts".spec_bytes(),
        ObjModel::Array(Seq::empty()),
    );
}

} // verus!
