//! Glyph advance widths of fonts.

use crate::document::{as_dict, look_up};
use crate::number::{self, Number};
use crate::object::{self, get_int, get_number, num, Entry, Obj, ObjModel};
use crate::pdf::Doc;
use std::collections::HashMap;
use vstd::prelude::*;
use vstd::string::StringSliceAdditionalSpecFns;

verus! {

/// An integer modulo the range of `u32`.
pub open spec fn wrapped(i: int) -> u32 {
    (i % 0x1_0000_0000) as u32
}

/// An integer modulo the range of `u32`.
fn wrap(i: i64) -> (r: u32)
    ensures
        r == wrapped(i as int),
{
    let m: u128 = (i as i128 + 0x1_0000_0000_0000_0000) as u128 % 0x1_0000_0000;
    m as u32
}

/// A code advanced by an index, modulo the range of `u32`.
fn advance(code: u32, k: usize) -> (r: u32)
    ensures
        r == wrapped(code + k),
{
    let m: u128 = (code as u128 + k as u128) % 0x1_0000_0000;
    m as u32
}

/// The first `n` widths of a list given to consecutive codes from `first` on; an
/// element that is no number leaves its code alone.
pub open spec fn with_list(
    m: Map<u32, Number>,
    first: u32,
    list: Seq<ObjModel>,
    n: int,
) -> Map<u32, Number>
    decreases n,
{
    if n <= 0 {
        m
    } else {
        let before = with_list(m, first, list, n - 1);
        match object::number_of(list[n - 1]) {
            Some(w) => before.insert(wrapped(first + n - 1), w),
            None => before,
        }
    }
}

/// One width given to all codes from `lo` to `hi`.
pub open spec fn with_same(m: Map<u32, Number>, lo: u32, hi: u32, w: Number) -> Map<u32, Number> {
    Map::new(
        |c: u32| m.dom().contains(c) || lo <= c <= hi,
        |c: u32|
            if lo <= c <= hi {
                w
            } else {
                m[c]
            },
    )
}

/// The widths of a simple font: `/Widths` from `/FirstChar` on, and
/// `/MissingWidth` for the codes without one.
pub open spec fn simple_font_widths(
    doc: object::DocModel,
    fdict: Seq<(Seq<u8>, ObjModel)>,
) -> (Map<u32, Number>, Number) {
    let first = match object::int_value(fdict, "FirstChar".spec_bytes()) {
        Some(i) => wrapped(i as int),
        None => 0,
    };
    let widths = match object::array_entry(doc, fdict, "Widths".spec_bytes()) {
        Some(a) => with_list(Map::empty(), first, a, a.len() as int),
        None => Map::empty(),
    };
    let missing = match object::dict_entry(doc, fdict, "FontDescriptor".spec_bytes()) {
        Some(d) => match object::number_value(d, "MissingWidth".spec_bytes()) {
            Some(n) => n,
            None => Number::Int(0),
        },
        None => Number::Int(0),
    };
    (widths, missing)
}

/// The widths that a `/W` array gives from element `i` on: `c [w1 w2 ...]` for
/// consecutive codes, `first last w` for a run of one width. Reading stops at
/// what is neither.
pub open spec fn cid_entries(
    w: Seq<ObjModel>,
    i: int,
    m: Map<u32, Number>,
) -> Map<u32, Number>
    decreases w.len() - i,
{
    if i < 0 || i + 1 >= w.len() {
        m
    } else {
        match object::number_of(w[i]) {
            None => m,
            Some(c) => match w[i + 1] {
                ObjModel::Array(list) => cid_entries(
                    w,
                    i + 2,
                    with_list(m, number::truncated(c), list, list.len() as int),
                ),
                other => if i + 2 >= w.len() {
                    m
                } else {
                    match (object::number_of(other), object::number_of(w[i + 2])) {
                        (Some(last), Some(v)) => cid_entries(
                            w,
                            i + 3,
                            with_same(
                                m,
                                number::truncated(c),
                                number::truncated(last),
                                v,
                            ),
                        ),
                        _ => cid_entries(w, i + 3, m),
                    }
                },
            },
        }
    }
}

/// The dictionary of the first descendant of a composite font.
pub open spec fn descendant(
    doc: object::DocModel,
    fdict: Seq<(Seq<u8>, ObjModel)>,
) -> Option<Seq<(Seq<u8>, ObjModel)>> {
    match object::array_entry(doc, fdict, "DescendantFonts".spec_bytes()) {
        Some(a) => if a.len() > 0 {
            object::meant_dict(doc, a[0])
        } else {
            None
        },
        None => None,
    }
}

/// The widths of a composite font: the `/W` array of its descendant, and `/DW`
/// or 1000 for the codes without one.
pub open spec fn composite_font_widths(
    doc: object::DocModel,
    fdict: Seq<(Seq<u8>, ObjModel)>,
) -> (Map<u32, Number>, Number) {
    match descendant(doc, fdict) {
        None => (Map::empty(), Number::Int(1000)),
        Some(d) => {
            let dw = match object::number_value(d, "DW".spec_bytes()) {
                Some(n) => n,
                None => Number::Int(1000),
            };
            match object::array_entry(doc, d, "W".spec_bytes()) {
                Some(w) => (cid_entries(w, 0, Map::empty()), dw),
                None => (Map::empty(), dw),
            }
        },
    }
}

/// Give the widths of a list to consecutive codes.
fn put_list(m: &mut HashMap<u32, Number>, first: u32, list: &Vec<Obj>)
    ensures
        final(m)@ == with_list(
            old(m)@,
            first,
            object::array_model(list@),
            list@.len() as int,
        ),
{
    let ghost model = object::array_model(list@);
    let mut k: usize = 0;
    while k < list.len()
        invariant
            k <= list@.len(),
            model == object::array_model(list@),
            m@ == with_list(old(m)@, first, model, k as int),
        decreases list@.len() - k,
    {
        broadcast use vstd::std_specs::hash::group_hash_axioms;

        assert(model[k as int] == list@[k as int].view());
        if let Some(w) = num(&list[k]) {
            m.insert(advance(first, k), w);
        }
        k += 1;
    }
}

/// Give one width to a run of codes.
fn put_same(m: &mut HashMap<u32, Number>, lo: u32, hi: u32, w: Number)
    ensures
        final(m)@ == with_same(old(m)@, lo, hi, w),
{
    let ghost before = m@;
    let mut c: u64 = lo as u64;
    while c <= hi as u64
        invariant
            lo <= c <= 0x1_0000_0000,
            before == old(m)@,
            m@ == (if c > lo {
                with_same(before, lo, (c - 1) as u32, w)
            } else {
                before
            }),
            c > lo ==> c - 1 <= hi,
        decreases 0x1_0000_0000 - c,
    {
        broadcast use vstd::std_specs::hash::group_hash_axioms;

        m.insert(c as u32, w);
        assert(m@ =~= with_same(before, lo, c as u32, w));
        c += 1;
    }
    assert(m@ =~= with_same(before, lo, hi, w));
}

/// The widths of a simple font, and the one for codes without a width.
pub fn simple_widths(doc: &Doc, fdict: &Vec<Entry>) -> (r: (HashMap<u32, Number>, Number))
    ensures
        (r.0@, r.1) == simple_font_widths(doc.view(), object::entries_model(fdict@)),
{
    broadcast use vstd::std_specs::hash::group_hash_axioms;

    let mut m: HashMap<u32, Number> = HashMap::new();
    let first: u32 = match get_int(fdict, "FirstChar".as_bytes()) {
        Some(i) => wrap(i),
        None => 0,
    };
    if let Some(e) = look_up(doc, fdict, "Widths".as_bytes()) {
        if let Some(a) = e.array() {
            put_list(&mut m, first, a);
        }
    }
    let mut missing: Number = Number::Int(0);
    if let Some(e) = look_up(doc, fdict, "FontDescriptor".as_bytes()) {
        if let Some(d) = e.dict() {
            if let Some(n) = get_number(d, "MissingWidth".as_bytes()) {
                missing = n;
            }
        }
    }
    (m, missing)
}

/// Read the entries of a `/W` array.
pub fn read_cid_widths(w: &Vec<Obj>) -> (m: HashMap<u32, Number>)
    ensures
        m@ == cid_entries(object::array_model(w@), 0, Map::empty()),
{
    broadcast use vstd::std_specs::hash::group_hash_axioms;

    let ghost model = object::array_model(w@);
    let mut m: HashMap<u32, Number> = HashMap::new();
    let mut i: usize = 0;
    while i < w.len() && w.len() - i > 1
        invariant
            model == object::array_model(w@),
            cid_entries(model, i as int, m@) == cid_entries(model, 0, Map::empty()),
        decreases w@.len() - i,
    {
        broadcast use object::lemma_array_view;

        assert(model[i as int] == w@[i as int].view());
        assert(model[i + 1] == w@[i + 1].view());
        let c: Number = match num(&w[i]) {
            Some(c) => c,
            None => {
                return m;
            },
        };
        match &w[i + 1] {
            Obj::Array(list) => {
                proof {
                    object::lemma_array_view(w@[i + 1]);
                }
                put_list(&mut m, c.to_u32(), list);
                i += 2;
            },
            other => {
                if w.len() - i <= 2 {
                    return m;
                }
                assert(model[i + 2] == w@[i + 2].view());
                match (num(other), num(&w[i + 2])) {
                    (Some(last), Some(v)) => {
                        put_same(&mut m, c.to_u32(), last.to_u32(), v);
                    },
                    _ => {},
                }
                i += 3;
            },
        }
    }
    m
}

/// The widths of a composite font, and the one for codes without a width.
pub fn cid_widths(doc: &Doc, fdict: &Vec<Entry>) -> (r: (HashMap<u32, Number>, Number))
    ensures
        (r.0@, r.1) == composite_font_widths(doc.view(), object::entries_model(fdict@)),
{
    broadcast use vstd::std_specs::hash::group_hash_axioms;

    if let Some(fonts) = look_up(doc, fdict, "DescendantFonts".as_bytes()) {
        if let Some(a) = fonts.array() {
            if a.len() > 0 {
                assert(object::array_model(a@)[0] == a@[0].view());
                if let Some(font) = as_dict(doc, &a[0]) {
                    if let Some(d) = font.dict() {
                        let dw: Number = match get_number(d, "DW".as_bytes()) {
                            Some(n) => n,
                            None => Number::Int(1000),
                        };
                        if let Some(e) = look_up(doc, d, "W".as_bytes()) {
                            if let Some(w) = e.array() {
                                return (read_cid_widths(w), dw);
                            }
                        }
                        return (HashMap::new(), dw);
                    }
                }
            }
        }
    }
    (HashMap::new(), Number::Int(1000))
}

} // verus!
