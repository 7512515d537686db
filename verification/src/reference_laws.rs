//! That a value stands in place or behind references makes no difference: what a
//! document holds under a key, and what forms and fonts make of it.

use crate::content;
use crate::filters;
use crate::font::{self, FaceModel};
use crate::geometry;
use crate::matrix::{Six, Step};
use crate::number::Number;
use crate::object::{self, DocModel, ObjModel, OpModel};
use vstd::prelude::*;
use vstd::string::StringSliceAdditionalSpecFns;

verus! {

/// The longest chain of references that is followed.
pub const MAX_REFS: u32 = 129;

/// `n` references lead from `o` to `v`.
pub open spec fn leads(doc: DocModel, o: ObjModel, v: ObjModel, n: nat) -> bool
    decreases n,
{
    if n == 0 {
        o == v
    } else {
        o matches ObjModel::Ref(num, gen) && doc.objects.dom().contains((num, gen)) && leads(
            doc,
            doc.objects[(num, gen)],
            v,
            (n - 1) as nat,
        )
    }
}

/// `o` is `v`, or refers to it.
pub open spec fn stands_for(doc: DocModel, o: ObjModel, v: ObjModel) -> bool {
    !(v is Ref) && exists|n: nat| n <= MAX_REFS && #[trigger] leads(doc, o, v, n)
}

/// The first entry under a key is `o`.
pub open spec fn has(d: Seq<(Seq<u8>, ObjModel)>, key: Seq<u8>, o: ObjModel) -> bool {
    exists|i: int|
        0 <= i < d.len() && (#[trigger] d[i]) == (key, o) && forall|j: int|
            0 <= j < i ==> (#[trigger] d[j]).0 != key
}

/// No entry stands under a key.
pub open spec fn lacks(d: Seq<(Seq<u8>, ObjModel)>, key: Seq<u8>) -> bool {
    forall|i: int| 0 <= i < d.len() ==> (#[trigger] d[i]).0 != key
}

/// The value under a key stands for `v`.
pub open spec fn holds(doc: DocModel, d: Seq<(Seq<u8>, ObjModel)>, key: Seq<u8>, v: ObjModel) -> bool {
    exists|o: ObjModel| #[trigger] has(d, key, o) && stands_for(doc, o, v)
}

/// References are followed as far as they lead.
proof fn lemma_leads(doc: DocModel, o: ObjModel, v: ObjModel, n: nat, m: nat)
    requires
        leads(doc, o, v, n),
        !(v is Ref),
        n <= m,
    ensures
        object::followed(doc.objects, o, m) == Some(v),
    decreases n,
{
    if n > 0 {
        if let ObjModel::Ref(num, gen) = o {
            lemma_leads(doc, doc.objects[(num, gen)], v, (n - 1) as nat, (m - 1) as nat);
        }
    }
}

/// A value means what it stands for, be it in place or behind references, and a
/// reference to no object means nothing.
pub proof fn law_references_are_followed(doc: DocModel, o: ObjModel, v: ObjModel)
    ensures
        stands_for(doc, o, v) ==> object::meaning(doc, o) == Some(v),
        (o matches ObjModel::Ref(num, gen) && !doc.objects.dom().contains((num, gen)))
            ==> object::meaning(doc, o) is None,
{
    if stands_for(doc, o, v) {
        let n = choose|n: nat| n <= MAX_REFS && #[trigger] leads(doc, o, v, n);
        if let ObjModel::Ref(num, gen) = o {
            lemma_leads(doc, doc.objects[(num, gen)], v, (n - 1) as nat, 128);
        }
    }
}

/// A dictionary has the value of the first entry under a key, and none without one.
pub proof fn law_keys_are_looked_up(d: Seq<(Seq<u8>, ObjModel)>, key: Seq<u8>, o: ObjModel)
    ensures
        has(d, key, o) ==> object::value_of(d, key) == Some(o),
        lacks(d, key) ==> object::value_of(d, key) is None,
    decreases d.len(),
{
    if d.len() > 0 {
        let rest = d.drop_first();
        law_keys_are_looked_up(rest, key, o);
        if has(d, key, o) {
            let i = choose|i: int|
                0 <= i < d.len() && (#[trigger] d[i]) == (key, o) && forall|j: int|
                    0 <= j < i ==> (#[trigger] d[j]).0 != key;
            if i > 0 {
                assert(d[0].0 != key);
                assert(rest[i - 1] == (key, o));
                assert forall|j: int| 0 <= j < i - 1 implies (#[trigger] rest[j]).0 != key by {
                    assert(rest[j] == d[j + 1]);
                }
                assert(has(rest, key, o));
            }
        }
        if lacks(d, key) {
            assert(d[0].0 != key);
            assert forall|j: int| 0 <= j < rest.len() implies (#[trigger] rest[j]).0 != key by {
                assert(rest[j] == d[j + 1]);
            }
        }
    }
}

/// What the value under a key stands for is what it means.
pub proof fn law_entries_mean_what_they_stand_for(
    doc: DocModel,
    d: Seq<(Seq<u8>, ObjModel)>,
    key: Seq<u8>,
    v: ObjModel,
)
    ensures
        holds(doc, d, key, v) ==> object::entry(doc, d, key) == Some(v),
        lacks(d, key) ==> object::entry(doc, d, key) is None,
{
    law_keys_are_looked_up(d, key, v);
    if holds(doc, d, key, v) {
        let o = choose|o: ObjModel| #[trigger] has(d, key, o) && stands_for(doc, o, v);
        law_keys_are_looked_up(d, key, o);
        law_references_are_followed(doc, o, v);
    }
}

/// The six numbers of a matrix, in the order `a b c d e f`.
pub open spec fn six(n: Seq<Number>) -> Six {
    Six { a: n[0], b: n[1], c: n[2], d: n[3], e: n[4], f: n[5] }
}

/// An invoked name that stands for a form, in place or behind references, runs the
/// form: its operations, with its own resources if it has some, in place or behind
/// references, and with those in scope if it has none; and with its matrix of six
/// numbers, or without moving anything.
pub proof fn law_forms_are_found_and_run_with_their_resources(
    doc: DocModel,
    res: Seq<(Seq<u8>, ObjModel)>,
    xd: Seq<(Seq<u8>, ObjModel)>,
    name: Seq<u8>,
    d: Seq<(Seq<u8>, ObjModel)>,
    raw: Seq<u8>,
    ops: Seq<OpModel>,
    own: Seq<(Seq<u8>, ObjModel)>,
    m: Seq<Number>,
    val: spec_fn(Number) -> real,
    p: (real, real),
)
    requires
        holds(doc, res, "XObject".spec_bytes(), ObjModel::Dict(xd)),
        holds(doc, xd, name, ObjModel::Stream(d, raw)),
        has(d, "Subtype".spec_bytes(), ObjModel::Name("Form".spec_bytes())),
        content::stream_operations(filters::decoded(d, raw)) == Some(ops),
        m.len() == 6,
        val(Number::Int(0)) == 0real,
        val(Number::Int(1)) == 1real,
    ensures
        ({
            let form = content::form_named(doc, res, seq![ObjModel::Name(name)]);
            &&& form is Some
            &&& form->Some_0.ops == ops
            &&& holds(doc, d, "Resources".spec_bytes(), ObjModel::Dict(own)) ==> form->Some_0.res
                == own
            &&& lacks(d, "Resources".spec_bytes()) ==> form->Some_0.res == res
            &&& has(
                d,
                "Matrix".spec_bytes(),
                ObjModel::Array(Seq::new(6, |i: int| ObjModel::Num(m[i]))),
            ) ==> form->Some_0.matrix == six(m)
            &&& lacks(d, "Matrix".spec_bytes()) ==> geometry::stepped_to(
                val,
                Step::Matrix(form->Some_0.matrix),
                p,
            ) == p
        }),
{
    law_entries_mean_what_they_stand_for(doc, res, "XObject".spec_bytes(), ObjModel::Dict(xd));
    law_entries_mean_what_they_stand_for(doc, xd, name, ObjModel::Stream(d, raw));
    law_keys_are_looked_up(d, "Subtype".spec_bytes(), ObjModel::Name("Form".spec_bytes()));
    law_entries_mean_what_they_stand_for(doc, d, "Resources".spec_bytes(), ObjModel::Dict(own));
    let a = Seq::new(6, |i: int| ObjModel::Num(m[i]));
    law_keys_are_looked_up(d, "Matrix".spec_bytes(), ObjModel::Array(a));
    assert(forall|i: int| 0 <= i < 6 ==> object::number_of(#[trigger] a[i]) == Some(m[i]));
    assert(seq![ObjModel::Name(name)][0] == ObjModel::Name(name));
    assert(1real * p.0 + 0real * p.1 + 0real == p.0) by (nonlinear_arith);
    assert(0real * p.0 + 1real * p.1 + 0real == p.1) by (nonlinear_arith);
}

/// What is no form, or is not there, is not run.
pub proof fn law_only_forms_are_found(
    doc: DocModel,
    res: Seq<(Seq<u8>, ObjModel)>,
    xd: Seq<(Seq<u8>, ObjModel)>,
    name: Seq<u8>,
    subtype: Seq<u8>,
    d: Seq<(Seq<u8>, ObjModel)>,
    raw: Seq<u8>,
)
    requires
        holds(doc, res, "XObject".spec_bytes(), ObjModel::Dict(xd)),
    ensures
        lacks(xd, name) ==> content::form_named(doc, res, seq![ObjModel::Name(name)]) is None,
        holds(doc, xd, name, ObjModel::Stream(d, raw)) && has(
            d,
            "Subtype".spec_bytes(),
            ObjModel::Name(subtype),
        ) && subtype != "Form".spec_bytes() ==> content::form_named(
            doc,
            res,
            seq![ObjModel::Name(name)],
        ) is None,
        content::form_named(doc, res, seq![]) is None,
{
    law_entries_mean_what_they_stand_for(doc, res, "XObject".spec_bytes(), ObjModel::Dict(xd));
    law_entries_mean_what_they_stand_for(doc, xd, name, ObjModel::Stream(d, raw));
    law_keys_are_looked_up(xd, name, ObjModel::Other);
    law_keys_are_looked_up(d, "Subtype".spec_bytes(), ObjModel::Name(subtype));
    assert(seq![ObjModel::Name(name)][0] == ObjModel::Name(name));
}

/// Two dictionaries mean the same under a key: both lack it, or both have a value
/// there that stands for the same.
pub open spec fn same_under(
    doc: DocModel,
    a: Seq<(Seq<u8>, ObjModel)>,
    b: Seq<(Seq<u8>, ObjModel)>,
    key: Seq<u8>,
) -> bool {
    ||| lacks(a, key) && lacks(b, key)
    ||| exists|v: ObjModel| #[trigger] holds(doc, a, key, v) && holds(doc, b, key, v)
}

/// Two dictionaries have the same value under a key.
pub open spec fn equal_under(
    a: Seq<(Seq<u8>, ObjModel)>,
    b: Seq<(Seq<u8>, ObjModel)>,
    key: Seq<u8>,
) -> bool {
    ||| lacks(a, key) && lacks(b, key)
    ||| exists|o: ObjModel| #[trigger] has(a, key, o) && has(b, key, o)
}

/// Dictionaries that mean the same under a key have the same entry there.
pub proof fn lemma_same_under(
    doc: DocModel,
    a: Seq<(Seq<u8>, ObjModel)>,
    b: Seq<(Seq<u8>, ObjModel)>,
    key: Seq<u8>,
)
    ensures
        same_under(doc, a, b, key) ==> object::entry(doc, a, key) == object::entry(doc, b, key),
        equal_under(a, b, key) ==> object::value_of(a, key) == object::value_of(b, key),
{
    law_keys_are_looked_up(a, key, ObjModel::Other);
    law_keys_are_looked_up(b, key, ObjModel::Other);
    if same_under(doc, a, b, key) && !(lacks(a, key) && lacks(b, key)) {
        let v = choose|v: ObjModel| #[trigger] holds(doc, a, key, v) && holds(doc, b, key, v);
        law_entries_mean_what_they_stand_for(doc, a, key, v);
        law_entries_mean_what_they_stand_for(doc, b, key, v);
    }
    if equal_under(a, b, key) && !(lacks(a, key) && lacks(b, key)) {
        let o = choose|o: ObjModel| #[trigger] has(a, key, o) && has(b, key, o);
        law_keys_are_looked_up(a, key, o);
        law_keys_are_looked_up(b, key, o);
    }
}

/// Two fonts are the same if their dictionaries are but for values that stand in place
/// in one and behind references in the other: the widths, the descriptor, the
/// encoding, the descendants and the map to text.
pub proof fn law_fonts_do_not_depend_on_references(
    doc: DocModel,
    faces: Seq<FaceModel>,
    name: Seq<u8>,
    a: Seq<(Seq<u8>, ObjModel)>,
    b: Seq<(Seq<u8>, ObjModel)>,
)
    requires
        equal_under(a, b, "Subtype".spec_bytes()),
        equal_under(a, b, "BaseFont".spec_bytes()),
        equal_under(a, b, "FirstChar".spec_bytes()),
        same_under(doc, a, b, "Widths".spec_bytes()),
        same_under(doc, a, b, "FontDescriptor".spec_bytes()),
        same_under(doc, a, b, "Encoding".spec_bytes()),
        same_under(doc, a, b, "DescendantFonts".spec_bytes()),
        same_under(doc, a, b, "ToUnicode".spec_bytes()),
    ensures
        font::font_of(doc, faces, name, a) == font::font_of(doc, faces, name, b),
{
    lemma_same_under(doc, a, b, "Subtype".spec_bytes());
    lemma_same_under(doc, a, b, "BaseFont".spec_bytes());
    lemma_same_under(doc, a, b, "FirstChar".spec_bytes());
    lemma_same_under(doc, a, b, "Widths".spec_bytes());
    lemma_same_under(doc, a, b, "FontDescriptor".spec_bytes());
    lemma_same_under(doc, a, b, "Encoding".spec_bytes());
    lemma_same_under(doc, a, b, "DescendantFonts".spec_bytes());
    lemma_same_under(doc, a, b, "ToUnicode".spec_bytes());
}

/// Two forms are the same if they are but for resources that stand in place in one and
/// behind references in the other.
pub proof fn law_forms_do_not_depend_on_references(
    doc: DocModel,
    res: Seq<(Seq<u8>, ObjModel)>,
    a: Seq<(Seq<u8>, ObjModel)>,
    b: Seq<(Seq<u8>, ObjModel)>,
    raw: Seq<u8>,
)
    requires
        equal_under(a, b, "Subtype".spec_bytes()),
        equal_under(a, b, "Matrix".spec_bytes()),
        same_under(doc, a, b, "Resources".spec_bytes()),
        filters::decoded(a, raw) == filters::decoded(b, raw),
    ensures
        content::form_from(doc, res, ObjModel::Stream(a, raw)) == content::form_from(
            doc,
            res,
            ObjModel::Stream(b, raw),
        ),
{
    lemma_same_under(doc, a, b, "Subtype".spec_bytes());
    lemma_same_under(doc, a, b, "Matrix".spec_bytes());
    lemma_same_under(doc, a, b, "Resources".spec_bytes());
}

/// The last entry under a name.
pub open spec fn last_under(d: Seq<(Seq<u8>, ObjModel)>, i: int) -> bool {
    0 <= i < d.len() && forall|j: int| i < j < d.len() ==> (#[trigger] d[j]).0 != d[i].0
}

/// Fonts come into scope one by one.
proof fn lemma_fonts_in(
    doc: DocModel,
    faces: Seq<FaceModel>,
    fd: Seq<(Seq<u8>, ObjModel)>,
    n: int,
    i: int,
    d: Seq<(Seq<u8>, ObjModel)>,
)
    requires
        0 <= i < n <= fd.len(),
        forall|j: int| i < j < n ==> (#[trigger] fd[j]).0 != fd[i].0,
        object::meaning(doc, fd[i].1) == Some(ObjModel::Dict(d)),
    ensures
        content::fonts_in(doc, faces, fd, n).dom().contains(fd[i].0),
        content::fonts_in(doc, faces, fd, n)[fd[i].0] == font::font_of(doc, faces, fd[i].0, d),
    decreases n,
{
    if i < n - 1 {
        lemma_fonts_in(doc, faces, fd, n - 1, i, d);
        assert(fd[n - 1].0 != fd[i].0);
    }
}

/// No font comes into scope under another name.
proof fn lemma_fonts_named(
    doc: DocModel,
    faces: Seq<FaceModel>,
    fd: Seq<(Seq<u8>, ObjModel)>,
    n: int,
    name: Seq<u8>,
)
    requires
        n <= fd.len(),
        content::fonts_in(doc, faces, fd, n).dom().contains(name),
    ensures
        exists|j: int| 0 <= j < n && (#[trigger] fd[j]).0 == name,
    decreases n,
{
    if n > 0 {
        if fd[n - 1].0 == name {
            assert(fd[n - 1].0 == name);
        } else {
            lemma_fonts_named(doc, faces, fd, n - 1, name);
            let j = choose|j: int| 0 <= j < n - 1 && (#[trigger] fd[j]).0 == name;
            assert(fd[j].0 == name);
        }
    }
}

/// Under each name the resources bring into scope the font of the dictionary that the
/// entry stands for, in place or behind references, and no font under any other name.
pub proof fn law_fonts_come_into_scope_by_name(
    doc: DocModel,
    faces: Seq<FaceModel>,
    res: Seq<(Seq<u8>, ObjModel)>,
    fd: Seq<(Seq<u8>, ObjModel)>,
    i: int,
    d: Seq<(Seq<u8>, ObjModel)>,
    name: Seq<u8>,
)
    requires
        holds(doc, res, "Font".spec_bytes(), ObjModel::Dict(fd)),
        last_under(fd, i),
        stands_for(doc, fd[i].1, ObjModel::Dict(d)),
    ensures
        content::scope_fonts(doc, faces, res).dom().contains(fd[i].0),
        content::scope_fonts(doc, faces, res)[fd[i].0] == font::font_of(doc, faces, fd[i].0, d),
        lacks(fd, name) ==> !content::scope_fonts(doc, faces, res).dom().contains(name),
{
    law_entries_mean_what_they_stand_for(doc, res, "Font".spec_bytes(), ObjModel::Dict(fd));
    law_references_are_followed(doc, fd[i].1, ObjModel::Dict(d));
    lemma_fonts_in(doc, faces, fd, fd.len() as int, i, d);
    if content::scope_fonts(doc, faces, res).dom().contains(name) {
        lemma_fonts_named(doc, faces, fd, fd.len() as int, name);
    }
}

} // verus!
