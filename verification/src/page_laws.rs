//! What belongs to a page, and where it starts.

use crate::content;
use crate::filters;
use crate::font::FaceModel;
use crate::geometry;
use crate::machine::State;
use crate::number::Number;
use crate::object::{self, DocModel, ObjModel, OpModel};
use crate::page_box;
use crate::page_parts;
use crate::pdf;
use crate::reference_laws;
use vstd::prelude::*;
use vstd::string::StringSliceAdditionalSpecFns;

verus! {

/// A page shows what its content shows, starting with nothing: no glyph, no font and
/// nothing saved; spacings, leading, rise and size of 0, and a scale of 1. A point of the
/// content stands on the page as far from the lower-left corner of its display box as
/// from the origin. Without content or resources a page shows nothing.
pub proof fn law_pages_start_at_the_corner_of_their_box(
    doc: DocModel,
    faces: Seq<FaceModel>,
    num: u32,
    gen: u16,
    ops: Seq<OpModel>,
    res: Seq<(Seq<u8>, ObjModel)>,
    val: spec_fn(Number) -> real,
    p: (real, real),
) -> (s0: State)
    requires
        val(Number::Int(0)) == 0real,
        val(Number::Int(1)) == 1real,
    ensures
        pdf::operations_in(page_parts::content_of(doc, num, gen)) == Some(ops)
            && content::resources_of(doc, num, gen) == Some(res) ==> content::page_shown(
            doc,
            faces,
            num,
            gen,
        ) == content::after(doc, faces, res, ops, ops.len() as int, 0, s0).out,
        s0.out == Seq::<crate::machine::GlyphModel>::empty(),
        s0.font is None,
        s0.stack.len() == 0,
        val(s0.text.tc) == 0real && val(s0.text.tw) == 0real && val(s0.text.trise) == 0real,
        val(s0.text.fsize) == 0real,
        geometry::scalar_value(val, s0.text.tl) == 0real,
        geometry::scalar_value(val, s0.text.th) == 1real,
        geometry::placed_at(val, s0.tm, p) == p,
        geometry::placed_at(val, s0.tlm, p) == p,
        ({
            let area = page_box::display_box(doc, num, gen);
            geometry::placed_at(val, s0.ctm, p) == (
                p.0 - val(Number::Real(area.l)),
                p.1 - val(Number::Real(area.b)),
            )
        }),
        pdf::operations_in(page_parts::content_of(doc, num, gen)) is None || content::resources_of(
            doc,
            num,
            gen,
        ) is None ==> content::page_shown(doc, faces, num, gen).len() == 0,
{
    let area = page_box::display_box(doc, num, gen);
    crate::machine::start(
        crate::matrix::Transform::Only(crate::matrix::Step::Origin(area.l, area.b)),
        crate::machine::initial_text(),
        Seq::empty(),
    )
}

/// References as they stand in an array.
pub open spec fn refs(ids: Seq<(u32, u16)>) -> Seq<ObjModel> {
    Seq::new(ids.len(), |i: int| ObjModel::Ref(ids[i].0, ids[i].1))
}

/// References in an array are found, in order.
proof fn lemma_refs(ids: Seq<(u32, u16)>)
    ensures
        page_parts::references_in(refs(ids)) == ids,
    decreases ids.len(),
{
    if ids.len() > 0 {
        assert(refs(ids).drop_last() =~= refs(ids.drop_last()));
        lemma_refs(ids.drop_last());
        assert(ids.drop_last().push(ids.last()) =~= ids);
    } else {
        assert(page_parts::references_in(refs(ids)) =~= ids);
    }
}

/// What is no reference is passed over among the streams of a page.
pub proof fn law_only_references_name_streams(a: Seq<ObjModel>, o: ObjModel, b: Seq<ObjModel>)
    requires
        !(o is Ref),
    ensures
        page_parts::references_in(a + seq![o] + b) == page_parts::references_in(a + b),
    decreases b.len(),
{
    let x = a + seq![o] + b;
    if b.len() == 0 {
        assert(x.drop_last() =~= a);
        assert(a + b =~= a);
        assert(x.last() == o);
    } else {
        assert(x.drop_last() =~= a + seq![o] + b.drop_last());
        assert((a + b).drop_last() =~= a + b.drop_last());
        law_only_references_name_streams(a, o, b.drop_last());
    }
}

/// An object of a document stands under an identifier.
pub open spec fn stands_at(doc: DocModel, num: u32, gen: u16, o: ObjModel) -> bool {
    doc.objects.dom().contains((num, gen)) && doc.objects[(num, gen)] == o && !(o is Ref)
}

/// An object is found under its identifier.
proof fn lemma_stands_at(doc: DocModel, num: u32, gen: u16, o: ObjModel)
    requires
        stands_at(doc, num, gen, o),
    ensures
        object::object_at(doc.objects, num, gen) == Some(o),
{
    reference_laws::law_references_are_followed(doc, ObjModel::Ref(num, gen), o);
    reveal_with_fuel(reference_laws::leads, 2);
    assert(reference_laws::leads(doc, ObjModel::Ref(num, gen), o, 1));
}

/// The streams of a page are those that its `/Contents` refers to, itself or with an
/// array, in place or behind a reference, in their order.
pub proof fn law_pages_name_their_streams(
    doc: DocModel,
    num: u32,
    gen: u16,
    page: Seq<(Seq<u8>, ObjModel)>,
    n: u32,
    g: u16,
    d: Seq<(Seq<u8>, ObjModel)>,
    raw: Seq<u8>,
    ids: Seq<(u32, u16)>,
)
    requires
        stands_at(doc, num, gen, ObjModel::Dict(page)),
    ensures
        reference_laws::has(page, "Contents".spec_bytes(), ObjModel::Ref(n, g)) && stands_at(
            doc,
            n,
            g,
            ObjModel::Stream(d, raw),
        ) ==> page_parts::page_ids(doc.objects, num, gen) == seq![(n, g)],
        reference_laws::has(page, "Contents".spec_bytes(), ObjModel::Array(refs(ids)))
            ==> page_parts::page_ids(doc.objects, num, gen) == ids,
        reference_laws::has(page, "Contents".spec_bytes(), ObjModel::Ref(n, g)) && stands_at(
            doc,
            n,
            g,
            ObjModel::Array(refs(ids)),
        ) ==> page_parts::page_ids(doc.objects, num, gen) == ids,
        reference_laws::lacks(page, "Contents".spec_bytes()) ==> page_parts::page_ids(
            doc.objects,
            num,
            gen,
        ).len() == 0,
{
    lemma_stands_at(doc, num, gen, ObjModel::Dict(page));
    lemma_refs(ids);
    reference_laws::law_keys_are_looked_up(page, "Contents".spec_bytes(), ObjModel::Ref(n, g));
    reference_laws::law_keys_are_looked_up(
        page,
        "Contents".spec_bytes(),
        ObjModel::Array(refs(ids)),
    );
    reveal_with_fuel(page_parts::content_ids, 3);
}

/// The content of a page is the data of its streams, one behind the other with a line
/// feed after each; data that does not decode is taken as it stands.
pub proof fn law_streams_are_put_together(
    doc: DocModel,
    num: u32,
    gen: u16,
    a: Seq<(u32, u16)>,
    b: Seq<(u32, u16)>,
    id: (u32, u16),
    d: Seq<(Seq<u8>, ObjModel)>,
    raw: Seq<u8>,
)
    ensures
        page_parts::content_safe(doc.objects, num, gen) ==> page_parts::content_of(doc, num, gen)
            == page_parts::joined(doc.objects, page_parts::page_ids(doc.objects, num, gen)),
        page_parts::joined(doc.objects, a + b) == page_parts::joined(doc.objects, a)
            + page_parts::joined(doc.objects, b),
        page_parts::joined(doc.objects, Seq::empty()) == Seq::<u8>::empty(),
        stands_at(doc, id.0, id.1, ObjModel::Stream(d, raw)) ==> page_parts::joined(
            doc.objects,
            seq![id],
        ) == (match filters::decoded(d, raw) {
            Some(data) => data,
            None => raw,
        }) + seq![0x0Au8],
{
    lemma_joined(doc, a, b);
    if stands_at(doc, id.0, id.1, ObjModel::Stream(d, raw)) {
        lemma_stands_at(doc, id.0, id.1, ObjModel::Stream(d, raw));
        assert(seq![id].drop_last() =~= Seq::<(u32, u16)>::empty());
        assert(page_parts::joined(doc.objects, seq![id]) == page_parts::joined(
            doc.objects,
            Seq::empty(),
        ) + page_parts::stream_part(doc.objects, id));
        assert(page_parts::joined(doc.objects, seq![id]) =~= page_parts::stream_part(
            doc.objects,
            id,
        ));
    }
}

/// Streams are put together piece by piece.
proof fn lemma_joined(doc: DocModel, a: Seq<(u32, u16)>, b: Seq<(u32, u16)>)
    ensures
        page_parts::joined(doc.objects, a + b) == page_parts::joined(doc.objects, a)
            + page_parts::joined(doc.objects, b),
    decreases b.len(),
{
    if b.len() == 0 {
        assert(a + b =~= a);
        assert(page_parts::joined(doc.objects, a) =~= page_parts::joined(doc.objects, a)
            + page_parts::joined(doc.objects, b));
    } else {
        assert((a + b).drop_last() =~= a + b.drop_last());
        lemma_joined(doc, a, b.drop_last());
        assert(page_parts::joined(doc.objects, a + b) =~= page_parts::joined(doc.objects, a)
            + page_parts::joined(doc.objects, b));
    }
}

/// Nodes of the page tree, each the parent of the one before, the last without one.
pub open spec fn is_line(doc: DocModel, nodes: Seq<Seq<(Seq<u8>, ObjModel)>>, ids: Seq<(u32, u16)>) -> bool {
    &&& 0 < nodes.len() <= 1001
    &&& ids.len() == nodes.len()
    &&& forall|i: int|
        0 <= i < nodes.len() ==> stands_at(
            doc,
            (#[trigger] ids[i]).0,
            ids[i].1,
            ObjModel::Dict(nodes[i]),
        )
    &&& forall|i: int|
        0 < i < nodes.len() ==> reference_laws::has(
            nodes[i - 1],
            "Parent".spec_bytes(),
            ObjModel::Ref((#[trigger] ids[i]).0, ids[i].1),
        )
    &&& reference_laws::lacks(nodes.last(), "Parent".spec_bytes())
}

/// The references of a line of nodes.
proof fn lemma_line(
    doc: DocModel,
    nodes: Seq<Seq<(Seq<u8>, ObjModel)>>,
    ids: Seq<(u32, u16)>,
    k: int,
    n: u32,
    g: u16,
    steps: nat,
)
    requires
        is_line(doc, nodes, ids),
        nodes.len() - 1 <= steps,
    ensures
        page_parts::inherited_ids(doc.objects, nodes[0], steps) is Some,
        0 <= k < nodes.len() && (forall|i: int|
            0 <= i < k ==> reference_laws::lacks(#[trigger] nodes[i], "Resources".spec_bytes()))
            && reference_laws::has(nodes[k], "Resources".spec_bytes(), ObjModel::Ref(n, g)) ==> {
            let r = page_parts::inherited_ids(doc.objects, nodes[0], steps)->0;
            r.len() > 0 && r[0] == (n, g)
        },
    decreases nodes.len(),
{
    let node = nodes[0];
    reference_laws::law_keys_are_looked_up(
        node,
        "Resources".spec_bytes(),
        ObjModel::Ref(n, g),
    );
    if nodes.len() == 1 {
        reference_laws::law_keys_are_looked_up(node, "Parent".spec_bytes(), ObjModel::Other);
    } else {
        let up = nodes.drop_first();
        let above = ids.drop_first();
        assert(reference_laws::has(
            nodes[0],
            "Parent".spec_bytes(),
            ObjModel::Ref(ids[1].0, ids[1].1),
        ));
        reference_laws::law_keys_are_looked_up(
            node,
            "Parent".spec_bytes(),
            ObjModel::Ref(ids[1].0, ids[1].1),
        );
        assert(stands_at(doc, ids[1].0, ids[1].1, ObjModel::Dict(nodes[1])));
        lemma_stands_at(doc, ids[1].0, ids[1].1, ObjModel::Dict(nodes[1]));
        assert(is_line(doc, up, above)) by {
            assert forall|i: int| 0 <= i < up.len() implies stands_at(
                doc,
                (#[trigger] above[i]).0,
                above[i].1,
                ObjModel::Dict(up[i]),
            ) by {
                assert(above[i] == ids[i + 1]);
            }
            assert forall|i: int| 0 < i < up.len() implies reference_laws::has(
                up[i - 1],
                "Parent".spec_bytes(),
                ObjModel::Ref((#[trigger] above[i]).0, above[i].1),
            ) by {
                assert(above[i] == ids[i + 1]);
                assert(up[i - 1] == nodes[i + 1 - 1]);
            }
        }
        if 0 <= k < nodes.len() && (forall|i: int|
            0 <= i < k ==> reference_laws::lacks(#[trigger] nodes[i], "Resources".spec_bytes()))
            && reference_laws::has(nodes[k], "Resources".spec_bytes(), ObjModel::Ref(n, g)) {
            assert forall|i: int| 0 <= i < k - 1 implies reference_laws::lacks(
                #[trigger] up[i],
                "Resources".spec_bytes(),
            ) by {
                assert(up[i] == nodes[i + 1]);
            }
            if k > 0 {
                assert(up[k - 1] == nodes[k]);
                assert(reference_laws::lacks(nodes[0], "Resources".spec_bytes()));
            }
        }
        lemma_line(doc, up, above, k - 1, n, g, (steps - 1) as nat);
        if k > 0 {
            assert(nodes[0] == node);
        }
    }
}

/// A page has the resources that stand in it. Else it has those that the nearest of it
/// and its ancestors refers to, however far up that is.
pub proof fn law_resources_are_those_of_the_nearest(
    doc: DocModel,
    nodes: Seq<Seq<(Seq<u8>, ObjModel)>>,
    ids: Seq<(u32, u16)>,
    own: Seq<(Seq<u8>, ObjModel)>,
    k: int,
    n: u32,
    g: u16,
    shared: Seq<(Seq<u8>, ObjModel)>,
)
    requires
        is_line(doc, nodes, ids),
    ensures
        reference_laws::has(nodes[0], "Resources".spec_bytes(), ObjModel::Dict(own))
            ==> content::resources_of(doc, ids[0].0, ids[0].1) == Some(own),
        0 <= k < nodes.len() && (forall|i: int|
            0 <= i < k ==> reference_laws::lacks(#[trigger] nodes[i], "Resources".spec_bytes()))
            && reference_laws::has(nodes[k], "Resources".spec_bytes(), ObjModel::Ref(n, g))
            && stands_at(doc, n, g, ObjModel::Dict(shared)) ==> content::resources_of(
            doc,
            ids[0].0,
            ids[0].1,
        ) == Some(shared),
{
    assert(stands_at(doc, ids[0].0, ids[0].1, ObjModel::Dict(nodes[0])));
    lemma_stands_at(doc, ids[0].0, ids[0].1, ObjModel::Dict(nodes[0]));
    lemma_line(doc, nodes, ids, k, n, g, 1000);
    reference_laws::law_keys_are_looked_up(
        nodes[0],
        "Resources".spec_bytes(),
        ObjModel::Dict(own),
    );
    if 0 <= k < nodes.len() && (forall|i: int|
        0 <= i < k ==> reference_laws::lacks(#[trigger] nodes[i], "Resources".spec_bytes()))
        && reference_laws::has(nodes[k], "Resources".spec_bytes(), ObjModel::Ref(n, g)) && stands_at(
        doc,
        n,
        g,
        ObjModel::Dict(shared),
    ) {
        lemma_stands_at(doc, n, g, ObjModel::Dict(shared));
        reference_laws::law_keys_are_looked_up(
            nodes[0],
            "Resources".spec_bytes(),
            ObjModel::Ref(n, g),
        );
        if k > 0 {
            assert(reference_laws::lacks(nodes[0], "Resources".spec_bytes()));
        }
    }
}

/// Of several references to resources the first that leads to a dictionary counts, and
/// what is none is passed over.
pub proof fn law_resources_that_are_none_are_passed_over(
    doc: DocModel,
    a: Seq<(u32, u16)>,
    id: (u32, u16),
    b: Seq<(u32, u16)>,
    res: Seq<(Seq<u8>, ObjModel)>,
)
    requires
        stands_at(doc, id.0, id.1, ObjModel::Dict(res)),
        forall|i: int|
            0 <= i < a.len() ==> !doc.objects.dom().contains(#[trigger] a[i]) || (
            !(doc.objects[a[i]] is Ref) && !(doc.objects[a[i]] is Dict)),
    ensures
        content::effective(doc, Some((None, a + seq![id] + b))) == Some(res),
        content::effective(doc, Some((None, a))) is None,
{
    lemma_stands_at(doc, id.0, id.1, ObjModel::Dict(res));
    lemma_first_dict(doc, a, seq![id] + b);
    lemma_first_dict(doc, a, Seq::empty());
    assert(a + seq![id] + b =~= a + (seq![id] + b));
    assert(a + Seq::<(u32, u16)>::empty() =~= a);
    assert((seq![id] + b)[0] == id);
}

proof fn lemma_first_dict(doc: DocModel, a: Seq<(u32, u16)>, b: Seq<(u32, u16)>)
    requires
        forall|i: int|
            0 <= i < a.len() ==> !doc.objects.dom().contains(#[trigger] a[i]) || (
            !(doc.objects[a[i]] is Ref) && !(doc.objects[a[i]] is Dict)),
    ensures
        content::first_dict(doc, a + b) == content::first_dict(doc, b),
    decreases a.len(),
{
    if a.len() == 0 {
        assert(a + b =~= b);
    } else {
        let rest = a.drop_first();
        assert((a + b).drop_first() =~= rest + b);
        assert((a + b)[0] == a[0]);
        assert forall|i: int| 0 <= i < rest.len() implies !doc.objects.dom().contains(
            #[trigger] rest[i],
        ) || (!(doc.objects[rest[i]] is Ref) && !(doc.objects[rest[i]] is Dict)) by {
            assert(rest[i] == a[i + 1]);
        }
        lemma_first_dict(doc, rest, b);
        if doc.objects.dom().contains(a[0]) {
            lemma_stands_at(doc, a[0].0, a[0].1, doc.objects[a[0]]);
        }
    }
}

} // verus!
