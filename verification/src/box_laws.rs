//! Which box a page shows, told by the numbers in its page tree.

use crate::number::{self, Number};
use crate::number_laws;
use crate::object::{DocModel, ObjModel};
use crate::page_box::{self, PageBox, LETTER_HEIGHT, LETTER_WIDTH};
use crate::reference_laws;
use vstd::arithmetic::power2;
use vstd::prelude::*;
use vstd::string::StringSliceAdditionalSpecFns;

verus! {

/// A way up the page tree, from node to parent; the nodes before the last have nothing
/// under a key.
pub open spec fn climbs(
    doc: DocModel,
    ids: Seq<(u32, u16)>,
    nodes: Seq<Seq<(Seq<u8>, ObjModel)>>,
    key: Seq<u8>,
) -> bool {
    &&& 1 <= ids.len() <= 32
    &&& nodes.len() == ids.len()
    &&& forall|i: int|
        0 <= i < ids.len() ==> reference_laws::stands_for(
            doc,
            ObjModel::Ref((#[trigger] ids[i]).0, ids[i].1),
            ObjModel::Dict(nodes[i]),
        )
    &&& forall|i: int|
        0 <= i < ids.len() - 1 ==> reference_laws::lacks(#[trigger] nodes[i], key)
            && reference_laws::has(
            nodes[i],
            "Parent".spec_bytes(),
            ObjModel::Ref(ids[i + 1].0, ids[i + 1].1),
        )
}

/// What a node on a way up gives under a key is what the last one gives.
proof fn lemma_climb(
    doc: DocModel,
    ids: Seq<(u32, u16)>,
    nodes: Seq<Seq<(Seq<u8>, ObjModel)>>,
    key: Seq<u8>,
    j: int,
    n: nat,
)
    requires
        climbs(doc, ids, nodes, key),
        0 <= j < ids.len(),
        ids.len() - j <= n,
    ensures
        page_box::inherited(doc, ids[j].0, ids[j].1, key, n) == page_box::inherited(
            doc,
            ids.last().0,
            ids.last().1,
            key,
            (n - (ids.len() - 1 - j)) as nat,
        ),
    decreases ids.len() - j,
{
    if j < ids.len() - 1 {
        let d = nodes[j];
        reference_laws::law_references_are_followed(
            doc,
            ObjModel::Ref(ids[j].0, ids[j].1),
            ObjModel::Dict(d),
        );
        let parent = ObjModel::Ref(ids[j + 1].0, ids[j + 1].1);
        reference_laws::law_keys_are_looked_up(d, "Parent".spec_bytes(), parent);
        reference_laws::law_keys_are_looked_up(d, key, ObjModel::Other);
        assert(reference_laws::lacks(nodes[j], key));
        lemma_climb(doc, ids, nodes, key, j + 1, (n - 1) as nat);
    }
}

/// A box that only the last node of a way up gives is the box of every node on the
/// way, however many there are; without one, and without a parent at the end, there
/// is none.
pub proof fn law_boxes_come_down_the_page_tree(
    doc: DocModel,
    ids: Seq<(u32, u16)>,
    nodes: Seq<Seq<(Seq<u8>, ObjModel)>>,
    key: Seq<u8>,
    a: Seq<ObjModel>,
    j: int,
)
    requires
        climbs(doc, ids, nodes, key),
        0 <= j < ids.len(),
    ensures
        reference_laws::holds(doc, nodes.last(), key, ObjModel::Array(a)) ==> page_box::inherited(
            doc,
            ids[j].0,
            ids[j].1,
            key,
            32,
        ) == page_box::rect_of(a),
        reference_laws::lacks(nodes.last(), key) && reference_laws::lacks(
            nodes.last(),
            "Parent".spec_bytes(),
        ) ==> page_box::inherited(doc, ids[j].0, ids[j].1, key, 32) is None,
{
    lemma_climb(doc, ids, nodes, key, j, 32);
    let k = ids.len() - 1;
    let d = nodes[k];
    assert(ids.last() == ids[k]);
    assert(nodes.last() == d);
    reference_laws::law_references_are_followed(
        doc,
        ObjModel::Ref(ids[k].0, ids[k].1),
        ObjModel::Dict(d),
    );
    reference_laws::law_entries_mean_what_they_stand_for(doc, d, key, ObjModel::Array(a));
    reference_laws::law_keys_are_looked_up(d, "Parent".spec_bytes(), ObjModel::Other);
}

/// A node without a box of its own has that of its parent, where a way up leads to a
/// box.
pub proof fn law_a_node_has_the_box_of_its_parent(
    doc: DocModel,
    ids: Seq<(u32, u16)>,
    nodes: Seq<Seq<(Seq<u8>, ObjModel)>>,
    key: Seq<u8>,
    a: Seq<ObjModel>,
    j: int,
)
    requires
        climbs(doc, ids, nodes, key),
        0 <= j < ids.len() - 1,
        reference_laws::holds(doc, nodes.last(), key, ObjModel::Array(a)),
    ensures
        page_box::inherited(doc, ids[j].0, ids[j].1, key, 32) == page_box::inherited(
            doc,
            ids[j + 1].0,
            ids[j + 1].1,
            key,
            32,
        ),
{
    law_boxes_come_down_the_page_tree(doc, ids, nodes, key, a, j);
    law_boxes_come_down_the_page_tree(doc, ids, nodes, key, a, j + 1);
}

/// The lesser of two values.
pub open spec fn lesser(a: int, b: int) -> int {
    if b < a {
        b
    } else {
        a
    }
}

/// The greater of two values.
pub open spec fn greater(a: int, b: int) -> int {
    if a < b {
        b
    } else {
        a
    }
}

/// The edges of a box have these values, in units of 2 to the -149.
pub open spec fn edges_are(r: PageBox, left: int, bottom: int, right: int, top: int) -> bool {
    &&& number::units(r.l) == left
    &&& number::units(r.b) == bottom
    &&& number::units(r.r) == right
    &&& number::units(r.t) == top
}

/// The lesser and the greater of two reals by value.
proof fn lemma_extremes(a: u32, b: u32)
    ensures
        number::units(number::real_min(a, b)) == lesser(number::units(a), number::units(b)),
        number::units(number::real_max(a, b)) == greater(number::units(a), number::units(b)),
{
    number_laws::law_reals_are_ordered_by_value(a, b);
    number_laws::law_reals_are_ordered_by_value(b, a);
}

/// Four finite numbers `x0 y0 x1 y1` are two opposite corners of a box, in any order;
/// any other count of numbers is no box.
pub proof fn law_four_numbers_are_two_corners(a: Seq<ObjModel>, n: Seq<Number>)
    requires
        a.len() == n.len(),
        forall|i: int| 0 <= i < a.len() ==> #[trigger] a[i] == ObjModel::Num(n[i]),
    ensures
        n.len() != 4 ==> page_box::rect_of(a) is None,
        n.len() == 4 && (forall|i: int|
            0 <= i < 4 ==> number::is_finite_bits(number::single_bits(#[trigger] n[i]))) ==> ({
            let v = Seq::new(4, |i: int| number::units(number::single_bits(n[i])));
            page_box::rect_of(a) matches Some(r) && edges_are(
                r,
                lesser(v[0], v[2]),
                lesser(v[1], v[3]),
                greater(v[0], v[2]),
                greater(v[1], v[3]),
            )
        }),
{
    lemma_singles(a, n);
    let s = page_box::singles(a);
    if n.len() == 4 {
        lemma_extremes(s[0], s[2]);
        lemma_extremes(s[1], s[3]);
        if forall|i: int| 0 <= i < 4 ==> number::is_finite_bits(number::single_bits(#[trigger] n[i])) {
            assert forall|i: int| 0 <= i < 4 implies number::is_finite_bits(#[trigger] s[i]) by {
                assert(s[i] == number::single_bits(n[i]));
            }
        }
    }
}

/// The numbers of a list of numbers.
proof fn lemma_singles(a: Seq<ObjModel>, n: Seq<Number>)
    requires
        a.len() == n.len(),
        forall|i: int| 0 <= i < a.len() ==> #[trigger] a[i] == ObjModel::Num(n[i]),
    ensures
        page_box::singles(a).len() == n.len(),
        forall|i: int|
            0 <= i < n.len() ==> #[trigger] page_box::singles(a)[i] == number::single_bits(n[i]),
    decreases a.len(),
{
    if a.len() > 0 {
        assert(a.last() == ObjModel::Num(n.last()));
        lemma_singles(a.drop_last(), n.drop_last());
        assert forall|i: int| 0 <= i < n.len() implies #[trigger] page_box::singles(a)[i]
            == number::single_bits(n[i]) by {
            if i < n.len() - 1 {
                assert(page_box::singles(a.drop_last())[i] == number::single_bits(n.drop_last()[i]));
            }
        }
    }
}

/// The numbers of two lists one after the other.
proof fn lemma_singles_add(a: Seq<ObjModel>, b: Seq<ObjModel>)
    ensures
        page_box::singles(a + b) == page_box::singles(a) + page_box::singles(b),
    decreases b.len(),
{
    if b.len() > 0 {
        lemma_singles_add(a, b.drop_last());
        assert((a + b).drop_last() =~= a + b.drop_last());
        assert((a + b).last() == b.last());
        assert(page_box::singles(a + b) =~= page_box::singles(a) + page_box::singles(b));
    } else {
        assert(a + b =~= a);
        assert(page_box::singles(a) + page_box::singles(b) =~= page_box::singles(a));
    }
}

/// What is no number is passed over in a box.
pub proof fn law_only_numbers_count_in_a_box(a: Seq<ObjModel>, o: ObjModel, b: Seq<ObjModel>)
    requires
        !(o is Num),
    ensures
        page_box::rect_of(a + seq![o] + b) == page_box::rect_of(a + b),
{
    lemma_singles_add(a, b);
    lemma_singles_add(a + seq![o], b);
    lemma_singles_add(a, seq![o]);
    assert(seq![o].drop_last() =~= Seq::<ObjModel>::empty());
    assert(seq![o].last() == o);
    reveal_with_fuel(page_box::singles, 2);
    assert(page_box::singles(seq![o]) =~= Seq::<u32>::empty());
    assert(page_box::singles(a) + Seq::<u32>::empty() =~= page_box::singles(a));
}

/// Integers as objects.
pub open spec fn ints(n: Seq<i64>) -> Seq<ObjModel> {
    Seq::new(n.len(), |i: int| ObjModel::Num(Number::Int(n[i])))
}

/// Four integers of up to 24 bits.
pub open spec fn four_small(n: Seq<i64>) -> bool {
    n.len() == 4 && forall|i: int| 0 <= i < 4 ==> -0x100_0000 < #[trigger] n[i] < 0x100_0000
}

/// The box of four integers.
proof fn lemma_int_box(n: Seq<i64>)
    requires
        four_small(n),
    ensures
        page_box::rect_of(ints(n)) matches Some(r) && edges_are(
            r,
            lesser(n[0] as int, n[2] as int) * power2::pow2(149),
            lesser(n[1] as int, n[3] as int) * power2::pow2(149),
            greater(n[0] as int, n[2] as int) * power2::pow2(149),
            greater(n[1] as int, n[3] as int) * power2::pow2(149),
        ),
{
    let m = Seq::new(4, |i: int| Number::Int(n[i]));
    let u = power2::pow2(149) as int;
    power2::lemma_pow2_pos(149);
    assert forall|i: int| 0 <= i < 4 implies #[trigger] ints(n)[i] == ObjModel::Num(m[i]) by {}
    assert forall|i: int| 0 <= i < 4 implies number::is_finite_bits(
        number::single_bits(#[trigger] m[i]),
    ) by {
        assert(-0x100_0000 < n[i] < 0x100_0000);
        number_laws::law_small_integers_keep_their_value(n[i]);
    }
    law_four_numbers_are_two_corners(ints(n), m);
    number_laws::law_small_integers_keep_their_value(n[0]);
    number_laws::law_small_integers_keep_their_value(n[1]);
    number_laws::law_small_integers_keep_their_value(n[2]);
    number_laws::law_small_integers_keep_their_value(n[3]);
    lemma_scaled(n[0] as int, n[2] as int, u);
    lemma_scaled(n[1] as int, n[3] as int, u);
}

/// Scaling keeps the order.
proof fn lemma_scaled(a: int, b: int, u: int)
    requires
        u > 0,
    ensures
        a < b <==> a * u < b * u,
        lesser(a * u, b * u) == lesser(a, b) * u,
        greater(a * u, b * u) == greater(a, b) * u,
{
    if a < b {
        assert(a * u < b * u) by (nonlinear_arith)
            requires
                a < b,
                u > 0,
        ;
    } else if b < a {
        assert(b * u < a * u) by (nonlinear_arith)
            requires
                b < a,
                u > 0,
        ;
    }
}

/// A page inherits an array under a key, from itself or an ancestor.
pub open spec fn inherits(doc: DocModel, id: (u32, u16), key: Seq<u8>, a: Seq<ObjModel>) -> bool {
    exists|ids: Seq<(u32, u16)>, nodes: Seq<Seq<(Seq<u8>, ObjModel)>>| #[trigger]
        climbs(doc, ids, nodes, key) && ids[0] == id && reference_laws::holds(
            doc,
            nodes.last(),
            key,
            ObjModel::Array(a),
        )
}

/// A page inherits nothing under a key.
pub open spec fn inherits_nothing(doc: DocModel, id: (u32, u16), key: Seq<u8>) -> bool {
    exists|ids: Seq<(u32, u16)>, nodes: Seq<Seq<(Seq<u8>, ObjModel)>>| #[trigger]
        climbs(doc, ids, nodes, key) && ids[0] == id && reference_laws::lacks(nodes.last(), key)
            && reference_laws::lacks(nodes.last(), "Parent".spec_bytes())
}

/// What a page inherits is its box.
proof fn lemma_inherits(doc: DocModel, id: (u32, u16), key: Seq<u8>, a: Seq<ObjModel>)
    ensures
        inherits(doc, id, key, a) ==> page_box::inherited(doc, id.0, id.1, key, 32)
            == page_box::rect_of(a),
        inherits_nothing(doc, id, key) ==> page_box::inherited(doc, id.0, id.1, key, 32) is None,
{
    if inherits(doc, id, key, a) {
        let (ids, nodes) = choose|
            ids: Seq<(u32, u16)>,
            nodes: Seq<Seq<(Seq<u8>, ObjModel)>>,
        | #[trigger]
            climbs(doc, ids, nodes, key) && ids[0] == id && reference_laws::holds(
                doc,
                nodes.last(),
                key,
                ObjModel::Array(a),
            );
        law_boxes_come_down_the_page_tree(doc, ids, nodes, key, a, 0);
    }
    if inherits_nothing(doc, id, key) {
        let (ids, nodes) = choose|
            ids: Seq<(u32, u16)>,
            nodes: Seq<Seq<(Seq<u8>, ObjModel)>>,
        | #[trigger]
            climbs(doc, ids, nodes, key) && ids[0] == id && reference_laws::lacks(
                nodes.last(),
                key,
            ) && reference_laws::lacks(nodes.last(), "Parent".spec_bytes());
        law_boxes_come_down_the_page_tree(doc, ids, nodes, key, a, 0);
    }
}

/// US Letter is 612 by 792.
proof fn lemma_letter()
    ensures
        edges_are(
            page_box::letter(),
            0,
            0,
            612 * (power2::pow2(149) as int),
            792 * (power2::pow2(149) as int),
        ),
{
    power2::lemma2_to64();
    power2::lemma_pow2_adds(14, 135);
    let p = power2::pow2(135) as int;
    assert(number::exponent_bits(LETTER_WIDTH) == 136 && number::fraction_bits(LETTER_WIDTH)
        == 0x19_0000);
    assert(number::exponent_bits(LETTER_HEIGHT) == 136 && number::fraction_bits(LETTER_HEIGHT)
        == 0x46_0000);
    assert(0x99_0000 * p == 612 * (16384 * p)) by (nonlinear_arith);
    assert(0xC6_0000 * p == 792 * (16384 * p)) by (nonlinear_arith);
    assert(number::units(0) == 0) by {
        assert(number::significand(0) == 0);
        assert(0 * power2::pow2(number::scale(0)) == 0) by (nonlinear_arith);
    }
}

/// A page whose media box, its own or inherited, has the corners `(x0, y0)` and
/// `(x1, y1)` shows that box, or the part of it that lies in its crop box where there
/// is such a part. A page without boxes is US Letter.
pub proof fn law_a_page_shows_its_crop_box_in_its_media_box(
    doc: DocModel,
    id: (u32, u16),
    m: Seq<i64>,
    c: Seq<i64>,
)
    requires
        four_small(m),
        four_small(c),
        m[0] < m[2],
        m[1] < m[3],
        c[0] <= c[2],
        c[1] <= c[3],
    ensures
        ({
            let u = power2::pow2(149) as int;
            let shown = page_box::display_box(doc, id.0, id.1);
            let l = greater(c[0] as int, m[0] as int);
            let b = greater(c[1] as int, m[1] as int);
            let r = lesser(c[2] as int, m[2] as int);
            let t = lesser(c[3] as int, m[3] as int);
            let media = inherits(doc, id, "MediaBox".spec_bytes(), ints(m));
            let crop = inherits(doc, id, "CropBox".spec_bytes(), ints(c));
            let no_crop = inherits_nothing(doc, id, "CropBox".spec_bytes());
            &&& media && no_crop ==> edges_are(shown, m[0] * u, m[1] * u, m[2] * u, m[3] * u)
            &&& media && crop && l < r && b < t ==> edges_are(shown, l * u, b * u, r * u, t * u)
            &&& media && crop && !(l < r && b < t) ==> edges_are(
                shown,
                m[0] * u,
                m[1] * u,
                m[2] * u,
                m[3] * u,
            )
            &&& inherits_nothing(doc, id, "MediaBox".spec_bytes()) && no_crop ==> edges_are(
                shown,
                0,
                0,
                612 * u,
                792 * u,
            )
        }),
{
    let u = power2::pow2(149) as int;
    power2::lemma_pow2_pos(149);
    lemma_inherits(doc, id, "MediaBox".spec_bytes(), ints(m));
    lemma_inherits(doc, id, "CropBox".spec_bytes(), ints(c));
    lemma_int_box(m);
    lemma_int_box(c);
    lemma_letter();
    let media = page_box::rect_of(ints(m)).unwrap();
    let crop = page_box::rect_of(ints(c)).unwrap();
    lemma_scaled(m[0] as int, m[2] as int, u);
    lemma_scaled(m[1] as int, m[3] as int, u);
    lemma_scaled(c[0] as int, m[0] as int, u);
    lemma_scaled(c[1] as int, m[1] as int, u);
    lemma_scaled(c[2] as int, m[2] as int, u);
    lemma_scaled(c[3] as int, m[3] as int, u);
    lemma_extremes(crop.l, media.l);
    lemma_extremes(crop.b, media.b);
    lemma_extremes(crop.r, media.r);
    lemma_extremes(crop.t, media.t);
    number_laws::law_reals_are_ordered_by_value(media.l, media.r);
    number_laws::law_reals_are_ordered_by_value(media.b, media.t);
    let part = page_box::clipped(crop, media);
    number_laws::law_reals_are_ordered_by_value(part.l, part.r);
    number_laws::law_reals_are_ordered_by_value(part.b, part.t);
    lemma_scaled(
        greater(c[0] as int, m[0] as int),
        lesser(c[2] as int, m[2] as int),
        u,
    );
    lemma_scaled(
        greater(c[1] as int, m[1] as int),
        lesser(c[3] as int, m[3] as int),
        u,
    );
}

/// Fewer elements give no more numbers.
proof fn lemma_few_singles(a: Seq<ObjModel>)
    ensures
        page_box::singles(a).len() <= a.len(),
    decreases a.len(),
{
    if a.len() > 0 {
        lemma_few_singles(a.drop_last());
    }
}

/// A page whose media box is flat, or has fewer than four numbers, is US Letter.
pub proof fn law_useless_media_boxes_are_us_letter(
    doc: DocModel,
    id: (u32, u16),
    m: Seq<i64>,
    a: Seq<ObjModel>,
)
    requires
        four_small(m),
        m[0] == m[2] || m[1] == m[3],
        a.len() < 4,
        inherits_nothing(doc, id, "CropBox".spec_bytes()),
        inherits(doc, id, "MediaBox".spec_bytes(), ints(m)) || inherits(
            doc,
            id,
            "MediaBox".spec_bytes(),
            a,
        ),
    ensures
        edges_are(
            page_box::display_box(doc, id.0, id.1),
            0,
            0,
            612 * (power2::pow2(149) as int),
            792 * (power2::pow2(149) as int),
        ),
{
    power2::lemma_pow2_pos(149);
    lemma_inherits(doc, id, "MediaBox".spec_bytes(), ints(m));
    lemma_inherits(doc, id, "MediaBox".spec_bytes(), a);
    lemma_inherits(doc, id, "CropBox".spec_bytes(), a);
    lemma_int_box(m);
    lemma_letter();
    lemma_few_singles(a);
    let media = page_box::rect_of(ints(m)).unwrap();
    number_laws::law_reals_are_ordered_by_value(media.l, media.r);
    number_laws::law_reals_are_ordered_by_value(media.b, media.t);
}

/// A page without a media box shows the part of US Letter that lies in its crop box, or
/// all of it where there is no such part.
pub proof fn law_crop_boxes_cut_us_letter(doc: DocModel, id: (u32, u16), c: Seq<i64>)
    requires
        four_small(c),
        c[0] <= c[2],
        c[1] <= c[3],
        inherits_nothing(doc, id, "MediaBox".spec_bytes()),
        inherits(doc, id, "CropBox".spec_bytes(), ints(c)),
    ensures
        ({
            let u = power2::pow2(149) as int;
            let shown = page_box::display_box(doc, id.0, id.1);
            let l = greater(c[0] as int, 0);
            let b = greater(c[1] as int, 0);
            let r = lesser(c[2] as int, 612);
            let t = lesser(c[3] as int, 792);
            &&& l < r && b < t ==> edges_are(shown, l * u, b * u, r * u, t * u)
            &&& !(l < r && b < t) ==> edges_are(shown, 0, 0, 612 * u, 792 * u)
        }),
{
    let u = power2::pow2(149) as int;
    power2::lemma_pow2_pos(149);
    lemma_inherits(doc, id, "MediaBox".spec_bytes(), ints(c));
    lemma_inherits(doc, id, "CropBox".spec_bytes(), ints(c));
    lemma_int_box(c);
    lemma_letter();
    let media = page_box::letter();
    let crop = page_box::rect_of(ints(c)).unwrap();
    assert(0 * u == 0) by (nonlinear_arith);
    lemma_scaled(c[0] as int, 0, u);
    lemma_scaled(c[1] as int, 0, u);
    lemma_scaled(c[2] as int, 612, u);
    lemma_scaled(c[3] as int, 792, u);
    lemma_extremes(crop.l, media.l);
    lemma_extremes(crop.b, media.b);
    lemma_extremes(crop.r, media.r);
    lemma_extremes(crop.t, media.t);
    let part = page_box::clipped(crop, media);
    number_laws::law_reals_are_ordered_by_value(part.l, part.r);
    number_laws::law_reals_are_ordered_by_value(part.b, part.t);
    lemma_scaled(greater(c[0] as int, 0), lesser(c[2] as int, 612), u);
    lemma_scaled(greater(c[1] as int, 0), lesser(c[3] as int, 792), u);
}

} // verus!
