//! The display box of a page.

use crate::document::look_up;
use crate::number::{self, finite, greatest, least, real_less, to_single_bits};
use crate::object::{self, get, num, Obj, ObjModel};
use crate::pdf::Doc;
use vstd::prelude::*;
use vstd::string::StringSliceAdditionalSpecFns;

verus! {

/// A page's display box in user space: the bits of its four edges.
#[derive(Clone, Copy, Debug, PartialEq, Eq, Structural)]
pub struct PageBox {
    /// Left edge.
    pub l: u32,
    /// Bottom edge.
    pub b: u32,
    /// Right edge.
    pub r: u32,
    /// Top edge.
    pub t: u32,
}

/// 612 points, the width of US Letter.
pub const LETTER_WIDTH: u32 = 0x4419_0000;

/// 792 points, the height of US Letter.
pub const LETTER_HEIGHT: u32 = 0x4446_0000;

/// US Letter, with its lower-left corner at the origin.
pub open spec fn letter() -> PageBox {
    PageBox { l: 0, b: 0, r: LETTER_WIDTH, t: LETTER_HEIGHT }
}

/// The numbers among some objects, in single precision.
pub open spec fn singles(a: Seq<ObjModel>) -> Seq<u32>
    decreases a.len(),
{
    if a.len() == 0 {
        Seq::empty()
    } else {
        match object::number_of(a.last()) {
            Some(n) => singles(a.drop_last()).push(number::single_bits(n)),
            None => singles(a.drop_last()),
        }
    }
}

/// The box between two corners, whichever they are.
pub open spec fn between(v: Seq<u32>) -> PageBox {
    PageBox {
        l: number::real_min(v[0], v[2]),
        b: number::real_min(v[1], v[3]),
        r: number::real_max(v[0], v[2]),
        t: number::real_max(v[1], v[3]),
    }
}

/// The box that an array gives: the one between two corners, if the array holds
/// four numbers and all are finite.
pub open spec fn rect_of(a: Seq<ObjModel>) -> Option<PageBox> {
    let v = singles(a);
    if v.len() == 4 && forall|i: int|
        0 <= i < 4 ==> number::is_finite_bits(#[trigger] v[i]) {
        Some(between(v))
    } else {
        None
    }
}

/// The box that a page-tree node or the nearest of its ancestors gives under a
/// key, looking at `n` nodes at most.
pub open spec fn inherited(
    doc: object::DocModel,
    num: u32,
    gen: u16,
    key: Seq<u8>,
    n: nat,
) -> Option<PageBox>
    decreases n,
{
    if n == 0 {
        None
    } else {
        match object::object_at(doc.objects, num, gen) {
            Some(ObjModel::Dict(d)) => match object::array_entry(doc, d, key) {
                Some(a) => rect_of(a),
                None => match object::value_of(d, "Parent".spec_bytes()) {
                    Some(ObjModel::Ref(pn, pg)) => inherited(doc, pn, pg, key, (n - 1) as nat),
                    _ => None,
                },
            },
            _ => None,
        }
    }
}

/// The box has an area.
pub open spec fn nonempty(r: PageBox) -> bool {
    number::real_key(r.l) < number::real_key(r.r) && number::real_key(r.b)
        < number::real_key(r.t)
}

/// The part of a box that lies in another.
pub open spec fn clipped(c: PageBox, media: PageBox) -> PageBox {
    PageBox {
        l: number::real_max(c.l, media.l),
        b: number::real_max(c.b, media.b),
        r: number::real_min(c.r, media.r),
        t: number::real_min(c.t, media.t),
    }
}

/// The media box of a page: US Letter where it has none or an empty one.
pub open spec fn media_box(doc: object::DocModel, num: u32, gen: u16) -> PageBox {
    match inherited(doc, num, gen, "MediaBox".spec_bytes(), 32) {
        Some(r) => if nonempty(r) {
            r
        } else {
            letter()
        },
        None => letter(),
    }
}

/// The display box of a page: the crop box clipped to the media box, or the
/// media box where that leaves nothing.
pub open spec fn display_box(doc: object::DocModel, num: u32, gen: u16) -> PageBox {
    let media = media_box(doc, num, gen);
    match inherited(doc, num, gen, "CropBox".spec_bytes(), 32) {
        Some(c) => if nonempty(clipped(c, media)) {
            clipped(c, media)
        } else {
            media
        },
        None => media,
    }
}

/// One box lies within another.
pub open spec fn within(a: PageBox, b: PageBox) -> bool {
    &&& number::real_key(b.l) <= number::real_key(a.l)
    &&& number::real_key(b.b) <= number::real_key(a.b)
    &&& number::real_key(a.r) <= number::real_key(b.r)
    &&& number::real_key(a.t) <= number::real_key(b.t)
}

/// The display box always has an area, and never reaches out of the media box.
pub proof fn law_display_box_lies_in_the_media_box(
    doc: object::DocModel,
    num: u32,
    gen: u16,
)
    ensures
        nonempty(display_box(doc, num, gen)),
        within(display_box(doc, num, gen), media_box(doc, num, gen)),
{
}

/// A page without a crop box shows its whole media box, and a crop box that
/// misses the media box is ignored.
pub proof fn law_useless_crop_box_is_ignored(doc: object::DocModel, num: u32, gen: u16)
    requires
        inherited(doc, num, gen, "CropBox".spec_bytes(), 32) matches Some(c) ==> !nonempty(
            clipped(c, media_box(doc, num, gen)),
        ),
    ensures
        display_box(doc, num, gen) == media_box(doc, num, gen),
{
}

/// Corners may be given in any order: the left edge is never right of the right
/// edge, nor the bottom edge above the top edge.
pub proof fn law_reversed_corners_normalize(a: Seq<ObjModel>)
    ensures
        rect_of(a) matches Some(r) ==> number::real_key(r.l) <= number::real_key(r.r)
            && number::real_key(r.b) <= number::real_key(r.t),
{
}

/// The numbers among some objects, in single precision.
fn read_singles(a: &Vec<Obj>) -> (r: Vec<u32>)
    ensures
        r@ == singles(object::array_model(a@)),
{
    let ghost m = object::array_model(a@);
    let mut r: Vec<u32> = Vec::new();
    let mut i: usize = 0;
    while i < a.len()
        invariant
            i <= a@.len(),
            m == object::array_model(a@),
            r@ == singles(m.take(i as int)),
        decreases a@.len() - i,
    {
        assert(m.take(i + 1).drop_last() =~= m.take(i as int));
        assert(m.take(i + 1).last() == a@[i as int].view());
        if let Some(n) = num(&a[i]) {
            r.push(to_single_bits(n));
        }
        i += 1;
    }
    assert(m.take(i as int) =~= m);
    r
}

/// The box that an array gives.
pub fn read_rect(a: &Vec<Obj>) -> (r: Option<PageBox>)
    ensures
        r == rect_of(object::array_model(a@)),
{
    let v = read_singles(a);
    if v.len() == 4 && finite(v[0]) && finite(v[1]) && finite(v[2]) && finite(v[3]) {
        Some(
            PageBox {
                l: least(v[0], v[2]),
                b: least(v[1], v[3]),
                r: greatest(v[0], v[2]),
                t: greatest(v[1], v[3]),
            },
        )
    } else {
        None
    }
}

/// A page-tree box (`MediaBox`, `CropBox`), inherited from the nearest ancestor
/// that sets it.
pub fn inherited_rect(doc: &Doc, num: u32, gen: u16, key: &[u8]) -> (r: Option<PageBox>)
    ensures
        r == inherited(doc.view(), num, gen, key@, 32),
{
    let mut n: u32 = num;
    let mut g: u16 = gen;
    let mut left: usize = 32;
    while left > 0
        invariant
            left <= 32,
            inherited(doc.view(), num, gen, key@, 32) == inherited(
                doc.view(),
                n,
                g,
                key@,
                left as nat,
            ),
        decreases left,
    {
        let node = match doc.object(n, g) {
            Some(o) => o,
            None => {
                return None;
            },
        };
        proof {
            object::lemma_dict_view(node);
        }
        let dict = match &node {
            Obj::Dict(d) => d,
            _ => {
                return None;
            },
        };
        if let Some(m) = look_up(doc, dict, key) {
            if let Some(a) = m.array() {
                return read_rect(a);
            }
        }
        match get(dict, "Parent".as_bytes()) {
            Some(Obj::Ref(pn, pg)) => {
                n = *pn;
                g = *pg;
            },
            _ => {
                return None;
            },
        }
        left -= 1;
    }
    None
}

/// Whether a box has an area.
fn has_area(r: &PageBox) -> (b: bool)
    ensures
        b == nonempty(*r),
{
    real_less(r.l, r.r) && real_less(r.b, r.t)
}

/// The display box of a page: the `/CropBox` clipped to the `/MediaBox`, both
/// inherited through the page tree and normalized. A missing or empty media box
/// is US Letter, an empty crop box is the media box. Coordinates of a page's
/// glyphs count from the lower-left corner of this box.
pub fn page_box(doc: &Doc, num: u32, gen: u16) -> (r: PageBox)
    ensures
        r == display_box(doc.view(), num, gen),
{
    let mut media = PageBox { l: 0, b: 0, r: LETTER_WIDTH, t: LETTER_HEIGHT };
    if let Some(r) = inherited_rect(doc, num, gen, "MediaBox".as_bytes()) {
        if has_area(&r) {
            media = r;
        }
    }
    if let Some(c) = inherited_rect(doc, num, gen, "CropBox".as_bytes()) {
        let crop = PageBox {
            l: greatest(c.l, media.l),
            b: greatest(c.b, media.b),
            r: least(c.r, media.r),
            t: least(c.t, media.t),
        };
        if has_area(&crop) {
            return crop;
        }
    }
    media
}

} // verus!
