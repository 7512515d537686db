//! What belongs to a page: its content streams and its resources.

use crate::filters::{self, safe_chain};
use crate::object::{self, get, DocModel, Entry, Obj, ObjModel};
use crate::pdf::Doc;
use vstd::prelude::*;
use vstd::string::StringSliceAdditionalSpecFns;

verus! {

/// The references among some objects.
pub open spec fn references_in(a: Seq<ObjModel>) -> Seq<(u32, u16)>
    decreases a.len(),
{
    if a.len() == 0 {
        Seq::empty()
    } else {
        match a.last() {
            ObjModel::Ref(num, gen) => references_in(a.drop_last()).push((num, gen)),
            _ => references_in(a.drop_last()),
        }
    }
}

/// The identifiers of the content streams that a `/Contents` value names: a
/// stream that it refers to, or the references of an array; `n` references were
/// followed to it, and 127 are followed at most.
pub open spec fn content_ids(
    objects: Map<(u32, u16), ObjModel>,
    o: ObjModel,
    n: nat,
) -> Seq<(u32, u16)>
    decreases 128 - n,
{
    match o {
        ObjModel::Ref(num, gen) => if objects.dom().contains((num, gen)) && !(objects[(
            num,
            gen,
        )] is Stream) {
            if n < 127 {
                content_ids(objects, objects[(num, gen)], n + 1)
            } else {
                Seq::empty()
            }
        } else {
            seq![(num, gen)]
        },
        ObjModel::Array(a) => references_in(a),
        _ => Seq::empty(),
    }
}

/// The data of a content stream, as it stands where it does not decode, and a
/// line feed; nothing for what is no stream.
pub open spec fn stream_part(objects: Map<(u32, u16), ObjModel>, id: (u32, u16)) -> Seq<u8> {
    match object::object_at(objects, id.0, id.1) {
        Some(ObjModel::Stream(d, data)) => (match filters::decoded(d, data) {
            Some(s) => s,
            None => data,
        }).push(0x0A),
        _ => Seq::empty(),
    }
}

/// The content streams with some identifiers, put together.
pub open spec fn joined(objects: Map<(u32, u16), ObjModel>, ids: Seq<(u32, u16)>) -> Seq<u8>
    decreases ids.len(),
{
    if ids.len() == 0 {
        Seq::empty()
    } else {
        joined(objects, ids.drop_last()) + stream_part(objects, ids.last())
    }
}

/// The identifiers of the content streams of a page.
pub open spec fn page_ids(objects: Map<(u32, u16), ObjModel>, num: u32, gen: u16) -> Seq<
    (u32, u16),
> {
    match object::object_at(objects, num, gen) {
        Some(ObjModel::Dict(d)) => match object::value_of(d, "Contents".spec_bytes()) {
            Some(o) => content_ids(objects, o, 0),
            None => Seq::empty(),
        },
        _ => Seq::empty(),
    }
}

/// The stream with an identifier, if it is one, can be decoded.
pub open spec fn part_safe(objects: Map<(u32, u16), ObjModel>, id: (u32, u16)) -> bool {
    object::object_at(objects, id.0, id.1) matches Some(ObjModel::Stream(d, data))
        ==> filters::chain_safe(d, data)
}

/// The content streams of a page can be decoded.
pub open spec fn content_safe(objects: Map<(u32, u16), ObjModel>, num: u32, gen: u16) -> bool {
    let ids = page_ids(objects, num, gen);
    forall|i: int| 0 <= i < ids.len() ==> part_safe(objects, #[trigger] ids[i])
}

/// The content of a page: its content streams, put together; none where they hold
/// numbers that cannot be decoded.
pub open spec fn content_of(doc: DocModel, num: u32, gen: u16) -> Seq<u8> {
    if content_safe(doc.objects, num, gen) {
        joined(doc.objects, page_ids(doc.objects, num, gen))
    } else {
        Seq::empty()
    }
}

/// The most ancestors that a page may have: the reader goes up the page tree by
/// calls within calls.
pub const MAX_ANCESTORS: u64 = 1000;

/// The ancestors of a page-tree node come to an end within a number of steps.
pub open spec fn ancestors_end(
    objects: Map<(u32, u16), ObjModel>,
    node: Seq<(Seq<u8>, ObjModel)>,
    steps: nat,
) -> bool
    decreases steps,
{
    match object::value_of(node, "Parent".spec_bytes()) {
        Some(ObjModel::Ref(num, gen)) => match object::object_at(objects, num, gen) {
            Some(ObjModel::Dict(parent)) => steps > 0 && ancestors_end(
                objects,
                parent,
                (steps - 1) as nat,
            ),
            _ => true,
        },
        _ => true,
    }
}

/// The ancestors of a page come to an end.
pub open spec fn page_ends(objects: Map<(u32, u16), ObjModel>, num: u32, gen: u16) -> bool {
    object::object_at(objects, num, gen) matches Some(ObjModel::Dict(d)) ==> ancestors_end(
        objects,
        d,
        MAX_ANCESTORS as nat,
    )
}

/// The references that a page-tree node and its ancestors, at most as many as
/// given, have as their `/Resources`, its own first. `None` where an ancestor is no
/// dictionary or there are more of them, as where one comes up again.
pub open spec fn inherited_ids(
    objects: Map<(u32, u16), ObjModel>,
    node: Seq<(Seq<u8>, ObjModel)>,
    steps: nat,
) -> Option<Seq<(u32, u16)>>
    decreases steps,
{
    let own = match object::value_of(node, "Resources".spec_bytes()) {
        Some(ObjModel::Ref(num, gen)) => seq![(num, gen)],
        _ => Seq::empty(),
    };
    match object::value_of(node, "Parent".spec_bytes()) {
        Some(ObjModel::Ref(num, gen)) => match object::object_at(objects, num, gen) {
            Some(ObjModel::Dict(parent)) => if steps == 0 {
                None
            } else {
                match inherited_ids(objects, parent, (steps - 1) as nat) {
                    Some(rest) => Some(own + rest),
                    None => None,
                }
            },
            _ => None,
        },
        _ => Some(own),
    }
}

/// The resources that a page names: the dictionary that stands in it, and the
/// references that it and its ancestors hold.
pub open spec fn page_names(objects: Map<(u32, u16), ObjModel>, num: u32, gen: u16) -> Option<
    (Option<Seq<(Seq<u8>, ObjModel)>>, Seq<(u32, u16)>),
> {
    match object::object_at(objects, num, gen) {
        Some(ObjModel::Dict(d)) => match inherited_ids(objects, d, MAX_ANCESTORS as nat) {
            Some(ids) => Some(
                (
                    match object::value_of(d, "Resources".spec_bytes()) {
                        Some(ObjModel::Dict(own)) => Some(own),
                        _ => None,
                    },
                    ids,
                ),
            ),
            None => None,
        },
        _ => Some((None, Seq::empty())),
    }
}

/// The resources that a page of a document names.
pub open spec fn named_resources(doc: DocModel, num: u32, gen: u16) -> Option<
    (Option<Seq<(Seq<u8>, ObjModel)>>, Seq<(u32, u16)>),
> {
    page_names(doc.objects, num, gen)
}

/// Where the ancestors come to no end, no resources are named.
proof fn lemma_endless(
    objects: Map<(u32, u16), ObjModel>,
    node: Seq<(Seq<u8>, ObjModel)>,
    steps: nat,
)
    requires
        !ancestors_end(objects, node, steps),
    ensures
        inherited_ids(objects, node, steps) is None,
    decreases steps,
{
    if let Some(ObjModel::Ref(num, gen)) = object::value_of(node, "Parent".spec_bytes()) {
        if let Some(ObjModel::Dict(parent)) = object::object_at(objects, num, gen) {
            if steps > 0 {
                lemma_endless(objects, parent, (steps - 1) as nat);
            }
        }
    }
}

/// The content of a page.
pub fn page_content(doc: &Doc, num: u32, gen: u16) -> (r: Vec<u8>)
    ensures
        r@ == content_of(doc.view(), num, gen),
{
    let ids = doc.content_ids(num, gen);
    let ghost objects = doc.view().objects;
    let mut i: usize = 0;
    while i < ids.len()
        invariant
            i <= ids@.len(),
            objects == doc.view().objects,
            ids@ == page_ids(objects, num, gen),
            forall|j: int| 0 <= j < i ==> part_safe(objects, #[trigger] ids@[j]),
        decreases ids@.len() - i,
    {
        let (n, g) = ids[i];
        if let Some(o) = doc.object(n, g) {
            proof {
                object::lemma_dict_view(o);
            }
            if let Obj::Stream(d, data) = &o {
                if !safe_chain(d, data.as_slice()) {
                    assert(!part_safe(objects, ids@[i as int]));
                    return Vec::new();
                }
            }
        }
        i += 1;
    }
    doc.content(num, gen)
}

/// Whether the ancestors of a page come to an end.
fn has_end(doc: &Doc, num: u32, gen: u16) -> (r: bool)
    ensures
        r == page_ends(doc.view().objects, num, gen),
{
    let ghost objects = doc.view().objects;
    let mut node = match doc.object(num, gen) {
        Some(o) => {
            proof {
                object::lemma_dict_view(o);
            }
            match o {
                Obj::Dict(d) => d,
                _ => {
                    return true;
                },
            }
        },
        None => {
            return true;
        },
    };
    let mut steps: u64 = MAX_ANCESTORS;
    loop
        invariant
            objects == doc.view().objects,
            page_ends(objects, num, gen) == ancestors_end(
                objects,
                object::entries_model(node@),
                steps as nat,
            ),
        decreases steps,
    {
        let (n, g) = match get(&node, "Parent".as_bytes()) {
            Some(Obj::Ref(n, g)) => (*n, *g),
            _ => {
                return true;
            },
        };
        let parent = match doc.object(n, g) {
            Some(o) => {
                proof {
                    object::lemma_dict_view(o);
                }
                match o {
                    Obj::Dict(d) => d,
                    _ => {
                        return true;
                    },
                }
            },
            None => {
                return true;
            },
        };
        if steps == 0 {
            return false;
        }
        steps -= 1;
        node = parent;
    }
}

/// The resources that a page names.
pub fn page_resources(doc: &Doc, num: u32, gen: u16) -> (r: Option<
    (Option<Vec<Entry>>, Vec<(u32, u16)>),
>)
    ensures
        match r {
            Some((Some(d), ids)) => named_resources(doc.view(), num, gen) == Some(
                (Some(object::entries_model(d@)), ids@),
            ),
            Some((None, ids)) => named_resources(doc.view(), num, gen) == Some(
                (None::<Seq<(Seq<u8>, ObjModel)>>, ids@),
            ),
            None => named_resources(doc.view(), num, gen) is None,
        },
{
    if !has_end(doc, num, gen) {
        proof {
            let objects = doc.view().objects;
            if let Some(ObjModel::Dict(d)) = object::object_at(objects, num, gen) {
                lemma_endless(objects, d, MAX_ANCESTORS as nat);
            }
        }
        return None;
    }
    doc.resources(num, gen)
}

} // verus!
