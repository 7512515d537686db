//! The boundary to the document reader.
//!
//! Everything that is believed of the reader stands here: how a file is loaded,
//! what a document holds, and what its streams and content operations decode to.

use crate::filters;
use crate::images::{self, images_safe};
use crate::loading::{self, load_safe, REFUSED};
use crate::number::Number;
use crate::object::{self, DocModel, Entry, Obj, ObjModel, OpModel};
use crate::page_parts;
use vstd::prelude::*;

verus! {

#[verifier::external_type_specification]
#[verifier::external_body]
pub struct ExDocument(lopdf::Document);

#[verifier::external_type_specification]
#[verifier::external_body]
pub struct ExObject(lopdf::Object);

/// What an object of the reader holds.
pub uninterp spec fn object_model(o: lopdf::Object) -> ObjModel;

/// What one filter of a stream gives on data, with integer parameters; `None`
/// where it fails or is not known.
pub uninterp spec fn filtered(
    filter: Seq<u8>,
    params: Seq<(Seq<u8>, i64)>,
    data: Seq<u8>,
) -> Option<Seq<u8>>;

/// The objects that a document of the reader holds, by identifier.
pub uninterp spec fn document_objects(d: lopdf::Document) -> Map<(u32, u16), ObjModel>;

/// The identifiers of a document's pages, in page-tree order.
pub uninterp spec fn document_pages(d: lopdf::Document) -> Seq<(u32, u16)>;

/// The numbers of the objects that a document's cross-references list, in order,
/// each with the number of the object stream that it stands in, if it does.
pub uninterp spec fn document_homes(d: lopdf::Document) -> Seq<(u32, Option<u32>)>;

/// Whether a document was decrypted when it was loaded.
pub uninterp spec fn document_decrypted(d: lopdf::Document) -> bool;

/// What loading a file gives: a document, or the text of the error.
pub uninterp spec fn load_outcome(bytes: Seq<u8>) -> Result<DocModel, Seq<char>>;

/// The operations that a content stream decodes to.
pub uninterp spec fn content_operations(bytes: Seq<u8>) -> Option<Seq<OpModel>>;

/// The model of a document of the reader.
pub open spec fn document_model(d: lopdf::Document) -> DocModel {
    DocModel {
        objects: document_objects(d),
        pages: document_pages(d),
        homes: document_homes(d),
        decrypted: document_decrypted(d),
    }
}

/// The elements of an array of the reader.
pub open spec fn elements_model(a: Seq<lopdf::Object>) -> Seq<ObjModel> {
    Seq::new(a.len(), |i: int| object_model(a[i]))
}

/// The entries of a dictionary of the reader.
pub open spec fn pairs_model(d: Seq<(Vec<u8>, lopdf::Object)>) -> Seq<(Seq<u8>, ObjModel)> {
    Seq::new(d.len(), |i: int| (d[i].0@, object_model(d[i].1)))
}

/// The operations of a content stream of the reader.
pub open spec fn operations_model(v: Seq<(String, Vec<lopdf::Object>)>) -> Seq<OpModel> {
    Seq::new(
        v.len(),
        |i: int| OpModel { operator: v[i].0@, operands: elements_model(v[i].1@) },
    )
}

/// One level of an object of the reader.
pub enum Node {
    Other,
    Num(Number),
    Name(Vec<u8>),
    Str(Vec<u8>),
    Array(Vec<lopdf::Object>),
    Dict(Vec<(Vec<u8>, lopdf::Object)>),
    Stream(Vec<(Vec<u8>, lopdf::Object)>, Vec<u8>),
    Ref(u32, u16),
}

/// What one level of an object and what hangs below it is.
pub open spec fn node_model(n: Node) -> ObjModel {
    match n {
        Node::Other => ObjModel::Other,
        Node::Num(v) => ObjModel::Num(v),
        Node::Name(v) => ObjModel::Name(v@),
        Node::Str(v) => ObjModel::Str(v@),
        Node::Array(a) => ObjModel::Array(elements_model(a@)),
        Node::Dict(d) => ObjModel::Dict(pairs_model(d@)),
        Node::Stream(d, s) => ObjModel::Stream(pairs_model(d@), s@),
        Node::Ref(num, gen) => ObjModel::Ref(num, gen),
    }
}

/// Takes one level of a `lopdf::Object` apart, variant by variant: null and
/// booleans become `Other`, a real becomes its bits, the format of a string is
/// dropped, and a dictionary becomes its entries in order. A stream becomes its
/// entries and its content as it stands in the file. What comes out is what the
/// object holds.
#[verifier::external_body]
fn open_object(o: lopdf::Object) -> (r: Node)
    ensures
        node_model(r) == object_model(o),
{
    match o {
        lopdf::Object::Null | lopdf::Object::Boolean(_) => Node::Other,
        lopdf::Object::Integer(i) => Node::Num(Number::Int(i)),
        lopdf::Object::Real(r) => Node::Num(Number::Real(r.to_bits())),
        lopdf::Object::Name(n) => Node::Name(n),
        lopdf::Object::String(s, _) => Node::Str(s),
        lopdf::Object::Array(a) => Node::Array(a),
        lopdf::Object::Dictionary(d) => Node::Dict(d.into_iter().collect()),
        lopdf::Object::Stream(s) => Node::Stream(s.dict.into_iter().collect(), s.content),
        lopdf::Object::Reference(id) => Node::Ref(id.0, id.1),
    }
}

/// Calls `lopdf::Stream::decompressed_content` on a stream with this one filter,
/// these parameters and this content: the content run through the filter, or
/// nothing where the filter fails or is not known. The decoder of base-85 groups
/// and that of predictor rows add and multiply without a check, so the numbers
/// that they work with have to stay in range.
#[verifier::external_body]
pub(crate) fn run_filter(filter: &[u8], params: &Vec<(Vec<u8>, i64)>, data: Vec<u8>) -> (r: Option<
    Vec<u8>,
>)
    requires
        filters::decodable(filter@, filters::params_model(params@), data@),
    ensures
        match r {
            Some(v) => filtered(filter@, filters::params_model(params@), data@) == Some(v@),
            None => filtered(filter@, filters::params_model(params@), data@) is None,
        },
{
    let parms = params.iter().map(|p| (p.0.clone(), lopdf::Object::Integer(p.1))).collect();
    let mut dict = lopdf::Dictionary::new();
    dict.set("Filter", lopdf::Object::Name(filter.to_vec()));
    dict.set("DecodeParms", lopdf::Object::Dictionary(parms));
    lopdf::Stream::new(dict, data).decompressed_content().ok()
}

/// Calls `lopdf::Document::load_mem`, and takes the text of an error. The result
/// is a function of the bytes, but for the objects of a file that had to be
/// decrypted and in which an object stream stands in another: the reader goes
/// through the object streams of a decrypted file in no fixed order, which matters
/// only where one of them is replaced by what another holds. Whether such a file
/// loads, and what its cross-references list, is fixed too.
///
/// The call does not check some of its sums, so numbers out of range have to be left
/// out. It also goes on inside itself where it looks an object up: from a stream to
/// an object that is its length, and from an object to the object stream that it
/// stands in. From length to length it goes to no object twice, but with an object
/// stream it begins anew. So chains of these have to end. Where an object stands is
/// told by the cross-references, which are read before any object is looked up, and so
/// are the same in the quieted file, in which none is.
#[verifier::external_body]
pub(crate) fn load_mem(bytes: &[u8]) -> (r: Result<lopdf::Document, String>)
    requires
        loading::loadable(bytes@),
    ensures
        match r {
            Ok(d) => load_outcome(bytes@) matches Ok(m) && m.decrypted == document_decrypted(d)
                && m.homes == document_homes(d) && (object::is_fixed(m) ==> m == document_model(d)),
            Err(e) => load_outcome(bytes@) == Err::<DocModel, Seq<char>>(e@),
        },
{
    match lopdf::Document::load_mem(bytes) {
        Ok(d) => Ok(d),
        Err(e) => Err(e.to_string()),
    }
}

/// Reads the entries of `lopdf::Document::reference_table`, which are a map in the
/// order of their numbers: each with its number, and the container of a compressed
/// one.
#[verifier::external_body]
pub(crate) fn homes_of(d: &lopdf::Document) -> (r: Vec<(u32, Option<u32>)>)
    ensures
        r@ == document_homes(*d),
{
    let mut r = Vec::new();
    for (num, entry) in &d.reference_table.entries {
        let home = match entry {
            lopdf::xref::XrefEntry::Compressed { container, .. } => Some(*container),
            lopdf::xref::XrefEntry::Normal { .. } => None,
            lopdf::xref::XrefEntry::Free => None,
            lopdf::xref::XrefEntry::UnusableFree => None,
        };
        r.push((*num, home));
    }
    r
}

/// Calls `lopdf::Document::page_iter`, which walks the page tree in order, and
/// takes the identifiers as they come.
#[verifier::external_body]
fn page_ids(d: &lopdf::Document) -> (r: Vec<(u32, u16)>)
    ensures
        r@ == document_pages(*d),
{
    let mut r = Vec::new();
    for id in d.page_iter() {
        r.push(id);
    }
    r
}

/// Calls `lopdf::Document::get_object`, which follows references, at most 128
/// after the first, and copies the object.
#[verifier::external_body]
fn get_object(d: &lopdf::Document, num: u32, gen: u16) -> (r: Option<lopdf::Object>)
    ensures
        match r {
            Some(o) => object::object_at(document_objects(*d), num, gen) == Some(
                object_model(o),
            ),
            None => object::object_at(document_objects(*d), num, gen) is None,
        },
{
    d.get_object((num, gen)).ok().cloned()
}

/// Calls `lopdf::Document::get_page_contents`, which lists the content streams of a
/// page: the one that its `/Contents` refers to, through at most 127 references, or
/// those that an array there refers to.
#[verifier::external_body]
fn content_ids(d: &lopdf::Document, num: u32, gen: u16) -> (r: Vec<(u32, u16)>)
    ensures
        r@ == page_parts::page_ids(document_objects(*d), num, gen),
{
    d.get_page_contents((num, gen))
}

/// Calls `lopdf::Document::get_page_content`, which puts the decoded content streams
/// of a page together, each with a line feed behind it; one that does not decode is
/// taken as it stands. The decoders add and multiply without a check, so the numbers
/// that they work with have to stay in range.
#[verifier::external_body]
fn page_content(d: &lopdf::Document, num: u32, gen: u16) -> (r: Vec<u8>)
    requires
        page_parts::content_safe(document_objects(*d), num, gen),
    ensures
        r@ == page_parts::joined(
            document_objects(*d),
            page_parts::page_ids(document_objects(*d), num, gen),
        ),
{
    d.get_page_content((num, gen))
}

/// Calls `lopdf::Document::get_page_resources`, which gives the resources that stand
/// in a page, and the references to resources of the page and of its ancestors; it
/// fails where an ancestor is no dictionary or comes up again. The call goes up the
/// page tree by calls within calls, so the ancestors have to come to an end.
#[verifier::external_body]
fn page_resources(d: &lopdf::Document, num: u32, gen: u16) -> (r: Option<
    (Option<lopdf::Object>, Vec<(u32, u16)>),
>)
    requires
        page_parts::page_ends(document_objects(*d), num, gen),
    ensures
        match r {
            Some((Some(o), ids)) => object_model(o) is Dict && page_parts::page_names(
                document_objects(*d),
                num,
                gen,
            ) == Some((Some(object_model(o)->Dict_0), ids@)),
            Some((None, ids)) => page_parts::page_names(document_objects(*d), num, gen) == Some(
                (None::<Seq<(Seq<u8>, ObjModel)>>, ids@),
            ),
            None => page_parts::page_names(document_objects(*d), num, gen) is None,
        },
{
    match d.get_page_resources((num, gen)) {
        Ok((own, ids)) => Some((own.map(|r| lopdf::Object::Dictionary(r.clone())), ids)),
        Err(_) => None,
    }
}

/// Calls `lopdf::content::Content::decode` and takes the operator and the
/// operands of each operation. The decoder takes a color space for granted in
/// an inline image that gives its size and is no mask, and multiplies the size
/// out without a check, so content with such an image, or with one that is out
/// of range, has to be left out.
#[verifier::external_body]
fn decode_content(bytes: &[u8]) -> (r: Option<Vec<(String, Vec<lopdf::Object>)>>)
    requires
        images::all_safe(bytes@),
    ensures
        match r {
            Some(v) => content_operations(bytes@) == Some(operations_model(v@)),
            None => content_operations(bytes@) is None,
        },
{
    match lopdf::content::Content::decode(bytes) {
        Ok(c) => Some(c.operations.into_iter().map(|o| (o.operator, o.operands)).collect()),
        Err(_) => None,
    }
}

/// An object of the reader as a plain value.
fn convert(o: lopdf::Object) -> (r: Obj)
    ensures
        r.view() == object_model(o),
    decreases object_model(o),
{
    broadcast use object::lemma_array_view;
    broadcast use object::lemma_dict_view;

    let ghost model = object_model(o);
    let node = open_object(o);
    match node {
        Node::Other => Obj::Other,
        Node::Num(n) => Obj::Num(n),
        Node::Name(n) => Obj::Name(n),
        Node::Str(s) => Obj::Str(s),
        Node::Array(a) => {
            assert(decreases_to!(model => model->Array_0));
            Obj::Array(convert_list(a))
        },
        Node::Dict(d) => {
            assert(decreases_to!(model => model->Dict_0));
            Obj::Dict(convert_entries(d))
        },
        Node::Stream(d, s) => {
            assert(decreases_to!(model => model->Stream_0));
            Obj::Stream(convert_entries(d), s)
        },
        Node::Ref(num, gen) => Obj::Ref(num, gen),
    }
}

/// The elements of an array of the reader as plain values.
fn convert_list(a: Vec<lopdf::Object>) -> (r: Vec<Obj>)
    ensures
        object::array_model(r@) == elements_model(a@),
    decreases elements_model(a@),
{
    let ghost all = a@;
    let mut r: Vec<Obj> = Vec::new();
    for o in it: a
        invariant
            it.seq() == all,
            all == a@,
            r@.len() == it.index(),
            forall|i: int| 0 <= i < r@.len() ==> (#[trigger] r@[i]).view() == object_model(all[i]),
    {
        assert(elements_model(all)[it.index()] == object_model(o));
        r.push(convert(o));
    }
    assert(object::array_model(r@) =~= elements_model(all));
    r
}

/// The entries of a dictionary of the reader as plain values.
fn convert_entries(d: Vec<(Vec<u8>, lopdf::Object)>) -> (r: Vec<Entry>)
    ensures
        object::entries_model(r@) == pairs_model(d@),
    decreases pairs_model(d@),
{
    let ghost all = d@;
    let mut r: Vec<Entry> = Vec::new();
    for pair in it: d
        invariant
            it.seq() == all,
            all == d@,
            r@.len() == it.index(),
            forall|i: int|
                0 <= i < r@.len() ==> (#[trigger] r@[i]).key@ == all[i].0@ && r@[i].value.view()
                    == object_model(all[i].1),
    {
        let ghost p = pairs_model(all)[it.index()];
        assert(decreases_to!(pairs_model(all) => p));
        assert(decreases_to!(p => p.1));
        let (key, value) = pair;
        r.push(Entry { key, value: convert(value) });
    }
    assert(object::entries_model(r@) =~= pairs_model(all));
    r
}

/// An operation of a content stream.
pub struct Op {
    pub operator: String,
    pub operands: Vec<Obj>,
}

impl Op {
    /// What the operation is.
    pub open spec fn view(&self) -> OpModel {
        OpModel { operator: self.operator@, operands: object::array_model(self.operands@) }
    }
}

/// What the operations of a content stream are.
pub open spec fn ops_model(ops: Seq<Op>) -> Seq<OpModel> {
    Seq::new(ops.len(), |i: int| ops[i].view())
}

/// The operations of a content stream; none where it does not decode, or has an
/// inline image that cannot be read.
pub open spec fn operations_in(bytes: Seq<u8>) -> Option<Seq<OpModel>> {
    if images::all_safe(bytes) {
        content_operations(bytes)
    } else {
        None
    }
}

/// Decode a content stream into its operations.
pub fn operations(bytes: &[u8]) -> (r: Option<Vec<Op>>)
    ensures
        match r {
            Some(v) => operations_in(bytes@) == Some(ops_model(v@)),
            None => operations_in(bytes@) is None,
        },
{
    if !images_safe(bytes) {
        return None;
    }
    match decode_content(bytes) {
        None => None,
        Some(raw) => {
            let ghost all = raw@;
            let mut r: Vec<Op> = Vec::new();
            for pair in it: raw
                invariant
                    it.seq() == all,
                    r@.len() == it.index(),
                    forall|i: int|
                        0 <= i < r@.len() ==> (#[trigger] r@[i]).view() == operations_model(
                            all,
                        )[i],
            {
                let (operator, operands) = pair;
                r.push(Op { operator, operands: convert_list(operands) });
            }
            assert(ops_model(r@) =~= operations_model(all));
            Some(r)
        },
    }
}

/// A loaded document.
pub struct Doc {
    inner: lopdf::Document,
}

/// What loading a file comes to: what the reader gives, or a refusal of a file
/// that is not handed to it.
pub open spec fn outcome(bytes: Seq<u8>) -> Result<DocModel, Seq<char>> {
    if loading::loadable(bytes) {
        load_outcome(bytes)
    } else {
        Err(REFUSED@)
    }
}

/// What a load may give. Objects that the file does not settle are left open.
pub open spec fn may_load(bytes: Seq<u8>, r: Result<DocModel, Seq<char>>) -> bool {
    match (outcome(bytes), r) {
        (Ok(m), Ok(d)) => m == d || !(object::is_fixed(m) || object::is_fixed(d)),
        (Err(e), Err(f)) => e == f,
        _ => false,
    }
}

/// The model of the outcome of a load.
pub open spec fn outcome_model(r: Result<Doc, String>) -> Result<DocModel, Seq<char>> {
    match r {
        Ok(d) => Ok(d.view()),
        Err(e) => Err(e@),
    }
}

impl Doc {
    /// What the document is.
    pub closed spec fn view(&self) -> DocModel {
        document_model(self.inner)
    }

    /// Load a document.
    pub fn load(bytes: &[u8]) -> (r: Result<Doc, String>)
        ensures
            may_load(bytes@, outcome_model(r)),
    {
        if !load_safe(bytes) {
            return Err(REFUSED.to_string());
        }
        match load_mem(bytes) {
            Ok(inner) => Ok(Doc { inner }),
            Err(e) => Err(e),
        }
    }

    /// The identifiers of the pages, in order.
    pub fn pages(&self) -> (r: Vec<(u32, u16)>)
        ensures
            r@ == self.view().pages,
    {
        page_ids(&self.inner)
    }

    /// The identifiers of the content streams of a page.
    pub fn content_ids(&self, num: u32, gen: u16) -> (r: Vec<(u32, u16)>)
        ensures
            r@ == page_parts::page_ids(self.view().objects, num, gen),
    {
        content_ids(&self.inner, num, gen)
    }

    /// The content streams of a page, put together.
    pub(crate) fn content(&self, num: u32, gen: u16) -> (r: Vec<u8>)
        requires
            page_parts::content_safe(self.view().objects, num, gen),
        ensures
            r@ == page_parts::joined(
                self.view().objects,
                page_parts::page_ids(self.view().objects, num, gen),
            ),
    {
        page_content(&self.inner, num, gen)
    }

    /// The resources that a page names.
    pub(crate) fn resources(&self, num: u32, gen: u16) -> (r: Option<
        (Option<Vec<Entry>>, Vec<(u32, u16)>),
    >)
        requires
            page_parts::page_ends(self.view().objects, num, gen),
        ensures
            match r {
                Some((Some(d), ids)) => page_parts::page_names(self.view().objects, num, gen)
                    == Some((Some(object::entries_model(d@)), ids@)),
                Some((None, ids)) => page_parts::page_names(self.view().objects, num, gen)
                    == Some((None::<Seq<(Seq<u8>, ObjModel)>>, ids@)),
                None => page_parts::page_names(self.view().objects, num, gen) is None,
            },
    {
        match page_resources(&self.inner, num, gen) {
            Some((Some(o), ids)) => {
                let own = convert(o);
                proof {
                    object::lemma_dict_view(own);
                }
                match own {
                    Obj::Dict(d) => Some((Some(d), ids)),
                    _ => None,
                }
            },
            Some((None, ids)) => Some((None, ids)),
            None => None,
        }
    }

    /// The object with an identifier, with references followed.
    pub fn object(&self, num: u32, gen: u16) -> (r: Option<Obj>)
        ensures
            match r {
                Some(o) => object::object_at(self.view().objects, num, gen) == Some(
                    o.view(),
                ),
                None => object::object_at(self.view().objects, num, gen) is None,
            },
    {
        match get_object(&self.inner, num, gen) {
            Some(o) => Some(convert(o)),
            None => None,
        }
    }
}

} // verus!
