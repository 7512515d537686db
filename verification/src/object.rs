//! Document objects as plain values, and the mathematical model of a document.

use crate::bytes::same_bytes;
use crate::number::Number;
use crate::filters;
use vstd::prelude::*;

verus! {

/// What an object is: the logic of this library reads objects through this.
#[verifier::ext_equal]
pub enum ObjModel {
    /// Null and booleans, which nothing here reads.
    Other,
    Num(Number),
    Name(Seq<u8>),
    Str(Seq<u8>),
    Array(Seq<ObjModel>),
    Dict(Seq<(Seq<u8>, ObjModel)>),
    /// A dictionary and the data as it stands in the file.
    Stream(Seq<(Seq<u8>, ObjModel)>, Seq<u8>),
    Ref(u32, u16),
}

/// A document: its objects, its pages in order, which objects its cross-references
/// list and the object stream that each stands in, and whether it had to be
/// decrypted.
#[verifier::ext_equal]
pub struct DocModel {
    pub objects: Map<(u32, u16), ObjModel>,
    pub pages: Seq<(u32, u16)>,
    pub homes: Seq<(u32, Option<u32>)>,
    pub decrypted: bool,
}

/// No object stream stands in an object stream.
pub open spec fn homes_flat(homes: Seq<(u32, Option<u32>)>) -> bool {
    forall|i: int, j: int|
        #![trigger homes[i], homes[j]]
        0 <= i < homes.len() && 0 <= j < homes.len() && homes[i].1 == Some(homes[j].0)
            ==> homes[j].1 is None
}

/// The objects of a document are settled by its file: it did not have to be
/// decrypted, or none of its object streams stands in another.
pub open spec fn is_fixed(doc: DocModel) -> bool {
    !doc.decrypted || homes_flat(doc.homes)
}

/// One operation of a content stream.
#[verifier::ext_equal]
pub struct OpModel {
    pub operator: Seq<char>,
    pub operands: Seq<ObjModel>,
}

/// The value of a key: that of its first entry.
pub open spec fn value_of(d: Seq<(Seq<u8>, ObjModel)>, key: Seq<u8>) -> Option<ObjModel>
    decreases d.len(),
{
    if d.len() == 0 {
        None
    } else if d[0].0 == key {
        Some(d[0].1)
    } else {
        value_of(d.drop_first(), key)
    }
}

/// Follow references from `o`, at most `n` of them.
pub open spec fn followed(
    objects: Map<(u32, u16), ObjModel>,
    o: ObjModel,
    n: nat,
) -> Option<ObjModel>
    decreases n,
{
    match o {
        ObjModel::Ref(num, gen) => if n == 0 || !objects.dom().contains((num, gen)) {
            None
        } else {
            followed(objects, objects[(num, gen)], (n - 1) as nat)
        },
        _ => Some(o),
    }
}

/// The object with an identifier, with references followed to what they mean;
/// `None` where there is none or the chain is longer than 128.
pub open spec fn object_at(
    objects: Map<(u32, u16), ObjModel>,
    num: u32,
    gen: u16,
) -> Option<ObjModel> {
    if objects.dom().contains((num, gen)) {
        followed(objects, objects[(num, gen)], 128)
    } else {
        None
    }
}

/// What a possibly indirect object means.
pub open spec fn meaning(doc: DocModel, o: ObjModel) -> Option<ObjModel> {
    match o {
        ObjModel::Ref(num, gen) => object_at(doc.objects, num, gen),
        _ => Some(o),
    }
}

/// What the value of a key means.
pub open spec fn entry(
    doc: DocModel,
    d: Seq<(Seq<u8>, ObjModel)>,
    key: Seq<u8>,
) -> Option<ObjModel> {
    match value_of(d, key) {
        Some(o) => meaning(doc, o),
        None => None,
    }
}

/// The dictionary that an object means, if it means one.
pub open spec fn meant_dict(doc: DocModel, o: ObjModel) -> Option<Seq<(Seq<u8>, ObjModel)>> {
    match meaning(doc, o) {
        Some(ObjModel::Dict(d)) => Some(d),
        _ => None,
    }
}

/// The dictionary that the value of a key means.
pub open spec fn dict_entry(
    doc: DocModel,
    d: Seq<(Seq<u8>, ObjModel)>,
    key: Seq<u8>,
) -> Option<Seq<(Seq<u8>, ObjModel)>> {
    match entry(doc, d, key) {
        Some(ObjModel::Dict(e)) => Some(e),
        _ => None,
    }
}

/// The array that the value of a key means.
pub open spec fn array_entry(
    doc: DocModel,
    d: Seq<(Seq<u8>, ObjModel)>,
    key: Seq<u8>,
) -> Option<Seq<ObjModel>> {
    match entry(doc, d, key) {
        Some(ObjModel::Array(a)) => Some(a),
        _ => None,
    }
}

/// The decoded data of an object, where it is a stream that decodes.
pub open spec fn data_of(o: ObjModel) -> Option<Seq<u8>> {
    match o {
        ObjModel::Stream(d, data) => filters::decoded(d, data),
        _ => None,
    }
}

/// The decoded data of the stream that the value of a key means.
pub open spec fn data_entry(
    doc: DocModel,
    d: Seq<(Seq<u8>, ObjModel)>,
    key: Seq<u8>,
) -> Option<Seq<u8>> {
    match entry(doc, d, key) {
        Some(o) => data_of(o),
        None => None,
    }
}

/// The number that an object is.
pub open spec fn number_of(o: ObjModel) -> Option<Number> {
    match o {
        ObjModel::Num(n) => Some(n),
        _ => None,
    }
}

/// The number that the value of a key is; references are not followed.
pub open spec fn number_value(d: Seq<(Seq<u8>, ObjModel)>, key: Seq<u8>) -> Option<Number> {
    match value_of(d, key) {
        Some(o) => number_of(o),
        None => None,
    }
}

/// The integer that the value of a key is; references are not followed.
pub open spec fn int_value(d: Seq<(Seq<u8>, ObjModel)>, key: Seq<u8>) -> Option<i64> {
    match value_of(d, key) {
        Some(ObjModel::Num(Number::Int(i))) => Some(i),
        _ => None,
    }
}

/// The name that the value of a key is; references are not followed.
pub open spec fn name_value(d: Seq<(Seq<u8>, ObjModel)>, key: Seq<u8>) -> Option<Seq<u8>> {
    match value_of(d, key) {
        Some(ObjModel::Name(n)) => Some(n),
        _ => None,
    }
}

/// A key and its value.
pub struct Entry {
    pub key: Vec<u8>,
    pub value: Obj,
}

/// A document object.
pub enum Obj {
    Other,
    Num(Number),
    Name(Vec<u8>),
    Str(Vec<u8>),
    Array(Vec<Obj>),
    Dict(Vec<Entry>),
    /// A dictionary and the data as it stands in the file.
    Stream(Vec<Entry>, Vec<u8>),
    Ref(u32, u16),
}

impl Obj {
    /// What the object is.
    pub open spec fn view(&self) -> ObjModel
        decreases self,
    {
        match self {
            Obj::Other => ObjModel::Other,
            Obj::Num(n) => ObjModel::Num(*n),
            Obj::Name(n) => ObjModel::Name(n@),
            Obj::Str(s) => ObjModel::Str(s@),
            Obj::Array(a) => ObjModel::Array(
                Seq::new(
                    a@.len(),
                    |i: int|
                        if 0 <= i < a@.len() {
                            a@[i].view()
                        } else {
                            ObjModel::Other
                        },
                ),
            ),
            Obj::Dict(d) => ObjModel::Dict(
                Seq::new(
                    d@.len(),
                    |i: int|
                        if 0 <= i < d@.len() {
                            (d@[i].key@, d@[i].value.view())
                        } else {
                            (Seq::empty(), ObjModel::Other)
                        },
                ),
            ),
            Obj::Stream(d, s) => ObjModel::Stream(
                Seq::new(
                    d@.len(),
                    |i: int|
                        if 0 <= i < d@.len() {
                            (d@[i].key@, d@[i].value.view())
                        } else {
                            (Seq::empty(), ObjModel::Other)
                        },
                ),
                s@,
            ),
            Obj::Ref(num, gen) => ObjModel::Ref(*num, *gen),
        }
    }
}

/// What the entries of a dictionary are.
pub open spec fn entries_model(d: Seq<Entry>) -> Seq<(Seq<u8>, ObjModel)> {
    Seq::new(d.len(), |i: int| (d[i].key@, d[i].value.view()))
}

/// What the elements of an array are.
pub open spec fn array_model(a: Seq<Obj>) -> Seq<ObjModel> {
    Seq::new(a.len(), |i: int| a[i].view())
}

/// An array is the sequence of what its elements are.
pub broadcast proof fn lemma_array_view(o: Obj)
    ensures
        o matches Obj::Array(a) ==> #[trigger] o.view() == ObjModel::Array(array_model(a@)),
{
    match o {
        Obj::Array(a) => {
            assert(o.view()->Array_0 =~= array_model(a@));
        },
        _ => {},
    }
}

/// A dictionary is the sequence of what its entries are.
pub broadcast proof fn lemma_dict_view(o: Obj)
    ensures
        #![trigger o.view()]
        o matches Obj::Dict(d) ==> o.view() == ObjModel::Dict(entries_model(d@)),
        o matches Obj::Stream(d, s) ==> o.view() == ObjModel::Stream(
            entries_model(d@),
            s@,
        ),
{
    match o {
        Obj::Dict(d) => {
            assert(o.view()->Dict_0 =~= entries_model(d@));
        },
        Obj::Stream(d, s) => {
            assert(o.view()->Stream_0 =~= entries_model(d@));
        },
        _ => {},
    }
}

/// Find the value of a key.
pub fn get<'a>(d: &'a Vec<Entry>, key: &[u8]) -> (r: Option<&'a Obj>)
    ensures
        match r {
            Some(o) => value_of(entries_model(d@), key@) == Some(o.view()),
            None => value_of(entries_model(d@), key@) is None,
        },
{
    let ghost m = entries_model(d@);
    let mut i: usize = 0;
    assert(m.skip(0) =~= m);
    while i < d.len()
        invariant
            i <= d@.len(),
            m == entries_model(d@),
            value_of(m, key@) == value_of(m.skip(i as int), key@),
        decreases d@.len() - i,
    {
        assert(m.skip(i as int)[0] == m[i as int]);
        if same_bytes(d[i].key.as_slice(), key) {
            return Some(&d[i].value);
        }
        assert(m.skip(i as int).drop_first() =~= m.skip(i + 1));
        i += 1;
    }
    None
}

/// The number that an object is.
pub fn num(o: &Obj) -> (r: Option<Number>)
    ensures
        r == number_of(o.view()),
{
    match o {
        Obj::Num(n) => Some(*n),
        _ => None,
    }
}

/// Find a number that a key has directly.
pub fn get_number(d: &Vec<Entry>, key: &[u8]) -> (r: Option<Number>)
    ensures
        r == number_value(entries_model(d@), key@),
{
    match get(d, key) {
        Some(o) => num(o),
        None => None,
    }
}

/// Find an integer that a key has directly.
pub fn get_int(d: &Vec<Entry>, key: &[u8]) -> (r: Option<i64>)
    ensures
        r == int_value(entries_model(d@), key@),
{
    match get(d, key) {
        Some(Obj::Num(Number::Int(i))) => Some(*i),
        _ => None,
    }
}

/// Find a name that a key has directly.
pub fn get_name<'a>(d: &'a Vec<Entry>, key: &[u8]) -> (r: Option<&'a Vec<u8>>)
    ensures
        match r {
            Some(n) => name_value(entries_model(d@), key@) == Some(n@),
            None => name_value(entries_model(d@), key@) is None,
        },
{
    match get(d, key) {
        Some(Obj::Name(n)) => Some(n),
        _ => None,
    }
}

} // verus!
