//! Loading a document, with repair where it is needed.

use crate::filters::decode;
use crate::object::{self, get, Entry, Obj, ObjModel};
use crate::page_parts::{self, page_content};
use crate::pdf::{self, Doc};
use crate::repair::{self, fix_stream_lengths, pad_short_xref_entries};
use crate::text::push_text;
use vstd::prelude::*;

verus! {

/// An object in place, or one that was fetched from the document.
pub enum Meant<'a> {
    Here(&'a Obj),
    Fetched(Obj),
}

impl<'a> Meant<'a> {
    /// What the object is.
    pub open spec fn view(&self) -> ObjModel {
        match self {
            Meant::Here(o) => o.view(),
            Meant::Fetched(o) => o.view(),
        }
    }

    /// The object.
    pub fn obj(&self) -> (r: &Obj)
        ensures
            r.view() == self.view(),
    {
        match self {
            Meant::Here(o) => o,
            Meant::Fetched(o) => o,
        }
    }

    /// The entries, where the object is a dictionary.
    pub fn dict(&self) -> (r: Option<&Vec<Entry>>)
        ensures
            match r {
                Some(d) => self.view() == ObjModel::Dict(object::entries_model(d@)),
                None => !(self.view() is Dict),
            },
    {
        broadcast use object::lemma_dict_view;

        match self.obj() {
            Obj::Dict(d) => Some(d),
            _ => None,
        }
    }

    /// The elements, where the object is an array.
    pub fn array(&self) -> (r: Option<&Vec<Obj>>)
        ensures
            match r {
                Some(a) => self.view() == ObjModel::Array(object::array_model(a@)),
                None => !(self.view() is Array),
            },
    {
        broadcast use object::lemma_array_view;

        match self.obj() {
            Obj::Array(a) => Some(a),
            _ => None,
        }
    }

    /// The decoded data, where the object is a stream that decodes.
    pub fn data(&self) -> (r: Option<Vec<u8>>)
        ensures
            match r {
                Some(v) => object::data_of(self.view()) == Some(v@),
                None => object::data_of(self.view()) is None,
            },
    {
        broadcast use object::lemma_dict_view;

        match self.obj() {
            Obj::Stream(d, s) => decode(d, s.as_slice()),
            _ => None,
        }
    }
}

/// Resolve a possibly indirect object.
pub fn deref<'a>(doc: &Doc, o: &'a Obj) -> (r: Option<Meant<'a>>)
    ensures
        match r {
            Some(m) => object::meaning(doc.view(), o.view()) == Some(m.view()),
            None => object::meaning(doc.view(), o.view()) is None,
        },
{
    match o {
        Obj::Ref(num, gen) => match doc.object(*num, *gen) {
            Some(f) => Some(Meant::Fetched(f)),
            None => None,
        },
        _ => Some(Meant::Here(o)),
    }
}

/// Find what the value of a key means.
pub fn look_up<'a>(doc: &Doc, d: &'a Vec<Entry>, key: &[u8]) -> (r: Option<Meant<'a>>)
    ensures
        match r {
            Some(m) => object::entry(
                doc.view(),
                object::entries_model(d@),
                key@,
            ) == Some(m.view()),
            None => object::entry(
                doc.view(),
                object::entries_model(d@),
                key@,
            ) is None,
        },
{
    match get(d, key) {
        Some(o) => deref(doc, o),
        None => None,
    }
}

/// Resolve a possibly indirect object to a dictionary.
pub fn as_dict<'a>(doc: &Doc, o: &'a Obj) -> (r: Option<Meant<'a>>)
    ensures
        match r {
            Some(m) => object::meant_dict(doc.view(), o.view()) is Some && m.view()
                == ObjModel::Dict(object::meant_dict(doc.view(), o.view()).unwrap()),
            None => object::meant_dict(doc.view(), o.view()) is None,
        },
{
    match deref(doc, o) {
        Some(m) => {
            if m.dict().is_some() {
                Some(m)
            } else {
                None
            }
        },
        None => None,
    }
}

/// A page has content.
pub open spec fn has_content(m: object::DocModel) -> bool {
    exists|i: int|
        0 <= i < m.pages.len() && page_parts::content_of(
            m,
            (#[trigger] m.pages[i]).0,
            m.pages[i].1,
        ).len() > 0
}

/// Does any page hand out a content stream? A document whose
/// streams were dropped still loads, with nothing to read, so this is what tells
/// a repair that helped from one that did not.
pub fn has_page_content(doc: &Doc) -> (r: bool)
    ensures
        r == has_content(doc.view()),
{
    let pages = doc.pages();
    let mut i: usize = 0;
    while i < pages.len()
        invariant
            i <= pages@.len(),
            pages@ == doc.view().pages,
            forall|j: int|
                0 <= j < i ==> page_parts::content_of(
                    doc.view(),
                    (#[trigger] doc.view().pages[j]).0,
                    doc.view().pages[j].1,
                ).len() == 0,
        decreases pages@.len() - i,
    {
        let (num, gen) = pages[i];
        if page_content(doc, num, gen).len() > 0 {
            assert(doc.view().pages[i as int] == (num, gen));
            return true;
        }
        i += 1;
    }
    false
}

/// What is returned and remembered of an outcome: a document whose pages carry
/// content is returned; one that merely loads is remembered, if none was before.
pub open spec fn accepted(
    outcome: Result<Doc, String>,
    before: Option<Doc>,
    after: Option<Doc>,
    r: Option<Doc>,
) -> bool {
    match outcome {
        Ok(d) => if has_content(d.view()) {
            r == Some(d) && after == before
        } else {
            r is None && after == (if before is Some {
                before
            } else {
                Some(d)
            })
        },
        Err(_) => r is None && after == before,
    }
}

/// Accept a loaded document only when its pages carry content; one that merely
/// loads is remembered, if none was before.
pub fn accept(outcome: Result<Doc, String>, fallback: &mut Option<Doc>) -> (r: Option<Doc>)
    ensures
        accepted(outcome, *old(fallback), *final(fallback), r),
{
    match outcome {
        Ok(doc) => {
            if has_page_content(&doc) {
                Some(doc)
            } else {
                if fallback.is_none() {
                    *fallback = Some(doc);
                }
                None
            }
        },
        Err(_) => None,
    }
}

/// Load `data`, returning it only when its pages carry content; a document that
/// merely loads is remembered as the fallback for when nothing does better.
pub fn best_effort_load(data: &[u8], fallback: &mut Option<Doc>) -> (r: Option<Doc>)
    ensures
        exists|o: Result<Doc, String>|
            pdf::may_load(data@, pdf::outcome_model(o)) && #[trigger] accepted(
                o,
                *old(fallback),
                *final(fallback),
                r,
            ),
{
    let outcome = Doc::load(data);
    let ghost o = outcome;
    let r = accept(outcome, fallback);
    assert(accepted(o, *old(fallback), *fallback, r));
    r
}

/// What is tried in turn: the file, the file with its cross-reference entries
/// padded where that is safe, and the last of these with its stream lengths
/// corrected.
pub open spec fn candidates(bytes: Seq<u8>) -> Seq<Seq<u8>> {
    match repair::padded_xref(bytes) {
        Ok(padded) => seq![bytes, padded, repair::lengths_fixed(padded)],
        Err(_) => seq![bytes, repair::lengths_fixed(bytes)],
    }
}

/// Of the outcomes of loading, the first document whose pages carry content.
pub open spec fn first_with_content(
    outcomes: Seq<Result<object::DocModel, Seq<char>>>,
) -> Option<object::DocModel>
    decreases outcomes.len(),
{
    if outcomes.len() == 0 {
        None
    } else {
        match outcomes[0] {
            Ok(m) => if has_content(m) {
                Some(m)
            } else {
                first_with_content(outcomes.drop_first())
            },
            Err(_) => first_with_content(outcomes.drop_first()),
        }
    }
}

/// Of the outcomes of loading, the first document.
pub open spec fn first_loaded(
    outcomes: Seq<Result<object::DocModel, Seq<char>>>,
) -> Option<object::DocModel>
    decreases outcomes.len(),
{
    if outcomes.len() == 0 {
        None
    } else {
        match outcomes[0] {
            Ok(m) => Some(m),
            Err(_) => first_loaded(outcomes.drop_first()),
        }
    }
}

/// The document that is kept of the outcomes of loading: the first whose pages
/// carry content, else the first that loads.
pub open spec fn kept(
    outcomes: Seq<Result<object::DocModel, Seq<char>>>,
) -> Option<object::DocModel> {
    match first_with_content(outcomes) {
        Some(m) => Some(m),
        None => first_loaded(outcomes),
    }
}

/// The candidates may load as these outcomes, one each.
pub open spec fn may_load_all(
    files: Seq<Seq<u8>>,
    outcomes: Seq<Result<object::DocModel, Seq<char>>>,
) -> bool {
    &&& outcomes.len() == files.len()
    &&& forall|i: int|
        0 <= i < files.len() ==> pdf::may_load(files[i], #[trigger] outcomes[i])
}

/// What opening a file may give.
pub open spec fn may_open(bytes: Seq<u8>, r: Option<object::DocModel>) -> bool {
    exists|outcomes: Seq<Result<object::DocModel, Seq<char>>>| #[trigger]
        may_load_all(candidates(bytes), outcomes) && r == kept(outcomes)
}

/// The model of a document that may be missing.
pub open spec fn doc_model(r: Option<Doc>) -> Option<object::DocModel> {
    match r {
        Some(d) => Some(d.view()),
        None => None,
    }
}

/// The first document with content has content, and is found where there is
/// one.
proof fn lemma_first_with_content(
    outcomes: Seq<Result<object::DocModel, Seq<char>>>,
)
    ensures
        first_with_content(outcomes) matches Some(m) ==> has_content(m),
        forall|i: int|
            0 <= i < outcomes.len() && (#[trigger] outcomes[i] matches Ok(m) && has_content(m))
                ==> first_with_content(outcomes) is Some,
    decreases outcomes.len(),
{
    if outcomes.len() > 0 {
        let rest = outcomes.drop_first();
        lemma_first_with_content(rest);
        assert forall|i: int|
            0 <= i < outcomes.len() && (#[trigger] outcomes[i] matches Ok(m) && has_content(m))
            implies first_with_content(outcomes) is Some by {
            if i > 0 {
                assert(rest[i - 1] == outcomes[i]);
            }
        }
    }
}

/// A document whose pages carry content is found wherever one of the candidates
/// loads as such; nothing is found only where none of them loads.
pub proof fn law_a_readable_candidate_is_found(
    outcomes: Seq<Result<object::DocModel, Seq<char>>>,
)
    ensures
        (exists|i: int|
            0 <= i < outcomes.len() && (#[trigger] outcomes[i] matches Ok(m) && has_content(m)))
            ==> (kept(outcomes) matches Some(m) && has_content(m)),
        kept(outcomes) is None <==> forall|i: int|
            0 <= i < outcomes.len() ==> #[trigger] outcomes[i] is Err,
        kept(outcomes) matches Some(m) ==> exists|i: int|
            0 <= i < outcomes.len() && #[trigger] outcomes[i] == Ok::<
                object::DocModel,
                Seq<char>,
            >(m),
    decreases outcomes.len(),
{
    if outcomes.len() > 0 {
        let rest = outcomes.drop_first();
        law_a_readable_candidate_is_found(rest);
        lemma_first_with_content(outcomes);
        assert(forall|i: int| 0 <= i < rest.len() ==> #[trigger] rest[i] == outcomes[i + 1]);
        match outcomes[0] {
            Ok(m) => {
                if first_with_content(outcomes) is Some && !has_content(m) {
                    let w = first_with_content(rest).unwrap();
                    assert(kept(rest) == Some(w));
                    let k = choose|i: int|
                        0 <= i < rest.len() && #[trigger] rest[i] == Ok::<
                            object::DocModel,
                            Seq<char>,
                        >(w);
                    assert(outcomes[k + 1] == rest[k]);
                } else {
                    assert(outcomes[0] == Ok::<object::DocModel, Seq<char>>(m));
                }
            },
            Err(_) => {
                assert(kept(outcomes) == kept(rest));
                if kept(rest) is Some {
                    let w = kept(rest).unwrap();
                    let k = choose|i: int|
                        0 <= i < rest.len() && #[trigger] rest[i] == Ok::<
                            object::DocModel,
                            Seq<char>,
                        >(w);
                    assert(outcomes[k + 1] == rest[k]);
                }
                if forall|i: int| 0 <= i < rest.len() ==> #[trigger] rest[i] is Err {
                    assert forall|i: int| 0 <= i < outcomes.len() implies #[trigger] outcomes[i]
                        is Err by {
                        if i > 0 {
                            assert(rest[i - 1] is Err);
                        }
                    }
                }
            },
        }
    }
}

/// A file that loads with content is taken as it is, whatever the repairs would
/// give.
pub proof fn law_a_well_formed_file_is_not_repaired(
    bytes: Seq<u8>,
    m: object::DocModel,
    r: Option<object::DocModel>,
)
    requires
        pdf::outcome(bytes) == Ok::<object::DocModel, Seq<char>>(m),
        object::is_fixed(m),
        has_content(m),
        may_open(bytes, r),
    ensures
        r == Some(m),
{
    let outcomes = choose|outcomes: Seq<Result<object::DocModel, Seq<char>>>| #[trigger]
        may_load_all(candidates(bytes), outcomes) && r == kept(outcomes);
    assert(candidates(bytes)[0] == bytes);
    assert(pdf::may_load(candidates(bytes)[0], outcomes[0]));
}

/// The first document with content is the one that none with content stands
/// before.
proof fn lemma_first_is_kept(
    outcomes: Seq<Result<object::DocModel, Seq<char>>>,
    k: int,
    m: object::DocModel,
)
    requires
        0 <= k < outcomes.len(),
        outcomes[k] == Ok::<object::DocModel, Seq<char>>(m),
        has_content(m),
        forall|j: int|
            0 <= j < k ==> (#[trigger] outcomes[j] matches Ok(d) ==> !has_content(d)),
    ensures
        first_with_content(outcomes) == Some(m),
    decreases k,
{
    if k > 0 {
        let rest = outcomes.drop_first();
        assert(rest[k - 1] == outcomes[k]);
        assert forall|j: int| 0 <= j < k - 1 implies (
        #[trigger] rest[j] matches Ok(d) ==> !has_content(d)) by {
            assert(rest[j] == outcomes[j + 1]);
        }
        lemma_first_is_kept(rest, k - 1, m);
    }
}

/// A file whose padded or length-corrected form loads with content opens as that
/// form, where neither the file nor an earlier form loads with content itself.
pub proof fn law_a_repaired_file_opens_as_its_good_form(
    bytes: Seq<u8>,
    k: int,
    m: object::DocModel,
    r: Option<object::DocModel>,
)
    requires
        0 <= k < candidates(bytes).len(),
        pdf::outcome(candidates(bytes)[k]) == Ok::<object::DocModel, Seq<char>>(m),
        object::is_fixed(m),
        has_content(m),
        forall|j: int|
            0 <= j < k ==> (pdf::outcome(#[trigger] candidates(bytes)[j]) matches Ok(d)
                ==> object::is_fixed(d) && !has_content(d)),
        may_open(bytes, r),
    ensures
        r == Some(m),
{
    let outcomes = choose|outcomes: Seq<Result<object::DocModel, Seq<char>>>| #[trigger]
        may_load_all(candidates(bytes), outcomes) && r == kept(outcomes);
    assert(pdf::may_load(candidates(bytes)[k], outcomes[k]));
    assert forall|j: int| 0 <= j < k implies (
    #[trigger] outcomes[j] matches Ok(d) ==> !has_content(d)) by {
        assert(pdf::may_load(candidates(bytes)[j], outcomes[j]));
    }
    lemma_first_is_kept(outcomes, k, m);
}

/// The objects of every form of a file that is tried are settled.
pub open spec fn is_settled(bytes: Seq<u8>) -> bool {
    forall|j: int|
        0 <= j < candidates(bytes).len() ==> (pdf::outcome(
            #[trigger] candidates(bytes)[j],
        ) matches Ok(d) ==> object::is_fixed(d))
}

/// A file opens as one document, or never, where its objects are settled.
pub proof fn law_opening_is_repeatable(
    bytes: Seq<u8>,
    a: Option<object::DocModel>,
    b: Option<object::DocModel>,
)
    requires
        is_settled(bytes),
        may_open(bytes, a),
        may_open(bytes, b),
    ensures
        a == b,
{
    let x = choose|outcomes: Seq<Result<object::DocModel, Seq<char>>>| #[trigger]
        may_load_all(candidates(bytes), outcomes) && a == kept(outcomes);
    let y = choose|outcomes: Seq<Result<object::DocModel, Seq<char>>>| #[trigger]
        may_load_all(candidates(bytes), outcomes) && b == kept(outcomes);
    assert forall|j: int| 0 <= j < x.len() implies x[j] == y[j] by {
        assert(pdf::may_load(candidates(bytes)[j], x[j]));
        assert(pdf::may_load(candidates(bytes)[j], y[j]));
    }
    assert(x =~= y);
}

/// Load a document, repairing the malformations that otherwise cost a readable
/// file its text: cross-reference entries that are a byte short, and stream
/// lengths that disagree with the data.
///
/// Progressively more repair is tried, and a candidate is accepted only once its
/// pages carry content, since loading alone is no evidence that a repair helped.
/// Both defects can occur together, and the second shows only once the first is
/// repaired, so each step builds on the one before.
pub fn load_document(bytes: &[u8]) -> (r: Option<Doc>)
    ensures
        may_open(bytes@, doc_model(r)),
{
    let mut fallback: Option<Doc> = None;
    let ghost files = candidates(bytes@);
    let ghost m = Seq::new(files.len(), |i: int| pdf::outcome(files[i]));
    proof {
        reveal_with_fuel(first_with_content, 4);
        reveal_with_fuel(first_loaded, 4);
    }
    let first = best_effort_load(bytes, &mut fallback);
    let ghost d0 = choose|o: Result<Doc, String>|
        pdf::may_load(bytes@, pdf::outcome_model(o)) && #[trigger] accepted(
            o,
            None,
            fallback,
            first,
        );
    let ghost o0 = pdf::outcome_model(d0);
    if let Some(doc) = first {
        proof {
            let outcomes = m.update(0, o0);
            assert(may_load_all(files, outcomes));
            assert(kept(outcomes) == Some(doc.view()));
        }
        return Some(doc);
    }
    match pad_short_xref_entries(bytes) {
        Ok(padded) => {
            let ghost f1 = fallback;
            let second = best_effort_load(padded.as_slice(), &mut fallback);
            let ghost d1 = choose|o: Result<Doc, String>|
                pdf::may_load(padded@, pdf::outcome_model(o)) && #[trigger] accepted(
                    o,
                    f1,
                    fallback,
                    second,
                );
            let ghost o1 = pdf::outcome_model(d1);
            if let Some(doc) = second {
                proof {
                    let outcomes = m.update(0, o0).update(1, o1);
                    assert(may_load_all(files, outcomes));
                    assert(outcomes.drop_first()[0] == o1);
                    assert(kept(outcomes) == Some(doc.view()));
                }
                return Some(doc);
            }
            let fixed = fix_stream_lengths(padded.as_slice());
            let ghost f2 = fallback;
            let third = best_effort_load(fixed.as_slice(), &mut fallback);
            let ghost d2 = choose|o: Result<Doc, String>|
                pdf::may_load(fixed@, pdf::outcome_model(o)) && #[trigger] accepted(
                    o,
                    f2,
                    fallback,
                    third,
                );
            let ghost o2 = pdf::outcome_model(d2);
            let r = match third {
                Some(doc) => Some(doc),
                None => fallback,
            };
            proof {
                let outcomes = seq![o0, o1, o2];
                assert(may_load_all(files, outcomes));
                assert(outcomes.drop_first() =~= seq![o1, o2]);
                assert(seq![o1, o2].drop_first() =~= seq![o2]);
                assert(seq![o2].drop_first().len() == 0);
                assert(kept(outcomes) == doc_model(r));
            }
            r
        },
        Err(_) => {
            let fixed = fix_stream_lengths(bytes);
            let ghost f1 = fallback;
            let second = best_effort_load(fixed.as_slice(), &mut fallback);
            let ghost d1 = choose|o: Result<Doc, String>|
                pdf::may_load(fixed@, pdf::outcome_model(o)) && #[trigger] accepted(
                    o,
                    f1,
                    fallback,
                    second,
                );
            let ghost o1 = pdf::outcome_model(d1);
            let r = match second {
                Some(doc) => Some(doc),
                None => fallback,
            };
            proof {
                let outcomes = seq![o0, o1];
                assert(may_load_all(files, outcomes));
                assert(outcomes.drop_first() =~= seq![o1]);
                assert(seq![o1].drop_first().len() == 0);
                assert(kept(outcomes) == doc_model(r));
            }
            r
        },
    }
}

/// What became of the cross-reference repair, in words: whether the file loads
/// unaided, else whether its entries could be padded and whether it then loads.
pub open spec fn repair_words(
    unaided: bool,
    padded: Result<Result<(), Seq<char>>, Seq<char>>,
) -> Seq<char> {
    if unaided {
        "loads unaided; no repair needed"@
    } else {
        match padded {
            Ok(Ok(())) => "repaired: cross-reference entries padded to 20 bytes"@,
            Ok(Err(e)) => "padded the entries, but it still will not load: "@ + e,
            Err(why) => "repair declined \u{2014} "@ + why,
        }
    }
}

/// Say what became of the cross-reference repair.
pub fn describe_repair(unaided: bool, padded: Result<Result<(), String>, &'static str>) -> (r:
    String)
    ensures
        r@ == repair_words(
            unaided,
            match padded {
                Ok(Ok(())) => Ok(Ok(())),
                Ok(Err(e)) => Ok(Err(e@)),
                Err(why) => Err(why@),
            },
        ),
{
    let mut out: String = String::new();
    if unaided {
        push_text(&mut out, "loads unaided; no repair needed");
    } else {
        match padded {
            Ok(Ok(())) => {
                push_text(&mut out, "repaired: cross-reference entries padded to 20 bytes");
            },
            Ok(Err(e)) => {
                push_text(&mut out, "padded the entries, but it still will not load: ");
                push_text(&mut out, e.as_str());
            },
            Err(why) => {
                push_text(&mut out, "repair declined \u{2014} ");
                push_text(&mut out, why);
            },
        }
    }
    assert(out@ =~= repair_words(
        unaided,
        match padded {
            Ok(Ok(())) => Ok(Ok(())),
            Ok(Err(e)) => Ok(Err(e@)),
            Err(why) => Err(why@),
        },
    ));
    out
}

/// The words for a file: by how it and its padded form load.
pub open spec fn status_words(bytes: Seq<u8>) -> Seq<char> {
    repair_words(
        pdf::outcome(bytes) is Ok,
        match repair::padded_xref(bytes) {
            Ok(padded) => Ok(
                match pdf::outcome(padded) {
                    Ok(_) => Ok(()),
                    Err(e) => Err(e),
                },
            ),
            Err(why) => Err(why),
        },
    )
}

/// Why the cross-reference repair did or did not fire. A file that will not load
/// looks like a scan from the outside, so the reason has to be askable.
pub fn xref_repair_status(bytes: &[u8]) -> (r: String)
    ensures
        r@ == status_words(bytes@),
{
    match Doc::load(bytes) {
        Ok(_) => describe_repair(true, Ok(Ok(()))),
        Err(_) => match pad_short_xref_entries(bytes) {
            Ok(padded) => match Doc::load(padded.as_slice()) {
                Ok(_) => describe_repair(false, Ok(Ok(()))),
                Err(e) => describe_repair(false, Ok(Err(e))),
            },
            Err(why) => describe_repair(false, Err(why)),
        },
    }
}

} // verus!
