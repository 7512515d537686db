//! Running the content of a page into glyphs.

use crate::bytes::{copy_bytes, same_bytes};
use crate::document::{deref, look_up, Meant};
use crate::filters::{self, decode};
use crate::font::{self, parse_font, CoreFace, FaceModel, Font, FontModel};
use crate::machine::{
    self, apply, classify, GlyphModel, Machine, NamedFont, Operator, PageGlyphs, State, TextState,
};
use crate::matrix::{self, put_node, MatNode, Six, Step, Transform};
use crate::number::Number;
use crate::object::{self, get, get_name, num, DocModel, Entry, Obj, ObjModel, OpModel};
use crate::page_box::{self, page_box};
use crate::page_parts::{self, page_content, page_resources};
use crate::pdf::{self, operations, Doc, Op};
use std::sync::Arc;
use vstd::prelude::*;
use vstd::string::StringSliceAdditionalSpecFns;

verus! {

/// Calls `Arc::clone`: a second handle to the same value.
#[verifier::external_body]
fn share<T>(a: &Arc<T>) -> (r: Arc<T>)
    ensures
        r == *a,
{
    Arc::clone(a)
}

/// The fonts that the first `n` entries of a `/Font` dictionary give, by name.
pub open spec fn fonts_in(
    doc: DocModel,
    faces: Seq<FaceModel>,
    fd: Seq<(Seq<u8>, ObjModel)>,
    n: int,
) -> Map<Seq<u8>, FontModel>
    decreases n,
{
    if n <= 0 {
        Map::empty()
    } else {
        let before = fonts_in(doc, faces, fd, n - 1);
        match object::meant_dict(doc, fd[n - 1].1) {
            Some(d) => before.insert(
                fd[n - 1].0,
                font::font_of(doc, faces, fd[n - 1].0, d),
            ),
            None => before,
        }
    }
}

/// The fonts that a resources dictionary brings into scope.
pub open spec fn scope_fonts(
    doc: DocModel,
    faces: Seq<FaceModel>,
    res: Seq<(Seq<u8>, ObjModel)>,
) -> Map<Seq<u8>, FontModel> {
    match object::dict_entry(doc, res, "Font".spec_bytes()) {
        Some(fd) => fonts_in(doc, faces, fd, fd.len() as int),
        None => Map::empty(),
    }
}

/// A form that content invokes: the resources in its scope, its operations, and
/// its matrix.
pub struct FormModel {
    pub res: Seq<(Seq<u8>, ObjModel)>,
    pub ops: Seq<OpModel>,
    pub matrix: Six,
}

/// The identity.
pub open spec fn identity() -> Six {
    Six {
        a: Number::Int(1),
        b: Number::Int(0),
        c: Number::Int(0),
        d: Number::Int(1),
        e: Number::Int(0),
        f: Number::Int(0),
    }
}

/// The matrix that an array of six numbers is; the identity for anything else.
pub open spec fn matrix_of(o: Option<ObjModel>) -> Six {
    match o {
        Some(ObjModel::Array(a)) => if a.len() == 6 && forall|i: int|
            0 <= i < 6 ==> object::number_of(#[trigger] a[i]) is Some {
            Six {
                a: object::number_of(a[0]).unwrap(),
                b: object::number_of(a[1]).unwrap(),
                c: object::number_of(a[2]).unwrap(),
                d: object::number_of(a[3]).unwrap(),
                e: object::number_of(a[4]).unwrap(),
                f: object::number_of(a[5]).unwrap(),
            }
        } else {
            identity()
        },
        _ => identity(),
    }
}

/// The operations that the data of a stream decodes to, where there is any.
pub open spec fn stream_operations(data: Option<Seq<u8>>) -> Option<Seq<OpModel>> {
    match data {
        Some(s) => pdf::operations_in(s),
        None => None,
    }
}

/// The form that an object means under the resources in scope. A form without
/// resources of its own uses those. Anything but a form whose data decodes is
/// none.
pub open spec fn form_from(
    doc: DocModel,
    res: Seq<(Seq<u8>, ObjModel)>,
    o: ObjModel,
) -> Option<FormModel> {
    match object::meaning(doc, o) {
        Some(ObjModel::Stream(d, raw)) => if object::name_value(
            d,
            "Subtype".spec_bytes(),
        ) == Some("Form".spec_bytes()) {
            match stream_operations(filters::decoded(d, raw)) {
                Some(ops) => Some(
                    FormModel {
                        res: match object::dict_entry(doc, d, "Resources".spec_bytes()) {
                            Some(own) => own,
                            None => res,
                        },
                        ops,
                        matrix: matrix_of(object::value_of(d, "Matrix".spec_bytes())),
                    },
                ),
                None => None,
            }
        } else {
            None
        },
        _ => None,
    }
}

/// The form that the first operand names among the external objects in scope.
pub open spec fn form_named(
    doc: DocModel,
    res: Seq<(Seq<u8>, ObjModel)>,
    operands: Seq<ObjModel>,
) -> Option<FormModel> {
    if operands.len() > 0 {
        match (operands[0], object::dict_entry(doc, res, "XObject".spec_bytes())) {
            (ObjModel::Name(n), Some(xd)) => match object::value_of(xd, n) {
                Some(o) => form_from(doc, res, o),
                None => None,
            },
            _ => None,
        }
    } else {
        None
    }
}

/// The deepest nesting of forms that is run.
pub const MAX_DEPTH: u32 = 8;

/// The state after the first `n` operations of a content stream. A form runs
/// with its matrix before the current one, with the text parameters of the
/// moment, and leaves nothing behind but its glyphs.
pub open spec fn after(
    doc: DocModel,
    faces: Seq<FaceModel>,
    res: Seq<(Seq<u8>, ObjModel)>,
    ops: Seq<OpModel>,
    n: int,
    depth: int,
    s0: State,
) -> State
    decreases
            (if depth < MAX_DEPTH {
                MAX_DEPTH - depth
            } else {
                0
            }),
            n,
{
    if n <= 0 {
        s0
    } else {
        let s = after(doc, faces, res, ops, n - 1, depth, s0);
        let op = ops[n - 1];
        if machine::operator_of(op.operator) == Operator::Invoke && depth < MAX_DEPTH {
            match form_named(doc, res, op.operands) {
                Some(form) => State {
                    out: after(
                        doc,
                        faces,
                        form.res,
                        form.ops,
                        form.ops.len() as int,
                        depth + 1,
                        machine::start(
                            Transform::Before(Step::Matrix(form.matrix), Box::new(s.ctm)),
                            s.text,
                            s.out,
                        ),
                    ).out,
                    ..s
                },
                None => s,
            }
        } else {
            machine::stepped(scope_fonts(doc, faces, res), op, s)
        }
    }
}

/// The first of some references that means a dictionary.
pub open spec fn first_dict(doc: DocModel, ids: Seq<(u32, u16)>) -> Option<
    Seq<(Seq<u8>, ObjModel)>,
>
    decreases ids.len(),
{
    if ids.len() == 0 {
        None
    } else {
        match object::object_at(doc.objects, ids[0].0, ids[0].1) {
            Some(ObjModel::Dict(d)) => Some(d),
            _ => first_dict(doc, ids.drop_first()),
        }
    }
}

/// What counts of the resources that a page names: those that stand in it, else
/// the first that it or an ancestor refers to.
pub open spec fn effective(
    doc: DocModel,
    named: Option<(Option<Seq<(Seq<u8>, ObjModel)>>, Seq<(u32, u16)>)>,
) -> Option<Seq<(Seq<u8>, ObjModel)>> {
    match named {
        Some((Some(d), _)) => Some(d),
        Some((None, ids)) => first_dict(doc, ids),
        None => None,
    }
}

/// The resources of a page.
pub open spec fn resources_of(doc: DocModel, num: u32, gen: u16) -> Option<
    Seq<(Seq<u8>, ObjModel)>,
> {
    effective(doc, page_parts::named_resources(doc, num, gen))
}

/// The glyphs of a page: what its content shows, from the lower-left corner of
/// its display box. A page whose content does not decode, or that has no
/// resources, shows nothing.
pub open spec fn page_shown(doc: DocModel, faces: Seq<FaceModel>, num: u32, gen: u16) -> Seq<
    GlyphModel,
> {
    match (
        pdf::operations_in(page_parts::content_of(doc, num, gen)),
        resources_of(doc, num, gen),
    ) {
        (Some(ops), Some(res)) => {
            let area = page_box::display_box(doc, num, gen);
            after(
                doc,
                faces,
                res,
                ops,
                ops.len() as int,
                0,
                machine::start(
                    Transform::Only(Step::Origin(area.l, area.b)),
                    machine::initial_text(),
                    Seq::empty(),
                ),
            ).out
        },
        _ => Seq::empty(),
    }
}

/// A font that was parsed, under its reference and its resource name.
pub struct CachedFont {
    pub num: u32,
    pub gen: u16,
    pub name: Vec<u8>,
    pub font: Arc<Font>,
}

/// The operations of a form that was decoded, under its reference.
pub struct CachedForm {
    pub num: u32,
    pub gen: u16,
    pub ops: Arc<Vec<Op>>,
}

/// What has been parsed of a document: fonts and forms recur on many pages.
pub struct DocCaches {
    fonts: Vec<CachedFont>,
    forms: Vec<CachedForm>,
}

impl DocCaches {
    /// Everything cached is what the document says, and nothing is cached twice.
    pub closed spec fn valid(&self, doc: DocModel, faces: Seq<FaceModel>) -> bool {
        &&& forall|i: int, j: int|
            0 <= i < j < self.fonts@.len() ==> !font_stands_under(
                #[trigger] self.fonts@[j],
                (#[trigger] self.fonts@[i]).num,
                self.fonts@[i].gen,
                self.fonts@[i].name@,
            )
        &&& forall|i: int, j: int|
            0 <= i < j < self.forms@.len() ==> !form_stands_under(
                #[trigger] self.forms@[j],
                (#[trigger] self.forms@[i]).num,
                self.forms@[i].gen,
            )
        &&& forall|i: int|
            0 <= i < self.fonts@.len() ==> font_entry_valid(
                #[trigger] self.fonts@[i],
                doc,
                faces,
            )
        &&& forall|i: int|
            0 <= i < self.forms@.len() ==> form_entry_valid(#[trigger] self.forms@[i], doc)
    }

    /// Everything that was cached before still is.
    pub closed spec fn keeps(&self, before: DocCaches) -> bool {
        before.fonts@.is_prefix_of(self.fonts@) && before.forms@.is_prefix_of(self.forms@)
    }

    /// A font is cached under a reference and a resource name.
    pub closed spec fn holds_font(&self, num: u32, gen: u16, name: Seq<u8>) -> bool {
        exists|i: int|
            0 <= i < self.fonts@.len() && font_stands_under(
                #[trigger] self.fonts@[i],
                num,
                gen,
                name,
            )
    }

    /// What is kept by one step and the next is kept by both, with every font that
    /// was cached.
    pub proof fn lemma_keeps(a: DocCaches, b: DocCaches, c: DocCaches)
        requires
            b.keeps(a),
            c.keeps(b),
        ensures
            c.keeps(a),
            a.keeps(a),
            forall|num: u32, gen: u16, name: Seq<u8>|
                b.holds_font(num, gen, name) ==> #[trigger] c.holds_font(num, gen, name),
    {
        assert forall|num: u32, gen: u16, name: Seq<u8>| b.holds_font(num, gen, name) implies
            #[trigger] c.holds_font(num, gen, name) by {
            let i = choose|i: int|
                0 <= i < b.fonts@.len() && font_stands_under(
                    #[trigger] b.fonts@[i],
                    num,
                    gen,
                    name,
                );
            assert(c.fonts@[i] == b.fonts@[i]);
        }
    }

    /// Caches with nothing in them, which are valid for every document.
    pub fn new() -> (r: DocCaches)
        ensures
            forall|doc: DocModel, faces: Seq<FaceModel>| #[trigger] r.valid(doc, faces),
    {
        DocCaches { fonts: Vec::new(), forms: Vec::new() }
    }
}

/// A cached font is the one that its reference and name give.
spec fn font_entry_valid(c: CachedFont, doc: DocModel, faces: Seq<FaceModel>) -> bool {
    object::meant_dict(doc, ObjModel::Ref(c.num, c.gen)) matches Some(d) && c.font.view()
        == font::font_of(doc, faces, c.name@, d)
}

/// A cached form is the one that its reference gives.
spec fn form_entry_valid(c: CachedForm, doc: DocModel) -> bool {
    object::object_at(doc.objects, c.num, c.gen) matches Some(o) && stream_operations(
        object::data_of(o),
    ) == Some(pdf::ops_model(c.ops@))
}

/// Whether a cached font stands under a reference and a resource name.
spec fn font_stands_under(c: CachedFont, num: u32, gen: u16, name: Seq<u8>) -> bool {
    c.num == num && c.gen == gen && c.name@ == name
}

/// Whether a cached form stands under a reference.
spec fn form_stands_under(c: CachedForm, num: u32, gen: u16) -> bool {
    c.num == num && c.gen == gen
}

/// Find a cached font: the first that stands under the reference and the name,
/// and nothing only where none does.
fn find_cached_font(caches: &DocCaches, num: u32, gen: u16, name: &[u8]) -> (r: Option<Arc<Font>>)
    ensures
        match r {
            Some(f) => exists|i: int|
                {
                    &&& 0 <= i < caches.fonts@.len()
                    &&& font_stands_under(#[trigger] caches.fonts@[i], num, gen, name@)
                    &&& caches.fonts@[i].font == f
                    &&& forall|j: int|
                        0 <= j < i ==> !font_stands_under(
                            #[trigger] caches.fonts@[j],
                            num,
                            gen,
                            name@,
                        )
                },
            None => forall|j: int|
                0 <= j < caches.fonts@.len() ==> !font_stands_under(
                    #[trigger] caches.fonts@[j],
                    num,
                    gen,
                    name@,
                ),
        },
{
    let mut i: usize = 0;
    while i < caches.fonts.len()
        invariant
            i <= caches.fonts@.len(),
            forall|j: int|
                0 <= j < i ==> !font_stands_under(#[trigger] caches.fonts@[j], num, gen, name@),
        decreases caches.fonts@.len() - i,
    {
        let c = &caches.fonts[i];
        if c.num == num && c.gen == gen && same_bytes(c.name.as_slice(), name) {
            return Some(share(&c.font));
        }
        i += 1;
    }
    None
}

/// Find a cached form: the first that stands under the reference, and nothing
/// only where none does.
fn find_cached_form(caches: &DocCaches, num: u32, gen: u16) -> (r: Option<Arc<Vec<Op>>>)
    ensures
        match r {
            Some(f) => exists|i: int|
                {
                    &&& 0 <= i < caches.forms@.len()
                    &&& form_stands_under(#[trigger] caches.forms@[i], num, gen)
                    &&& caches.forms@[i].ops == f
                    &&& forall|j: int|
                        0 <= j < i ==> !form_stands_under(#[trigger] caches.forms@[j], num, gen)
                },
            None => forall|j: int|
                0 <= j < caches.forms@.len() ==> !form_stands_under(
                    #[trigger] caches.forms@[j],
                    num,
                    gen,
                ),
        },
{
    let mut i: usize = 0;
    while i < caches.forms.len()
        invariant
            i <= caches.forms@.len(),
            forall|j: int|
                0 <= j < i ==> !form_stands_under(#[trigger] caches.forms@[j], num, gen),
        decreases caches.forms@.len() - i,
    {
        let c = &caches.forms[i];
        if c.num == num && c.gen == gen {
            return Some(share(&c.ops));
        }
        i += 1;
    }
    None
}

/// The font that an entry of a `/Font` dictionary gives, from the cache where it
/// is there.
fn font_from_entry(
    doc: &Doc,
    faces: &Vec<CoreFace>,
    name: &[u8],
    value: &Obj,
    caches: &mut DocCaches,
) -> (r: Option<Arc<Font>>)
    requires
        old(caches).valid(doc.view(), font::faces_model(faces@)),
    ensures
        final(caches).valid(doc.view(), font::faces_model(faces@)),
        final(caches).keeps(*old(caches)),
        r is Some ==> (value.view() matches ObjModel::Ref(n, g) ==> final(caches).holds_font(
            n,
            g,
            name@,
        )),
        match (r, object::meant_dict(doc.view(), value.view())) {
            (Some(f), Some(d)) => f.view() == font::font_of(
                doc.view(),
                font::faces_model(faces@),
                name@,
                d,
            ),
            (None, None) => true,
            _ => false,
        },
{
    if let Obj::Ref(n, g) = value {
        if let Some(f) = find_cached_font(caches, *n, *g, name) {
            assert(caches.holds_font(*n, *g, name@));
            return Some(f);
        }
    }
    let font = match deref(doc, value) {
        Some(m) => match m.dict() {
            Some(d) => Arc::new(parse_font(doc, faces, name, d)),
            None => {
                return None;
            },
        },
        None => {
            return None;
        },
    };
    if let Obj::Ref(n, g) = value {
        let kept = CachedFont { num: *n, gen: *g, name: copy_bytes(name), font: share(&font) };
        let ghost before = caches.fonts@;
        caches.fonts.push(kept);
        proof {
            assert(font_entry_valid(kept, doc.view(), font::faces_model(faces@)));
            assert(caches.fonts@ == before.push(kept));
            assert(font_stands_under(caches.fonts@[before.len() as int], *n, *g, name@));
        }
    }
    Some(font)
}

/// Every font that the first `n` entries of a `/Font` dictionary refer to is
/// cached.
pub open spec fn hold_first(
    doc: DocModel,
    fd: Seq<(Seq<u8>, ObjModel)>,
    caches: DocCaches,
    n: int,
) -> bool {
    forall|i: int|
        0 <= i < n && object::meant_dict(doc, (#[trigger] fd[i]).1) is Some ==> (
        fd[i].1 matches ObjModel::Ref(num, gen) ==> caches.holds_font(num, gen, fd[i].0))
}

/// Every font that a resources dictionary refers to is cached.
pub open spec fn caches_hold(
    doc: DocModel,
    res: Seq<(Seq<u8>, ObjModel)>,
    caches: DocCaches,
) -> bool {
    object::dict_entry(doc, res, "Font".spec_bytes()) matches Some(fd) ==> hold_first(
        doc,
        fd,
        caches,
        fd.len() as int,
    )
}

/// Bring the fonts of a resources dictionary into scope, reusing those that were
/// parsed before and keeping those that were not.
pub fn fonts_from_res(
    doc: &Doc,
    faces: &Vec<CoreFace>,
    res: &Vec<Entry>,
    caches: &mut DocCaches,
) -> (r: Vec<NamedFont>)
    requires
        old(caches).valid(doc.view(), font::faces_model(faces@)),
    ensures
        final(caches).valid(doc.view(), font::faces_model(faces@)),
        machine::fonts_map(r@) == scope_fonts(
            doc.view(),
            font::faces_model(faces@),
            object::entries_model(res@),
        ),
        final(caches).keeps(*old(caches)),
        caches_hold(doc.view(), object::entries_model(res@), *final(caches)),
{
    let mut r: Vec<NamedFont> = Vec::new();
    if let Some(m) = look_up(doc, res, "Font".as_bytes()) {
        if let Some(fd) = m.dict() {
            let ghost model = object::entries_model(fd@);
            let mut i: usize = 0;
            while i < fd.len()
                invariant
                    i <= fd@.len(),
                    model == object::entries_model(fd@),
                    caches.valid(doc.view(), font::faces_model(faces@)),
                    caches.keeps(*old(caches)),
                    hold_first(doc.view(), model, *caches, i as int),
                    machine::fonts_map(r@) == fonts_in(
                        doc.view(),
                        font::faces_model(faces@),
                        model,
                        i as int,
                    ),
                decreases fd@.len() - i,
            {
                assert(model[i as int] == (fd@[i as int].key@, fd@[i as int].value.view()));
                let e = &fd[i];
                let ghost c0 = *caches;
                if let Some(font) = font_from_entry(
                    doc,
                    faces,
                    e.key.as_slice(),
                    &e.value,
                    caches,
                ) {
                    let ghost before = r@;
                    let named = NamedFont { name: copy_bytes(e.key.as_slice()), font };
                    r.push(named);
                    assert(r@.drop_last() =~= before);
                    assert(r@.last() == named);
                }
                proof {
                    DocCaches::lemma_keeps(*old(caches), c0, *caches);
                }
                i += 1;
            }
        }
    }
    r
}

/// The operations of a form, from the cache where they are there.
fn form_operations(
    doc: &Doc,
    Ghost(faces): Ghost<Seq<FaceModel>>,
    dict: &Vec<Entry>,
    data: &Vec<u8>,
    id: Option<(u32, u16)>,
    caches: &mut DocCaches,
) -> (r: Option<Arc<Vec<Op>>>)
    requires
        old(caches).valid(doc.view(), faces),
        id matches Some((n, g)) ==> object::object_at(doc.view().objects, n, g) == Some(
            ObjModel::Stream(object::entries_model(dict@), data@),
        ),
    ensures
        final(caches).valid(doc.view(), faces),
        final(caches).keeps(*old(caches)),
        ({
            let model = stream_operations(
                filters::decoded(object::entries_model(dict@), data@),
            );
            match r {
                Some(ops) => model == Some(pdf::ops_model(ops@)),
                None => model is None,
            }
        }),
{
    if let Some((n, g)) = id {
        if let Some(ops) = find_cached_form(caches, n, g) {
            return Some(ops);
        }
    }
    let bytes = match decode(dict, data.as_slice()) {
        Some(b) => b,
        None => {
            return None;
        },
    };
    let ops = match operations(bytes.as_slice()) {
        Some(o) => Arc::new(o),
        None => {
            return None;
        },
    };
    if let Some((n, g)) = id {
        let kept = CachedForm { num: n, gen: g, ops: share(&ops) };
        let ghost before = caches.forms@;
        caches.forms.push(kept);
        proof {
            assert(form_entry_valid(kept, doc.view()));
            assert(caches.forms@ == before.push(kept));
        }
    }
    Some(ops)
}

/// The matrix that an array of six numbers is.
fn read_matrix(o: Option<&Obj>) -> (r: Six)
    ensures
        r == matrix_of(
            match o {
                Some(v) => Some(v.view()),
                None => None,
            },
        ),
{
    if let Some(v) = o {
        proof {
            object::lemma_array_view(*v);
        }
        if let Obj::Array(a) = v {
            if a.len() == 6 {
                let ghost model = object::array_model(a@);
                assert(forall|i: int| 0 <= i < 6 ==> #[trigger] model[i] == a@[i].view());
                match (num(&a[0]), num(&a[1]), num(&a[2]), num(&a[3]), num(&a[4]), num(&a[5])) {
                    (Some(a), Some(b), Some(c), Some(d), Some(e), Some(f)) => {
                        return Six { a, b, c, d, e, f };
                    },
                    _ => {
                        assert(exists|i: int|
                            0 <= i < 6 && object::number_of(#[trigger] model[i]) is None) by {
                            assert(object::number_of(model[0]) is None
                                || object::number_of(model[1]) is None
                                || object::number_of(model[2]) is None
                                || object::number_of(model[3]) is None
                                || object::number_of(model[4]) is None
                                || object::number_of(model[5]) is None);
                        }
                    },
                }
            }
        }
    }
    Six {
        a: Number::Int(1),
        b: Number::Int(0),
        c: Number::Int(0),
        d: Number::Int(1),
        e: Number::Int(0),
        f: Number::Int(0),
    }
}

/// Run the form that the first operand names, if it is one.
fn invoke(
    doc: &Doc,
    faces: &Vec<CoreFace>,
    res: &Vec<Entry>,
    xobjects: &Option<Meant>,
    operands: &Vec<Obj>,
    ctm: usize,
    text: TextState,
    depth: u32,
    caches: &mut DocCaches,
    page: &mut PageGlyphs,
)
    requires
        depth < MAX_DEPTH,
        old(page).placed(),
        ctm < old(page).nodes@.len(),
        old(caches).valid(doc.view(), font::faces_model(faces@)),
        match xobjects {
            Some(m) => object::entry(
                doc.view(),
                object::entries_model(res@),
                "XObject".spec_bytes(),
            ) == Some(m.view()),
            None => object::entry(
                doc.view(),
                object::entries_model(res@),
                "XObject".spec_bytes(),
            ) is None,
        },
    ensures
        final(page).placed(),
        matrix::extends(final(page).nodes@, old(page).nodes@),
        final(caches).valid(doc.view(), font::faces_model(faces@)),
        final(caches).keeps(*old(caches)),
        final(page).view() == (match form_named(
            doc.view(),
            object::entries_model(res@),
            object::array_model(operands@),
        ) {
            Some(form) => after(
                doc.view(),
                font::faces_model(faces@),
                form.res,
                form.ops,
                form.ops.len() as int,
                depth + 1,
                machine::start(
                    Transform::Before(
                        Step::Matrix(form.matrix),
                        Box::new(matrix::chain(old(page).nodes@, ctm as int)),
                    ),
                    text,
                    old(page).view(),
                ),
            ).out,
            None => old(page).view(),
        }),
    decreases MAX_DEPTH - depth, 0int,
{
    if operands.len() == 0 {
        return ;
    }
    assert(object::array_model(operands@)[0] == operands@[0].view());
    let name = match &operands[0] {
        Obj::Name(n) => n,
        _ => {
            return ;
        },
    };
    let xd = match xobjects {
        Some(m) => match m.dict() {
            Some(d) => d,
            None => {
                return ;
            },
        },
        None => {
            return ;
        },
    };
    let o = match get(xd, name.as_slice()) {
        Some(o) => o,
        None => {
            return ;
        },
    };
    let id: Option<(u32, u16)> = match o {
        Obj::Ref(n, g) => Some((*n, *g)),
        _ => None,
    };
    let meant = match deref(doc, o) {
        Some(m) => m,
        None => {
            return ;
        },
    };
    let stream = meant.obj();
    proof {
        object::lemma_dict_view(*stream);
    }
    let (sd, data) = match stream {
        Obj::Stream(d, s) => (d, s),
        _ => {
            return ;
        },
    };
    let is_form: bool = match get_name(sd, "Subtype".as_bytes()) {
        Some(n) => same_bytes(n.as_slice(), "Form".as_bytes()),
        None => false,
    };
    if !is_form {
        return ;
    }
    let ops = match form_operations(
        doc,
        Ghost(font::faces_model(faces@)),
        sd,
        data,
        id,
        caches,
    ) {
        Some(ops) => ops,
        None => {
            return ;
        },
    };
    let matrix = read_matrix(get(sd, "Matrix".as_bytes()));
    let own = look_up(doc, sd, "Resources".as_bytes());
    let form_res: &Vec<Entry> = match &own {
        Some(m) => match m.dict() {
            Some(d) => d,
            None => res,
        },
        None => res,
    };
    let base: usize = put_node(&mut page.nodes, MatNode::Before(Step::Matrix(matrix), ctm));
    proof {
        machine::lemma_glyphs_stay(page.glyphs@, old(page).nodes@, page.nodes@);
    }
    let ghost c0 = *caches;
    run_content(doc, faces, form_res, &ops, base, text, depth + 1, caches, page);
    proof {
        DocCaches::lemma_keeps(*old(caches), c0, *caches);
    }
}

/// Run a content stream's operators and add the glyphs that they show. Forms are
/// run where they are invoked, to a depth of eight. `res` is the resources
/// dictionary in scope, and `base` the place of the current matrix.
pub fn run_content(
    doc: &Doc,
    faces: &Vec<CoreFace>,
    res: &Vec<Entry>,
    ops: &Vec<Op>,
    base: usize,
    init: TextState,
    depth: u32,
    caches: &mut DocCaches,
    page: &mut PageGlyphs,
)
    requires
        old(page).placed(),
        base < old(page).nodes@.len(),
        old(caches).valid(doc.view(), font::faces_model(faces@)),
    ensures
        final(page).placed(),
        matrix::extends(final(page).nodes@, old(page).nodes@),
        final(caches).valid(doc.view(), font::faces_model(faces@)),
        final(caches).keeps(*old(caches)),
        final(page).view() == after(
            doc.view(),
            font::faces_model(faces@),
            object::entries_model(res@),
            pdf::ops_model(ops@),
            ops@.len() as int,
            depth as int,
            machine::start(
                matrix::chain(old(page).nodes@, base as int),
                init,
                old(page).view(),
            ),
        ).out,
    decreases
            (if depth < MAX_DEPTH {
                MAX_DEPTH - depth
            } else {
                0
            }),
            1int,
{
    let fonts = fonts_from_res(doc, faces, res, caches);
    let xobjects = look_up(doc, res, "XObject".as_bytes());
    let blank: usize = put_node(&mut page.nodes, MatNode::Identity);
    let mut m = Machine {
        ctm: base,
        text: init,
        font: None,
        tm: blank,
        tlm: blank,
        stack: Vec::new(),
    };
    let ghost dm = doc.view();
    let ghost fm = font::faces_model(faces@);
    let ghost rm = object::entries_model(res@);
    let ghost om = pdf::ops_model(ops@);
    let ghost s0 = machine::start(
        matrix::chain(old(page).nodes@, base as int),
        init,
        old(page).view(),
    );
    proof {
        machine::lemma_glyphs_stay(page.glyphs@, old(page).nodes@, page.nodes@);
        matrix::lemma_chain_stays(old(page).nodes@, page.nodes@, base as int);
        assert(machine::state_of(m, fonts@, *page).stack =~= s0.stack);
        assert(machine::state_of(m, fonts@, *page) =~= s0);
    }
    let mut i: usize = 0;
    while i < ops.len()
        invariant
            i <= ops@.len(),
            dm == doc.view(),
            fm == font::faces_model(faces@),
            rm == object::entries_model(res@),
            om == pdf::ops_model(ops@),
            machine::fonts_map(fonts@) == scope_fonts(dm, fm, rm),
            match xobjects {
                Some(x) => object::entry(dm, rm, "XObject".spec_bytes()) == Some(x.view()),
                None => object::entry(dm, rm, "XObject".spec_bytes()) is None,
            },
            caches.valid(dm, fm),
            caches.keeps(*old(caches)),
            machine::settled(m, fonts@, *page),
            matrix::extends(page.nodes@, old(page).nodes@),
            machine::state_of(m, fonts@, *page) == after(
                dm,
                fm,
                rm,
                om,
                i as int,
                depth as int,
                s0,
            ),
        decreases ops@.len() - i,
    {
        let op = &ops[i];
        assert(om[i as int] == op.view());
        match classify(op.operator.as_str()) {
            Operator::Invoke => {
                if depth < MAX_DEPTH {
                    let ghost before = *page;
                    let ghost c0 = *caches;
                    invoke(
                        doc,
                        faces,
                        res,
                        &xobjects,
                        &op.operands,
                        m.ctm,
                        m.text,
                        depth,
                        caches,
                        page,
                    );
                    proof {
                        machine::lemma_state_kept(m, fonts@, before, *page);
                        DocCaches::lemma_keeps(*old(caches), c0, *caches);
                    }
                }
            },
            _ => {
                apply(op, &mut m, &fonts, page);
            },
        }
        i += 1;
    }
}

/// The resources dictionary that counts of those that a page names.
pub fn effective_resources(
    doc: &Doc,
    named: Option<(Option<Vec<Entry>>, Vec<(u32, u16)>)>,
) -> (r: Option<Vec<Entry>>)
    ensures
        ({
            let model = effective(
                doc.view(),
                match named {
                    Some((Some(d), ids)) => Some((Some(object::entries_model(d@)), ids@)),
                    Some((None, ids)) => Some((None, ids@)),
                    None => None,
                },
            );
            match r {
                Some(d) => model == Some(object::entries_model(d@)),
                None => model is None,
            }
        }),
{
    match named {
        None => None,
        Some((Some(d), _)) => Some(d),
        Some((None, ids)) => {
            let mut i: usize = 0;
            assert(ids@.skip(0) =~= ids@);
            while i < ids.len()
                invariant
                    i <= ids@.len(),
                    first_dict(doc.view(), ids@) == first_dict(doc.view(), ids@.skip(i as int)),
                    named matches Some((None, v)) && v@ == ids@,
                decreases ids@.len() - i,
            {
                assert(ids@.skip(i as int)[0] == ids@[i as int]);
                assert(ids@.skip(i as int).drop_first() =~= ids@.skip(i + 1));
                let (n, g) = ids[i];
                if let Some(o) = doc.object(n, g) {
                    proof {
                        object::lemma_dict_view(o);
                    }
                    if let Obj::Dict(d) = o {
                        return Some(d);
                    }
                }
                i += 1;
            }
            None
        },
    }
}

/// The resources dictionary of a page, standing in it or referred to.
pub fn page_res(doc: &Doc, num: u32, gen: u16) -> (r: Option<Vec<Entry>>)
    ensures
        match r {
            Some(d) => resources_of(doc.view(), num, gen) == Some(object::entries_model(d@)),
            None => resources_of(doc.view(), num, gen) is None,
        },
{
    effective_resources(doc, page_resources(doc, num, gen))
}

/// Every glyph of a page, with caches that keep what was parsed for other pages.
pub fn page_glyphs_cached(
    doc: &Doc,
    faces: &Vec<CoreFace>,
    num: u32,
    gen: u16,
    caches: &mut DocCaches,
) -> (page: PageGlyphs)
    requires
        old(caches).valid(doc.view(), font::faces_model(faces@)),
    ensures
        final(caches).valid(doc.view(), font::faces_model(faces@)),
        final(caches).keeps(*old(caches)),
        page.placed(),
        page.view() == page_shown(doc.view(), font::faces_model(faces@), num, gen),
{
    let mut page = PageGlyphs { nodes: Vec::new(), glyphs: Vec::new() };
    assert(page.view() =~= Seq::<GlyphModel>::empty());
    let bytes = page_content(doc, num, gen);
    let ops = match operations(bytes.as_slice()) {
        Some(o) => o,
        None => {
            return page;
        },
    };
    if let Some(res) = page_res(doc, num, gen) {
        let area = page_box(doc, num, gen);
        let base: usize = put_node(&mut page.nodes, MatNode::Only(Step::Origin(area.l, area.b)));
        assert(page.view() =~= Seq::<GlyphModel>::empty());
        run_content(doc, faces, &res, &ops, base, TextState::initial(), 0, caches, &mut page);
    }
    page
}

/// Every glyph of a page.
pub fn page_glyphs(doc: &Doc, faces: &Vec<CoreFace>, num: u32, gen: u16) -> (page: PageGlyphs)
    ensures
        page.placed(),
        page.view() == page_shown(doc.view(), font::faces_model(faces@), num, gen),
{
    let mut caches = DocCaches::new();
    page_glyphs_cached(doc, faces, num, gen, &mut caches)
}

/// The number of names among some fonts.
pub fn count_fonts(fonts: &Vec<NamedFont>) -> (r: usize)
    ensures
        r == machine::fonts_map(fonts@).dom().len(),
{
    let mut n: usize = 0;
    let mut i: usize = 0;
    assert(machine::fonts_map(fonts@.take(0)).dom() =~= Set::<Seq<u8>>::empty());
    while i < fonts.len()
        invariant
            i <= fonts@.len(),
            n <= i,
            machine::fonts_map(fonts@.take(i as int)).dom().finite(),
            n == machine::fonts_map(fonts@.take(i as int)).dom().len(),
        decreases fonts@.len() - i,
    {
        let ghost known = machine::fonts_map(fonts@.take(i as int));
        assert(fonts@.take(i + 1).drop_last() =~= fonts@.take(i as int));
        assert(machine::fonts_map(fonts@.take(i + 1)).dom() =~= known.dom().insert(
            fonts@[i as int].name@,
        ));
        let mut seen: bool = false;
        let mut j: usize = 0;
        while j < i
            invariant
                j <= i < fonts@.len(),
                seen == machine::fonts_map(fonts@.take(j as int)).dom().contains(
                    fonts@[i as int].name@,
                ),
            decreases i - j,
        {
            assert(fonts@.take(j + 1).drop_last() =~= fonts@.take(j as int));
            if same_bytes(fonts[j].name.as_slice(), fonts[i].name.as_slice()) {
                seen = true;
            }
            j += 1;
        }
        if !seen {
            n += 1;
        }
        i += 1;
    }
    assert(fonts@.take(i as int) =~= fonts@);
    n
}

} // verus!
