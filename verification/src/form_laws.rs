//! That a form is inserted: its glyphs come between those before and after it, and
//! all others are what they are without it.

use crate::content::{self, FormModel, MAX_DEPTH};
use crate::font::{FaceModel, FontModel};
use crate::machine::{self, GlyphModel, Operator, State};
use crate::matrix::{Step, Transform};
use crate::number::Number;
use crate::object::{DocModel, ObjModel, OpModel};
use vstd::prelude::*;

verus! {

/// A state with more glyphs in front of its own.
spec fn behind(front: Seq<GlyphModel>, s: State) -> State {
    State { out: front + s.out, ..s }
}

/// The glyphs of a text do not depend on those that were shown before.
proof fn lemma_glyphs_behind(
    front: Seq<GlyphModel>,
    s: State,
    f: FontModel,
    width: Number,
    text: Seq<char>,
)
    ensures
        machine::glyphs_in(behind(front, s), f, width, text) == machine::glyphs_in(
            s,
            f,
            width,
            text,
        ),
    decreases text.len(),
{
    if text.len() > 0 {
        lemma_glyphs_behind(front, s, f, width, text.drop_last());
    }
}

/// Codes are shown behind what was shown before.
proof fn lemma_codes_behind(
    front: Seq<GlyphModel>,
    s: State,
    f: FontModel,
    codes: Seq<u32>,
    n: int,
)
    ensures
        machine::codes_shown(behind(front, s), f, codes, n) == behind(
            front,
            machine::codes_shown(s, f, codes, n),
        ),
    decreases n,
{
    if n > 0 {
        lemma_codes_behind(front, s, f, codes, n - 1);
        let before = machine::codes_shown(s, f, codes, n - 1);
        let code = codes[n - 1];
        let width = crate::font::width_of(f, code);
        let text = match crate::font::text_of(f, code) {
            Some(t) => t,
            None => Seq::empty(),
        };
        lemma_glyphs_behind(front, before, f, width, text);
        let glyphs = machine::glyphs_in(before, f, width, text);
        assert((front + before.out) + glyphs =~= front + (before.out + glyphs));
    }
}

/// A string is shown behind what was shown before.
proof fn lemma_string_behind(front: Seq<GlyphModel>, s: State, f: FontModel, bytes: Seq<u8>)
    ensures
        machine::string_shown(behind(front, s), f, bytes) == behind(
            front,
            machine::string_shown(s, f, bytes),
        ),
{
    let codes = machine::codes_of(f.two_byte, bytes);
    lemma_codes_behind(front, s, f, codes, codes.len() as int);
}

/// The elements of an array are shown behind what was shown before.
proof fn lemma_elements_behind(
    front: Seq<GlyphModel>,
    s: State,
    f: FontModel,
    a: Seq<ObjModel>,
    n: int,
)
    ensures
        machine::elements_shown(behind(front, s), f, a, n) == behind(
            front,
            machine::elements_shown(s, f, a, n),
        ),
    decreases n,
{
    if n > 0 {
        lemma_elements_behind(front, s, f, a, n - 1);
        let before = machine::elements_shown(s, f, a, n - 1);
        match a[n - 1] {
            ObjModel::Str(bytes) => {
                lemma_string_behind(front, before, f, bytes);
            },
            _ => {},
        }
    }
}

/// The last operand is shown behind what was shown before.
proof fn lemma_last_behind(front: Seq<GlyphModel>, s: State, v: Seq<ObjModel>)
    ensures
        machine::last_shown(behind(front, s), v) == behind(front, machine::last_shown(s, v)),
{
    match s.font {
        Some(f) => {
            if v.len() > 0 {
                match v.last() {
                    ObjModel::Str(bytes) => {
                        lemma_string_behind(front, s, f, bytes);
                    },
                    _ => {},
                }
            }
        },
        None => {},
    }
}

/// An operation does the same behind other glyphs.
proof fn lemma_step_behind(
    front: Seq<GlyphModel>,
    fonts: Map<Seq<u8>, FontModel>,
    op: OpModel,
    s: State,
)
    ensures
        machine::stepped(fonts, op, behind(front, s)) == behind(
            front,
            machine::stepped(fonts, op, s),
        ),
{
    let v = op.operands;
    let moved = machine::line_moved(s, Step::Down(s.text.tl));
    match machine::operator_of(op.operator) {
        Operator::Show => {
            lemma_last_behind(front, s, v);
        },
        Operator::NextShow => {
            lemma_last_behind(front, moved, v);
        },
        Operator::SpacedShow => {
            let u = State {
                text: machine::TextState {
                    tw: machine::operand(v, 0),
                    tc: machine::operand(v, 1),
                    ..s.text
                },
                ..moved
            };
            lemma_last_behind(front, u, v);
        },
        Operator::ShowArray => {
            match s.font {
                Some(f) => {
                    if v.len() > 0 {
                        match v[0] {
                            ObjModel::Array(a) => {
                                lemma_elements_behind(front, s, f, a, a.len() as int);
                            },
                            _ => {},
                        }
                    }
                },
                None => {},
            }
        },
        _ => {},
    }
}

/// The glyphs of a form that is run in a state, with nothing shown before.
pub open spec fn form_glyphs(
    doc: DocModel,
    faces: Seq<FaceModel>,
    form: FormModel,
    depth: int,
    s: State,
) -> Seq<GlyphModel> {
    content::after(
        doc,
        faces,
        form.res,
        form.ops,
        form.ops.len() as int,
        depth + 1,
        machine::start(
            Transform::Before(Step::Matrix(form.matrix), Box::new(s.ctm)),
            s.text,
            Seq::empty(),
        ),
    ).out
}

/// Content does the same behind other glyphs.
proof fn lemma_after_behind(
    front: Seq<GlyphModel>,
    doc: DocModel,
    faces: Seq<FaceModel>,
    res: Seq<(Seq<u8>, ObjModel)>,
    ops: Seq<OpModel>,
    n: int,
    depth: int,
    s0: State,
)
    ensures
        content::after(doc, faces, res, ops, n, depth, behind(front, s0)) == behind(
            front,
            content::after(doc, faces, res, ops, n, depth, s0),
        ),
    decreases MAX_DEPTH - depth, n,
{
    if n > 0 {
        lemma_after_behind(front, doc, faces, res, ops, n - 1, depth, s0);
        let s = content::after(doc, faces, res, ops, n - 1, depth, s0);
        let op = ops[n - 1];
        if machine::operator_of(op.operator) == Operator::Invoke && depth < MAX_DEPTH {
            match content::form_named(doc, res, op.operands) {
                Some(form) => {
                    let inner = machine::start(
                        Transform::Before(Step::Matrix(form.matrix), Box::new(s.ctm)),
                        s.text,
                        s.out,
                    );
                    lemma_after_behind(
                        front,
                        doc,
                        faces,
                        form.res,
                        form.ops,
                        form.ops.len() as int,
                        depth + 1,
                        inner,
                    );
                },
                None => {},
            }
        } else {
            lemma_step_behind(front, content::scope_fonts(doc, faces, res), op, s);
        }
    }
}

/// What content does depends on its first operations alone.
proof fn lemma_after_prefix(
    doc: DocModel,
    faces: Seq<FaceModel>,
    res: Seq<(Seq<u8>, ObjModel)>,
    a: Seq<OpModel>,
    b: Seq<OpModel>,
    n: int,
    depth: int,
    s0: State,
)
    requires
        n <= a.len(),
        n <= b.len(),
        forall|i: int| 0 <= i < n ==> a[i] == b[i],
    ensures
        content::after(doc, faces, res, a, n, depth, s0) == content::after(
            doc,
            faces,
            res,
            b,
            n,
            depth,
            s0,
        ),
    decreases n,
{
    if n > 0 {
        lemma_after_prefix(doc, faces, res, a, b, n - 1, depth, s0);
    }
}

/// An operation that follows some others does what it does on its own.
proof fn lemma_after_last(
    doc: DocModel,
    faces: Seq<FaceModel>,
    res: Seq<(Seq<u8>, ObjModel)>,
    ops: Seq<OpModel>,
    n: int,
    depth: int,
    s0: State,
)
    requires
        0 < n <= ops.len(),
    ensures
        content::after(doc, faces, res, ops, n, depth, s0) == content::after(
            doc,
            faces,
            res,
            seq![ops[n - 1]],
            1,
            depth,
            content::after(doc, faces, res, ops, n - 1, depth, s0),
        ),
{
    let s = content::after(doc, faces, res, ops, n - 1, depth, s0);
    assert(content::after(doc, faces, res, seq![ops[n - 1]], 0, depth, s) == s);
}

/// What comes after a form is what it would be without the form, behind its glyphs.
proof fn lemma_rest(
    doc: DocModel,
    faces: Seq<FaceModel>,
    res: Seq<(Seq<u8>, ObjModel)>,
    a: Seq<OpModel>,
    b: Seq<OpModel>,
    n: int,
    m: int,
    depth: int,
    s0: State,
    s1: State,
    shown: Seq<GlyphModel>,
) -> (z: State)
    requires
        0 <= n,
        0 <= m,
        n + 1 + m <= a.len(),
        n + m <= b.len(),
        a.skip(n + 1).take(m) == b.skip(n).take(m),
        content::after(doc, faces, res, b, n, depth, s0) == s1,
        content::after(doc, faces, res, a, n + 1, depth, s0) == (State {
            out: s1.out + shown,
            ..s1
        }),
    ensures
        content::after(doc, faces, res, b, n + m, depth, s0) == behind(s1.out, z),
        content::after(doc, faces, res, a, n + 1 + m, depth, s0) == behind(s1.out + shown, z),
    decreases m,
{
    if m == 0 {
        let z = State { out: Seq::empty(), ..s1 };
        assert(s1.out + z.out =~= s1.out);
        assert((s1.out + shown) + z.out =~= s1.out + shown);
        z
    } else {
        assert(a.skip(n + 1).take(m - 1) =~= a.skip(n + 1).take(m).drop_last());
        assert(b.skip(n).take(m - 1) =~= b.skip(n).take(m).drop_last());
        let y = lemma_rest(doc, faces, res, a, b, n, m - 1, depth, s0, s1, shown);
        let op = b[n + m - 1];
        assert(a.skip(n + 1).take(m)[m - 1] == a[n + m]);
        assert(b.skip(n).take(m)[m - 1] == op);
        lemma_after_last(doc, faces, res, b, n + m, depth, s0);
        lemma_after_last(doc, faces, res, a, n + 1 + m, depth, s0);
        lemma_after_behind(s1.out, doc, faces, res, seq![op], 1, depth, y);
        lemma_after_behind(s1.out + shown, doc, faces, res, seq![op], 1, depth, y);
        content::after(doc, faces, res, seq![op], 1, depth, y)
    }
}

/// A form is inserted. The glyphs of content that invokes a form between two lists
/// of operations are those of the first list, those of the form, and those that the
/// second list adds to the first without it; and the state at the end is the one
/// without it. So nothing that the form does to the matrices, the font, the text
/// parameters or the saved states reaches what comes after.
pub proof fn law_a_form_is_inserted(
    doc: DocModel,
    faces: Seq<FaceModel>,
    res: Seq<(Seq<u8>, ObjModel)>,
    before: Seq<OpModel>,
    invoke: OpModel,
    rest: Seq<OpModel>,
    form: FormModel,
    depth: int,
    s0: State,
)
    requires
        machine::operator_of(invoke.operator) == Operator::Invoke,
        content::form_named(doc, res, invoke.operands) == Some(form),
        depth < 8,
    ensures
        ({
            let n = before.len() as int;
            let m = rest.len() as int;
            let ops = before + seq![invoke] + rest;
            let s = content::after(doc, faces, res, before, n, depth, s0);
            let t = content::after(doc, faces, res, before + rest, n + m, depth, s0);
            let u = content::after(doc, faces, res, ops, n + 1 + m, depth, s0);
            &&& u.out == s.out + form_glyphs(doc, faces, form, depth, s) + t.out.skip(
                s.out.len() as int,
            )
            &&& s.out.is_prefix_of(t.out)
            &&& u == (State { out: u.out, ..t })
        }),
{
    let n = before.len() as int;
    let m = rest.len() as int;
    let ops = before + seq![invoke] + rest;
    let plain = before + rest;
    let s = content::after(doc, faces, res, before, n, depth, s0);
    lemma_after_prefix(doc, faces, res, before, ops, n, depth, s0);
    lemma_after_prefix(doc, faces, res, before, plain, n, depth, s0);
    assert(ops[n] == invoke);
    let inner = machine::start(
        Transform::Before(Step::Matrix(form.matrix), Box::new(s.ctm)),
        s.text,
        Seq::empty(),
    );
    lemma_after_behind(
        s.out,
        doc,
        faces,
        form.res,
        form.ops,
        form.ops.len() as int,
        depth + 1,
        inner,
    );
    assert(s.out + Seq::<GlyphModel>::empty() =~= s.out);
    let shown = form_glyphs(doc, faces, form, depth, s);
    assert(content::after(doc, faces, res, ops, n + 1, depth, s0) == (State {
        out: s.out + shown,
        ..s
    }));
    assert(ops.skip(n + 1).take(m) =~= rest);
    assert(plain.skip(n).take(m) =~= rest);
    let z = lemma_rest(doc, faces, res, ops, plain, n, m, depth, s0, s, shown);
    let t = behind(s.out, z);
    assert(t.out.skip(s.out.len() as int) =~= z.out);
    assert(s.out.is_prefix_of(t.out));
}

} // verus!
