//! What holds of every page that is run.

use crate::content::{self, MAX_DEPTH};
use crate::font::{self, FaceModel, FontModel};
use crate::machine::{self, GlyphModel, Operator, SavedModel, State};
use crate::matrix;
use crate::number::Number;
use crate::object::{self, DocModel, ObjModel, OpModel};
use crate::page_box;
use crate::page_parts;
use crate::pdf;
use crate::text;
use vstd::prelude::*;
use vstd::string::StringSliceAdditionalSpecFns;

verus! {

/// Two states that differ in the text matrix and in glyphs added, and in nothing
/// else.
pub open spec fn only_shown(s: State, t: State) -> bool {
    t == (State { tm: t.tm, out: t.out, ..s }) && s.out.is_prefix_of(t.out)
}

/// Showing codes moves the text matrix and adds glyphs.
proof fn lemma_codes_only_shown(s: State, f: FontModel, codes: Seq<u32>, n: int)
    ensures
        only_shown(s, machine::codes_shown(s, f, codes, n)),
    decreases n,
{
    if n > 0 {
        lemma_codes_only_shown(s, f, codes, n - 1);
    }
}

/// Showing a string moves the text matrix and adds glyphs; it changes nothing
/// else of the state.
pub proof fn law_showing_only_moves_and_adds(s: State, f: FontModel, bytes: Seq<u8>)
    ensures
        only_shown(s, machine::string_shown(s, f, bytes)),
{
    let codes = machine::codes_of(f.two_byte, bytes);
    lemma_codes_only_shown(s, f, codes, codes.len() as int);
}

/// Showing an array moves the text matrix and adds glyphs.
proof fn lemma_elements_only_shown(s: State, f: FontModel, a: Seq<ObjModel>, n: int)
    ensures
        only_shown(s, machine::elements_shown(s, f, a, n)),
    decreases n,
{
    if n > 0 {
        lemma_elements_only_shown(s, f, a, n - 1);
        let before = machine::elements_shown(s, f, a, n - 1);
        match a[n - 1] {
            ObjModel::Str(bytes) => {
                law_showing_only_moves_and_adds(before, f, bytes);
            },
            _ => {},
        }
    }
}

/// Showing the last operand moves the text matrix and adds glyphs.
proof fn lemma_last_only_shown(s: State, v: Seq<ObjModel>)
    ensures
        only_shown(s, machine::last_shown(s, v)),
{
    match s.font {
        Some(f) => {
            if v.len() > 0 {
                match v.last() {
                    ObjModel::Str(bytes) => {
                        law_showing_only_moves_and_adds(s, f, bytes);
                    },
                    _ => {},
                }
            }
        },
        None => {},
    }
}

/// The spacing that the operator `"` brings along stays in force after its string
/// has been shown.
pub proof fn law_spacing_of_a_spaced_show_stays(
    fonts: Map<Seq<u8>, FontModel>,
    op: OpModel,
    s: State,
)
    requires
        machine::operator_of(op.operator) == Operator::SpacedShow,
    ensures
        ({
            let t = machine::stepped(fonts, op, s);
            &&& t.text.tw == machine::operand(op.operands, 0)
            &&& t.text.tc == machine::operand(op.operands, 1)
            &&& t.text == (machine::TextState {
                tw: t.text.tw,
                tc: t.text.tc,
                ..s.text
            })
        }),
{
    let v = op.operands;
    let moved = machine::line_moved(s, matrix::Step::Down(s.text.tl));
    let u = State {
        text: machine::TextState {
            tw: machine::operand(v, 0),
            tc: machine::operand(v, 1),
            ..s.text
        },
        ..moved
    };
    lemma_last_only_shown(u, v);
}

/// No operation takes a glyph back, and only saving and restoring touch the
/// saved states.
proof fn lemma_step_adds(fonts: Map<Seq<u8>, FontModel>, op: OpModel, s: State)
    ensures
        ({
            let t = machine::stepped(fonts, op, s);
            let k = machine::operator_of(op.operator);
            &&& s.out.is_prefix_of(t.out)
            &&& k != Operator::Save && k != Operator::Restore ==> t.stack == s.stack
        }),
{
    let v = op.operands;
    let moved = machine::line_moved(s, matrix::Step::Down(s.text.tl));
    match machine::operator_of(op.operator) {
        Operator::Show => {
            lemma_last_only_shown(s, v);
        },
        Operator::NextShow => {
            lemma_last_only_shown(moved, v);
        },
        Operator::SpacedShow => {
            let u = State {
                text: machine::TextState {
                    tw: machine::operand(v, 0),
                    tc: machine::operand(v, 1),
                    ..s.text
                },
                ..moved
            };
            lemma_last_only_shown(u, v);
        },
        Operator::ShowArray => {
            match s.font {
                Some(f) => {
                    if v.len() > 0 {
                        match v[0] {
                            ObjModel::Array(a) => {
                                lemma_elements_only_shown(s, f, a, a.len() as int);
                            },
                            _ => {},
                        }
                    }
                },
                None => {},
            }
        },
        _ => {},
    }
}

/// Restoring brings back the whole graphics state as it was saved: the current
/// matrix and every text parameter, font and all. The text matrices are not part
/// of it and stay as they are.
pub proof fn law_restore_brings_back_what_was_saved(
    fonts: Map<Seq<u8>, FontModel>,
    save: OpModel,
    restore: OpModel,
    s: State,
    t: State,
)
    requires
        machine::operator_of(save.operator) == Operator::Save,
        machine::operator_of(restore.operator) == Operator::Restore,
        t.stack == machine::stepped(fonts, save, s).stack,
    ensures
        machine::stepped(fonts, restore, t) == (State {
            ctm: s.ctm,
            text: s.text,
            font: s.font,
            stack: s.stack,
            ..t
        }),
{
    let saved = s.stack.push(SavedModel { ctm: s.ctm, text: s.text, font: s.font });
    assert(saved.drop_last() =~= s.stack);
}

/// How many more states the operations from `a` to before `k` save than they
/// restore.
pub open spec fn level(ops: Seq<OpModel>, a: int, k: int) -> int
    decreases k,
{
    if k <= a || k <= 0 {
        0
    } else {
        level(ops, a, k - 1) + match machine::operator_of(ops[k - 1].operator) {
            Operator::Save => 1int,
            Operator::Restore => -1int,
            _ => 0int,
        }
    }
}

/// One more operation, form or not, adds glyphs; only saving and restoring touch
/// the saved states.
proof fn lemma_after_step(
    doc: DocModel,
    faces: Seq<FaceModel>,
    res: Seq<(Seq<u8>, ObjModel)>,
    ops: Seq<OpModel>,
    n: int,
    depth: int,
    s0: State,
)
    requires
        0 < n,
    ensures
        ({
            let s = content::after(doc, faces, res, ops, n - 1, depth, s0);
            let t = content::after(doc, faces, res, ops, n, depth, s0);
            let k = machine::operator_of(ops[n - 1].operator);
            &&& k != Operator::Save && k != Operator::Restore ==> t.stack == s.stack
            &&& k != Operator::Invoke ==> t == machine::stepped(
                content::scope_fonts(doc, faces, res),
                ops[n - 1],
                s,
            )
        }),
{
    let s = content::after(doc, faces, res, ops, n - 1, depth, s0);
    lemma_step_adds(content::scope_fonts(doc, faces, res), ops[n - 1], s);
}

/// Inside a block that never restores more than it saved, the states saved
/// before it stay below those that it saves.
proof fn lemma_block_keeps_stack(
    doc: DocModel,
    faces: Seq<FaceModel>,
    res: Seq<(Seq<u8>, ObjModel)>,
    ops: Seq<OpModel>,
    a: int,
    k: int,
    depth: int,
    s0: State,
)
    requires
        0 <= a <= k <= ops.len(),
        forall|j: int| a <= j <= k ==> #[trigger] level(ops, a, j) >= 0,
    ensures
        ({
            let below = content::after(doc, faces, res, ops, a, depth, s0).stack;
            let now = content::after(doc, faces, res, ops, k, depth, s0).stack;
            &&& now.len() == below.len() + level(ops, a, k)
            &&& now.take(below.len() as int) == below
        }),
    decreases k,
{
    let below = content::after(doc, faces, res, ops, a, depth, s0).stack;
    let now = content::after(doc, faces, res, ops, k, depth, s0).stack;
    if k == a {
        assert(now.take(below.len() as int) =~= below);
    } else {
        lemma_block_keeps_stack(doc, faces, res, ops, a, k - 1, depth, s0);
        lemma_after_step(doc, faces, res, ops, k, depth, s0);
        let prev = content::after(doc, faces, res, ops, k - 1, depth, s0).stack;
        assert(level(ops, a, k) >= 0);
        assert(level(ops, a, k - 1) >= 0);
        match machine::operator_of(ops[k - 1].operator) {
            Operator::Save => {
                assert(now.take(below.len() as int) =~= prev.take(below.len() as int));
            },
            Operator::Restore => {
                assert(now.take(below.len() as int) =~= prev.take(below.len() as int));
            },
            _ => {},
        }
    }
}

/// A balanced block between `q` and `Q` leaves the graphics state as it found it:
/// whatever the operations between them set, the current matrix, the text
/// parameters, the font and the saved states are those from before the `q`.
pub proof fn law_balanced_block_restores_the_graphics_state(
    doc: DocModel,
    faces: Seq<FaceModel>,
    res: Seq<(Seq<u8>, ObjModel)>,
    ops: Seq<OpModel>,
    a: int,
    b: int,
    depth: int,
    s0: State,
)
    requires
        0 <= a < b < ops.len(),
        machine::operator_of(ops[a].operator) == Operator::Save,
        machine::operator_of(ops[b].operator) == Operator::Restore,
        forall|j: int| a + 1 <= j <= b ==> #[trigger] level(ops, a + 1, j) >= 0,
        level(ops, a + 1, b) == 0,
    ensures
        ({
            let s = content::after(doc, faces, res, ops, a, depth, s0);
            let t = content::after(doc, faces, res, ops, b + 1, depth, s0);
            &&& t.ctm == s.ctm
            &&& t.text == s.text
            &&& t.font == s.font
            &&& t.stack == s.stack
        }),
{
    let s = content::after(doc, faces, res, ops, a, depth, s0);
    let inner = content::after(doc, faces, res, ops, b, depth, s0);
    lemma_after_step(doc, faces, res, ops, a + 1, depth, s0);
    lemma_after_step(doc, faces, res, ops, b + 1, depth, s0);
    lemma_block_keeps_stack(doc, faces, res, ops, a + 1, b, depth, s0);
    let below = content::after(doc, faces, res, ops, a + 1, depth, s0).stack;
    assert(inner.stack =~= inner.stack.take(below.len() as int));
    law_restore_brings_back_what_was_saved(
        content::scope_fonts(doc, faces, res),
        ops[a],
        ops[b],
        s,
        inner,
    );
}

/// Running content only adds glyphs: those that were there stay in front.
pub proof fn law_glyphs_are_only_added(
    doc: DocModel,
    faces: Seq<FaceModel>,
    res: Seq<(Seq<u8>, ObjModel)>,
    ops: Seq<OpModel>,
    n: int,
    depth: int,
    s0: State,
)
    ensures
        s0.out.is_prefix_of(content::after(doc, faces, res, ops, n, depth, s0).out),
    decreases MAX_DEPTH - depth, n,
{
    if n > 0 {
        law_glyphs_are_only_added(doc, faces, res, ops, n - 1, depth, s0);
        let s = content::after(doc, faces, res, ops, n - 1, depth, s0);
        let op = ops[n - 1];
        if machine::operator_of(op.operator) == Operator::Invoke && depth < MAX_DEPTH {
            match content::form_named(doc, res, op.operands) {
                Some(form) => {
                    law_glyphs_are_only_added(
                        doc,
                        faces,
                        form.res,
                        form.ops,
                        form.ops.len() as int,
                        depth + 1,
                        machine::start(
                            matrix::Transform::Before(
                                matrix::Step::Matrix(form.matrix),
                                Box::new(s.ctm),
                            ),
                            s.text,
                            s.out,
                        ),
                    );
                },
                None => {},
            }
        } else {
            lemma_step_adds(content::scope_fonts(doc, faces, res), op, s);
        }
    }
}

/// A form leaves nothing behind but its glyphs: the state around it, text
/// matrices and all, is as before. Forms nested deeper than eight are not run.
pub proof fn law_a_form_leaves_only_glyphs(
    doc: DocModel,
    faces: Seq<FaceModel>,
    res: Seq<(Seq<u8>, ObjModel)>,
    ops: Seq<OpModel>,
    n: int,
    depth: int,
    s0: State,
)
    requires
        0 < n <= ops.len(),
        machine::operator_of(ops[n - 1].operator) == Operator::Invoke,
    ensures
        ({
            let s = content::after(doc, faces, res, ops, n - 1, depth, s0);
            let t = content::after(doc, faces, res, ops, n, depth, s0);
            &&& t == (State { out: t.out, ..s })
            &&& s.out.is_prefix_of(t.out)
            &&& depth >= 8 ==> t == s
        }),
{
    let s = content::after(doc, faces, res, ops, n - 1, depth, s0);
    match content::form_named(doc, res, ops[n - 1].operands) {
        Some(form) => {
            if depth < MAX_DEPTH {
                law_glyphs_are_only_added(
                    doc,
                    faces,
                    form.res,
                    form.ops,
                    form.ops.len() as int,
                    depth + 1,
                    machine::start(
                        matrix::Transform::Before(
                            matrix::Step::Matrix(form.matrix),
                            Box::new(s.ctm),
                        ),
                        s.text,
                        s.out,
                    ),
                );
            }
        },
        None => {},
    }
}

/// The glyphs of one code share their box: they differ in the character alone.
pub proof fn law_glyphs_of_a_code_share_their_box(
    s: State,
    f: FontModel,
    width: Number,
    text: Seq<char>,
    i: int,
    j: int,
)
    requires
        0 <= i < machine::glyphs_in(s, f, width, text).len(),
        0 <= j < machine::glyphs_in(s, f, width, text).len(),
    ensures
        ({
            let g = machine::glyphs_in(s, f, width, text);
            g[i] == (GlyphModel { ch: g[i].ch, ..g[j] })
        }),
{
    lemma_glyphs_in(s, f, width, text, i);
    lemma_glyphs_in(s, f, width, text, j);
}

/// A glyph of a text is the one of one of its characters, and that is not null.
proof fn lemma_glyphs_in(s: State, f: FontModel, width: Number, text: Seq<char>, i: int)
    requires
        0 <= i < machine::glyphs_in(s, f, width, text).len(),
    ensures
        ({
            let g = machine::glyphs_in(s, f, width, text)[i];
            &&& g == machine::glyph_in(s, f, width, g.ch)
            &&& g.ch != '\0'
            &&& text.contains(g.ch)
        }),
    decreases text.len(),
{
    let g = machine::glyphs_in(s, f, width, text)[i];
    let rest = machine::glyphs_in(s, f, width, text.drop_last());
    if i < rest.len() {
        lemma_glyphs_in(s, f, width, text.drop_last(), i);
        let k = choose|k: int| 0 <= k < text.drop_last().len() && text.drop_last()[k] == g.ch;
        assert(text[k] == g.ch);
    } else {
        assert(text[text.len() - 1] == g.ch);
    }
}

/// A glyph is as wide as its font says, and the text matrix moves on by the same
/// width: a space takes the room of a space, and a mark without an advance none.
pub proof fn law_codes_are_as_wide_as_the_font_says(s: State, f: FontModel, code: u32, i: int)
    requires
        s.out.len() <= i < machine::code_shown(s, f, code).out.len(),
    ensures
        machine::code_shown(s, f, code).out[i].width == font::width_of(f, code),
        machine::code_shown(s, f, code).tm matches matrix::Transform::Before(step, before)
            && *before == s.tm && (step matches matrix::Step::Advance { width, .. } && width
            == font::width_of(f, code)),
{
    let width = font::width_of(f, code);
    let text = match font::text_of(f, code) {
        Some(t) => t,
        None => Seq::empty(),
    };
    lemma_glyphs_in(s, f, width, text, i - s.out.len());
}

/// A character that a page may show: not null, and no presentation-form
/// ligature.
pub open spec fn showable(c: char) -> bool {
    c != '\0' && !text::is_ligature(c)
}

/// Every glyph is of a character that a page may show.
pub open spec fn all_showable(out: Seq<GlyphModel>) -> bool {
    forall|i: int| 0 <= i < out.len() ==> showable((#[trigger] out[i]).ch)
}

/// The placeholder names of a font hold no ligatures.
pub open spec fn plain_names(f: FontModel) -> bool {
    forall|b: u8, i: int|
        f.fallback_names.dom().contains(b) && 0 <= i < f.fallback_names[b].len()
            ==> !text::is_ligature(#[trigger] f.fallback_names[b][i])
}

/// Placeholder names are ASCII, so they hold no ligatures.
proof fn lemma_placeholder_names_are_plain(diffs: Seq<ObjModel>, n: int)
    requires
        n <= diffs.len(),
    ensures
        forall|b: u8, i: int|
            font::placeholder_names(diffs, n).dom().contains(b) && 0 <= i
                < font::placeholder_names(diffs, n)[b].len() ==> !text::is_ligature(
                #[trigger] font::placeholder_names(diffs, n)[b][i],
            ),
    decreases n,
{
    if n > 0 {
        lemma_placeholder_names_are_plain(diffs, n - 1);
        let before = font::placeholder_names(diffs, n - 1);
        let now = font::placeholder_names(diffs, n);
        assert forall|b: u8, i: int|
            now.dom().contains(b) && 0 <= i < now[b].len() implies !text::is_ligature(
            #[trigger] now[b][i],
        ) by {
            if before.dom().contains(b) && now[b] == before[b] {
                assert(!text::is_ligature(before[b][i]));
            } else {
                match diffs[n - 1] {
                    ObjModel::Name(name) => {
                        assert(now[b] == text::as_chars(name));
                        assert(now[b][i] == name[i] as char);
                    },
                    _ => {},
                }
            }
        }
    }
}

/// A font that is read from a document has plain names.
proof fn lemma_font_plain(
    doc: DocModel,
    faces: Seq<FaceModel>,
    name: Seq<u8>,
    fdict: Seq<(Seq<u8>, ObjModel)>,
)
    ensures
        plain_names(font::font_of(doc, faces, name, fdict)),
{
    let diffs = font::differences(doc, fdict);
    let f = font::font_of(doc, faces, name, fdict);
    lemma_placeholder_names_are_plain(diffs, diffs.len() as int);
    assert(f.fallback_names == Map::<u8, Seq<char>>::empty() || f.fallback_names
        == font::placeholder_names(diffs, diffs.len() as int));
}

/// What a font with plain names makes of a code holds no ligature.
proof fn lemma_text_is_plain(f: FontModel, code: u32)
    requires
        plain_names(f),
    ensures
        font::text_of(f, code) matches Some(t) ==> forall|i: int|
            0 <= i < t.len() ==> !text::is_ligature(#[trigger] t[i]),
{
    let b = font::low_byte(code);
    if f.to_unicode.dom().contains(code) {
        text::law_no_ligature_is_left(f.to_unicode[code]);
    } else if f.two_byte {
    } else if f.fallback_names.dom().contains(b) {
        let t = seq!['/'] + f.fallback_names[b];
        assert forall|i: int| 0 <= i < t.len() implies !text::is_ligature(
            #[trigger] t[i],
        ) by {
            if i > 0 {
                assert(t[i] == f.fallback_names[b][i - 1]);
            }
        }
    } else if f.simple_encoding matches Some(e) && e.dom().contains(b) {
        text::law_no_ligature_is_left(seq![f.simple_encoding.unwrap()[b]]);
    } else if f.program_encoding.dom().contains(b) {
        text::law_no_ligature_is_left(seq![f.program_encoding[b]]);
    }
}

/// Showing codes of a font with plain names adds glyphs that may be shown.
proof fn lemma_codes_showable(s: State, f: FontModel, codes: Seq<u32>, n: int)
    requires
        plain_names(f),
        all_showable(s.out),
    ensures
        all_showable(machine::codes_shown(s, f, codes, n).out),
    decreases n,
{
    if n > 0 {
        lemma_codes_showable(s, f, codes, n - 1);
        let t = machine::codes_shown(s, f, codes, n - 1);
        let code = codes[n - 1];
        let width = font::width_of(f, code);
        let text = match font::text_of(f, code) {
            Some(x) => x,
            None => Seq::empty(),
        };
        lemma_text_is_plain(f, code);
        let added = machine::glyphs_in(t, f, width, text);
        let all = t.out + added;
        assert forall|i: int| 0 <= i < all.len() implies showable((#[trigger] all[i]).ch) by {
            if i >= t.out.len() {
                let k = i - t.out.len();
                lemma_glyphs_in(t, f, width, text, k);
                let q = choose|q: int| 0 <= q < text.len() && text[q] == added[k].ch;
                assert(!text::is_ligature(text[q]));
            } else {
                assert(all[i] == t.out[i]);
            }
        }
    }
}

/// Showing an array adds glyphs that may be shown.
proof fn lemma_elements_showable(s: State, f: FontModel, a: Seq<ObjModel>, n: int)
    requires
        plain_names(f),
        all_showable(s.out),
    ensures
        all_showable(machine::elements_shown(s, f, a, n).out),
    decreases n,
{
    if n > 0 {
        lemma_elements_showable(s, f, a, n - 1);
        let before = machine::elements_shown(s, f, a, n - 1);
        match a[n - 1] {
            ObjModel::Str(bytes) => {
                let codes = machine::codes_of(f.two_byte, bytes);
                lemma_codes_showable(before, f, codes, codes.len() as int);
            },
            _ => {},
        }
    }
}

/// Showing the last operand adds glyphs that may be shown.
proof fn lemma_last_showable(s: State, v: Seq<ObjModel>)
    requires
        s.font matches Some(f) ==> plain_names(f),
        all_showable(s.out),
    ensures
        all_showable(machine::last_shown(s, v).out),
{
    match s.font {
        Some(f) => {
            if v.len() > 0 {
                match v.last() {
                    ObjModel::Str(bytes) => {
                        let codes = machine::codes_of(f.two_byte, bytes);
                        lemma_codes_showable(s, f, codes, codes.len() as int);
                    },
                    _ => {},
                }
            }
        },
        None => {},
    }
}

/// The glyphs may be shown, and every font in the state has plain names.
pub open spec fn plain_state(s: State) -> bool {
    &&& all_showable(s.out)
    &&& s.font matches Some(f) ==> plain_names(f)
    &&& forall|i: int|
        0 <= i < s.stack.len() ==> (#[trigger] s.stack[i].font matches Some(f) ==> plain_names(f))
}

/// An operation keeps a state plain, where the fonts in scope have plain names.
proof fn lemma_step_plain(fonts: Map<Seq<u8>, FontModel>, op: OpModel, s: State)
    requires
        plain_state(s),
        forall|n: Seq<u8>| fonts.dom().contains(n) ==> plain_names(#[trigger] fonts[n]),
    ensures
        plain_state(machine::stepped(fonts, op, s)),
{
    let v = op.operands;
    let t = machine::stepped(fonts, op, s);
    let moved = machine::line_moved(s, matrix::Step::Down(s.text.tl));
    match machine::operator_of(op.operator) {
        Operator::Restore => {
            if s.stack.len() > 0 {
                let g = s.stack.last();
                assert(s.stack[s.stack.len() - 1].font == g.font);
                assert forall|i: int| 0 <= i < t.stack.len() implies (
                #[trigger] t.stack[i].font matches Some(f) ==> plain_names(f)) by {
                    assert(t.stack[i] == s.stack[i]);
                }
            }
        },
        Operator::Save => {
            assert forall|i: int| 0 <= i < t.stack.len() implies (
            #[trigger] t.stack[i].font matches Some(f) ==> plain_names(f)) by {
                if i < s.stack.len() {
                    assert(t.stack[i] == s.stack[i]);
                }
            }
        },
        Operator::Show => {
            lemma_last_only_shown(s, v);
            lemma_last_showable(s, v);
        },
        Operator::NextShow => {
            lemma_last_only_shown(moved, v);
            lemma_last_showable(moved, v);
        },
        Operator::SpacedShow => {
            let u = State {
                text: machine::TextState {
                    tw: machine::operand(v, 0),
                    tc: machine::operand(v, 1),
                    ..s.text
                },
                ..moved
            };
            lemma_last_only_shown(u, v);
            lemma_last_showable(u, v);
        },
        Operator::ShowArray => {
            match s.font {
                Some(f) => {
                    if v.len() > 0 {
                        match v[0] {
                            ObjModel::Array(a) => {
                                lemma_elements_only_shown(s, f, a, a.len() as int);
                                lemma_elements_showable(s, f, a, a.len() as int);
                            },
                            _ => {},
                        }
                    }
                },
                None => {},
            }
        },
        _ => {},
    }
}

/// The fonts of a `/Font` dictionary have plain names.
proof fn lemma_fonts_plain(
    doc: DocModel,
    faces: Seq<FaceModel>,
    fd: Seq<(Seq<u8>, ObjModel)>,
    n: int,
)
    ensures
        forall|k: Seq<u8>|
            content::fonts_in(doc, faces, fd, n).dom().contains(k) ==> plain_names(
                #[trigger] content::fonts_in(doc, faces, fd, n)[k],
            ),
    decreases n,
{
    if n > 0 {
        lemma_fonts_plain(doc, faces, fd, n - 1);
        let before = content::fonts_in(doc, faces, fd, n - 1);
        let now = content::fonts_in(doc, faces, fd, n);
        match object::meant_dict(doc, fd[n - 1].1) {
            Some(d) => {
                let f = font::font_of(doc, faces, fd[n - 1].0, d);
                lemma_font_plain(doc, faces, fd[n - 1].0, d);
                assert forall|k: Seq<u8>| now.dom().contains(k) implies plain_names(
                    #[trigger] now[k],
                ) by {
                    if k == fd[n - 1].0 {
                        assert(now[k] == f);
                    } else {
                        assert(now[k] == before[k]);
                    }
                }
            },
            None => {},
        }
    }
}

/// Running content keeps a state plain.
proof fn lemma_after_plain(
    doc: DocModel,
    faces: Seq<FaceModel>,
    res: Seq<(Seq<u8>, ObjModel)>,
    ops: Seq<OpModel>,
    n: int,
    depth: int,
    s0: State,
)
    requires
        plain_state(s0),
    ensures
        plain_state(content::after(doc, faces, res, ops, n, depth, s0)),
    decreases MAX_DEPTH - depth, n,
{
    if n > 0 {
        lemma_after_plain(doc, faces, res, ops, n - 1, depth, s0);
        let s = content::after(doc, faces, res, ops, n - 1, depth, s0);
        let op = ops[n - 1];
        if machine::operator_of(op.operator) == Operator::Invoke && depth < MAX_DEPTH {
            match content::form_named(doc, res, op.operands) {
                Some(form) => {
                    lemma_after_plain(
                        doc,
                        faces,
                        form.res,
                        form.ops,
                        form.ops.len() as int,
                        depth + 1,
                        machine::start(
                            matrix::Transform::Before(
                                matrix::Step::Matrix(form.matrix),
                                Box::new(s.ctm),
                            ),
                            s.text,
                            s.out,
                        ),
                    );
                },
                None => {},
            }
        } else {
            match object::dict_entry(doc, res, "Font".spec_bytes()) {
                Some(fd) => {
                    lemma_fonts_plain(doc, faces, fd, fd.len() as int);
                },
                None => {},
            }
            lemma_step_plain(content::scope_fonts(doc, faces, res), op, s);
        }
    }
}

/// A page never shows a null character or a presentation-form ligature.
pub proof fn law_pages_show_no_null_and_no_ligature(
    doc: DocModel,
    faces: Seq<FaceModel>,
    num: u32,
    gen: u16,
)
    ensures
        all_showable(content::page_shown(doc, faces, num, gen)),
{
    match (
        pdf::operations_in(page_parts::content_of(doc, num, gen)),
        content::resources_of(doc, num, gen),
    ) {
        (Some(ops), Some(res)) => {
            let area = page_box::display_box(doc, num, gen);
            lemma_after_plain(
                doc,
                faces,
                res,
                ops,
                ops.len() as int,
                0,
                machine::start(
                    matrix::Transform::Only(matrix::Step::Origin(area.l, area.b)),
                    machine::initial_text(),
                    Seq::empty(),
                ),
            );
        },
        _ => {},
    }
}

/// A page without resources of its own uses those that its parent refers to.
pub proof fn law_resources_are_inherited(
    doc: DocModel,
    num: u32,
    gen: u16,
    page: Seq<(Seq<u8>, ObjModel)>,
    parent: Seq<(Seq<u8>, ObjModel)>,
    shared: Seq<(Seq<u8>, ObjModel)>,
)
    requires
        object::object_at(doc.objects, num, gen) == Some(ObjModel::Dict(page)),
        page_parts::named_resources(doc, num, gen) is Some,
        object::value_of(page, "Resources".spec_bytes()) is None,
        object::value_of(page, "Parent".spec_bytes()) matches Some(ObjModel::Ref(n, g))
            && object::object_at(doc.objects, n, g) == Some(ObjModel::Dict(parent)),
        object::value_of(parent, "Resources".spec_bytes()) matches Some(ObjModel::Ref(n, g))
            && object::object_at(doc.objects, n, g) == Some(ObjModel::Dict(shared)),
    ensures
        content::resources_of(doc, num, gen) == Some(shared),
{
    let steps = page_parts::MAX_ANCESTORS as nat;
    let ids = page_parts::inherited_ids(doc.objects, page, steps).unwrap();
    let rest = page_parts::inherited_ids(doc.objects, parent, (steps - 1) as nat).unwrap();
    assert(ids =~= rest);
    if let Some(ObjModel::Ref(n, g)) = object::value_of(parent, "Resources".spec_bytes()) {
        assert(ids[0] == (n, g));
    }
}

} // verus!
