//! The content-stream machine: graphics and text state, and what the operators
//! do to it.

use crate::bytes::same_bytes;
use crate::font::{self, Font, FontModel};
use crate::matrix::{self, put_node, MatNode, Scalar, Six, Step, Transform};
use crate::number::Number;
use crate::object::{self, num, Obj, ObjModel, OpModel};
use crate::pdf::Op;
use crate::text::same_text;
use std::sync::Arc;
use vstd::prelude::*;

verus! {

/// The text parameters of the graphics state.
#[derive(Clone, Copy, Debug, PartialEq, Eq, Structural)]
pub struct TextState {
    /// Character spacing.
    pub tc: Number,
    /// Word spacing.
    pub tw: Number,
    /// Horizontal scale.
    pub th: Scalar,
    /// Leading.
    pub tl: Scalar,
    /// Rise.
    pub trise: Number,
    /// Font size.
    pub fsize: Number,
}

/// The text parameters at the start of a page.
pub open spec fn initial_text() -> TextState {
    TextState {
        tc: Number::Int(0),
        tw: Number::Int(0),
        th: Scalar::Plain(Number::Int(1)),
        tl: Scalar::Plain(Number::Int(0)),
        trise: Number::Int(0),
        fsize: Number::Int(0),
    }
}

impl TextState {
    /// The text parameters at the start of a page.
    pub fn initial() -> (r: TextState)
        ensures
            r == initial_text(),
    {
        TextState {
            tc: Number::Int(0),
            tw: Number::Int(0),
            th: Scalar::Plain(Number::Int(1)),
            tl: Scalar::Plain(Number::Int(0)),
            trise: Number::Int(0),
            fsize: Number::Int(0),
        }
    }
}

/// A glyph and what its box is made of. The box runs from 0 to `width` and from
/// `descent` to `ascent`, all in thousandths of an em; it is scaled by
/// `size * scale` and `size`, raised by `rise`, and then goes through the text
/// matrix and the current transformation matrix.
#[verifier::ext_equal]
pub struct GlyphModel {
    pub ch: char,
    pub width: Number,
    pub size: Number,
    pub scale: Scalar,
    pub rise: Number,
    pub ascent: Number,
    pub descent: Number,
    pub font: u64,
    pub tm: Transform,
    pub ctm: Transform,
}

/// A glyph; its matrices are places in the list of a page.
#[derive(Clone, Copy, Debug, PartialEq, Eq, Structural)]
pub struct Glyph {
    pub ch: char,
    pub width: Number,
    pub size: Number,
    pub scale: Scalar,
    pub rise: Number,
    pub ascent: Number,
    pub descent: Number,
    pub font: u64,
    pub tm: usize,
    pub ctm: usize,
}

/// What a glyph is.
pub open spec fn glyph_model(g: Glyph, nodes: Seq<MatNode>) -> GlyphModel {
    GlyphModel {
        ch: g.ch,
        width: g.width,
        size: g.size,
        scale: g.scale,
        rise: g.rise,
        ascent: g.ascent,
        descent: g.descent,
        font: g.font,
        tm: matrix::chain(nodes, g.tm as int),
        ctm: matrix::chain(nodes, g.ctm as int),
    }
}

/// What some glyphs are.
pub open spec fn glyphs_model(out: Seq<Glyph>, nodes: Seq<MatNode>) -> Seq<GlyphModel> {
    Seq::new(out.len(), |i: int| glyph_model(out[i], nodes))
}

/// The matrices of some glyphs are in the list.
pub open spec fn glyphs_placed(out: Seq<Glyph>, nodes: Seq<MatNode>) -> bool {
    forall|i: int|
        0 <= i < out.len() ==> (#[trigger] out[i]).tm < nodes.len() && out[i].ctm < nodes.len()
}

/// The part of the state that is saved and restored.
#[verifier::ext_equal]
pub struct SavedModel {
    pub ctm: Transform,
    pub text: TextState,
    pub font: Option<FontModel>,
}

/// The state of the machine, with the glyphs that have been shown.
#[verifier::ext_equal]
pub struct State {
    pub ctm: Transform,
    pub text: TextState,
    pub font: Option<FontModel>,
    pub tm: Transform,
    pub tlm: Transform,
    pub stack: Seq<SavedModel>,
    pub out: Seq<GlyphModel>,
}

/// The state at the start of a content stream, after some glyphs.
pub open spec fn start(base: Transform, init: TextState, out: Seq<GlyphModel>) -> State {
    State {
        ctm: base,
        text: init,
        font: None,
        tm: Transform::Identity,
        tlm: Transform::Identity,
        stack: Seq::empty(),
        out,
    }
}

/// The operators that matter to text.
#[derive(Clone, Copy, Debug, PartialEq, Eq, Structural)]
pub enum Operator {
    Save,
    Restore,
    Concat,
    Begin,
    SetFont,
    Move,
    MoveLead,
    SetMatrix,
    NextLine,
    CharSpacing,
    WordSpacing,
    Scaling,
    Leading,
    Rise,
    Show,
    NextShow,
    SpacedShow,
    ShowArray,
    Invoke,
    Other,
}

/// The operator that a keyword is.
pub open spec fn operator_of(s: Seq<char>) -> Operator {
    if s == "q"@ {
        Operator::Save
    } else if s == "Q"@ {
        Operator::Restore
    } else if s == "cm"@ {
        Operator::Concat
    } else if s == "BT"@ {
        Operator::Begin
    } else if s == "Tf"@ {
        Operator::SetFont
    } else if s == "Td"@ {
        Operator::Move
    } else if s == "TD"@ {
        Operator::MoveLead
    } else if s == "Tm"@ {
        Operator::SetMatrix
    } else if s == "T*"@ {
        Operator::NextLine
    } else if s == "Tc"@ {
        Operator::CharSpacing
    } else if s == "Tw"@ {
        Operator::WordSpacing
    } else if s == "Tz"@ {
        Operator::Scaling
    } else if s == "TL"@ {
        Operator::Leading
    } else if s == "Ts"@ {
        Operator::Rise
    } else if s == "Tj"@ {
        Operator::Show
    } else if s == "'"@ {
        Operator::NextShow
    } else if s == "\""@ {
        Operator::SpacedShow
    } else if s == "TJ"@ {
        Operator::ShowArray
    } else if s == "Do"@ {
        Operator::Invoke
    } else {
        Operator::Other
    }
}

/// The operator that a keyword is.
pub fn classify(s: &str) -> (r: Operator)
    ensures
        r == operator_of(s@),
{
    if same_text(s, "q") {
        Operator::Save
    } else if same_text(s, "Q") {
        Operator::Restore
    } else if same_text(s, "cm") {
        Operator::Concat
    } else if same_text(s, "BT") {
        Operator::Begin
    } else if same_text(s, "Tf") {
        Operator::SetFont
    } else if same_text(s, "Td") {
        Operator::Move
    } else if same_text(s, "TD") {
        Operator::MoveLead
    } else if same_text(s, "Tm") {
        Operator::SetMatrix
    } else if same_text(s, "T*") {
        Operator::NextLine
    } else if same_text(s, "Tc") {
        Operator::CharSpacing
    } else if same_text(s, "Tw") {
        Operator::WordSpacing
    } else if same_text(s, "Tz") {
        Operator::Scaling
    } else if same_text(s, "TL") {
        Operator::Leading
    } else if same_text(s, "Ts") {
        Operator::Rise
    } else if same_text(s, "Tj") {
        Operator::Show
    } else if same_text(s, "'") {
        Operator::NextShow
    } else if same_text(s, "\"") {
        Operator::SpacedShow
    } else if same_text(s, "TJ") {
        Operator::ShowArray
    } else if same_text(s, "Do") {
        Operator::Invoke
    } else {
        Operator::Other
    }
}

/// The number that operand `i` is; 0 where it is none.
pub open spec fn operand(operands: Seq<ObjModel>, i: int) -> Number {
    if 0 <= i < operands.len() {
        match object::number_of(operands[i]) {
            Some(n) => n,
            None => Number::Int(0),
        }
    } else {
        Number::Int(0)
    }
}

/// The matrix that the first six operands are.
pub open spec fn operand_matrix(operands: Seq<ObjModel>) -> Six {
    Six {
        a: operand(operands, 0),
        b: operand(operands, 1),
        c: operand(operands, 2),
        d: operand(operands, 3),
        e: operand(operands, 4),
        f: operand(operands, 5),
    }
}

/// The character codes of a string: pairs of bytes, the high one first, for a
/// two-byte font, where a last single byte is its value; else single bytes.
pub open spec fn codes_of(two_byte: bool, s: Seq<u8>) -> Seq<u32>
    decreases s.len(),
{
    if s.len() == 0 {
        Seq::empty()
    } else if two_byte && s.len() >= 2 {
        seq![(s[0] * 256 + s[1]) as u32] + codes_of(two_byte, s.skip(2))
    } else {
        seq![s[0] as u32] + codes_of(two_byte, s.skip(1))
    }
}

/// The glyph of a character that is shown in a state.
pub open spec fn glyph_in(s: State, f: FontModel, width: Number, ch: char) -> GlyphModel {
    GlyphModel {
        ch,
        width,
        size: s.text.fsize,
        scale: s.text.th,
        rise: s.text.trise,
        ascent: f.ascent,
        descent: f.descent,
        font: f.hash,
        tm: s.tm,
        ctm: s.ctm,
    }
}

/// The glyphs of a text, all in one box. A null character gives none.
pub open spec fn glyphs_in(
    s: State,
    f: FontModel,
    width: Number,
    text: Seq<char>,
) -> Seq<GlyphModel>
    decreases text.len(),
{
    if text.len() == 0 {
        Seq::empty()
    } else if text.last() == '\0' {
        glyphs_in(s, f, width, text.drop_last())
    } else {
        glyphs_in(s, f, width, text.drop_last()).push(glyph_in(s, f, width, text.last()))
    }
}

/// One code shown: the glyphs of its text, then the text matrix moved on by its
/// advance. Word spacing applies to the one-byte code 32.
pub open spec fn code_shown(s: State, f: FontModel, code: u32) -> State {
    let width = font::width_of(f, code);
    let text = match font::text_of(f, code) {
        Some(t) => t,
        None => Seq::empty(),
    };
    State {
        out: s.out + glyphs_in(s, f, width, text),
        tm: Transform::Before(
            Step::Advance {
                width,
                size: s.text.fsize,
                spacing: s.text.tc,
                word: if !f.two_byte && code == 32 {
                    Some(s.text.tw)
                } else {
                    None
                },
                scale: s.text.th,
            },
            Box::new(s.tm),
        ),
        ..s
    }
}

/// The first `n` codes shown.
pub open spec fn codes_shown(s: State, f: FontModel, codes: Seq<u32>, n: int) -> State
    decreases n,
{
    if n <= 0 {
        s
    } else {
        code_shown(codes_shown(s, f, codes, n - 1), f, codes[n - 1])
    }
}

/// A string shown.
pub open spec fn string_shown(s: State, f: FontModel, bytes: Seq<u8>) -> State {
    let codes = codes_of(f.two_byte, bytes);
    codes_shown(s, f, codes, codes.len() as int)
}

/// The first `n` elements of an array shown: strings are shown, numbers move the
/// text matrix back.
pub open spec fn elements_shown(s: State, f: FontModel, a: Seq<ObjModel>, n: int) -> State
    decreases n,
{
    if n <= 0 {
        s
    } else {
        let before = elements_shown(s, f, a, n - 1);
        match a[n - 1] {
            ObjModel::Str(bytes) => string_shown(before, f, bytes),
            ObjModel::Num(adjust) => State {
                tm: Transform::Before(
                    Step::Kern { adjust, size: s.text.fsize, scale: s.text.th },
                    Box::new(before.tm),
                ),
                ..before
            },
            _ => before,
        }
    }
}

/// The line matrix moved by a step, and the text matrix with it.
pub open spec fn line_moved(s: State, step: Step) -> State {
    let m = Transform::Before(step, Box::new(s.tlm));
    State { tlm: m, tm: m, ..s }
}

/// The last operand shown, if it is a string and a font is set.
pub open spec fn last_shown(s: State, operands: Seq<ObjModel>) -> State {
    match s.font {
        Some(f) => if operands.len() > 0 {
            match operands.last() {
                ObjModel::Str(bytes) => string_shown(s, f, bytes),
                _ => s,
            }
        } else {
            s
        },
        None => s,
    }
}

/// What an operation does to the state, under the fonts in scope. Invoking a
/// form is not decided here.
pub open spec fn stepped(fonts: Map<Seq<u8>, FontModel>, op: OpModel, s: State) -> State {
    let v = op.operands;
    match operator_of(op.operator) {
        Operator::Save => State {
            stack: s.stack.push(SavedModel { ctm: s.ctm, text: s.text, font: s.font }),
            ..s
        },
        Operator::Restore => if s.stack.len() > 0 {
            let g = s.stack.last();
            State { ctm: g.ctm, text: g.text, font: g.font, stack: s.stack.drop_last(), ..s }
        } else {
            s
        },
        Operator::Concat => State {
            ctm: Transform::Before(Step::Matrix(operand_matrix(v)), Box::new(s.ctm)),
            ..s
        },
        Operator::Begin => State { tm: Transform::Identity, tlm: Transform::Identity, ..s },
        Operator::SetFont => State {
            font: if v.len() > 0 {
                match v[0] {
                    ObjModel::Name(n) => if fonts.dom().contains(n) {
                        Some(fonts[n])
                    } else {
                        None
                    },
                    _ => s.font,
                }
            } else {
                s.font
            },
            text: TextState { fsize: operand(v, 1), ..s.text },
            ..s
        },
        Operator::Move => line_moved(s, Step::Shift(operand(v, 0), operand(v, 1))),
        Operator::MoveLead => line_moved(
            State { text: TextState { tl: Scalar::Negated(operand(v, 1)), ..s.text }, ..s },
            Step::Shift(operand(v, 0), operand(v, 1)),
        ),
        Operator::SetMatrix => State {
            tlm: Transform::Only(Step::Matrix(operand_matrix(v))),
            tm: Transform::Only(Step::Matrix(operand_matrix(v))),
            ..s
        },
        Operator::NextLine => line_moved(s, Step::Down(s.text.tl)),
        Operator::CharSpacing => State { text: TextState { tc: operand(v, 0), ..s.text }, ..s },
        Operator::WordSpacing => State { text: TextState { tw: operand(v, 0), ..s.text }, ..s },
        Operator::Scaling => State {
            text: TextState { th: Scalar::Percent(operand(v, 0)), ..s.text },
            ..s
        },
        Operator::Leading => State {
            text: TextState { tl: Scalar::Plain(operand(v, 0)), ..s.text },
            ..s
        },
        Operator::Rise => State { text: TextState { trise: operand(v, 0), ..s.text }, ..s },
        Operator::Show => last_shown(s, v),
        Operator::NextShow => last_shown(line_moved(s, Step::Down(s.text.tl)), v),
        Operator::SpacedShow => {
            let moved = line_moved(s, Step::Down(s.text.tl));
            last_shown(
                State {
                    text: TextState { tw: operand(v, 0), tc: operand(v, 1), ..s.text },
                    ..moved
                },
                v,
            )
        },
        Operator::ShowArray => match s.font {
            Some(f) => if v.len() > 0 {
                match v[0] {
                    ObjModel::Array(a) => elements_shown(s, f, a, a.len() as int),
                    _ => s,
                }
            } else {
                s
            },
            None => s,
        },
        Operator::Invoke => s,
        Operator::Other => s,
    }
}

/// A font and the name under which content asks for it.
pub struct NamedFont {
    pub name: Vec<u8>,
    pub font: Arc<Font>,
}

/// The fonts of a list by name; of two with one name the later counts.
pub open spec fn fonts_map(fonts: Seq<NamedFont>) -> Map<Seq<u8>, FontModel>
    decreases fonts.len(),
{
    if fonts.len() == 0 {
        Map::empty()
    } else {
        fonts_map(fonts.drop_last()).insert(fonts.last().name@, fonts.last().font.view())
    }
}

/// Find the last font with a name.
fn find_font(fonts: &Vec<NamedFont>, name: &[u8]) -> (r: Option<usize>)
    ensures
        match r {
            Some(i) => i < fonts@.len() && fonts_map(fonts@).dom().contains(name@) && fonts_map(
                fonts@,
            )[name@] == fonts@[i as int].font.view(),
            None => !fonts_map(fonts@).dom().contains(name@),
        },
{
    let mut i: usize = fonts.len();
    assert(fonts@.take(i as int) =~= fonts@);
    while i > 0
        invariant
            i <= fonts@.len(),
            fonts_map(fonts@).dom().contains(name@) == fonts_map(
                fonts@.take(i as int),
            ).dom().contains(name@),
            fonts_map(fonts@)[name@] == fonts_map(fonts@.take(i as int))[name@],
        decreases i,
    {
        assert(fonts@.take(i as int).drop_last() =~= fonts@.take(i - 1));
        if same_bytes(fonts[i - 1].name.as_slice(), name) {
            return Some(i - 1);
        }
        i -= 1;
    }
    None
}

/// The part of the state that is saved: the place of the current matrix, the
/// text parameters, and the place of the font among those in scope.
#[derive(Clone, Copy, Debug, PartialEq, Eq, Structural)]
pub struct Saved {
    pub ctm: usize,
    pub text: TextState,
    pub font: Option<usize>,
}

/// The state of the machine; matrices are places in the list of a page.
pub struct Machine {
    pub ctm: usize,
    pub text: TextState,
    pub font: Option<usize>,
    pub tm: usize,
    pub tlm: usize,
    pub stack: Vec<Saved>,
}

/// The glyphs of a page, and the list of matrices that they name.
pub struct PageGlyphs {
    pub nodes: Vec<MatNode>,
    pub glyphs: Vec<Glyph>,
}

impl PageGlyphs {
    /// The matrices name earlier ones, and the glyphs name matrices of the list.
    pub open spec fn placed(&self) -> bool {
        matrix::well_founded(self.nodes@) && glyphs_placed(self.glyphs@, self.nodes@)
    }

    /// What the glyphs are.
    pub open spec fn view(&self) -> Seq<GlyphModel> {
        glyphs_model(self.glyphs@, self.nodes@)
    }
}

/// The font at a place among those in scope.
pub open spec fn font_at(fonts: Seq<NamedFont>, i: Option<usize>) -> Option<FontModel> {
    match i {
        Some(k) => Some(fonts[k as int].font.view()),
        None => None,
    }
}

/// What a saved part of the state is.
pub open spec fn saved_model(g: Saved, fonts: Seq<NamedFont>, nodes: Seq<MatNode>) -> SavedModel {
    SavedModel {
        ctm: matrix::chain(nodes, g.ctm as int),
        text: g.text,
        font: font_at(fonts, g.font),
    }
}

/// What the state of the machine is, with the glyphs shown so far.
pub open spec fn state_of(m: Machine, fonts: Seq<NamedFont>, page: PageGlyphs) -> State {
    State {
        ctm: matrix::chain(page.nodes@, m.ctm as int),
        text: m.text,
        font: font_at(fonts, m.font),
        tm: matrix::chain(page.nodes@, m.tm as int),
        tlm: matrix::chain(page.nodes@, m.tlm as int),
        stack: Seq::new(
            m.stack@.len(),
            |i: int| saved_model(m.stack@[i], fonts, page.nodes@),
        ),
        out: page.view(),
    }
}

/// A font place names a font in scope.
pub open spec fn font_placed(fonts: Seq<NamedFont>, i: Option<usize>) -> bool {
    i matches Some(k) ==> k < fonts.len()
}

/// Everything that the machine names exists.
pub open spec fn settled(m: Machine, fonts: Seq<NamedFont>, page: PageGlyphs) -> bool {
    &&& page.placed()
    &&& m.ctm < page.nodes@.len()
    &&& m.tm < page.nodes@.len()
    &&& m.tlm < page.nodes@.len()
    &&& font_placed(fonts, m.font)
    &&& forall|i: int|
        0 <= i < m.stack@.len() ==> (#[trigger] m.stack@[i]).ctm < page.nodes@.len()
            && font_placed(fonts, m.stack@[i].font)
}

/// Adding matrices keeps what the glyphs are.
pub proof fn lemma_glyphs_stay(out: Seq<Glyph>, shorter: Seq<MatNode>, longer: Seq<MatNode>)
    requires
        glyphs_placed(out, shorter),
        matrix::extends(longer, shorter),
    ensures
        glyphs_model(out, longer) == glyphs_model(out, shorter),
        glyphs_placed(out, longer),
{
    assert forall|i: int| 0 <= i < out.len() implies #[trigger] glyphs_model(out, longer)[i]
        == glyphs_model(out, shorter)[i] by {
        let g = out[i];
        matrix::lemma_chain_stays(shorter, longer, g.tm as int);
        matrix::lemma_chain_stays(shorter, longer, g.ctm as int);
    }
    assert(glyphs_model(out, longer) =~= glyphs_model(out, shorter));
}

/// Adding matrices to the list keeps the state.
pub proof fn lemma_state_stays(
    m: Machine,
    fonts: Seq<NamedFont>,
    page: PageGlyphs,
    grown: PageGlyphs,
)
    requires
        settled(m, fonts, page),
        matrix::well_founded(grown.nodes@),
        matrix::extends(grown.nodes@, page.nodes@),
        grown.glyphs@ == page.glyphs@,
    ensures
        state_of(m, fonts, grown) == state_of(m, fonts, page),
        settled(m, fonts, grown),
{
    let a = page.nodes@;
    let b = grown.nodes@;
    matrix::lemma_chain_stays(a, b, m.ctm as int);
    matrix::lemma_chain_stays(a, b, m.tm as int);
    matrix::lemma_chain_stays(a, b, m.tlm as int);
    lemma_glyphs_stay(page.glyphs@, a, b);
    assert forall|i: int| 0 <= i < m.stack@.len() implies #[trigger] saved_model(
        m.stack@[i],
        fonts,
        b,
    ) == saved_model(m.stack@[i], fonts, a) by {
        matrix::lemma_chain_stays(a, b, m.stack@[i].ctm as int);
    }
    assert(state_of(m, fonts, grown).stack =~= state_of(m, fonts, page).stack);
}

/// More matrices and other glyphs change nothing of the state but its glyphs.
pub proof fn lemma_state_kept(
    m: Machine,
    fonts: Seq<NamedFont>,
    page: PageGlyphs,
    grown: PageGlyphs,
)
    requires
        settled(m, fonts, page),
        grown.placed(),
        matrix::extends(grown.nodes@, page.nodes@),
    ensures
        state_of(m, fonts, grown) == (State { out: grown.view(), ..state_of(m, fonts, page) }),
        settled(m, fonts, grown),
{
    let a = page.nodes@;
    let b = grown.nodes@;
    matrix::lemma_chain_stays(a, b, m.ctm as int);
    matrix::lemma_chain_stays(a, b, m.tm as int);
    matrix::lemma_chain_stays(a, b, m.tlm as int);
    assert forall|i: int| 0 <= i < m.stack@.len() implies #[trigger] saved_model(
        m.stack@[i],
        fonts,
        b,
    ) == saved_model(m.stack@[i], fonts, a) by {
        matrix::lemma_chain_stays(a, b, m.stack@[i].ctm as int);
    }
    assert(state_of(m, fonts, grown).stack =~= state_of(m, fonts, page).stack);
}

/// The character codes of a string.
pub fn codes(two_byte: bool, bytes: &[u8]) -> (r: Vec<u32>)
    ensures
        r@ == codes_of(two_byte, bytes@),
{
    let mut r: Vec<u32> = Vec::new();
    let mut i: usize = 0;
    assert(bytes@.skip(0) =~= bytes@);
    assert(r@ + codes_of(two_byte, bytes@) =~= codes_of(two_byte, bytes@));
    while i < bytes.len()
        invariant
            i <= bytes@.len(),
            r@ + codes_of(two_byte, bytes@.skip(i as int)) == codes_of(two_byte, bytes@),
        decreases bytes@.len() - i,
    {
        let ghost rest = bytes@.skip(i as int);
        let ghost before = r@;
        if two_byte && bytes.len() - i >= 2 {
            let c: u32 = bytes[i] as u32 * 256 + bytes[i + 1] as u32;
            r.push(c);
            assert(rest.skip(2) =~= bytes@.skip(i + 2));
            assert(before + (seq![c] + codes_of(two_byte, rest.skip(2))) =~= r@ + codes_of(
                two_byte,
                rest.skip(2),
            ));
            i += 2;
        } else {
            let c: u32 = bytes[i] as u32;
            r.push(c);
            assert(rest.skip(1) =~= bytes@.skip(i + 1));
            assert(before + (seq![c] + codes_of(two_byte, rest.skip(1))) =~= r@ + codes_of(
                two_byte,
                rest.skip(1),
            ));
            i += 1;
        }
    }
    assert(r@ + codes_of(two_byte, bytes@.skip(i as int)) =~= r@);
    r
}

/// One glyph more is one model more.
proof fn lemma_glyph_added(all: Seq<Glyph>, g: Glyph, nodes: Seq<MatNode>)
    requires
        glyphs_placed(all, nodes),
        g.tm < nodes.len(),
        g.ctm < nodes.len(),
    ensures
        glyphs_placed(all.push(g), nodes),
        glyphs_model(all.push(g), nodes) == glyphs_model(all, nodes).push(glyph_model(g, nodes)),
{
    assert(glyphs_model(all.push(g), nodes) =~= glyphs_model(all, nodes).push(
        glyph_model(g, nodes),
    ));
}

/// Add the glyphs of a text.
fn put_glyphs(
    font: &Font,
    width: Number,
    text: &str,
    m: &Machine,
    fonts: &Vec<NamedFont>,
    page: &mut PageGlyphs,
)
    requires
        settled(*m, fonts@, *old(page)),
    ensures
        settled(*m, fonts@, *final(page)),
        final(page).nodes@ == old(page).nodes@,
        final(page).view() == old(page).view() + glyphs_in(
            state_of(*m, fonts@, *old(page)),
            font.view(),
            width,
            text@,
        ),
{
    let ghost s = state_of(*m, fonts@, *page);
    let ghost start = page.view();
    for c in it: text.chars()
        invariant
            it.seq() == text@,
            settled(*m, fonts@, *page),
            page.nodes@ == old(page).nodes@,
            s == state_of(*m, fonts@, *old(page)),
            start == old(page).view(),
            page.view() == start + glyphs_in(s, font.view(), width, text@.take(it.index())),
    {
        assert(text@.take(it.index() + 1).drop_last() =~= text@.take(it.index()));
        let ghost k = it.index();
        if c != '\0' {
            let g = Glyph {
                ch: c,
                width,
                size: m.text.fsize,
                scale: m.text.th,
                rise: m.text.trise,
                ascent: font.ascent,
                descent: font.descent,
                font: font.hash,
                tm: m.tm,
                ctm: m.ctm,
            };
            let ghost all = page.glyphs@;
            page.glyphs.push(g);
            proof {
                lemma_glyph_added(all, g, old(page).nodes@);
                assert(page.glyphs@ == all.push(g));
                assert(glyph_model(g, page.nodes@) == glyph_in(s, font.view(), width, c));
            }
        }
        assert(page.view() =~= start + glyphs_in(s, font.view(), width, text@.take(k + 1)));
    }
    assert(text@.take(text@.len() as int) =~= text@);
}

/// Show one code.
fn show_code(
    font: &Font,
    code: u32,
    m: &mut Machine,
    fonts: &Vec<NamedFont>,
    page: &mut PageGlyphs,
)
    requires
        settled(*old(m), fonts@, *old(page)),
    ensures
        settled(*final(m), fonts@, *final(page)),
        matrix::extends(final(page).nodes@, old(page).nodes@),
        state_of(*final(m), fonts@, *final(page)) == code_shown(
            state_of(*old(m), fonts@, *old(page)),
            font.view(),
            code,
        ),
{
    let ghost s = state_of(*m, fonts@, *page);
    let (text, width) = font.decode_code(code);
    if let Some(t) = &text {
        put_glyphs(font, width, t.as_str(), m, fonts, page);
    }
    let ghost shown = *page;
    proof {
        assert(state_of(*m, fonts@, shown).stack =~= s.stack);
        assert(s.out + Seq::<GlyphModel>::empty() =~= s.out);
        assert(glyphs_in(s, font.view(), width, Seq::empty()) =~= Seq::<GlyphModel>::empty());
    }
    let word: Option<Number> = if !font.two_byte && code == 32 {
        Some(m.text.tw)
    } else {
        None
    };
    let step = Step::Advance {
        width,
        size: m.text.fsize,
        spacing: m.text.tc,
        word,
        scale: m.text.th,
    };
    let place: usize = put_node(&mut page.nodes, MatNode::Before(step, m.tm));
    proof {
        lemma_state_stays(*m, fonts@, shown, *page);
    }
    m.tm = place;
    assert(state_of(*m, fonts@, *page).stack =~= s.stack);
    assert(state_of(*m, fonts@, *page) =~= code_shown(s, font.view(), code));
}

/// Show a string: each code's glyphs, then its advance.
pub fn show_text(
    font: &Font,
    bytes: &[u8],
    m: &mut Machine,
    fonts: &Vec<NamedFont>,
    page: &mut PageGlyphs,
)
    requires
        settled(*old(m), fonts@, *old(page)),
    ensures
        settled(*final(m), fonts@, *final(page)),
        matrix::extends(final(page).nodes@, old(page).nodes@),
        state_of(*final(m), fonts@, *final(page)) == string_shown(
            state_of(*old(m), fonts@, *old(page)),
            font.view(),
            bytes@,
        ),
{
    let ghost s = state_of(*m, fonts@, *page);
    let list = codes(font.two_byte, bytes);
    let mut i: usize = 0;
    while i < list.len()
        invariant
            i <= list@.len(),
            settled(*m, fonts@, *page),
            matrix::extends(page.nodes@, old(page).nodes@),
            state_of(*m, fonts@, *page) == codes_shown(s, font.view(), list@, i as int),
        decreases list@.len() - i,
    {
        show_code(font, list[i], m, fonts, page);
        i += 1;
    }
}

/// The number that operand `i` is; 0 where it is none.
fn operand_at(v: &Vec<Obj>, i: usize) -> (r: Number)
    ensures
        r == operand(object::array_model(v@), i as int),
{
    if i < v.len() {
        assert(object::array_model(v@)[i as int] == v@[i as int].view());
        if let Some(n) = num(&v[i]) {
            return n;
        }
    }
    Number::Int(0)
}

/// The matrix that the first six operands are.
fn matrix_at(v: &Vec<Obj>) -> (r: Six)
    ensures
        r == operand_matrix(object::array_model(v@)),
{
    Six {
        a: operand_at(v, 0),
        b: operand_at(v, 1),
        c: operand_at(v, 2),
        d: operand_at(v, 3),
        e: operand_at(v, 4),
        f: operand_at(v, 5),
    }
}

/// Move the line matrix by a step, and the text matrix with it.
fn move_line(step: Step, m: &mut Machine, fonts: &Vec<NamedFont>, page: &mut PageGlyphs)
    requires
        settled(*old(m), fonts@, *old(page)),
    ensures
        settled(*final(m), fonts@, *final(page)),
        matrix::extends(final(page).nodes@, old(page).nodes@),
        state_of(*final(m), fonts@, *final(page)) == line_moved(
            state_of(*old(m), fonts@, *old(page)),
            step,
        ),
{
    let ghost s = state_of(*m, fonts@, *page);
    let place: usize = put_node(&mut page.nodes, MatNode::Before(step, m.tlm));
    proof {
        lemma_state_stays(*m, fonts@, *old(page), *page);
    }
    m.tlm = place;
    m.tm = place;
    assert(state_of(*m, fonts@, *page).stack =~= s.stack);
    assert(state_of(*m, fonts@, *page) =~= line_moved(s, step));
}

/// Put a matrix in place of the text matrix and the line matrix.
fn set_line(node: MatNode, m: &mut Machine, fonts: &Vec<NamedFont>, page: &mut PageGlyphs)
    requires
        settled(*old(m), fonts@, *old(page)),
        !(node is Before),
    ensures
        settled(*final(m), fonts@, *final(page)),
        matrix::extends(final(page).nodes@, old(page).nodes@),
        ({
            let t = match node {
                MatNode::Only(step) => Transform::Only(step),
                _ => Transform::Identity,
            };
            state_of(*final(m), fonts@, *final(page)) == (State {
                tm: t,
                tlm: t,
                ..state_of(*old(m), fonts@, *old(page))
            })
        }),
{
    let ghost s = state_of(*m, fonts@, *page);
    let place: usize = put_node(&mut page.nodes, node);
    proof {
        lemma_state_stays(*m, fonts@, *old(page), *page);
    }
    m.tlm = place;
    m.tm = place;
    assert(state_of(*m, fonts@, *page).stack =~= s.stack);
}

/// Let a matrix come before the current one.
fn concat(step: Step, m: &mut Machine, fonts: &Vec<NamedFont>, page: &mut PageGlyphs)
    requires
        settled(*old(m), fonts@, *old(page)),
    ensures
        settled(*final(m), fonts@, *final(page)),
        matrix::extends(final(page).nodes@, old(page).nodes@),
        state_of(*final(m), fonts@, *final(page)) == (State {
            ctm: Transform::Before(
                step,
                Box::new(state_of(*old(m), fonts@, *old(page)).ctm),
            ),
            ..state_of(*old(m), fonts@, *old(page))
        }),
{
    let ghost s = state_of(*m, fonts@, *page);
    let place: usize = put_node(&mut page.nodes, MatNode::Before(step, m.ctm));
    proof {
        lemma_state_stays(*m, fonts@, *old(page), *page);
    }
    m.ctm = place;
    assert(state_of(*m, fonts@, *page).stack =~= s.stack);
}

/// Show the last operand, if it is a string and a font is set.
fn show_last(v: &Vec<Obj>, m: &mut Machine, fonts: &Vec<NamedFont>, page: &mut PageGlyphs)
    requires
        settled(*old(m), fonts@, *old(page)),
    ensures
        settled(*final(m), fonts@, *final(page)),
        matrix::extends(final(page).nodes@, old(page).nodes@),
        state_of(*final(m), fonts@, *final(page)) == last_shown(
            state_of(*old(m), fonts@, *old(page)),
            object::array_model(v@),
        ),
{
    if let Some(k) = m.font {
        if v.len() > 0 {
            assert(object::array_model(v@).last() == v@[v@.len() - 1].view());
            if let Obj::Str(s) = &v[v.len() - 1] {
                show_text(&fonts[k].font, s.as_slice(), m, fonts, page);
            }
        }
    }
}

/// Show the elements of an array: strings are shown, numbers move the text
/// matrix back.
fn show_elements(
    font: &Font,
    a: &Vec<Obj>,
    m: &mut Machine,
    fonts: &Vec<NamedFont>,
    page: &mut PageGlyphs,
)
    requires
        settled(*old(m), fonts@, *old(page)),
    ensures
        settled(*final(m), fonts@, *final(page)),
        matrix::extends(final(page).nodes@, old(page).nodes@),
        state_of(*final(m), fonts@, *final(page)) == elements_shown(
            state_of(*old(m), fonts@, *old(page)),
            font.view(),
            object::array_model(a@),
            a@.len() as int,
        ),
{
    let ghost s = state_of(*m, fonts@, *page);
    let ghost model = object::array_model(a@);
    let text = m.text;
    let mut i: usize = 0;
    while i < a.len()
        invariant
            i <= a@.len(),
            model == object::array_model(a@),
            text == s.text,
            settled(*m, fonts@, *page),
            matrix::extends(page.nodes@, old(page).nodes@),
            state_of(*m, fonts@, *page) == elements_shown(s, font.view(), model, i as int),
        decreases a@.len() - i,
    {
        assert(model[i as int] == a@[i as int].view());
        let ghost before = state_of(*m, fonts@, *page);
        match &a[i] {
            Obj::Str(bytes) => {
                show_text(font, bytes.as_slice(), m, fonts, page);
            },
            Obj::Num(adjust) => {
                let ghost page0 = *page;
                let step = Step::Kern { adjust: *adjust, size: text.fsize, scale: text.th };
                let place: usize = put_node(&mut page.nodes, MatNode::Before(step, m.tm));
                proof {
                    lemma_state_stays(*m, fonts@, page0, *page);
                }
                m.tm = place;
                assert(state_of(*m, fonts@, *page).stack =~= before.stack);
                assert(state_of(*m, fonts@, *page) =~= elements_shown(
                    s,
                    font.view(),
                    model,
                    i + 1,
                ));
            },
            _ => {},
        }
        i += 1;
    }
}

/// Save the graphics state.
fn save(m: &mut Machine, fonts: &Vec<NamedFont>, page: &PageGlyphs)
    requires
        settled(*old(m), fonts@, *page),
    ensures
        settled(*final(m), fonts@, *page),
        ({
            let s = state_of(*old(m), fonts@, *page);
            state_of(*final(m), fonts@, *page) == (State {
                stack: s.stack.push(SavedModel { ctm: s.ctm, text: s.text, font: s.font }),
                ..s
            })
        }),
{
    let ghost s = state_of(*m, fonts@, *page);
    let g = Saved { ctm: m.ctm, text: m.text, font: m.font };
    let ghost before = m.stack@;
    m.stack.push(g);
    proof {
        assert(m.stack@ == before.push(g));
        assert(state_of(*m, fonts@, *page).stack =~= s.stack.push(
            SavedModel { ctm: s.ctm, text: s.text, font: s.font },
        ));
    }
}

/// Restore the graphics state that was saved last.
fn restore(m: &mut Machine, fonts: &Vec<NamedFont>, page: &PageGlyphs)
    requires
        settled(*old(m), fonts@, *page),
    ensures
        settled(*final(m), fonts@, *page),
        ({
            let s = state_of(*old(m), fonts@, *page);
            state_of(*final(m), fonts@, *page) == (if s.stack.len() > 0 {
                let g = s.stack.last();
                State { ctm: g.ctm, text: g.text, font: g.font, stack: s.stack.drop_last(), ..s }
            } else {
                s
            })
        }),
{
    let ghost s = state_of(*m, fonts@, *page);
    let ghost before = m.stack@;
    match m.stack.pop() {
        Some(g) => {
            assert(before.last() == g);
            assert(s.stack.last() == saved_model(g, fonts@, page.nodes@));
            m.ctm = g.ctm;
            m.text = g.text;
            m.font = g.font;
            assert(m.stack@ == before.drop_last());
            assert(state_of(*m, fonts@, *page).stack =~= s.stack.drop_last());
        },
        None => {},
    }
}

/// Run one operation other than the invocation of a form.
pub fn apply(op: &Op, m: &mut Machine, fonts: &Vec<NamedFont>, page: &mut PageGlyphs)
    requires
        settled(*old(m), fonts@, *old(page)),
    ensures
        settled(*final(m), fonts@, *final(page)),
        matrix::extends(final(page).nodes@, old(page).nodes@),
        state_of(*final(m), fonts@, *final(page)) == stepped(
            fonts_map(fonts@),
            op.view(),
            state_of(*old(m), fonts@, *old(page)),
        ),
{
    broadcast use object::lemma_array_view;

    let v = &op.operands;
    let ghost s = state_of(*m, fonts@, *page);
    match classify(op.operator.as_str()) {
        Operator::Save => {
            save(m, fonts, page);
        },
        Operator::Restore => {
            restore(m, fonts, page);
        },
        Operator::Concat => {
            concat(Step::Matrix(matrix_at(v)), m, fonts, page);
        },
        Operator::Begin => {
            set_line(MatNode::Identity, m, fonts, page);
        },
        Operator::SetFont => {
            if v.len() > 0 {
                assert(object::array_model(v@)[0] == v@[0].view());
                if let Obj::Name(n) = &v[0] {
                    m.font = find_font(fonts, n.as_slice());
                }
            }
            m.text = TextState { fsize: operand_at(v, 1), ..m.text };
            assert(state_of(*m, fonts@, *page).stack =~= s.stack);
        },
        Operator::Move => {
            move_line(Step::Shift(operand_at(v, 0), operand_at(v, 1)), m, fonts, page);
        },
        Operator::MoveLead => {
            m.text = TextState { tl: Scalar::Negated(operand_at(v, 1)), ..m.text };
            assert(state_of(*m, fonts@, *page).stack =~= s.stack);
            move_line(Step::Shift(operand_at(v, 0), operand_at(v, 1)), m, fonts, page);
        },
        Operator::SetMatrix => {
            set_line(MatNode::Only(Step::Matrix(matrix_at(v))), m, fonts, page);
        },
        Operator::NextLine => {
            move_line(Step::Down(m.text.tl), m, fonts, page);
        },
        Operator::CharSpacing => {
            m.text = TextState { tc: operand_at(v, 0), ..m.text };
            assert(state_of(*m, fonts@, *page).stack =~= s.stack);
        },
        Operator::WordSpacing => {
            m.text = TextState { tw: operand_at(v, 0), ..m.text };
            assert(state_of(*m, fonts@, *page).stack =~= s.stack);
        },
        Operator::Scaling => {
            m.text = TextState { th: Scalar::Percent(operand_at(v, 0)), ..m.text };
            assert(state_of(*m, fonts@, *page).stack =~= s.stack);
        },
        Operator::Leading => {
            m.text = TextState { tl: Scalar::Plain(operand_at(v, 0)), ..m.text };
            assert(state_of(*m, fonts@, *page).stack =~= s.stack);
        },
        Operator::Rise => {
            m.text = TextState { trise: operand_at(v, 0), ..m.text };
            assert(state_of(*m, fonts@, *page).stack =~= s.stack);
        },
        Operator::Show => {
            show_last(v, m, fonts, page);
        },
        Operator::NextShow => {
            move_line(Step::Down(m.text.tl), m, fonts, page);
            show_last(v, m, fonts, page);
        },
        Operator::SpacedShow => {
            move_line(Step::Down(m.text.tl), m, fonts, page);
            let ghost moved = state_of(*m, fonts@, *page);
            m.text = TextState { tw: operand_at(v, 0), tc: operand_at(v, 1), ..m.text };
            assert(state_of(*m, fonts@, *page).stack =~= moved.stack);
            show_last(v, m, fonts, page);
        },
        Operator::ShowArray => {
            if let Some(k) = m.font {
                if v.len() > 0 {
                    assert(object::array_model(v@)[0] == v@[0].view());
                    proof {
                        object::lemma_array_view(v@[0]);
                    }
                    if let Obj::Array(a) = &v[0] {
                        show_elements(&fonts[k].font, a, m, fonts, page);
                    }
                }
            }
        },
        Operator::Invoke => {},
        Operator::Other => {},
    }
}

} // verus!
