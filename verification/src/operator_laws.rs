//! What the operators of content do, told by their keywords, their operands and
//! where glyphs come to stand.

use crate::content;
use crate::font::{self, FaceModel, FontModel};
use crate::geometry;
use crate::machine::{self, GlyphModel, Operator, State, TextState};
use crate::matrix::{Six, Step, Transform};
use crate::number::Number;
use crate::object::{DocModel, ObjModel, OpModel};
use vstd::prelude::*;

verus! {

/// The keywords of text and graphics state are told apart, and nothing else is an
/// operator.
pub proof fn law_keywords_are_operators(s: Seq<char>)
    ensures
        machine::operator_of("q"@) == Operator::Save,
        machine::operator_of("Q"@) == Operator::Restore,
        machine::operator_of("cm"@) == Operator::Concat,
        machine::operator_of("BT"@) == Operator::Begin,
        machine::operator_of("Tf"@) == Operator::SetFont,
        machine::operator_of("Td"@) == Operator::Move,
        machine::operator_of("TD"@) == Operator::MoveLead,
        machine::operator_of("Tm"@) == Operator::SetMatrix,
        machine::operator_of("T*"@) == Operator::NextLine,
        machine::operator_of("Tc"@) == Operator::CharSpacing,
        machine::operator_of("Tw"@) == Operator::WordSpacing,
        machine::operator_of("Tz"@) == Operator::Scaling,
        machine::operator_of("TL"@) == Operator::Leading,
        machine::operator_of("Ts"@) == Operator::Rise,
        machine::operator_of("Tj"@) == Operator::Show,
        machine::operator_of("'"@) == Operator::NextShow,
        machine::operator_of("\""@) == Operator::SpacedShow,
        machine::operator_of("TJ"@) == Operator::ShowArray,
        machine::operator_of("Do"@) == Operator::Invoke,
        s != "q"@ && s != "Q"@ && s != "cm"@ && s != "BT"@ && s != "Tf"@ && s != "Td"@ && s
            != "TD"@ && s != "Tm"@ && s != "T*"@ && s != "Tc"@ && s != "Tw"@ && s != "Tz"@ && s
            != "TL"@ && s != "Ts"@ && s != "Tj"@ && s != "'"@ && s != "\""@ && s != "TJ"@ && s
            != "Do"@ ==> machine::operator_of(s) == Operator::Other,
{
    reveal_strlit("q");
    reveal_strlit("Q");
    reveal_strlit("cm");
    reveal_strlit("BT");
    reveal_strlit("Tf");
    reveal_strlit("Td");
    reveal_strlit("TD");
    reveal_strlit("Tm");
    reveal_strlit("T*");
    reveal_strlit("Tc");
    reveal_strlit("Tw");
    reveal_strlit("Tz");
    reveal_strlit("TL");
    reveal_strlit("Ts");
    reveal_strlit("Tj");
    reveal_strlit("'");
    reveal_strlit("\"");
    reveal_strlit("TJ");
    reveal_strlit("Do");
    assert("q"@[0] == 'q' && "Q"@[0] == 'Q' && "'"@[0] == '\'' && "\""@[0] == '"');
    assert("cm"@[0] == 'c' && "BT"@[0] == 'B' && "Do"@[0] == 'D');
    assert("Tf"@[0] == 'T' && "Tf"@[1] == 'f');
    assert("Td"@[0] == 'T' && "Td"@[1] == 'd');
    assert("TD"@[0] == 'T' && "TD"@[1] == 'D');
    assert("Tm"@[0] == 'T' && "Tm"@[1] == 'm');
    assert("T*"@[0] == 'T' && "T*"@[1] == '*');
    assert("Tc"@[0] == 'T' && "Tc"@[1] == 'c');
    assert("Tw"@[0] == 'T' && "Tw"@[1] == 'w');
    assert("Tz"@[0] == 'T' && "Tz"@[1] == 'z');
    assert("TL"@[0] == 'T' && "TL"@[1] == 'L');
    assert("Ts"@[0] == 'T' && "Ts"@[1] == 's');
    assert("Tj"@[0] == 'T' && "Tj"@[1] == 'j');
    assert("TJ"@[0] == 'T' && "TJ"@[1] == 'J');
}

/// Numbers as operands.
pub open spec fn numbers(n: Seq<Number>) -> Seq<ObjModel> {
    Seq::new(n.len(), |i: int| ObjModel::Num(n[i]))
}

/// An operation with numbers as its operands.
pub open spec fn op_of(keyword: Seq<char>, n: Seq<Number>) -> OpModel {
    OpModel { operator: keyword, operands: numbers(n) }
}

/// `Tm` and `cm` take a matrix as `a b c d e f`: it maps `(x, y)` to
/// `(a x + c y + e, b x + d y + f)`. `Tm` puts it in place of the text matrix and the
/// line matrix, `cm` lets it come before the current matrix; nothing else changes.
pub proof fn law_six_operands_are_a_matrix(
    fonts: Map<Seq<u8>, FontModel>,
    n: Seq<Number>,
    s: State,
    val: spec_fn(Number) -> real,
    p: (real, real),
)
    requires
        n.len() == 6,
    ensures
        ({
            let t = machine::stepped(fonts, op_of("Tm"@, n), s);
            let c = machine::stepped(fonts, op_of("cm"@, n), s);
            let q = (
                val(n[0]) * p.0 + val(n[2]) * p.1 + val(n[4]),
                val(n[1]) * p.0 + val(n[3]) * p.1 + val(n[5]),
            );
            &&& geometry::placed_at(val, t.tm, p) == q
            &&& geometry::placed_at(val, t.tlm, p) == q
            &&& t == (State { tm: t.tm, tlm: t.tlm, ..s })
            &&& geometry::placed_at(val, c.ctm, p) == geometry::placed_at(val, s.ctm, q)
            &&& c == (State { ctm: c.ctm, ..s })
            &&& t.tm == Transform::Only(
                Step::Matrix(Six { a: n[0], b: n[1], c: n[2], d: n[3], e: n[4], f: n[5] }),
            )
        }),
{
    law_keywords_are_operators(Seq::empty());
    let v = numbers(n);
    assert(v[0] == ObjModel::Num(n[0]) && v[1] == ObjModel::Num(n[1]) && v[2] == ObjModel::Num(n[2]));
    assert(v[3] == ObjModel::Num(n[3]) && v[4] == ObjModel::Num(n[4]) && v[5] == ObjModel::Num(n[5]));
    reveal_with_fuel(geometry::placed_at, 2);
}

/// `Td` moves the line by its two operands: the text matrix and the line matrix take
/// a point where the line matrix took the point moved by them.
pub proof fn law_td_moves_the_line(
    fonts: Map<Seq<u8>, FontModel>,
    x: Number,
    y: Number,
    s: State,
    val: spec_fn(Number) -> real,
    p: (real, real),
)
    ensures
        ({
            let t = machine::stepped(fonts, op_of("Td"@, seq![x, y]), s);
            &&& geometry::placed_at(val, t.tm, p) == geometry::placed_at(
                val,
                s.tlm,
                (p.0 + val(x), p.1 + val(y)),
            )
            &&& t.tlm == t.tm
            &&& t == (State { tm: t.tm, tlm: t.tlm, ..s })
        }),
{
    law_keywords_are_operators(Seq::empty());
    let v = numbers(seq![x, y]);
    assert(v[0] == ObjModel::Num(x) && v[1] == ObjModel::Num(y));
    reveal_with_fuel(geometry::placed_at, 2);
}

/// `TD` moves the line as `Td` does, and from then on a new line is as far down as
/// this one: `T*` moves by `(0, y)`.
pub proof fn law_td_with_leading_sets_the_leading(
    fonts: Map<Seq<u8>, FontModel>,
    x: Number,
    y: Number,
    s: State,
    val: spec_fn(Number) -> real,
    p: (real, real),
)
    ensures
        ({
            let t = machine::stepped(fonts, op_of("TD"@, seq![x, y]), s);
            let d = machine::stepped(fonts, op_of("Td"@, seq![x, y]), s);
            let u = machine::stepped(fonts, op_of("T*"@, seq![]), t);
            &&& t == (State { text: t.text, ..d })
            &&& t.text == (TextState { tl: t.text.tl, ..s.text })
            &&& geometry::placed_at(val, u.tm, p) == geometry::placed_at(
                val,
                t.tlm,
                (p.0, p.1 + val(y)),
            )
        }),
{
    law_keywords_are_operators(Seq::empty());
    let v = numbers(seq![x, y]);
    assert(v[0] == ObjModel::Num(x) && v[1] == ObjModel::Num(y));
    reveal_with_fuel(geometry::placed_at, 2);
}

/// `TL` sets how far down `T*` moves, from the beginning of the line.
pub proof fn law_leading_moves_new_lines_down(
    fonts: Map<Seq<u8>, FontModel>,
    n: Number,
    s: State,
    val: spec_fn(Number) -> real,
    p: (real, real),
)
    ensures
        ({
            let t = machine::stepped(fonts, op_of("TL"@, seq![n]), s);
            let u = machine::stepped(fonts, op_of("T*"@, seq![]), t);
            &&& t == (State { text: TextState { tl: t.text.tl, ..s.text }, ..s })
            &&& geometry::placed_at(val, u.tm, p) == geometry::placed_at(
                val,
                s.tlm,
                (p.0, p.1 - val(n)),
            )
            &&& u.tlm == u.tm
            &&& u == (State { tm: u.tm, tlm: u.tlm, ..t })
        }),
{
    law_keywords_are_operators(Seq::empty());
    let v = numbers(seq![n]);
    assert(v[0] == ObjModel::Num(n));
    reveal_with_fuel(geometry::placed_at, 2);
}

/// `BT` begins text at the origin.
pub proof fn law_text_begins_at_the_origin(
    fonts: Map<Seq<u8>, FontModel>,
    s: State,
    val: spec_fn(Number) -> real,
    p: (real, real),
)
    ensures
        ({
            let t = machine::stepped(fonts, op_of("BT"@, seq![]), s);
            &&& geometry::placed_at(val, t.tm, p) == p
            &&& geometry::placed_at(val, t.tlm, p) == p
            &&& t == (State { tm: t.tm, tlm: t.tlm, ..s })
        }),
{
    law_keywords_are_operators(Seq::empty());
}

/// `Tc`, `Tw`, `Tz` and `Ts` set the character spacing, the word spacing, the
/// horizontal scale in percent and the rise, each alone.
pub proof fn law_text_parameters_are_set_one_by_one(
    fonts: Map<Seq<u8>, FontModel>,
    n: Number,
    s: State,
    val: spec_fn(Number) -> real,
)
    ensures
        machine::stepped(fonts, op_of("Tc"@, seq![n]), s) == (State {
            text: TextState { tc: n, ..s.text },
            ..s
        }),
        machine::stepped(fonts, op_of("Tw"@, seq![n]), s) == (State {
            text: TextState { tw: n, ..s.text },
            ..s
        }),
        machine::stepped(fonts, op_of("Ts"@, seq![n]), s) == (State {
            text: TextState { trise: n, ..s.text },
            ..s
        }),
        ({
            let t = machine::stepped(fonts, op_of("Tz"@, seq![n]), s);
            &&& geometry::scalar_value(val, t.text.th) * 100real == val(n)
            &&& t == (State { text: TextState { th: t.text.th, ..s.text }, ..s })
        }),
{
    law_keywords_are_operators(Seq::empty());
    let v = numbers(seq![n]);
    assert(v[0] == ObjModel::Num(n));
}

/// `Tf` sets the font that is in scope under the name, or none, and the size.
pub proof fn law_fonts_are_set_by_name(
    fonts: Map<Seq<u8>, FontModel>,
    name: Seq<u8>,
    size: Number,
    s: State,
)
    ensures
        ({
            let op = OpModel {
                operator: "Tf"@,
                operands: seq![ObjModel::Name(name), ObjModel::Num(size)],
            };
            let t = machine::stepped(fonts, op, s);
            &&& t.font is Some <==> fonts.dom().contains(name)
            &&& fonts.dom().contains(name) ==> t.font == Some(fonts[name])
            &&& t.text == (TextState { fsize: size, ..s.text })
            &&& t == (State { font: t.font, text: t.text, ..s })
        }),
{
    law_keywords_are_operators(Seq::empty());
}

/// A string as an operand.
pub open spec fn show_op(keyword: Seq<char>, bytes: Seq<u8>) -> OpModel {
    OpModel { operator: keyword, operands: seq![ObjModel::Str(bytes)] }
}

/// `'` is `T*` and `Tj`; `"` is `Tw`, `Tc` and `'`.
pub proof fn law_quotes_are_shorthands(
    fonts: Map<Seq<u8>, FontModel>,
    word: Number,
    spacing: Number,
    bytes: Seq<u8>,
    s: State,
)
    ensures
        machine::stepped(fonts, show_op("'"@, bytes), s) == machine::stepped(
            fonts,
            show_op("Tj"@, bytes),
            machine::stepped(fonts, op_of("T*"@, seq![]), s),
        ),
        machine::stepped(
            fonts,
            OpModel {
                operator: "\""@,
                operands: seq![ObjModel::Num(word), ObjModel::Num(spacing), ObjModel::Str(bytes)],
            },
            s,
        ) == machine::stepped(
            fonts,
            show_op("'"@, bytes),
            machine::stepped(
                fonts,
                op_of("Tc"@, seq![spacing]),
                machine::stepped(fonts, op_of("Tw"@, seq![word]), s),
            ),
        ),
{
    law_keywords_are_operators(Seq::empty());
    assert(numbers(seq![word])[0] == ObjModel::Num(word));
    assert(numbers(seq![spacing])[0] == ObjModel::Num(spacing));
    assert(seq![ObjModel::Num(word), ObjModel::Num(spacing), ObjModel::Str(bytes)].last()
        == ObjModel::Str(bytes));
    assert(seq![ObjModel::Str(bytes)].last() == ObjModel::Str(bytes));
}

/// How far a code moves the text: its width and the character spacing, and the word
/// spacing where it is a space in one byte, all scaled.
pub open spec fn advance_of(
    val: spec_fn(Number) -> real,
    text: TextState,
    f: FontModel,
    code: u32,
) -> real {
    (val(font::width_of(f, code)) / 1000real * val(text.fsize) + val(text.tc) + (if code == 32
        && !f.two_byte {
        val(text.tw)
    } else {
        0real
    })) * geometry::scalar_value(val, text.th)
}

/// How far the first `n` codes move the text.
pub open spec fn advances(
    val: spec_fn(Number) -> real,
    text: TextState,
    f: FontModel,
    codes: Seq<u32>,
    n: int,
) -> real
    decreases n,
{
    if n <= 0 {
        0real
    } else {
        advances(val, text, f, codes, n - 1) + advance_of(val, text, f, codes[n - 1])
    }
}

/// After some codes the text goes on behind their advances, along the text matrix.
pub proof fn law_text_runs_on(
    val: spec_fn(Number) -> real,
    s: State,
    f: FontModel,
    codes: Seq<u32>,
    n: int,
    p: (real, real),
)
    requires
        0 <= n <= codes.len(),
    ensures
        ({
            let t = machine::codes_shown(s, f, codes, n);
            &&& geometry::placed_at(val, t.tm, p) == geometry::placed_at(
                val,
                s.tm,
                (p.0 + advances(val, s.text, f, codes, n), p.1),
            )
            &&& t.text == s.text
            &&& t.ctm == s.ctm
            &&& t.tlm == s.tlm
        }),
    decreases n,
{
    if n > 0 {
        let a = advance_of(val, s.text, f, codes[n - 1]);
        law_text_runs_on(val, s, f, codes, n - 1, (p.0 + a, p.1));
        law_text_runs_on(val, s, f, codes, n - 1, p);
        let before = machine::codes_shown(s, f, codes, n - 1);
        reveal_with_fuel(geometry::placed_at, 2);
        assert((p.0 + a) + advances(val, s.text, f, codes, n - 1) == p.0 + advances(
            val,
            s.text,
            f,
            codes,
            n,
        ));
    }
}

/// Text that is turned: after `Tm` with `a b c d e f` and `Tj`, the first glyph of the
/// code after `n` codes starts at `(e + a w, f + b w)`, where the codes moved the text
/// by `w`.
pub proof fn law_turned_text_runs_along_its_matrix(
    fonts: Map<Seq<u8>, FontModel>,
    val: spec_fn(Number) -> real,
    m: Seq<Number>,
    f: FontModel,
    codes: Seq<u32>,
    n: int,
    s: State,
)
    requires
        m.len() == 6,
        0 <= n <= codes.len(),
    ensures
        ({
            let set = machine::stepped(fonts, op_of("Tm"@, m), s);
            let t = machine::codes_shown(set, f, codes, n);
            let w = advances(val, s.text, f, codes, n);
            geometry::placed_at(val, t.tm, (0real, 0real)) == (
                val(m[4]) + val(m[0]) * w,
                val(m[5]) + val(m[1]) * w,
            )
        }),
{
    let set = machine::stepped(fonts, op_of("Tm"@, m), s);
    let w = advances(val, s.text, f, codes, n);
    law_six_operands_are_a_matrix(fonts, m, s, val, (0real + w, 0real));
    law_text_runs_on(val, set, f, codes, n, (0real, 0real));
    assert(val(m[2]) * 0real == 0real && val(m[3]) * 0real == 0real) by (nonlinear_arith);
}

/// The characters of glyphs.
pub open spec fn chars_of(g: Seq<GlyphModel>) -> Seq<char> {
    Seq::new(g.len(), |i: int| g[i].ch)
}

/// The glyphs of a text without null characters are its characters, each in the
/// state's place, size, scale and rise, as high as the font says.
pub proof fn law_glyphs_stand_where_the_text_is(
    s: State,
    f: FontModel,
    width: Number,
    text: Seq<char>,
)
    requires
        forall|i: int| 0 <= i < text.len() ==> #[trigger] text[i] != '\0',
    ensures
        chars_of(machine::glyphs_in(s, f, width, text)) == text,
        forall|i: int|
            0 <= i < text.len() ==> {
                let g = #[trigger] machine::glyphs_in(s, f, width, text)[i];
                &&& g.width == width
                &&& g.tm == s.tm
                &&& g.ctm == s.ctm
                &&& g.size == s.text.fsize
                &&& g.scale == s.text.th
                &&& g.rise == s.text.trise
                &&& g.ascent == f.ascent
                &&& g.descent == f.descent
                &&& g.font == f.hash
            },
    decreases text.len(),
{
    if text.len() > 0 {
        let rest = text.drop_last();
        assert forall|i: int| 0 <= i < rest.len() implies #[trigger] rest[i] != '\0' by {
            assert(rest[i] == text[i]);
        }
        law_glyphs_stand_where_the_text_is(s, f, width, rest);
        let g = machine::glyphs_in(s, f, width, rest);
        assert(chars_of(g).len() == rest.len());
        assert(text.last() != '\0');
        assert(chars_of(machine::glyphs_in(s, f, width, text)) =~= text) by {
            assert forall|i: int| 0 <= i < text.len() implies chars_of(
                machine::glyphs_in(s, f, width, text),
            )[i] == text[i] by {
                if i < rest.len() {
                    assert(chars_of(g)[i] == rest[i]);
                }
            }
        }
    }
}

/// One code shown adds the glyphs of its text, if it has one, and no others.
pub proof fn law_a_code_shows_its_text(s: State, f: FontModel, code: u32)
    ensures
        ({
            let t = machine::code_shown(s, f, code);
            &&& s.out.is_prefix_of(t.out)
            &&& font::text_of(f, code) is None ==> t.out == s.out
            &&& font::text_of(f, code) matches Some(text) ==> ((forall|i: int|
                0 <= i < text.len() ==> #[trigger] text[i] != '\0') ==> chars_of(
                t.out.skip(s.out.len() as int),
            ) == text)
        }),
{
    let t = machine::code_shown(s, f, code);
    if let Some(text) = font::text_of(f, code) {
        let g = machine::glyphs_in(s, f, font::width_of(f, code), text);
        assert(t.out.skip(s.out.len() as int) =~= g);
        if forall|i: int| 0 <= i < text.len() ==> #[trigger] text[i] != '\0' {
            law_glyphs_stand_where_the_text_is(s, f, font::width_of(f, code), text);
        }
    } else {
        assert(t.out =~= s.out);
    }
}

/// A one-byte font reads a code from each byte, a two-byte font from each two, the
/// high one first; a last single byte is its value.
pub proof fn law_codes_are_bytes_or_pairs(s: Seq<u8>)
    ensures
        machine::codes_of(false, s).len() == s.len(),
        forall|i: int|
            0 <= i < s.len() ==> #[trigger] machine::codes_of(false, s)[i] == s[i],
        machine::codes_of(true, s).len() == (s.len() + 1) / 2,
        forall|i: int|
            0 <= i < s.len() / 2 ==> #[trigger] machine::codes_of(true, s)[i] == 256 * s[2 * i]
                + s[2 * i + 1],
        s.len() % 2 == 1 ==> machine::codes_of(true, s).last() == s.last(),
    decreases s.len(),
{
    if s.len() > 0 {
        law_codes_are_bytes_or_pairs(s.skip(1));
        assert forall|i: int| 0 <= i < s.len() implies #[trigger] machine::codes_of(false, s)[i]
            == s[i] by {
            if i > 0 {
                assert(machine::codes_of(false, s.skip(1))[i - 1] == s.skip(1)[i - 1]);
            }
        }
    }
    if s.len() >= 2 {
        law_codes_are_bytes_or_pairs(s.skip(2));
        let rest = s.skip(2);
        assert forall|i: int| 0 <= i < s.len() / 2 implies #[trigger] machine::codes_of(true, s)[i]
            == 256 * s[2 * i] + s[2 * i + 1] by {
            if i > 0 {
                assert(machine::codes_of(true, rest)[i - 1] == 256 * rest[2 * (i - 1)] + rest[2 * (i
                    - 1) + 1]);
            }
        }
        if s.len() % 2 == 1 {
            assert(machine::codes_of(true, s).last() == machine::codes_of(true, rest).last());
            assert(rest.last() == s.last());
        }
    } else if s.len() == 1 {
        assert(machine::codes_of(true, s.skip(1)) =~= Seq::<u32>::empty());
    }
}

/// `Tj` shows its string code by code in the font that is set, and nothing without a
/// font.
pub proof fn law_tj_shows_its_codes(
    fonts: Map<Seq<u8>, FontModel>,
    bytes: Seq<u8>,
    s: State,
)
    ensures
        s.font is None ==> machine::stepped(fonts, show_op("Tj"@, bytes), s) == s,
        s.font matches Some(f) ==> ({
            let codes = machine::codes_of(f.two_byte, bytes);
            machine::stepped(fonts, show_op("Tj"@, bytes), s) == machine::codes_shown(
                s,
                f,
                codes,
                codes.len() as int,
            )
        }),
{
    law_keywords_are_operators(Seq::empty());
    assert(seq![ObjModel::Str(bytes)].last() == ObjModel::Str(bytes));
}

/// An operation with an array as its operand.
pub open spec fn array_op(a: Seq<ObjModel>) -> OpModel {
    OpModel { operator: "TJ"@, operands: seq![ObjModel::Array(a)] }
}

/// Showing does not change the text parameters.
proof fn lemma_text_stays(s: State, f: FontModel, codes: Seq<u32>, n: int)
    ensures
        machine::codes_shown(s, f, codes, n).text == s.text,
        machine::codes_shown(s, f, codes, n).font == s.font,
    decreases n,
{
    if n > 0 {
        lemma_text_stays(s, f, codes, n - 1);
    }
}

/// Showing the elements of an array does not change the text parameters.
proof fn lemma_elements_text(s: State, f: FontModel, a: Seq<ObjModel>, n: int)
    ensures
        machine::elements_shown(s, f, a, n).text == s.text,
        machine::elements_shown(s, f, a, n).font == s.font,
    decreases n,
{
    if n > 0 {
        lemma_elements_text(s, f, a, n - 1);
        if let ObjModel::Str(bytes) = a[n - 1] {
            let codes = machine::codes_of(f.two_byte, bytes);
            lemma_text_stays(
                machine::elements_shown(s, f, a, n - 1),
                f,
                codes,
                codes.len() as int,
            );
        }
    }
}

/// The first elements of an array are shown whatever follows.
proof fn lemma_elements_prefix(s: State, f: FontModel, a: Seq<ObjModel>, b: Seq<ObjModel>, n: int)
    requires
        n <= a.len(),
    ensures
        machine::elements_shown(s, f, a + b, n) == machine::elements_shown(s, f, a, n),
    decreases n,
{
    if n > 0 {
        lemma_elements_prefix(s, f, a, b, n - 1);
        assert((a + b)[n - 1] == a[n - 1]);
    }
}

/// Elements are shown from where those before them end.
proof fn lemma_elements_rest(s: State, f: FontModel, a: Seq<ObjModel>, b: Seq<ObjModel>, n: int)
    requires
        0 <= n <= b.len(),
    ensures
        machine::elements_shown(s, f, a + b, a.len() + n) == machine::elements_shown(
            machine::elements_shown(s, f, a, a.len() as int),
            f,
            b,
            n,
        ),
    decreases n,
{
    lemma_elements_text(s, f, a, a.len() as int);
    if n > 0 {
        lemma_elements_rest(s, f, a, b, n - 1);
        assert((a + b)[a.len() + n - 1] == b[n - 1]);
    } else {
        lemma_elements_prefix(s, f, a, b, a.len() as int);
    }
}

/// `TJ` shows its array piece by piece: two arrays one after the other are as one, a
/// string is as `Tj`, a number moves the text back by thousandths of the font size,
/// and anything else does nothing.
pub proof fn law_arrays_are_shown_piece_by_piece(
    fonts: Map<Seq<u8>, FontModel>,
    a: Seq<ObjModel>,
    b: Seq<ObjModel>,
    bytes: Seq<u8>,
    n: Number,
    s: State,
    val: spec_fn(Number) -> real,
    p: (real, real),
)
    ensures
        machine::stepped(fonts, array_op(a + b), s) == machine::stepped(
            fonts,
            array_op(b),
            machine::stepped(fonts, array_op(a), s),
        ),
        machine::stepped(fonts, array_op(seq![ObjModel::Str(bytes)]), s) == machine::stepped(
            fonts,
            show_op("Tj"@, bytes),
            s,
        ),
        machine::stepped(fonts, array_op(seq![]), s) == s,
        machine::stepped(fonts, array_op(seq![ObjModel::Other]), s) == s,
        s.font is Some ==> ({
            let t = machine::stepped(fonts, array_op(seq![ObjModel::Num(n)]), s);
            &&& geometry::placed_at(val, t.tm, p) == geometry::placed_at(
                val,
                s.tm,
                (
                    p.0 - val(n) / 1000real * val(s.text.fsize) * geometry::scalar_value(
                        val,
                        s.text.th,
                    ),
                    p.1,
                ),
            )
            &&& t == (State { tm: t.tm, ..s })
        }),
{
    law_keywords_are_operators(Seq::empty());
    reveal_with_fuel(machine::elements_shown, 3);
    reveal_with_fuel(geometry::placed_at, 2);
    assert(seq![ObjModel::Array(a + b)][0] == ObjModel::Array(a + b));
    assert(seq![ObjModel::Array(a)][0] == ObjModel::Array(a));
    assert(seq![ObjModel::Array(b)][0] == ObjModel::Array(b));
    let one = seq![ObjModel::Str(bytes)];
    assert(one.last() == one[0]);
    assert(seq![ObjModel::Array(one)][0] == ObjModel::Array(one));
    if let Some(f) = s.font {
        lemma_elements_rest(s, f, a, b, b.len() as int);
        lemma_elements_text(s, f, a, a.len() as int);
        assert((a + b).len() == a.len() + b.len());
    }
}

/// What is no keyword does nothing.
pub proof fn law_other_operators_do_nothing(
    fonts: Map<Seq<u8>, FontModel>,
    op: OpModel,
    s: State,
)
    requires
        op.operator != "q"@ && op.operator != "Q"@ && op.operator != "cm"@ && op.operator != "BT"@
            && op.operator != "Tf"@ && op.operator != "Td"@ && op.operator != "TD"@
            && op.operator != "Tm"@ && op.operator != "T*"@ && op.operator != "Tc"@
            && op.operator != "Tw"@ && op.operator != "Tz"@ && op.operator != "TL"@
            && op.operator != "Ts"@ && op.operator != "Tj"@ && op.operator != "'"@
            && op.operator != "\""@ && op.operator != "TJ"@ && op.operator != "Do"@,
    ensures
        machine::stepped(fonts, op, s) == s,
{
    law_keywords_are_operators(op.operator);
}

/// The first operations run whatever follows.
proof fn lemma_after_prefix(
    doc: DocModel,
    faces: Seq<FaceModel>,
    res: Seq<(Seq<u8>, ObjModel)>,
    a: Seq<OpModel>,
    b: Seq<OpModel>,
    n: int,
    depth: int,
    s0: State,
)
    requires
        n <= a.len(),
    ensures
        content::after(doc, faces, res, a + b, n, depth, s0) == content::after(
            doc,
            faces,
            res,
            a,
            n,
            depth,
            s0,
        ),
    decreases n,
{
    if n > 0 {
        lemma_after_prefix(doc, faces, res, a, b, n - 1, depth, s0);
        assert((a + b)[n - 1] == a[n - 1]);
    }
}

/// Operations run from where those before them end.
proof fn lemma_after_rest(
    doc: DocModel,
    faces: Seq<FaceModel>,
    res: Seq<(Seq<u8>, ObjModel)>,
    a: Seq<OpModel>,
    b: Seq<OpModel>,
    n: int,
    depth: int,
    s0: State,
)
    requires
        0 <= n <= b.len(),
    ensures
        content::after(doc, faces, res, a + b, a.len() + n, depth, s0) == content::after(
            doc,
            faces,
            res,
            b,
            n,
            depth,
            content::after(doc, faces, res, a, a.len() as int, depth, s0),
        ),
    decreases n,
{
    if n > 0 {
        lemma_after_rest(doc, faces, res, a, b, n - 1, depth, s0);
        assert((a + b)[a.len() + n - 1] == b[n - 1]);
    } else {
        lemma_after_prefix(doc, faces, res, a, b, a.len() as int, depth, s0);
    }
}

/// Content runs from the first operation to the last: what stands behind runs from
/// where what stands before ends, and a single operation does what its operator does
/// with the fonts in scope.
pub proof fn law_content_runs_in_order(
    doc: DocModel,
    faces: Seq<FaceModel>,
    res: Seq<(Seq<u8>, ObjModel)>,
    a: Seq<OpModel>,
    b: Seq<OpModel>,
    op: OpModel,
    depth: int,
    s0: State,
)
    ensures
        content::after(doc, faces, res, a + b, (a + b).len() as int, depth, s0) == content::after(
            doc,
            faces,
            res,
            b,
            b.len() as int,
            depth,
            content::after(doc, faces, res, a, a.len() as int, depth, s0),
        ),
        op.operator != "Do"@ ==> content::after(doc, faces, res, seq![op], 1, depth, s0)
            == machine::stepped(content::scope_fonts(doc, faces, res), op, s0),
        content::after(doc, faces, res, seq![], 0, depth, s0) == s0,
{
    lemma_after_rest(doc, faces, res, a, b, b.len() as int, depth, s0);
    law_keywords_are_operators(op.operator);
    reveal_with_fuel(content::after, 2);
    if op.operator != "Do"@ {
        assert(machine::operator_of(op.operator) != Operator::Invoke);
    }
}

} // verus!
