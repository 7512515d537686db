//! Which cells stay, and when a text layer counts.

use crate::cells::{self, PdfPage, TextCell};
use vstd::prelude::*;

verus! {

/// Lines and characters add up: over the pages, and over the lines of a page. Only
/// prose lines count.
pub proof fn law_lines_and_characters_add_up(
    a: Seq<PdfPage>,
    b: Seq<PdfPage>,
    x: Seq<TextCell>,
    y: Seq<TextCell>,
    page: PdfPage,
    cell: TextCell,
)
    ensures
        cells::line_count(a + b) == cells::line_count(a) + cells::line_count(b),
        cells::char_count(a + b) == cells::char_count(a) + cells::char_count(b),
        cells::cell_chars(x + y) == cells::cell_chars(x) + cells::cell_chars(y),
        cells::line_count(seq![page]) == page.cells@.len(),
        cells::char_count(seq![page]) == cells::cell_chars(page.cells@),
        cells::cell_chars(seq![cell]) == cell.text@.len(),
        cells::line_count(Seq::empty()) == 0,
        cells::char_count(Seq::empty()) == 0,
        cells::cell_chars(Seq::empty()) == 0,
{
    lemma_pages_add_up(a, b);
    lemma_cells_add_up(x, y);
    assert(seq![page].drop_last() =~= Seq::<PdfPage>::empty());
    assert(seq![cell].drop_last() =~= Seq::<TextCell>::empty());
    assert(cells::line_count(seq![page]) == cells::line_count(Seq::empty()) + page.cells@.len());
    assert(cells::char_count(seq![page]) == cells::char_count(Seq::empty()) + cells::cell_chars(
        page.cells@,
    ));
    assert(cells::cell_chars(seq![cell]) == cells::cell_chars(Seq::empty()) + cell.text@.len());
}

proof fn lemma_pages_add_up(a: Seq<PdfPage>, b: Seq<PdfPage>)
    ensures
        cells::line_count(a + b) == cells::line_count(a) + cells::line_count(b),
        cells::char_count(a + b) == cells::char_count(a) + cells::char_count(b),
    decreases b.len(),
{
    if b.len() == 0 {
        assert(a + b =~= a);
    } else {
        lemma_pages_add_up(a, b.drop_last());
        assert((a + b).drop_last() =~= a + b.drop_last());
    }
}

proof fn lemma_cells_add_up(x: Seq<TextCell>, y: Seq<TextCell>)
    ensures
        cells::cell_chars(x + y) == cells::cell_chars(x) + cells::cell_chars(y),
    decreases y.len(),
{
    if y.len() == 0 {
        assert(x + y =~= x);
    } else {
        lemma_cells_add_up(x, y.drop_last());
        assert((x + y).drop_last() =~= x + y.drop_last());
    }
}

/// A text layer is vestigial exactly if it has no line, or no more lines than pages and
/// fewer than 32 characters in them.
pub proof fn law_vestigial_layers_are_sparse(pages: Seq<PdfPage>, lines: nat, chars: nat)
    requires
        lines == cells::line_count(pages),
        chars == cells::char_count(pages),
    ensures
        cells::vestigial(pages) <==> lines == 0 || lines <= pages.len() && chars < 32,
{
}

/// A cell is touched: another cell with another text lies inside it, or it inside the
/// other.
pub open spec fn touched(cells: Seq<TextCell>, m: Seq<Seq<bool>>, i: int) -> bool {
    exists|j: int|
        0 <= j < cells.len() && j != i && (#[trigger] cells[j]).text@ != cells[i].text@ && (
        m[i][j] || m[j][i])
}

/// A touched cell is paint, and no other.
proof fn lemma_touched(cs: Seq<TextCell>, m: Seq<Seq<bool>>, i: int)
    requires
        0 <= i < cs.len(),
    ensures
        cells::is_paint(cs, m, i) <==> touched(cs, m, i),
{
    if cells::is_paint(cs, m, i) {
        let j = choose|j: int| #[trigger] cells::stacked(cs, m, i, j);
        assert(cs[j].text@ != cs[i].text@);
    }
    if touched(cs, m, i) {
        let j = choose|j: int|
            0 <= j < cs.len() && j != i && (#[trigger] cs[j]).text@ != cs[i].text@ && (m[i][j]
                || m[j][i]);
        assert(cells::stacked(cs, m, i, j));
    }
}

/// The cells that stay are exactly those that are not touched, in their order.
pub proof fn law_untouched_cells_stay(cs: Seq<TextCell>, m: Seq<Seq<bool>>, n: int) -> (at: Seq<int>)
    requires
        0 <= n <= cs.len(),
    ensures
        at.len() == cells::text_cells(cs, m, n).len(),
        forall|k: int|
            0 <= k < at.len() ==> 0 <= #[trigger] at[k] < n && cells::text_cells(cs, m, n)[k]
                == cs[at[k]] && !touched(cs, m, at[k]),
        forall|k: int, l: int| 0 <= k < l < at.len() ==> #[trigger] at[k] < #[trigger] at[l],
        forall|i: int| 0 <= i < n && !(#[trigger] touched(cs, m, i)) ==> at.contains(i),
    decreases n,
{
    if n == 0 {
        Seq::empty()
    } else {
        let before = law_untouched_cells_stay(cs, m, n - 1);
        lemma_touched(cs, m, n - 1);
        if touched(cs, m, n - 1) {
            before
        } else {
            let at = before.push(n - 1);
            assert forall|i: int| 0 <= i < n && !(#[trigger] touched(cs, m, i)) implies at.contains(
                i,
            ) by {
                if i < n - 1 {
                    assert(before.contains(i));
                    let k = choose|k: int| 0 <= k < before.len() && before[k] == i;
                    assert(at[k] == i);
                } else {
                    assert(at[before.len() as int] == n - 1);
                }
            }
            at
        }
    }
}

} // verus!
