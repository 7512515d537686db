//! Text cells: what a page's glyphs are grouped into.

use crate::page_box::PageBox;
use vstd::prelude::*;

verus! {

/// A run of text and the bits of the edges of its box.
pub struct TextCell {
    /// The text.
    pub text: String,
    /// Left edge.
    pub l: u32,
    /// Top edge.
    pub t: u32,
    /// Right edge.
    pub r: u32,
    /// Bottom edge.
    pub b: u32,
}

/// One page's text cells: prose lines, single words, and lines of code.
pub struct PageParserCells {
    pub prose: Vec<TextCell>,
    pub words: Vec<TextCell>,
    pub code: Vec<TextCell>,
}

impl Default for PageParserCells {
    fn default() -> (r: Self)
        ensures
            r.prose@.len() == 0,
            r.words@.len() == 0,
            r.code@.len() == 0,
    {
        PageParserCells { prose: Vec::new(), words: Vec::new(), code: Vec::new() }
    }
}

/// A page of the text layer: its box, the bits of its scale, and its cells.
pub struct PdfPage {
    /// The display box.
    pub area: PageBox,
    /// Units of the cells per point.
    pub scale: u32,
    /// Prose lines.
    pub cells: Vec<TextCell>,
    /// Lines of code.
    pub code_cells: Vec<TextCell>,
    /// Single words.
    pub word_cells: Vec<TextCell>,
    /// The targets of the page's links; the text layer alone has none.
    pub links: Vec<String>,
    /// The turn of the page in degrees; its cells are upright.
    pub rotation: u16,
}

impl PdfPage {
    /// A page of the given size whose only cells are prose lines.
    pub fn from_cells(width: u32, height: u32, scale: u32, cells: Vec<TextCell>) -> (page: Self)
        ensures
            page.area == (PageBox { l: 0, b: 0, r: width, t: height }),
            page.scale == scale,
            page.cells == cells,
            page.code_cells@.len() == 0,
            page.word_cells@.len() == 0,
            page.links@.len() == 0,
            page.rotation == 0,
    {
        PdfPage {
            area: PageBox { l: 0, b: 0, r: width, t: height },
            scale,
            cells,
            code_cells: Vec::new(),
            word_cells: Vec::new(),
            links: Vec::new(),
            rotation: 0,
        }
    }
}

/// The number of prose lines of some pages.
pub open spec fn line_count(pages: Seq<PdfPage>) -> nat
    decreases pages.len(),
{
    if pages.len() == 0 {
        0
    } else {
        line_count(pages.drop_last()) + pages.last().cells@.len()
    }
}

/// The number of characters of some cells.
pub open spec fn cell_chars(cells: Seq<TextCell>) -> nat
    decreases cells.len(),
{
    if cells.len() == 0 {
        0
    } else {
        cell_chars(cells.drop_last()) + cells.last().text@.len()
    }
}

/// The number of characters in the prose lines of some pages.
pub open spec fn char_count(pages: Seq<PdfPage>) -> nat
    decreases pages.len(),
{
    if pages.len() == 0 {
        0
    } else {
        char_count(pages.drop_last()) + cell_chars(pages.last().cells@)
    }
}

/// A text layer that is no text of the document: none at all, or at most one
/// line per page and fewer than 32 characters in all.
pub open spec fn vestigial(pages: Seq<PdfPage>) -> bool {
    line_count(pages) == 0 || (line_count(pages) <= pages.len() && char_count(pages) < 32)
}

/// Some pages have no more lines and characters than all of them.
proof fn lemma_counts_grow(pages: Seq<PdfPage>, n: int)
    requires
        0 <= n <= pages.len(),
    ensures
        line_count(pages.take(n)) <= line_count(pages),
        char_count(pages.take(n)) <= char_count(pages),
    decreases pages.len(),
{
    if n == pages.len() {
        assert(pages.take(n) =~= pages);
    } else {
        assert(pages.drop_last().take(n) =~= pages.take(n));
        lemma_counts_grow(pages.drop_last(), n);
    }
}

/// The number of characters of a string, or `cap` if there are more.
fn count_chars(s: &str, cap: usize) -> (r: usize)
    ensures
        r == (if s@.len() < cap {
            s@.len()
        } else {
            cap as nat
        }),
{
    let mut n: usize = 0;
    for c in it: s.chars()
        invariant
            it.seq() == s@,
            n == (if it.index() < cap {
                it.index()
            } else {
                cap as int
            }),
    {
        if n < cap {
            n += 1;
        }
    }
    n
}

/// The number of characters of some cells, or `cap` if there are more.
fn count_cell_chars(cells: &Vec<TextCell>, cap: usize) -> (r: usize)
    ensures
        r == (if cell_chars(cells@) < cap {
            cell_chars(cells@)
        } else {
            cap as nat
        }),
{
    let mut n: usize = 0;
    let mut i: usize = 0;
    while i < cells.len()
        invariant
            i <= cells@.len(),
            n <= cap,
            n == (if cell_chars(cells@.take(i as int)) < cap {
                cell_chars(cells@.take(i as int))
            } else {
                cap as nat
            }),
        decreases cells@.len() - i,
    {
        n += count_chars(cells[i].text.as_str(), cap - n);
        assert(cells@.take(i + 1).drop_last() =~= cells@.take(i as int));
        i += 1;
    }
    assert(cells@.take(i as int) =~= cells@);
    n
}

/// Is this text layer a vestige rather than the document's text?
///
/// A scanned form may carry a few typed-in strings on top of pages that are
/// otherwise images. Only a document that averages at most one line per page
/// and has fewer than 32 characters in all is called vestigial, so that sparse
/// but real documents keep their text.
pub fn text_layer_is_vestigial(pages: &[PdfPage]) -> (r: bool)
    ensures
        r == vestigial(pages@),
{
    let mut lines: usize = 0;
    let mut chars: usize = 0;
    let mut i: usize = 0;
    while i < pages.len()
        invariant
            i <= pages@.len(),
            lines == line_count(pages@.take(i as int)),
            lines <= pages.len(),
            chars <= 32,
            chars == (if char_count(pages@.take(i as int)) < 32 {
                char_count(pages@.take(i as int))
            } else {
                32
            }),
        decreases pages@.len() - i,
    {
        proof {
            assert(pages@.take(i + 1).drop_last() =~= pages@.take(i as int));
            lemma_counts_grow(pages@, i + 1);
        }
        if pages[i].cells.len() > pages.len() - lines {
            return false;
        }
        lines += pages[i].cells.len();
        chars += count_cell_chars(&pages[i].cells, 32 - chars);
        i += 1;
    }
    assert(pages@.take(i as int) =~= pages@);
    lines == 0 || chars < 32
}

/// A text layer without a line is vestigial; one with more lines than pages, or
/// with lines of 32 characters or more in all, is not.
pub proof fn law_only_sparse_layers_are_vestigial(pages: Seq<PdfPage>)
    ensures
        line_count(pages) == 0 ==> vestigial(pages),
        char_count(pages) >= 32 && line_count(pages) > 0 ==> !vestigial(pages),
        line_count(pages) > pages.len() ==> !vestigial(pages),
{
}

/// What `inside` answered for each ordered pair of cells.
pub open spec fn answers<F: Fn(&TextCell, &TextCell) -> bool>(
    inside: F,
    cells: Seq<TextCell>,
    m: Seq<Seq<bool>>,
) -> bool {
    &&& m.len() == cells.len()
    &&& forall|i: int| 0 <= i < m.len() ==> (#[trigger] m[i]).len() == cells.len()
    &&& forall|i: int, j: int|
        0 <= i < m.len() && 0 <= j < m.len() && i != j && cells[i].text@ != cells[j].text@
            ==> call_ensures(inside, (&cells[i], &cells[j]), #[trigger] m[i][j])
}

/// Cell `i` lies inside cell `j`, and their texts differ.
pub open spec fn overpaints(cells: Seq<TextCell>, m: Seq<Seq<bool>>, i: int, j: int) -> bool {
    0 <= i < cells.len() && 0 <= j < cells.len() && i != j && cells[i].text@ != cells[j].text@
        && m[i][j]
}

/// Of two cells with different texts one lies inside the other.
pub open spec fn stacked(cells: Seq<TextCell>, m: Seq<Seq<bool>>, i: int, j: int) -> bool {
    overpaints(cells, m, i, j) || overpaints(cells, m, j, i)
}

/// Cell `i` is paint: it is stacked with another cell.
pub open spec fn is_paint(cells: Seq<TextCell>, m: Seq<Seq<bool>>, i: int) -> bool {
    exists|j: int| #[trigger] stacked(cells, m, i, j)
}

/// Of the first `n` cells those that are text, in order.
pub open spec fn text_cells(cells: Seq<TextCell>, m: Seq<Seq<bool>>, n: int) -> Seq<TextCell>
    decreases n,
{
    if n <= 0 {
        Seq::empty()
    } else if is_paint(cells, m, n - 1) {
        text_cells(cells, m, n - 1)
    } else {
        text_cells(cells, m, n - 1).push(cells[n - 1])
    }
}

/// Where no cell lies inside a cell with another text, all cells stay: touching
/// words and double-drawn text are kept.
pub proof fn law_prose_is_kept(cells: Seq<TextCell>, m: Seq<Seq<bool>>)
    requires
        forall|i: int, j: int| !overpaints(cells, m, i, j),
    ensures
        text_cells(cells, m, cells.len() as int) == cells,
{
    lemma_prose_prefix(cells, m, cells.len() as int);
    assert(cells.take(cells.len() as int) =~= cells);
}

proof fn lemma_prose_prefix(cells: Seq<TextCell>, m: Seq<Seq<bool>>, n: int)
    requires
        0 <= n <= cells.len(),
        forall|i: int, j: int| !overpaints(cells, m, i, j),
    ensures
        text_cells(cells, m, n) == cells.take(n),
    decreases n,
{
    if n > 0 {
        lemma_prose_prefix(cells, m, n - 1);
        assert(!is_paint(cells, m, n - 1));
        assert(cells.take(n) =~= cells.take(n - 1).push(cells[n - 1]));
    } else {
        assert(cells.take(0) =~= Seq::<TextCell>::empty());
    }
}

/// Cells that all have one text all stay, however they lie: text that is drawn
/// twice is no artwork.
pub proof fn law_double_drawn_text_is_kept(cells: Seq<TextCell>, m: Seq<Seq<bool>>)
    requires
        forall|i: int, j: int|
            0 <= i < cells.len() && 0 <= j < cells.len() ==> (#[trigger] cells[i]).text@ == (
            #[trigger] cells[j]).text@,
    ensures
        text_cells(cells, m, cells.len() as int) == cells,
{
    law_prose_is_kept(cells, m);
}

/// Of two cells that overpaint each other neither stays.
pub proof fn law_both_cells_of_a_pair_are_paint(
    cells: Seq<TextCell>,
    m: Seq<Seq<bool>>,
    i: int,
    j: int,
)
    requires
        overpaints(cells, m, i, j),
    ensures
        is_paint(cells, m, i),
        is_paint(cells, m, j),
{
    assert(stacked(cells, m, i, j));
    assert(stacked(cells, m, j, i));
}

/// A test that gives one answer for two cells.
pub open spec fn is_test<F: Fn(&TextCell, &TextCell) -> bool>(inside: F) -> bool {
    forall|a: TextCell, b: TextCell, x: bool, y: bool|
        #![trigger call_ensures(inside, (&a, &b), x), call_ensures(inside, (&a, &b), y)]
        call_ensures(inside, (&a, &b), x) && call_ensures(inside, (&a, &b), y) ==> x == y
}

/// The place among all cells of the cell that stays at `i`.
spec fn place_of(cells: Seq<TextCell>, m: Seq<Seq<bool>>, n: int, i: int) -> int
    decreases n,
{
    if n <= 0 {
        -1
    } else if !is_paint(cells, m, n - 1) && i == text_cells(cells, m, n - 1).len() {
        n - 1
    } else {
        place_of(cells, m, n - 1, i)
    }
}

/// What stays is text, and stays in order.
proof fn lemma_place_of(cells: Seq<TextCell>, m: Seq<Seq<bool>>, n: int, i: int)
    requires
        0 <= n <= cells.len(),
        0 <= i < text_cells(cells, m, n).len(),
    ensures
        0 <= place_of(cells, m, n, i) < n,
        text_cells(cells, m, n)[i] == cells[place_of(cells, m, n, i)],
        !is_paint(cells, m, place_of(cells, m, n, i)),
        forall|j: int|
            0 <= j < i ==> #[trigger] place_of(cells, m, n, j) < place_of(cells, m, n, i),
    decreases n,
{
    if n > 0 {
        let before = text_cells(cells, m, n - 1);
        if i < before.len() {
            lemma_place_of(cells, m, n - 1, i);
            assert forall|j: int| 0 <= j < i implies #[trigger] place_of(cells, m, n, j)
                < place_of(cells, m, n, i) by {
                assert(place_of(cells, m, n, j) == place_of(cells, m, n - 1, j));
            }
        } else {
            assert forall|j: int| 0 <= j < i implies #[trigger] place_of(cells, m, n, j)
                < place_of(cells, m, n, i) by {
                lemma_place_of(cells, m, n - 1, j);
                assert(place_of(cells, m, n, j) == place_of(cells, m, n - 1, j));
            }
        }
    }
}

/// Dropping a second time changes nothing, with a test that is a function: no
/// painted pair is left by the first.
pub proof fn law_second_drop_changes_nothing<F: Fn(&TextCell, &TextCell) -> bool>(
    inside: F,
    cells: Seq<TextCell>,
    m: Seq<Seq<bool>>,
    again: Seq<Seq<bool>>,
)
    requires
        is_test(inside),
        answers(inside, cells, m),
        answers(inside, text_cells(cells, m, cells.len() as int), again),
    ensures
        ({
            let kept = text_cells(cells, m, cells.len() as int);
            text_cells(kept, again, kept.len() as int) == kept
        }),
{
    let n = cells.len() as int;
    let kept = text_cells(cells, m, n);
    assert forall|i: int, j: int| !overpaints(kept, again, i, j) by {
        if overpaints(kept, again, i, j) {
            lemma_place_of(cells, m, n, i);
            lemma_place_of(cells, m, n, j);
            let a = place_of(cells, m, n, i);
            let b = place_of(cells, m, n, j);
            assert(a != b);
            assert(call_ensures(inside, (&kept[i], &kept[j]), again[i][j]));
            assert(call_ensures(inside, (&cells[a], &cells[b]), m[a][b]));
            assert(overpaints(cells, m, a, b));
            law_both_cells_of_a_pair_are_paint(cells, m, a, b);
        }
    }
    law_prose_is_kept(kept, again);
}

/// Of two cells with different texts one, among the first `n`, lies inside the
/// other.
spec fn stacked_below(
    cells: Seq<TextCell>,
    m: Seq<Seq<bool>>,
    n: int,
    i: int,
    j: int,
) -> bool {
    (i < n && overpaints(cells, m, i, j)) || (j < n && overpaints(cells, m, j, i))
}

/// Row `i` of the answers stacks cell `p` with another cell.
spec fn row_stacks(cells: Seq<TextCell>, row: Seq<bool>, i: int, p: int, q: int) -> bool {
    &&& 0 <= q < row.len()
    &&& q != i
    &&& cells[i].text@ != cells[q].text@
    &&& row[q]
    &&& p == i || p == q
}

/// A further row of answers adds what it stacks.
proof fn lemma_row_added(cells: Seq<TextCell>, m: Seq<Seq<bool>>, row: Seq<bool>, p: int)
    requires
        m.len() < cells.len(),
        row.len() == cells.len(),
        0 <= p < cells.len(),
    ensures
        (exists|q: int| #[trigger] stacked_below(cells, m.push(row), m.len() as int + 1, p, q)) <==> (
        exists|q: int| #[trigger] stacked_below(cells, m, m.len() as int, p, q)) || (exists|q: int|
         #[trigger] row_stacks(cells, row, m.len() as int, p, q)),
{
    let n = m.len() as int;
    let m1 = m.push(row);
    assert forall|a: int, b: int| a < n implies #[trigger] overpaints(cells, m1, a, b)
        == overpaints(cells, m, a, b) by {}
    if exists|q: int| #[trigger] stacked_below(cells, m, n, p, q) {
        let q = choose|q: int| #[trigger] stacked_below(cells, m, n, p, q);
        assert(stacked_below(cells, m1, n + 1, p, q));
    }
    if exists|q: int| #[trigger] row_stacks(cells, row, n, p, q) {
        let q = choose|q: int| #[trigger] row_stacks(cells, row, n, p, q);
        assert(overpaints(cells, m1, n, q));
        if p == n {
            assert(stacked_below(cells, m1, n + 1, p, q));
        } else {
            assert(stacked_below(cells, m1, n + 1, p, n));
        }
    }
    if exists|q: int| #[trigger] stacked_below(cells, m1, n + 1, p, q) {
        let q = choose|q: int| #[trigger] stacked_below(cells, m1, n + 1, p, q);
        if p < n + 1 && overpaints(cells, m1, p, q) {
            if p < n {
                assert(stacked_below(cells, m, n, p, q));
            } else {
                assert(row_stacks(cells, row, n, p, q));
            }
        } else {
            if q < n {
                assert(stacked_below(cells, m, n, p, q));
            } else {
                assert(row_stacks(cells, row, n, p, p));
            }
        }
    }
}

/// Mark the cells that `i` is stacked with, and `i` if there are any.
fn mark_row<F: Fn(&TextCell, &TextCell) -> bool>(
    cells: &Vec<TextCell>,
    inside: &F,
    i: usize,
    paint: &mut Vec<bool>,
) -> (r: Ghost<Seq<bool>>)
    requires
        i < cells@.len(),
        old(paint)@.len() == cells@.len(),
        forall|a: &TextCell, b: &TextCell| call_requires(*inside, (a, b)),
    ensures
        r@.len() == cells@.len(),
        final(paint)@.len() == cells@.len(),
        forall|b: int|
            0 <= b < cells@.len() && i != b && cells@[i as int].text@ != cells@[b].text@
                ==> call_ensures(*inside, (&cells@[i as int], &cells@[b]), #[trigger] r@[b]),
        forall|p: int|
            0 <= p < cells@.len() ==> #[trigger] final(paint)@[p] == (old(paint)@[p] || exists|q: int|
             #[trigger] row_stacks(cells@, r@, i as int, p, q)),
{
    let ghost mut row: Seq<bool> = Seq::empty();
    let mut j: usize = 0;
    while j < cells.len()
        invariant
            i < cells@.len(),
            j <= cells@.len(),
            paint@.len() == cells@.len(),
            old(paint)@.len() == cells@.len(),
            row.len() == j,
            forall|a: &TextCell, b: &TextCell| call_requires(*inside, (a, b)),
            forall|b: int|
                0 <= b < j && i != b && cells@[i as int].text@ != cells@[b].text@ ==> call_ensures(
                    *inside,
                    (&cells@[i as int], &cells@[b]),
                    #[trigger] row[b],
                ),
            forall|p: int|
                0 <= p < cells@.len() ==> #[trigger] paint@[p] == (old(paint)@[p] || exists|q: int|
                 #[trigger] row_stacks(cells@, row, i as int, p, q)),
        decreases cells@.len() - j,
    {
        let ghost row0 = row;
        let ghost paint0 = paint@;
        if i == j || cells[i].text == cells[j].text {
            proof {
                row = row.push(false);
            }
        } else {
            let hit: bool = inside(&cells[i], &cells[j]);
            proof {
                row = row.push(hit);
            }
            if hit {
                paint.set(i, true);
                paint.set(j, true);
            }
        }
        proof {
            assert forall|p: int| 0 <= p < cells@.len() implies #[trigger] paint@[p] == (old(
                paint,
            )@[p] || exists|q: int| #[trigger] row_stacks(cells@, row, i as int, p, q)) by {
                assert(paint0[p] == (old(paint)@[p] || exists|q: int| #[trigger]
                    row_stacks(cells@, row0, i as int, p, q)));
                if exists|q: int| #[trigger] row_stacks(cells@, row0, i as int, p, q) {
                    let q = choose|q: int| #[trigger] row_stacks(cells@, row0, i as int, p, q);
                    assert(row_stacks(cells@, row, i as int, p, q));
                }
                if exists|q: int| #[trigger] row_stacks(cells@, row, i as int, p, q) {
                    let q = choose|q: int| #[trigger] row_stacks(cells@, row, i as int, p, q);
                    if q < j {
                        assert(row_stacks(cells@, row0, i as int, p, q));
                    }
                }
                if paint@[p] && !paint0[p] {
                    assert(row_stacks(cells@, row, i as int, p, j as int));
                }
            }
        }
        j += 1;
    }
    Ghost(row)
}

/// Mark the cells that are stacked with another cell.
fn find_paint<F: Fn(&TextCell, &TextCell) -> bool>(cells: &Vec<TextCell>, inside: &F) -> (r: (
    Vec<bool>,
    Ghost<Seq<Seq<bool>>>,
))
    requires
        forall|a: &TextCell, b: &TextCell| call_requires(*inside, (a, b)),
    ensures
        answers(*inside, cells@, r.1@),
        r.0@.len() == cells@.len(),
        forall|i: int| 0 <= i < cells@.len() ==> #[trigger] r.0@[i] == is_paint(cells@, r.1@, i),
{
    let n: usize = cells.len();
    let mut paint: Vec<bool> = Vec::new();
    let mut k: usize = 0;
    while k < n
        invariant
            k <= n,
            paint@.len() == k,
            forall|i: int| 0 <= i < k ==> !#[trigger] paint@[i],
        decreases n - k,
    {
        paint.push(false);
        k += 1;
    }
    let ghost mut m: Seq<Seq<bool>> = Seq::empty();
    let mut i: usize = 0;
    while i < n
        invariant
            i <= n,
            n == cells@.len(),
            paint@.len() == n,
            m.len() == i,
            forall|a: &TextCell, b: &TextCell| call_requires(*inside, (a, b)),
            forall|a: int| 0 <= a < i ==> (#[trigger] m[a]).len() == n,
            forall|a: int, b: int|
                0 <= a < i && 0 <= b < n && a != b && cells@[a].text@ != cells@[b].text@
                    ==> call_ensures(*inside, (&cells@[a], &cells@[b]), #[trigger] m[a][b]),
            forall|p: int|
                0 <= p < n ==> #[trigger] paint@[p] == exists|q: int| #[trigger]
                    stacked_below(cells@, m, i as int, p, q),
        decreases n - i,
    {
        let Ghost(row) = mark_row(cells, inside, i, &mut paint);
        proof {
            assert forall|p: int| 0 <= p < n implies #[trigger] paint@[p] == exists|q: int|
                #[trigger] stacked_below(cells@, m.push(row), i + 1, p, q) by {
                lemma_row_added(cells@, m, row, p);
            }
            m = m.push(row);
        }
        i += 1;
    }
    proof {
        assert forall|p: int| 0 <= p < n implies #[trigger] paint@[p] == is_paint(
            cells@,
            m,
            p,
        ) by {
            if is_paint(cells@, m, p) {
                let q = choose|q: int| #[trigger] stacked(cells@, m, p, q);
                assert(stacked_below(cells@, m, n as int, p, q));
            }
            if paint@[p] {
                let q = choose|q: int| #[trigger] stacked_below(cells@, m, n as int, p, q);
                assert(stacked(cells@, m, p, q));
            }
        }
    }
    (paint, Ghost(m))
}

/// Drop cells that are painted over each other: glyphs used as artwork.
///
/// Two cells with different text of which one lies inside the other on the same
/// line cannot be prose, since ink from two words never fills the same box. Both
/// go. `inside` says whether the box of its first argument lies in the band and
/// the extent of its second.
pub fn drop_overpainted_cells<F: Fn(&TextCell, &TextCell) -> bool>(
    cells: &mut Vec<TextCell>,
    inside: &F,
)
    requires
        forall|a: &TextCell, b: &TextCell| call_requires(*inside, (a, b)),
    ensures
        exists|m: Seq<Seq<bool>>| #[trigger]
            answers(*inside, old(cells)@, m) && final(cells)@ == text_cells(
                old(cells)@,
                m,
                old(cells)@.len() as int,
            ),
{
    let (paint, Ghost(m)) = find_paint(cells, inside);
    let ghost all = cells@;
    let mut taken: Vec<TextCell> = Vec::new();
    std::mem::swap(cells, &mut taken);
    let mut k: usize = 0;
    for cell in it: taken
        invariant
            it.seq() == all,
            k == it.index(),
            paint.len() == all.len(),
            forall|i: int| 0 <= i < all.len() ==> #[trigger] paint@[i] == is_paint(all, m, i),
            cells@ == text_cells(all, m, it.index()),
    {
        if !paint[k] {
            cells.push(cell);
        }
        k += 1;
    }
}

} // verus!
