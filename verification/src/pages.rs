//! The text layer of whole documents, page by page.

use crate::bytes::{self, write_decimal};
use crate::cells::{self, drop_overpainted_cells, PageParserCells, PdfPage, TextCell};
use crate::content::{
    self, count_fonts, fonts_from_res, page_glyphs, page_glyphs_cached, page_res, DocCaches,
};
use crate::document::{self, load_document};
use crate::font::{self, CoreFace, FaceModel};
use crate::machine::{self, PageGlyphs};
use crate::object::{self, DocModel};
use crate::page_box::{self, page_box, PageBox};
use crate::page_parts::{self, page_content};
use crate::pdf::{self, operations, Doc};
use crate::text::{self, ascii_string, push_text};
use vstd::prelude::*;

verus! {

/// The parser text layer, driven one page at a time: the document is loaded and
/// repaired once, what was parsed of it is kept across pages, and a page's glyphs
/// are parsed only when they are asked for.
pub struct PageTextParser {
    doc: Doc,
    faces: Vec<CoreFace>,
    caches: DocCaches,
    pages: Vec<(u32, u16)>,
}

/// The glyphs of a page were handed to `group` with its box, and it gave `r`.
pub open spec fn grouped<T, G: Fn(&PageGlyphs, &PageBox) -> T>(
    doc: DocModel,
    faces: Seq<FaceModel>,
    id: (u32, u16),
    group: G,
    r: T,
) -> bool {
    exists|g: PageGlyphs|
        #![trigger g.view()]
        g.placed() && g.view() == content::page_shown(doc, faces, id.0, id.1)
            && call_ensures(
            group,
            (&g, &page_box::display_box(doc, id.0, id.1)),
            r,
        )
}

/// The cells of a page: `lines` groups its glyphs into prose lines and words,
/// `code` into lines of code.
pub open spec fn page_cells<
    L: Fn(&PageGlyphs, &PageBox) -> (Vec<TextCell>, Vec<TextCell>),
    C: Fn(&PageGlyphs, &PageBox) -> Vec<TextCell>,
>(
    doc: DocModel,
    faces: Seq<FaceModel>,
    id: (u32, u16),
    lines: L,
    code: C,
    r: PageParserCells,
) -> bool {
    grouped(doc, faces, id, lines, (r.prose, r.words)) && grouped(doc, faces, id, code, r.code)
}

/// The cells of the page with an index; none for an index that the page tree
/// does not have.
pub open spec fn cells_at<
    L: Fn(&PageGlyphs, &PageBox) -> (Vec<TextCell>, Vec<TextCell>),
    C: Fn(&PageGlyphs, &PageBox) -> Vec<TextCell>,
>(
    doc: DocModel,
    faces: Seq<FaceModel>,
    index: int,
    lines: L,
    code: C,
    r: PageParserCells,
) -> bool {
    if 0 <= index < doc.pages.len() {
        page_cells(doc, faces, doc.pages[index], lines, code, r)
    } else {
        r.prose@.len() == 0 && r.words@.len() == 0 && r.code@.len() == 0
    }
}

/// The cells of every page of a document that may have been opened.
pub open spec fn all_cells<
    L: Fn(&PageGlyphs, &PageBox) -> (Vec<TextCell>, Vec<TextCell>),
    C: Fn(&PageGlyphs, &PageBox) -> Vec<TextCell>,
>(
    d: Option<DocModel>,
    faces: Seq<FaceModel>,
    lines: L,
    code: C,
    r: Seq<PageParserCells>,
) -> bool {
    match d {
        Some(doc) => r.len() == doc.pages.len() && forall|i: int|
            0 <= i < r.len() ==> page_cells(
                doc,
                faces,
                doc.pages[i],
                lines,
                code,
                #[trigger] r[i],
            ),
        None => r.len() == 0,
    }
}

impl PageTextParser {
    /// The document.
    pub closed spec fn doc(&self) -> DocModel {
        self.doc.view()
    }

    /// The built-in faces.
    pub closed spec fn faces(&self) -> Seq<FaceModel> {
        font::faces_model(self.faces@)
    }

    /// The caches fit the document, and the pages are its pages.
    pub closed spec fn ready(&self) -> bool {
        self.caches.valid(self.doc(), self.faces()) && self.pages@ == self.doc().pages
    }

    /// Load a document; `None` where neither the file nor a repaired form of it
    /// loads.
    pub fn open(bytes: &[u8], faces: Vec<CoreFace>) -> (r: Option<Self>)
        ensures
            match r {
                Some(p) => p.ready() && p.faces() == font::faces_model(faces@)
                    && document::may_open(bytes@, Some(p.doc())),
                None => document::may_open(bytes@, None),
            },
    {
        match load_document(bytes) {
            Some(doc) => {
                let pages = doc.pages();
                Some(PageTextParser { doc, faces, caches: DocCaches::new(), pages })
            },
            None => None,
        }
    }

    /// The number of pages.
    pub fn page_count(&self) -> (r: usize)
        requires
            self.ready(),
        ensures
            r == self.doc().pages.len(),
    {
        self.pages.len()
    }

    /// Prose, word and code cells of the page with an index from 0; empty for an
    /// index that the page tree does not have.
    pub fn cells<
        L: Fn(&PageGlyphs, &PageBox) -> (Vec<TextCell>, Vec<TextCell>),
        C: Fn(&PageGlyphs, &PageBox) -> Vec<TextCell>,
    >(&mut self, index: usize, lines: &L, code: &C) -> (r: PageParserCells)
        requires
            old(self).ready(),
            forall|g: &PageGlyphs, b: &PageBox| g.placed() ==> call_requires(*lines, (g, b)),
            forall|g: &PageGlyphs, b: &PageBox| g.placed() ==> call_requires(*code, (g, b)),
        ensures
            final(self).ready(),
            final(self).doc() == old(self).doc(),
            final(self).faces() == old(self).faces(),
            cells_at(old(self).doc(), old(self).faces(), index as int, *lines, *code, r),
            index >= old(self).doc().pages.len() ==> *final(self) == *old(self),
    {
        if index >= self.pages.len() {
            return PageParserCells::default();
        }
        let (num, gen) = self.pages[index];
        let area = page_box(&self.doc, num, gen);
        let glyphs = page_glyphs_cached(&self.doc, &self.faces, num, gen, &mut self.caches);
        let (prose, words) = lines(&glyphs, &area);
        let code_cells = code(&glyphs, &area);
        proof {
            let g = glyphs;
            assert(g.view() == content::page_shown(self.doc(), self.faces(), num, gen));
        }
        PageParserCells { prose, words, code: code_cells }
    }
}

/// The whole parser text layer: prose, word and code cells of every page, the
/// eager form of [`PageTextParser`].
pub fn pdf_all_cells<
    L: Fn(&PageGlyphs, &PageBox) -> (Vec<TextCell>, Vec<TextCell>),
    C: Fn(&PageGlyphs, &PageBox) -> Vec<TextCell>,
>(bytes: &[u8], faces: Vec<CoreFace>, lines: &L, code: &C) -> (r: Vec<PageParserCells>)
    requires
        forall|g: &PageGlyphs, b: &PageBox| g.placed() ==> call_requires(*lines, (g, b)),
        forall|g: &PageGlyphs, b: &PageBox| g.placed() ==> call_requires(*code, (g, b)),
    ensures
        exists|d: Option<DocModel>| #[trigger]
            document::may_open(bytes@, d) && all_cells(
                d,
                font::faces_model(faces@),
                *lines,
                *code,
                r@,
            ),
{
    let mut r: Vec<PageParserCells> = Vec::new();
    let ghost fm = font::faces_model(faces@);
    let mut parser = match PageTextParser::open(bytes, faces) {
        Some(p) => p,
        None => {
            assert(document::may_open(bytes@, None));
            return r;
        },
    };
    let ghost doc = parser.doc();
    let n: usize = parser.page_count();
    let mut i: usize = 0;
    while i < n
        invariant
            i <= n,
            n == doc.pages.len(),
            parser.ready(),
            parser.doc() == doc,
            parser.faces() == fm,
            forall|g: &PageGlyphs, b: &PageBox| g.placed() ==> call_requires(*lines, (g, b)),
            forall|g: &PageGlyphs, b: &PageBox| g.placed() ==> call_requires(*code, (g, b)),
            r@.len() == i,
            forall|j: int|
                0 <= j < i ==> page_cells(
                    doc,
                    fm,
                    doc.pages[j],
                    *lines,
                    *code,
                    #[trigger] r@[j],
                ),
        decreases n - i,
    {
        let cells = parser.cells(i, lines, code);
        r.push(cells);
        i += 1;
    }
    assert(document::may_open(bytes@, Some(doc)));
    r
}

/// The box and the cells of every page, as `group` makes them from its glyphs.
fn grouped_pages<G: Fn(&PageGlyphs, &PageBox) -> Vec<TextCell>>(
    bytes: &[u8],
    faces: &Vec<CoreFace>,
    group: &G,
) -> (r: Vec<(PageBox, Vec<TextCell>)>)
    requires
        forall|g: &PageGlyphs, b: &PageBox| g.placed() ==> call_requires(*group, (g, b)),
    ensures
        layer_of(bytes@, font::faces_model(faces@), *group, r@),
{
    let mut r: Vec<(PageBox, Vec<TextCell>)> = Vec::new();
    let ghost fm = font::faces_model(faces@);
    let doc = match load_document(bytes) {
        Some(d) => d,
        None => {
            assert(document::may_open(bytes@, None));
            return r;
        },
    };
    let ghost dm = doc.view();
    let pages = doc.pages();
    let mut caches = DocCaches::new();
    let mut i: usize = 0;
    while i < pages.len()
        invariant
            i <= pages@.len(),
            dm == doc.view(),
            fm == font::faces_model(faces@),
            pages@ == dm.pages,
            caches.valid(dm, fm),
            forall|g: &PageGlyphs, b: &PageBox| g.placed() ==> call_requires(*group, (g, b)),
            r@.len() == i,
            forall|j: int|
                0 <= j < i ==> (#[trigger] r@[j]).0 == page_box::display_box(
                    dm,
                    dm.pages[j].0,
                    dm.pages[j].1,
                ) && grouped(dm, fm, dm.pages[j], *group, r@[j].1),
        decreases pages@.len() - i,
    {
        let (num, gen) = pages[i];
        let area = page_box(&doc, num, gen);
        let glyphs = page_glyphs_cached(&doc, faces, num, gen, &mut caches);
        let cells = group(&glyphs, &area);
        proof {
            let g = glyphs;
            assert(g.view() == content::page_shown(dm, fm, num, gen));
            assert(grouped(dm, fm, dm.pages[i as int], *group, cells));
        }
        r.push((area, cells));
        i += 1;
    }
    assert(document::may_open(bytes@, Some(dm)));
    r
}

/// The box and the cells of every page of a document, or nothing where there is
/// none.
pub open spec fn layer_in<G: Fn(&PageGlyphs, &PageBox) -> Vec<TextCell>>(
    d: Option<DocModel>,
    faces: Seq<FaceModel>,
    group: G,
    r: Seq<(PageBox, Vec<TextCell>)>,
) -> bool {
    match d {
        Some(doc) => r.len() == doc.pages.len() && forall|i: int|
            0 <= i < r.len() ==> (#[trigger] r[i]).0 == page_box::display_box(
                doc,
                doc.pages[i].0,
                doc.pages[i].1,
            ) && grouped(doc, faces, doc.pages[i], group, r[i].1),
        None => r.len() == 0,
    }
}

/// The box and the cells of every page of a document that may be opened, or
/// nothing where none is.
pub open spec fn layer_of<G: Fn(&PageGlyphs, &PageBox) -> Vec<TextCell>>(
    bytes: Seq<u8>,
    faces: Seq<FaceModel>,
    group: G,
    r: Seq<(PageBox, Vec<TextCell>)>,
) -> bool {
    exists|d: Option<DocModel>| #[trigger]
        document::may_open(bytes, d) && layer_in(d, faces, group, r)
}

/// The box and the line cells of every page; `lines` groups glyphs into lines.
pub fn pdf_textlines<G: Fn(&PageGlyphs, &PageBox) -> Vec<TextCell>>(
    bytes: &[u8],
    faces: &Vec<CoreFace>,
    lines: &G,
) -> (r: Vec<(PageBox, Vec<TextCell>)>)
    requires
        forall|g: &PageGlyphs, b: &PageBox| g.placed() ==> call_requires(*lines, (g, b)),
    ensures
        layer_of(bytes@, font::faces_model(faces@), *lines, r@),
{
    grouped_pages(bytes, faces, lines)
}

/// The box and the word cells of every page; `words` groups glyphs into words.
pub fn pdf_words<G: Fn(&PageGlyphs, &PageBox) -> Vec<TextCell>>(
    bytes: &[u8],
    faces: &Vec<CoreFace>,
    words: &G,
) -> (r: Vec<(PageBox, Vec<TextCell>)>)
    requires
        forall|g: &PageGlyphs, b: &PageBox| g.placed() ==> call_requires(*words, (g, b)),
    ensures
        layer_of(bytes@, font::faces_model(faces@), *words, r@),
{
    grouped_pages(bytes, faces, words)
}

/// What is left of some cells once those that are stacked are gone.
pub open spec fn unstacked<F: Fn(&TextCell, &TextCell) -> bool>(
    inside: F,
    all: Seq<TextCell>,
    r: Seq<TextCell>,
) -> bool {
    exists|m: Seq<Seq<bool>>| #[trigger]
        cells::answers(inside, all, m) && r == cells::text_cells(
            all,
            m,
            all.len() as int,
        )
}

/// A page of the text layer: its box at scale 1, its lines of code as `code`
/// groups them, and its prose lines and words as `lines` groups them, without
/// those that are stacked.
pub open spec fn text_page<
    L: Fn(&PageGlyphs, &PageBox) -> (Vec<TextCell>, Vec<TextCell>),
    C: Fn(&PageGlyphs, &PageBox) -> Vec<TextCell>,
    F: Fn(&TextCell, &TextCell) -> bool,
>(
    doc: DocModel,
    faces: Seq<FaceModel>,
    id: (u32, u16),
    lines: L,
    code: C,
    inside: F,
    r: PdfPage,
) -> bool {
    &&& r.area == page_box::display_box(doc, id.0, id.1)
    &&& r.scale == UNIT_SCALE
    &&& r.links@.len() == 0
    &&& r.rotation == 0
    &&& grouped(doc, faces, id, code, r.code_cells)
    &&& exists|prose: Vec<TextCell>, words: Vec<TextCell>| #[trigger]
        grouped(doc, faces, id, lines, (prose, words)) && unstacked(inside, prose@, r.cells@)
            && unstacked(inside, words@, r.word_cells@)
}

/// The pages of the text layer of a document that may have been opened.
pub open spec fn text_pages<
    L: Fn(&PageGlyphs, &PageBox) -> (Vec<TextCell>, Vec<TextCell>),
    C: Fn(&PageGlyphs, &PageBox) -> Vec<TextCell>,
    F: Fn(&TextCell, &TextCell) -> bool,
>(
    d: Option<DocModel>,
    faces: Seq<FaceModel>,
    lines: L,
    code: C,
    inside: F,
    r: Seq<PdfPage>,
) -> bool {
    match d {
        Some(doc) => r.len() == doc.pages.len() && forall|i: int|
            0 <= i < r.len() ==> text_page(
                doc,
                faces,
                doc.pages[i],
                lines,
                code,
                inside,
                #[trigger] r[i],
            ),
        None => r.len() == 0,
    }
}

/// A grouping that depends on nothing but the glyphs and the box that it is
/// given, and gives one answer.
pub open spec fn is_function<T, G: Fn(&PageGlyphs, &PageBox) -> T>(group: G) -> bool {
    forall|g: PageGlyphs, h: PageGlyphs, b: PageBox, x: T, y: T|
        #![trigger call_ensures(group, (&g, &b), x), call_ensures(group, (&h, &b), y)]
        g.view() == h.view() && call_ensures(group, (&g, &b), x) && call_ensures(
            group,
            (&h, &b),
            y,
        ) ==> x == y
}

/// The glyphs of a page are grouped in one way.
proof fn lemma_grouped_once<T, G: Fn(&PageGlyphs, &PageBox) -> T>(
    doc: DocModel,
    faces: Seq<FaceModel>,
    id: (u32, u16),
    group: G,
    x: T,
    y: T,
)
    requires
        is_function::<T, G>(group),
        grouped(doc, faces, id, group, x),
        grouped(doc, faces, id, group, y),
    ensures
        x == y,
{
    let b = page_box::display_box(doc, id.0, id.1);
    let g = choose|g: PageGlyphs|
        #![trigger g.view()]
        g.placed() && g.view() == content::page_shown(doc, faces, id.0, id.1) && call_ensures(
            group,
            (&g, &b),
            x,
        );
    let h = choose|g: PageGlyphs|
        #![trigger g.view()]
        g.placed() && g.view() == content::page_shown(doc, faces, id.0, id.1) && call_ensures(
            group,
            (&g, &b),
            y,
        );
    assert(call_ensures(group, (&g, &b), x) && call_ensures(group, (&h, &b), y));
}

/// The eager form and the page-by-page form agree: the cells of all pages at once
/// are, page by page, what a parser opened on the file gives, whatever it was asked
/// before; where none opens, there are none. The objects of the file are settled.
pub proof fn law_all_cells_are_the_cells_of_each_page<
    L: Fn(&PageGlyphs, &PageBox) -> (Vec<TextCell>, Vec<TextCell>),
    C: Fn(&PageGlyphs, &PageBox) -> Vec<TextCell>,
>(
    bytes: Seq<u8>,
    faces: Seq<FaceModel>,
    lines: L,
    code: C,
    eager: Option<DocModel>,
    all: Seq<PageParserCells>,
    opened: Option<DocModel>,
    index: int,
    cells: PageParserCells,
)
    requires
        document::is_settled(bytes),
        is_function::<(Vec<TextCell>, Vec<TextCell>), L>(lines),
        is_function::<Vec<TextCell>, C>(code),
        document::may_open(bytes, eager),
        all_cells(eager, faces, lines, code, all),
        document::may_open(bytes, opened),
        opened matches Some(doc) ==> cells_at(doc, faces, index, lines, code, cells),
    ensures
        opened is None ==> all.len() == 0,
        opened matches Some(doc) ==> all.len() == doc.pages.len(),
        opened is Some && 0 <= index < all.len() ==> all[index] == cells,
{
    document::law_opening_is_repeatable(bytes, eager, opened);
    if let Some(doc) = opened {
        if 0 <= index < all.len() {
            let id = doc.pages[index];
            assert(page_cells(doc, faces, id, lines, code, all[index]));
            lemma_grouped_once::<(Vec<TextCell>, Vec<TextCell>), L>(
                doc,
                faces,
                id,
                lines,
                (all[index].prose, all[index].words),
                (cells.prose, cells.words),
            );
            lemma_grouped_once::<Vec<TextCell>, C>(
                doc,
                faces,
                id,
                code,
                all[index].code,
                cells.code,
            );
        }
    }
}

/// The pages of the text layer are the cells of all pages: as many, with the code
/// cells as they are, and the prose lines and words without those that are stacked.
/// The objects of the file are settled.
pub proof fn law_text_pages_are_all_cells_unstacked<
    L: Fn(&PageGlyphs, &PageBox) -> (Vec<TextCell>, Vec<TextCell>),
    C: Fn(&PageGlyphs, &PageBox) -> Vec<TextCell>,
    F: Fn(&TextCell, &TextCell) -> bool,
>(
    bytes: Seq<u8>,
    faces: Seq<FaceModel>,
    lines: L,
    code: C,
    inside: F,
    eager: Option<DocModel>,
    all: Seq<PageParserCells>,
    opened: Option<DocModel>,
    pages: Seq<PdfPage>,
)
    requires
        document::is_settled(bytes),
        is_function::<(Vec<TextCell>, Vec<TextCell>), L>(lines),
        is_function::<Vec<TextCell>, C>(code),
        document::may_open(bytes, eager),
        all_cells(eager, faces, lines, code, all),
        document::may_open(bytes, opened),
        text_pages(opened, faces, lines, code, inside, pages),
    ensures
        pages.len() == all.len(),
        forall|i: int|
            0 <= i < pages.len() ==> {
                &&& (#[trigger] pages[i]).code_cells == all[i].code
                &&& unstacked(inside, all[i].prose@, pages[i].cells@)
                &&& unstacked(inside, all[i].words@, pages[i].word_cells@)
                &&& pages[i].scale == UNIT_SCALE
                &&& pages[i].links@.len() == 0
                &&& pages[i].rotation == 0
            },
{
    document::law_opening_is_repeatable(bytes, eager, opened);
    if let Some(doc) = opened {
        assert forall|i: int| 0 <= i < pages.len() implies {
            &&& (#[trigger] pages[i]).code_cells == all[i].code
            &&& unstacked(inside, all[i].prose@, pages[i].cells@)
            &&& unstacked(inside, all[i].words@, pages[i].word_cells@)
            &&& pages[i].scale == UNIT_SCALE
            &&& pages[i].links@.len() == 0
            &&& pages[i].rotation == 0
        } by {
            let id = doc.pages[i];
            assert(page_cells(doc, faces, id, lines, code, all[i]));
            assert(text_page(doc, faces, id, lines, code, inside, pages[i]));
            let (prose, words) = choose|prose: Vec<TextCell>, words: Vec<TextCell>| #[trigger]
                grouped(doc, faces, id, lines, (prose, words)) && unstacked(
                    inside,
                    prose@,
                    pages[i].cells@,
                ) && unstacked(inside, words@, pages[i].word_cells@);
            lemma_grouped_once::<(Vec<TextCell>, Vec<TextCell>), L>(
                doc,
                faces,
                id,
                lines,
                (all[i].prose, all[i].words),
                (prose, words),
            );
            lemma_grouped_once::<Vec<TextCell>, C>(
                doc,
                faces,
                id,
                code,
                all[i].code,
                pages[i].code_cells,
            );
        }
    }
}

/// A file that only a repair makes readable has the lines, or words, of its good
/// form, page by page: where the good form is one of those that are tried, loads
/// with content, and no form before it does.
pub proof fn law_a_repaired_file_has_the_lines_of_its_good_form<
    G: Fn(&PageGlyphs, &PageBox) -> Vec<TextCell>,
>(
    broken: Seq<u8>,
    k: int,
    doc: DocModel,
    faces: Seq<FaceModel>,
    group: G,
    x: Seq<(PageBox, Vec<TextCell>)>,
    y: Seq<(PageBox, Vec<TextCell>)>,
)
    requires
        0 <= k < document::candidates(broken).len(),
        pdf::outcome(document::candidates(broken)[k]) == Ok::<DocModel, Seq<char>>(doc),
        object::is_fixed(doc),
        document::has_content(doc),
        forall|j: int|
            0 <= j < k ==> (pdf::outcome(#[trigger] document::candidates(broken)[j]) matches Ok(d)
                ==> object::is_fixed(d) && !document::has_content(d)),
        is_function::<Vec<TextCell>, G>(group),
        layer_of(broken, faces, group, x),
        layer_of(document::candidates(broken)[k], faces, group, y),
    ensures
        x == y,
{
    let good = document::candidates(broken)[k];
    let a = choose|d: Option<DocModel>| #[trigger]
        document::may_open(broken, d) && layer_in(d, faces, group, x);
    let b = choose|d: Option<DocModel>| #[trigger]
        document::may_open(good, d) && layer_in(d, faces, group, y);
    document::law_a_repaired_file_opens_as_its_good_form(broken, k, doc, a);
    document::law_a_well_formed_file_is_not_repaired(good, doc, b);
    assert forall|i: int| 0 <= i < x.len() implies x[i] == y[i] by {
        assert(x[i].0 == y[i].0);
        lemma_grouped_once::<Vec<TextCell>, G>(doc, faces, doc.pages[i], group, x[i].1, y[i].1);
    }
    assert(x =~= y);
}

/// The bits of 1.
pub const UNIT_SCALE: u32 = 0x3F80_0000;

/// Whole pages for a conversion from the text layer alone: cells and geometry,
/// with no rendered image. A page without a text layer has no cells.
pub fn pdf_text_pages<
    L: Fn(&PageGlyphs, &PageBox) -> (Vec<TextCell>, Vec<TextCell>),
    C: Fn(&PageGlyphs, &PageBox) -> Vec<TextCell>,
    F: Fn(&TextCell, &TextCell) -> bool,
>(bytes: &[u8], faces: &Vec<CoreFace>, lines: &L, code: &C, inside: &F) -> (r: Vec<PdfPage>)
    requires
        forall|g: &PageGlyphs, b: &PageBox| g.placed() ==> call_requires(*lines, (g, b)),
        forall|g: &PageGlyphs, b: &PageBox| g.placed() ==> call_requires(*code, (g, b)),
        forall|a: &TextCell, b: &TextCell| call_requires(*inside, (a, b)),
    ensures
        exists|d: Option<DocModel>| #[trigger]
            document::may_open(bytes@, d) && text_pages(
                d,
                font::faces_model(faces@),
                *lines,
                *code,
                *inside,
                r@,
            ),
{
    let mut r: Vec<PdfPage> = Vec::new();
    let ghost fm = font::faces_model(faces@);
    let doc = match load_document(bytes) {
        Some(d) => d,
        None => {
            assert(document::may_open(bytes@, None));
            return r;
        },
    };
    let ghost dm = doc.view();
    let pages = doc.pages();
    let mut caches = DocCaches::new();
    let mut i: usize = 0;
    while i < pages.len()
        invariant
            i <= pages@.len(),
            dm == doc.view(),
            fm == font::faces_model(faces@),
            pages@ == dm.pages,
            caches.valid(dm, fm),
            forall|g: &PageGlyphs, b: &PageBox| g.placed() ==> call_requires(*lines, (g, b)),
            forall|g: &PageGlyphs, b: &PageBox| g.placed() ==> call_requires(*code, (g, b)),
            forall|a: &TextCell, b: &TextCell| call_requires(*inside, (a, b)),
            r@.len() == i,
            forall|j: int|
                0 <= j < i ==> text_page(
                    dm,
                    fm,
                    dm.pages[j],
                    *lines,
                    *code,
                    *inside,
                    #[trigger] r@[j],
                ),
        decreases pages@.len() - i,
    {
        let (num, gen) = pages[i];
        let area = page_box(&doc, num, gen);
        let glyphs = page_glyphs_cached(&doc, faces, num, gen, &mut caches);
        let (mut prose, mut words) = lines(&glyphs, &area);
        let code_cells = code(&glyphs, &area);
        let ghost prose0 = prose;
        let ghost words0 = words;
        proof {
            let g = glyphs;
            assert(g.view() == content::page_shown(dm, fm, num, gen));
            assert(grouped(dm, fm, dm.pages[i as int], *lines, (prose0, words0)));
            assert(grouped(dm, fm, dm.pages[i as int], *code, code_cells));
        }
        drop_overpainted_cells(&mut prose, inside);
        drop_overpainted_cells(&mut words, inside);
        let page = PdfPage {
            area,
            scale: UNIT_SCALE,
            cells: prose,
            code_cells,
            word_cells: words,
            links: Vec::new(),
            rotation: 0,
        };
        proof {
            assert(unstacked(*inside, prose0@, page.cells@));
            assert(unstacked(*inside, words0@, page.word_cells@));
            assert(text_page(dm, fm, dm.pages[i as int], *lines, *code, *inside, page));
        }
        r.push(page);
        i += 1;
    }
    assert(document::may_open(bytes@, Some(dm)));
    r
}

/// The glyphs of the page with an index from 0, before any grouping; none where
/// the document does not open or has no such page.
pub fn debug_glyphs(bytes: &[u8], faces: &Vec<CoreFace>, index: usize) -> (r: PageGlyphs)
    ensures
        r.placed(),
        exists|d: Option<DocModel>| #[trigger]
            document::may_open(bytes@, d) && r.view() == (match d {
                Some(doc) => if index < doc.pages.len() {
                    content::page_shown(
                        doc,
                        font::faces_model(faces@),
                        doc.pages[index as int].0,
                        doc.pages[index as int].1,
                    )
                } else {
                    Seq::empty()
                },
                None => Seq::empty(),
            }),
{
    let empty = PageGlyphs { nodes: Vec::new(), glyphs: Vec::new() };
    assert(empty.view() =~= Seq::<machine::GlyphModel>::empty());
    let doc = match load_document(bytes) {
        Some(d) => d,
        None => {
            assert(document::may_open(bytes@, None));
            return empty;
        },
    };
    assert(document::may_open(bytes@, Some(doc.view())));
    let pages = doc.pages();
    if index >= pages.len() {
        return empty;
    }
    let (num, gen) = pages[index];
    page_glyphs(&doc, faces, num, gen)
}

/// A number in decimal.
pub open spec fn decimal_text(n: nat) -> Seq<char> {
    text::as_chars(bytes::decimal(n))
}

/// A number in decimal, or a word where there is none.
pub open spec fn count_text(n: Option<nat>, none: Seq<char>) -> Seq<char> {
    match n {
        Some(k) => decimal_text(k),
        None => none,
    }
}

/// What there is to say of a page: its number, the length of its content, how
/// many operations that decodes to, whether there are resources and how many
/// fonts they bring, and how many glyphs come out.
pub open spec fn page_words(
    n: nat,
    content: nat,
    ops: Option<nat>,
    fonts: Option<nat>,
    glyphs: nat,
) -> Seq<char> {
    "\n   page "@ + decimal_text(n) + ": content "@ + decimal_text(content) + " B, ops "@
        + count_text(ops, "UNDECODABLE"@) + ", resources "@ + (if fonts is Some {
        "ok"@
    } else {
        "MISSING"@
    }) + ", fonts "@ + count_text(fonts, "-"@) + ", glyphs "@ + decimal_text(glyphs)
}

/// Append a number in decimal.
fn push_number(out: &mut String, n: usize)
    ensures
        final(out)@ == old(out)@ + decimal_text(n as nat),
{
    let digits = write_decimal(n);
    proof {
        bytes::law_decimal_reads_back(n as nat);
        assert forall|i: int| 0 <= i < digits@.len() implies #[trigger] digits@[i] < 0x80 by {
            assert(bytes::is_digit(digits@[i]));
        }
    }
    let s = ascii_string(digits.as_slice());
    push_text(out, s.as_str());
}

/// Append a number in decimal, or a word where there is none.
fn push_count(out: &mut String, n: Option<usize>, none: &str)
    ensures
        final(out)@ == old(out)@ + count_text(
            match n {
                Some(k) => Some(k as nat),
                None => None,
            },
            none@,
        ),
{
    match n {
        Some(k) => push_number(out, k),
        None => push_text(out, none),
    }
}

/// Say what there is to say of a page.
pub fn describe_page(
    n: usize,
    content: usize,
    ops: Option<usize>,
    fonts: Option<usize>,
    glyphs: usize,
) -> (r: String)
    ensures
        r@ == page_words(
            n as nat,
            content as nat,
            match ops {
                Some(k) => Some(k as nat),
                None => None,
            },
            match fonts {
                Some(k) => Some(k as nat),
                None => None,
            },
            glyphs as nat,
        ),
{
    let mut out: String = String::new();
    push_text(&mut out, "\n   page ");
    assert(out@ =~= "\n   page "@);
    push_number(&mut out, n);
    push_text(&mut out, ": content ");
    push_number(&mut out, content);
    push_text(&mut out, " B, ops ");
    push_count(&mut out, ops, "UNDECODABLE");
    push_text(&mut out, ", resources ");
    push_text(
        &mut out,
        if fonts.is_some() {
            "ok"
        } else {
            "MISSING"
        },
    );
    push_text(&mut out, ", fonts ");
    push_count(&mut out, fonts, "-");
    push_text(&mut out, ", glyphs ");
    push_number(&mut out, glyphs);
    out
}

/// What there is to say of the first `n` pages.
pub open spec fn pages_words(doc: DocModel, faces: Seq<FaceModel>, n: int) -> Seq<char>
    decreases n,
{
    if n <= 0 {
        Seq::empty()
    } else {
        let (num, gen) = doc.pages[n - 1];
        let content = page_parts::content_of(doc, num, gen);
        pages_words(doc, faces, n - 1) + page_words(
            n as nat,
            content.len(),
            match pdf::operations_in(content) {
                Some(ops) => Some(ops.len()),
                None => None,
            },
            match content::resources_of(doc, num, gen) {
                Some(res) => Some(content::scope_fonts(doc, faces, res).dom().len()),
                None => None,
            },
            content::page_shown(doc, faces, num, gen).len(),
        )
    }
}

/// What there is to say of a document that may have been opened: of its first
/// four pages.
pub open spec fn diagnosis(d: Option<DocModel>, faces: Seq<FaceModel>) -> Seq<char> {
    match d {
        Some(doc) => pages_words(
            doc,
            faces,
            if doc.pages.len() < 4 {
                doc.pages.len() as int
            } else {
                4
            },
        ),
        None => "document does not load"@,
    }
}

/// Localize where a page's text is lost. Extraction can come up empty where no
/// content stream reaches the parser, where the stream does not decode into
/// operators, or where it runs but shows no glyphs.
pub fn content_diagnosis(bytes: &[u8], faces: &Vec<CoreFace>) -> (r: String)
    ensures
        exists|d: Option<DocModel>| #[trigger]
            document::may_open(bytes@, d) && r@ == diagnosis(
                d,
                font::faces_model(faces@),
            ),
{
    let mut out: String = String::new();
    let ghost fm = font::faces_model(faces@);
    let doc = match load_document(bytes) {
        Some(d) => d,
        None => {
            push_text(&mut out, "document does not load");
            assert(out@ =~= "document does not load"@);
            assert(document::may_open(bytes@, None));
            return out;
        },
    };
    let ghost dm = doc.view();
    let pages = doc.pages();
    let mut caches = DocCaches::new();
    let mut i: usize = 0;
    while i < pages.len() && i < 4
        invariant
            i <= pages@.len(),
            i <= 4,
            dm == doc.view(),
            fm == font::faces_model(faces@),
            pages@ == dm.pages,
            caches.valid(dm, fm),
            out@ == pages_words(dm, fm, i as int),
        decreases pages@.len() - i,
    {
        let (num, gen) = pages[i];
        let content = page_content(&doc, num, gen);
        let ops: Option<usize> = match operations(content.as_slice()) {
            Some(o) => Some(o.len()),
            None => None,
        };
        let fonts: Option<usize> = match page_res(&doc, num, gen) {
            Some(res) => Some(count_fonts(&fonts_from_res(&doc, faces, &res, &mut caches))),
            None => None,
        };
        let glyphs = page_glyphs_cached(&doc, faces, num, gen, &mut caches);
        let line = describe_page(i + 1, content.len(), ops, fonts, glyphs.glyphs.len());
        push_text(&mut out, line.as_str());
        i += 1;
    }
    assert(document::may_open(bytes@, Some(dm)));
    out
}

} // verus!
