//! Which form of a file is read, and what is said of it.

use crate::bytes;
use crate::cells::{PageParserCells, PdfPage, TextCell};
use crate::content;
use crate::document;
use crate::font::FaceModel;
use crate::machine::PageGlyphs;
use crate::number;
use crate::object::DocModel;
use crate::page_box::{self, PageBox};
use crate::page_parts;
use crate::pages;
use crate::pdf;
use crate::repair;
use vstd::arithmetic::power2;
use vstd::prelude::*;

verus! {

/// A file is tried as it is first; then with its table padded, if that is safe; and at
/// last with its lengths corrected, over the padded form if there is one.
pub proof fn law_repairs_are_tried_in_turn(bytes: Seq<u8>, padded: Seq<u8>, why: Seq<char>)
    ensures
        document::candidates(bytes)[0] == bytes,
        repair::padded_xref(bytes) == Ok::<Seq<u8>, Seq<char>>(padded) ==> {
            &&& document::candidates(bytes).len() == 3
            &&& document::candidates(bytes)[1] == padded
            &&& document::candidates(bytes)[2] == repair::lengths_fixed(padded)
        },
        repair::padded_xref(bytes) == Err::<Seq<u8>, Seq<char>>(why) ==> {
            &&& document::candidates(bytes).len() == 2
            &&& document::candidates(bytes)[1] == repair::lengths_fixed(bytes)
        },
{
}

/// A document has content if any of its pages has, and only then.
pub proof fn law_any_page_counts(doc: DocModel, i: int)
    ensures
        0 <= i < doc.pages.len() && page_parts::content_of(
            doc,
            doc.pages[i].0,
            doc.pages[i].1,
        ).len() > 0 ==> document::has_content(doc),
        (forall|j: int|
            0 <= j < doc.pages.len() ==> page_parts::content_of(
                doc,
                (#[trigger] doc.pages[j]).0,
                doc.pages[j].1,
            ).len() == 0) ==> !document::has_content(doc),
{
    if 0 <= i < doc.pages.len() {
        assert(doc.pages[i] == doc.pages[i]);
    }
}

/// An outcome of loading is a document with content.
pub open spec fn is_good(o: Result<DocModel, Seq<char>>) -> bool {
    o matches Ok(m) && document::has_content(m)
}

/// Of what loads, the first document with content is kept; if none has content, the
/// first that loads at all.
pub proof fn law_the_first_good_outcome_is_kept(
    outcomes: Seq<Result<DocModel, Seq<char>>>,
    i: int,
)
    requires
        0 <= i < outcomes.len(),
        outcomes[i] is Ok,
    ensures
        is_good(outcomes[i]) && (forall|j: int| 0 <= j < i ==> !is_good(#[trigger] outcomes[j]))
            ==> document::kept(outcomes) == Some(outcomes[i]->Ok_0),
        (forall|j: int| 0 <= j < outcomes.len() ==> !is_good(#[trigger] outcomes[j])) && (forall|
            j: int,
        | 0 <= j < i ==> #[trigger] outcomes[j] is Err) ==> document::kept(outcomes) == Some(
            outcomes[i]->Ok_0,
        ),
    decreases outcomes.len(),
{
    let rest = outcomes.drop_first();
    assert(forall|j: int| 0 <= j < rest.len() ==> #[trigger] rest[j] == outcomes[j + 1]);
    if is_good(outcomes[i]) && (forall|j: int| 0 <= j < i ==> !is_good(#[trigger] outcomes[j])) {
        lemma_first_good(outcomes, i);
    }
    if (forall|j: int| 0 <= j < outcomes.len() ==> !is_good(#[trigger] outcomes[j])) && (forall|
        j: int,
    | 0 <= j < i ==> #[trigger] outcomes[j] is Err) {
        lemma_none_good(outcomes);
        lemma_first_loaded(outcomes, i);
    }
}

proof fn lemma_first_good(outcomes: Seq<Result<DocModel, Seq<char>>>, i: int)
    requires
        0 <= i < outcomes.len(),
        is_good(outcomes[i]),
        forall|j: int| 0 <= j < i ==> !is_good(#[trigger] outcomes[j]),
    ensures
        document::first_with_content(outcomes) == Some(outcomes[i]->Ok_0),
    decreases i,
{
    if i > 0 {
        let rest = outcomes.drop_first();
        assert(!is_good(outcomes[0]));
        assert(rest[i - 1] == outcomes[i]);
        assert forall|j: int| 0 <= j < i - 1 implies !is_good(#[trigger] rest[j]) by {
            assert(rest[j] == outcomes[j + 1]);
        }
        lemma_first_good(rest, i - 1);
    }
}

proof fn lemma_none_good(outcomes: Seq<Result<DocModel, Seq<char>>>)
    requires
        forall|j: int| 0 <= j < outcomes.len() ==> !is_good(#[trigger] outcomes[j]),
    ensures
        document::first_with_content(outcomes) is None,
    decreases outcomes.len(),
{
    if outcomes.len() > 0 {
        let rest = outcomes.drop_first();
        assert(!is_good(outcomes[0]));
        assert forall|j: int| 0 <= j < rest.len() implies !is_good(#[trigger] rest[j]) by {
            assert(rest[j] == outcomes[j + 1]);
        }
        lemma_none_good(rest);
    }
}

proof fn lemma_first_loaded(outcomes: Seq<Result<DocModel, Seq<char>>>, i: int)
    requires
        0 <= i < outcomes.len(),
        outcomes[i] is Ok,
        forall|j: int| 0 <= j < i ==> #[trigger] outcomes[j] is Err,
    ensures
        document::first_loaded(outcomes) == Some(outcomes[i]->Ok_0),
    decreases i,
{
    if i > 0 {
        let rest = outcomes.drop_first();
        assert(outcomes[0] is Err);
        assert(rest[i - 1] == outcomes[i]);
        assert forall|j: int| 0 <= j < i - 1 implies #[trigger] rest[j] is Err by {
            assert(rest[j] == outcomes[j + 1]);
        }
        lemma_first_loaded(rest, i - 1);
    }
}

/// A file that loads is said to need no repair, whatever padding it would give. Of one
/// that does not load it is said that it was repaired if its padded form loads, why that
/// does not load if it does not, and why it was not padded if it was not.
pub proof fn law_the_repair_is_told(
    bytes: Seq<u8>,
    padded: Seq<u8>,
    why: Seq<char>,
    first: Seq<char>,
    second: Seq<char>,
    doc: DocModel,
)
    ensures
        pdf::outcome(bytes) == Ok::<DocModel, Seq<char>>(doc) ==> document::status_words(bytes)
            == "loads unaided; no repair needed"@,
        pdf::outcome(bytes) == Err::<DocModel, Seq<char>>(first) ==> {
            &&& repair::padded_xref(bytes) == Ok::<Seq<u8>, Seq<char>>(padded) && pdf::outcome(
                padded,
            ) == Ok::<DocModel, Seq<char>>(doc) ==> document::status_words(bytes)
                == "repaired: cross-reference entries padded to 20 bytes"@
            &&& repair::padded_xref(bytes) == Ok::<Seq<u8>, Seq<char>>(padded) && pdf::outcome(
                padded,
            ) == Err::<DocModel, Seq<char>>(second) ==> document::status_words(bytes)
                == "padded the entries, but it still will not load: "@ + second
            &&& repair::padded_xref(bytes) == Err::<Seq<u8>, Seq<char>>(why)
                ==> document::status_words(bytes) == "repair declined \u{2014} "@ + why
        },
{
}

/// The words on a page: its number from 1 on, the length of its content, the number of
/// its operations and of its fonts if there are any, and the number of its glyphs.
pub open spec fn words_on(
    n: nat,
    content: nat,
    ops: Seq<char>,
    resources: Seq<char>,
    fonts: Seq<char>,
    glyphs: nat,
) -> Seq<char> {
    "\n   page "@ + pages::decimal_text(n) + ": content "@ + pages::decimal_text(content)
        + " B, ops "@ + ops + ", resources "@ + resources + ", fonts "@ + fonts + ", glyphs "@
        + pages::decimal_text(glyphs)
}

/// The diagnosis of a document is one line for each of its first four pages, in order.
pub proof fn law_the_diagnosis_goes_page_by_page(doc: DocModel, faces: Seq<FaceModel>, n: int)
    requires
        0 <= n < doc.pages.len(),
    ensures
        pages::pages_words(doc, faces, 0) == Seq::<char>::empty(),
        pages::pages_words(doc, faces, n + 1) == pages::pages_words(doc, faces, n) + ({
            let (num, gen) = doc.pages[n];
            let content = page_parts::content_of(doc, num, gen);
            words_on(
                (n + 1) as nat,
                content.len(),
                match pdf::operations_in(content) {
                    Some(ops) => pages::decimal_text(ops.len()),
                    None => "UNDECODABLE"@,
                },
                if content::resources_of(doc, num, gen) is Some {
                    "ok"@
                } else {
                    "MISSING"@
                },
                match content::resources_of(doc, num, gen) {
                    Some(res) => pages::decimal_text(
                        content::scope_fonts(doc, faces, res).dom().len(),
                    ),
                    None => "-"@,
                },
                content::page_shown(doc, faces, num, gen).len(),
            )
        }),
        doc.pages.len() <= 4 ==> pages::diagnosis(Some(doc), faces) == pages::pages_words(
            doc,
            faces,
            doc.pages.len() as int,
        ),
        doc.pages.len() > 4 ==> pages::diagnosis(Some(doc), faces) == pages::pages_words(
            doc,
            faces,
            4,
        ),
        pages::diagnosis(None, faces) == "document does not load"@,
{
}

/// Numbers in words are their decimal digits.
pub proof fn law_numbers_are_told_in_decimal(n: nat)
    ensures
        pages::decimal_text(n).len() == bytes::decimal(n).len(),
        bytes::decimal_value(bytes::decimal(n)) == n,
        forall|i: int|
            0 <= i < bytes::decimal(n).len() ==> '0' <= #[trigger] pages::decimal_text(n)[i] <= '9'
                && pages::decimal_text(n)[i] as int == bytes::decimal(n)[i] as int,
{
    bytes::law_decimal_reads_back(n);
    assert forall|i: int| 0 <= i < bytes::decimal(n).len() implies '0'
        <= #[trigger] pages::decimal_text(n)[i] <= '9' && pages::decimal_text(n)[i] as int
        == bytes::decimal(n)[i] as int by {
        assert(bytes::is_digit(bytes::decimal(n)[i]));
    }
}

/// The glyphs of a page.
pub open spec fn glyphs_of(
    doc: DocModel,
    faces: Seq<FaceModel>,
    id: (u32, u16),
    g: PageGlyphs,
) -> bool {
    g.placed() && g.view() == content::page_shown(doc, faces, id.0, id.1)
}

/// The cells of a page are what the groupings give for its glyphs and its display box:
/// prose and words are the two parts of the first, code is the second.
pub proof fn law_cells_are_what_the_groupings_give<
    L: Fn(&PageGlyphs, &PageBox) -> (Vec<TextCell>, Vec<TextCell>),
    C: Fn(&PageGlyphs, &PageBox) -> Vec<TextCell>,
>(
    doc: DocModel,
    faces: Seq<FaceModel>,
    i: int,
    lines: L,
    code: C,
    g: PageGlyphs,
    prose: Vec<TextCell>,
    words: Vec<TextCell>,
    listing: Vec<TextCell>,
    r: PageParserCells,
)
    requires
        pages::is_function(lines),
        pages::is_function(code),
        0 <= i < doc.pages.len(),
        glyphs_of(doc, faces, doc.pages[i], g),
        call_ensures(
            lines,
            (&g, &page_box::display_box(doc, doc.pages[i].0, doc.pages[i].1)),
            (prose, words),
        ),
        call_ensures(
            code,
            (&g, &page_box::display_box(doc, doc.pages[i].0, doc.pages[i].1)),
            listing,
        ),
        pages::cells_at(doc, faces, i, lines, code, r),
    ensures
        r.prose == prose,
        r.words == words,
        r.code == listing,
{
}

/// A page of the text layer has the display box at a scale of 1, the code as it is
/// grouped, and prose and words as they are grouped, without what is stacked.
pub proof fn law_text_pages_are_what_the_groupings_give<
    L: Fn(&PageGlyphs, &PageBox) -> (Vec<TextCell>, Vec<TextCell>),
    C: Fn(&PageGlyphs, &PageBox) -> Vec<TextCell>,
    F: Fn(&TextCell, &TextCell) -> bool,
>(
    doc: DocModel,
    faces: Seq<FaceModel>,
    i: int,
    lines: L,
    code: C,
    inside: F,
    g: PageGlyphs,
    prose: Vec<TextCell>,
    words: Vec<TextCell>,
    listing: Vec<TextCell>,
    r: Seq<PdfPage>,
)
    requires
        pages::is_function(lines),
        pages::is_function(code),
        0 <= i < doc.pages.len(),
        glyphs_of(doc, faces, doc.pages[i], g),
        call_ensures(
            lines,
            (&g, &page_box::display_box(doc, doc.pages[i].0, doc.pages[i].1)),
            (prose, words),
        ),
        call_ensures(
            code,
            (&g, &page_box::display_box(doc, doc.pages[i].0, doc.pages[i].1)),
            listing,
        ),
        pages::text_pages(Some(doc), faces, lines, code, inside, r),
    ensures
        r.len() == doc.pages.len(),
        r[i].area == page_box::display_box(doc, doc.pages[i].0, doc.pages[i].1),
        number::units(r[i].scale) == power2::pow2(149),
        r[i].links@.len() == 0,
        r[i].rotation == 0,
        r[i].code_cells == listing,
        pages::unstacked(inside, prose@, r[i].cells@),
        pages::unstacked(inside, words@, r[i].word_cells@),
        pages::text_pages(None, faces, lines, code, inside, Seq::empty()),
{
    assert(pages::text_page(doc, faces, doc.pages[i], lines, code, inside, r[i]));
    lemma_unit_scale();
}

/// The bits of the scale are worth 1.
proof fn lemma_unit_scale()
    ensures
        number::units(0x3F80_0000) == power2::pow2(149),
{
    power2::lemma2_to64();
    assert(number::significand(0x3F80_0000) == 0x80_0000);
    assert(number::scale(0x3F80_0000) == 126);
    power2::lemma_pow2_adds(23, 126);
    assert(power2::pow2(23) == 0x80_0000);
    assert(0x80_0000 * power2::pow2(126) == power2::pow2(149));
}

/// The text layer gives each page its display box and what the grouping gives for its
/// glyphs, in order.
pub proof fn law_layers_go_page_by_page<G: Fn(&PageGlyphs, &PageBox) -> Vec<TextCell>>(
    doc: DocModel,
    faces: Seq<FaceModel>,
    i: int,
    group: G,
    g: PageGlyphs,
    cells: Vec<TextCell>,
    r: Seq<(PageBox, Vec<TextCell>)>,
)
    requires
        pages::is_function(group),
        0 <= i < doc.pages.len(),
        glyphs_of(doc, faces, doc.pages[i], g),
        call_ensures(
            group,
            (&g, &page_box::display_box(doc, doc.pages[i].0, doc.pages[i].1)),
            cells,
        ),
        pages::layer_in(Some(doc), faces, group, r),
    ensures
        r.len() == doc.pages.len(),
        r[i].0 == page_box::display_box(doc, doc.pages[i].0, doc.pages[i].1),
        r[i].1 == cells,
{
}

/// Behind the last page there is nothing.
pub proof fn law_pages_that_are_not_there_have_no_cells<
    L: Fn(&PageGlyphs, &PageBox) -> (Vec<TextCell>, Vec<TextCell>),
    C: Fn(&PageGlyphs, &PageBox) -> Vec<TextCell>,
>(
    doc: DocModel,
    faces: Seq<FaceModel>,
    i: int,
    lines: L,
    code: C,
    r: PageParserCells,
)
    requires
        i >= doc.pages.len(),
        pages::cells_at(doc, faces, i, lines, code, r),
    ensures
        r.prose@.len() == 0,
        r.words@.len() == 0,
        r.code@.len() == 0,
{
}

} // verus!
