use textparse::cells::TextCell;
use textparse::content::{page_glyphs, page_glyphs_cached, page_res, DocCaches};
use textparse::document::{has_page_content, load_document, xref_repair_status};
use textparse::font::{CoreFace, Font};
use textparse::loading::REFUSED;
use textparse::machine::PageGlyphs;
use textparse::matrix::{MatNode, Scalar, Step};
use textparse::number::Number;
use textparse::object::Obj;
use textparse::page_box::{page_box, PageBox};
use textparse::pages::{
    content_diagnosis, debug_glyphs, pdf_all_cells, pdf_text_pages, pdf_textlines, pdf_words,
    PageTextParser,
};
use textparse::page_parts::{page_content, page_resources};
use textparse::pdf::Doc;

// ---- building files ------------------------------------------------------

/// A file of numbered objects with a classic cross-reference table.
fn pdf_of(objs: &[Vec<u8>], eol: &[u8]) -> Vec<u8> {
    let mut out = b"%PDF-1.4\n".to_vec();
    let mut offsets = Vec::new();
    for (i, body) in objs.iter().enumerate() {
        offsets.push(out.len());
        out.extend_from_slice(format!("{} 0 obj", i + 1).as_bytes());
        out.extend_from_slice(body);
        out.extend_from_slice(b"endobj\n");
    }
    let xref_at = out.len();
    out.extend_from_slice(format!("xref\n0 {}\n", objs.len() + 1).as_bytes());
    out.extend_from_slice(b"0000000000 65535 f");
    out.extend_from_slice(eol);
    for off in &offsets {
        out.extend_from_slice(format!("{off:010} 00000 n").as_bytes());
        out.extend_from_slice(eol);
    }
    out.extend_from_slice(format!("trailer<</Size {}/Root 1 0 R>>\n", objs.len() + 1).as_bytes());
    out.extend_from_slice(format!("startxref\n{xref_at}\n%%EOF\n").as_bytes());
    out
}

fn stream(dict: &str, data: &[u8]) -> Vec<u8> {
    let mut s = format!("<<{dict}/Length {}>>stream\n", data.len()).into_bytes();
    s.extend_from_slice(data);
    s.extend_from_slice(b"endstream");
    s
}

/// One page with the given content, fonts and further objects from number 6 on.
fn one_page(page: &str, content: &[u8], font: &[u8], more: &[Vec<u8>]) -> Vec<u8> {
    let mut objs: Vec<Vec<u8>> = vec![
        b"<</Type/Catalog/Pages 2 0 R>>".to_vec(),
        b"<</Type/Pages/Kids[3 0 R]/Count 1>>".to_vec(),
        format!("<</Type/Page/Parent 2 0 R/Contents 4 0 R{page}>>").into_bytes(),
        stream("", content),
        font.to_vec(),
    ];
    objs.extend_from_slice(more);
    pdf_of(&objs, b" \n")
}

const PAGE: &str = "/MediaBox[0 0 595 842]/Resources<</Font<</F1 5 0 R>>>>";

const HUNDRED: &[u8] = b"<</Type/Font/Subtype/Type1/BaseFont/Plain/FirstChar 32/Widths[\
    100 100 100 100 100 100 100 100 100 100 100 100 100 100 100 100 100 100 100 100 100 100 100\
    100 100 100 100 100 100 100 100 100 100 100 100 100 100 100 100 100 100 100 100 100 100 100\
    100 100 100 100 100 100 100 100 100 100 100 100 100 100 100 100 100 100 100 100 100 100 100\
    100 100 100 100 100 100 100 100 100 100 100 100 100 100 100 100 100 100 100 100 100 100 100]\
    /FontDescriptor<</Ascent 800/Descent -200>>>>";

fn shown(content: &str) -> Vec<u8> {
    one_page(PAGE, content.as_bytes(), HUNDRED, &[])
}

// ---- working out what was shown -------------------------------------------

fn number(n: Number) -> f64 {
    match n {
        Number::Int(i) => i as f64,
        Number::Real(bits) => f32::from_bits(bits) as f64,
    }
}

fn scalar(s: Scalar) -> f64 {
    match s {
        Scalar::Plain(n) => number(n),
        Scalar::Negated(n) => -number(n),
        Scalar::Percent(n) => number(n) / 100.0,
    }
}

type Mat = [f64; 6];

fn mul(p: Mat, m: Mat) -> Mat {
    [
        p[0] * m[0] + p[1] * m[2],
        p[0] * m[1] + p[1] * m[3],
        p[2] * m[0] + p[3] * m[2],
        p[2] * m[1] + p[3] * m[3],
        p[4] * m[0] + p[5] * m[2] + m[4],
        p[4] * m[1] + p[5] * m[3] + m[5],
    ]
}

fn step_matrix(step: Step) -> Mat {
    let shift = |x: f64, y: f64| [1.0, 0.0, 0.0, 1.0, x, y];
    match step {
        Step::Matrix(m) => [m.a, m.b, m.c, m.d, m.e, m.f].map(number),
        Step::Origin(l, b) => shift(-(f32::from_bits(l) as f64), -(f32::from_bits(b) as f64)),
        Step::Shift(x, y) => shift(number(x), number(y)),
        Step::Down(leading) => shift(0.0, -scalar(leading)),
        Step::Kern { adjust, size, scale } => {
            shift(-number(adjust) / 1000.0 * number(size) * scalar(scale), 0.0)
        }
        Step::Advance { width, size, spacing, word, scale } => shift(
            (number(width) / 1000.0 * number(size) + number(spacing) + word.map_or(0.0, number))
                * scalar(scale),
            0.0,
        ),
    }
}

/// A placed glyph: character, left, bottom, right, top.
type Placed = (char, f64, f64, f64, f64);

fn place(page: &PageGlyphs) -> Vec<Placed> {
    let mut mats: Vec<Mat> = Vec::new();
    for node in &page.nodes {
        let m = match *node {
            MatNode::Identity => [1.0, 0.0, 0.0, 1.0, 0.0, 0.0],
            MatNode::Only(step) => step_matrix(step),
            MatNode::Before(step, p) => mul(step_matrix(step), mats[p]),
        };
        mats.push(m);
    }
    page.glyphs
        .iter()
        .map(|g| {
            let size = number(g.size);
            let scale = [size * scalar(g.scale), 0.0, 0.0, size, 0.0, number(g.rise)];
            let t = mul(mul(scale, mats[g.tm]), mats[g.ctm]);
            let at = |x: f64, y: f64| (t[0] * x + t[2] * y + t[4], t[1] * x + t[3] * y + t[5]);
            let (x0, y0) = at(0.0, number(g.descent) / 1000.0);
            let (x1, _) = at(number(g.width) / 1000.0, number(g.descent) / 1000.0);
            let (_, y2) = at(0.0, number(g.ascent) / 1000.0);
            (g.ch, x0.min(x1), y0.min(y2), x0.max(x1), y0.max(y2))
        })
        .collect()
}

fn near(a: f64, b: f64) -> bool {
    (a - b).abs() < 1e-3
}

/// One cell per page that holds all glyphs.
fn one_cell(page: &PageGlyphs, _area: &PageBox) -> Vec<TextCell> {
    let placed = place(page);
    if placed.is_empty() {
        return Vec::new();
    }
    let edge = |f: fn(f64, f64) -> f64, k: fn(&Placed) -> f64| {
        (placed.iter().map(k).reduce(f).unwrap() as f32).to_bits()
    };
    vec![TextCell {
        text: placed.iter().map(|p| p.0).collect(),
        l: edge(f64::min, |p| p.1),
        t: edge(f64::min, |p| p.2),
        r: edge(f64::max, |p| p.3),
        b: edge(f64::max, |p| p.4),
    }]
}

/// One cell per glyph.
fn glyph_cells(page: &PageGlyphs, _area: &PageBox) -> Vec<TextCell> {
    place(page)
        .into_iter()
        .map(|(ch, l, b, r, t)| TextCell {
            text: ch.to_string(),
            l: (l as f32).to_bits(),
            t: (b as f32).to_bits(),
            r: (r as f32).to_bits(),
            b: (t as f32).to_bits(),
        })
        .collect()
}

fn line_and_word(page: &PageGlyphs, area: &PageBox) -> (Vec<TextCell>, Vec<TextCell>) {
    (one_cell(page, area), glyph_cells(page, area))
}

fn cells(pdf: &[u8], faces: &Vec<CoreFace>) -> Vec<TextCell> {
    pdf_textlines(pdf, faces, &one_cell).into_iter().flat_map(|(_, c)| c).collect()
}

fn text(pdf: &[u8]) -> String {
    cells(pdf, &Vec::new()).into_iter().map(|c| c.text).collect::<Vec<_>>().join("")
}

fn glyphs(pdf: &[u8]) -> Vec<Placed> {
    place(&debug_glyphs(pdf, &Vec::new(), 0))
}

// ---- MacRoman high codes ---------------------------------------------------

fn pdf_with_macroman_string(raw_string_bytes: &[u8]) -> Vec<u8> {
    let font = b"<</Type/Font/Subtype/Type1/BaseFont/Helvetica\
        /Encoding<</Type/Encoding/BaseEncoding/MacRomanEncoding\
        /Differences[27/thorn/yacute/Thorn/Yacute/Eth 127/minus\
        173/Lslash 176/Scaron 178/twosuperior/threesuperior\
        182/Zcaron/lslash/scaron/onesuperior/zcaron 189/onehalf\
        195/brokenbar 197/onequarter/threequarters 215/multiply\
        240/eth]>>>>";
    let mut content = b"BT /F1 12 Tf 72 700 Td (".to_vec();
    content.extend_from_slice(raw_string_bytes);
    content.extend_from_slice(b") Tj ET\n");
    one_page(PAGE, &content, font, &[])
}

/// The micro sign must decode, not vanish.
#[test]
fn micro_sign_0xb5_is_not_dropped() {
    assert_eq!(text(&pdf_with_macroman_string(&[0xB5])), "\u{00B5}");
}

/// The plus-minus sign must decode, not vanish.
#[test]
fn plusminus_0xb1_is_not_dropped() {
    assert_eq!(text(&pdf_with_macroman_string(&[0xB1])), "\u{00B1}");
}

/// The ring above must decode, not vanish.
#[test]
fn ring_above_0xfb_is_not_dropped() {
    assert_eq!(text(&pdf_with_macroman_string(&[0xFB])), "\u{02DA}");
}

/// A whole unit survives, with both of its MacRoman glyphs.
#[test]
fn microvolts_per_degree_c_survives_whole() {
    let raw: Vec<u8> = vec![0xB5, b'V', b'/', 0xFB, b'C'];
    assert_eq!(text(&pdf_with_macroman_string(&raw)), "\u{00B5}V/\u{02DA}C");
}

// ---- display boxes ---------------------------------------------------------

fn boxed_pdf(boxes: &str, x: f32, y: f32) -> Vec<u8> {
    let content = format!("BT /F1 12 Tf {x} {y} Td (First printing) Tj ET\n");
    pdf_of(
        &[
            b"<</Type/Catalog/Pages 2 0 R>>".to_vec(),
            format!("<</Type/Pages/Kids[3 0 R]/Count 1{boxes}>>").into_bytes(),
            b"<</Type/Page/Parent 2 0 R/Contents 4 0 R/Resources<</Font<</F1 5 0 R>>>>>>".to_vec(),
            stream("", content.as_bytes()),
            b"<</Type/Font/Subtype/Type1/BaseFont/Helvetica>>".to_vec(),
        ],
        b" \n",
    )
}

/// Left, bottom, width and height.
fn frame(e: PageBox) -> (f32, f32, f32, f32) {
    let (l, b) = (f32::from_bits(e.l), f32::from_bits(e.b));
    (l, b, f32::from_bits(e.r) - l, f32::from_bits(e.t) - b)
}

fn only_page(bytes: &[u8]) -> ((f32, f32, f32, f32), Vec<Placed>) {
    let doc = load_document(bytes).expect("loads");
    let (num, gen) = doc.pages()[0];
    let glyphs = page_glyphs(&doc, &Vec::new(), num, gen);
    (frame(page_box(&doc, num, gen)), place(&glyphs))
}

/// Media box and crop box away from the origin, inherited: coordinates count from
/// the crop box's corner.
#[test]
fn glyphs_count_from_the_cropbox_corner_like_pdfium() {
    let (pb, shifted) = only_page(&boxed_pdf(
        "/MediaBox[-56.505 -58.25 576.303 723.31]/CropBox[1.095 -0.65 518.703 665.71]",
        37.0 + 1.095,
        58.0 - 0.65,
    ));
    assert!((pb.0 - 1.095).abs() < 1e-3 && (pb.1 + 0.65).abs() < 1e-3);
    assert!((pb.2 - 517.608).abs() < 1e-3 && (pb.3 - 666.36).abs() < 1e-3, "{pb:?}");
    let (pb0, plain) = only_page(&boxed_pdf("/MediaBox[0 0 517.608 666.36]", 37.0, 58.0));
    assert!((pb0.2 - pb.2).abs() < 1e-3 && (pb0.3 - pb.3).abs() < 1e-3);
    assert_eq!(shifted.len(), plain.len());
    assert!(!plain.is_empty());
    for (a, b) in shifted.iter().zip(&plain) {
        assert!(near(a.1, b.1) && near(a.2, b.2), "{a:?} vs {b:?}");
    }
    assert!(near(plain[0].1, 37.0), "{}", plain[0].1);
}

/// No media box is Letter; a crop box is clipped to the media box, and one that
/// misses it entirely is ignored; corners normalize.
#[test]
fn page_box_follows_pdfium_fallbacks() {
    let (pb, _) = only_page(&boxed_pdf("", 10.0, 10.0));
    assert_eq!(pb, (0.0, 0.0, 612.0, 792.0));
    let (pb, _) =
        only_page(&boxed_pdf("/MediaBox[0 0 500 700]/CropBox[-100 100 600 900]", 10.0, 10.0));
    assert_eq!(pb, (0.0, 100.0, 500.0, 600.0));
    let (pb, _) =
        only_page(&boxed_pdf("/MediaBox[0 0 500 700]/CropBox[800 800 900 900]", 10.0, 10.0));
    assert_eq!(pb, (0.0, 0.0, 500.0, 700.0));
    let (pb, _) = only_page(&boxed_pdf("/MediaBox[500 700 0 0]", 10.0, 10.0));
    assert_eq!(pb, (0.0, 0.0, 500.0, 700.0));
}

/// Boxes that give no usable rectangle.
#[test]
fn odd_boxes_fall_back() {
    let boxed = |b: &str| only_page(&boxed_pdf(b, 10.0, 10.0)).0;
    let letter = (0.0, 0.0, 612.0, 792.0);
    assert_eq!(boxed("/MediaBox[0 0 500]"), letter);
    assert_eq!(boxed("/MediaBox[0 0 500 0]"), letter);
    assert_eq!(boxed("/MediaBox[0 0 500 700 900]"), letter);
    // What is no number is left out before the count.
    assert_eq!(boxed("/MediaBox[0 /x 0 500 700]"), (0.0, 0.0, 500.0, 700.0));
    assert_eq!(boxed("/MediaBox 7/CropBox[10 10 20 30]"), (10.0, 10.0, 10.0, 20.0));
}

// ---- repair ----------------------------------------------------------------

fn pdf_with_xref(two_byte_eol: bool) -> Vec<u8> {
    pdf_of(
        &[
            b"<</Type/Catalog/Pages 2 0 R>>".to_vec(),
            b"<</Type/Pages/Kids[3 0 R]/Count 1>>".to_vec(),
            format!("<</Type/Page/Parent 2 0 R/Contents 4 0 R{PAGE}>>").into_bytes(),
            stream("", b"BT /F1 12 Tf 72 700 Td (Invoice 922769430725) Tj ET\n"),
            b"<</Type/Font/Subtype/Type1/BaseFont/Helvetica>>".to_vec(),
        ],
        if two_byte_eol { b" \n" } else { b"\n" },
    )
}

/// Short cross-reference entries make the reader reject the file; the repair must
/// recover the same parse that the well-formed file gives.
#[test]
fn short_xref_entries_still_parse() {
    let good = pdf_with_xref(true);
    let broken = pdf_with_xref(false);
    assert!(broken.len() < good.len(), "the broken file is the shorter one");
    assert!(lopdf::Document::load_mem(&good).is_ok(), "the control file must load unaided");
    assert!(
        lopdf::Document::load_mem(&broken).is_err(),
        "the reader rejects 19-byte entries; if this ever passes, drop the repair"
    );
    let texts = |b: &[u8]| -> Vec<String> {
        cells(b, &Vec::new()).into_iter().map(|c| c.text).collect()
    };
    let from_good = texts(&good);
    assert!(
        from_good.iter().any(|t| t.contains("922769430725")),
        "control text: {from_good:?}"
    );
    assert_eq!(texts(&broken), from_good, "repair must match the good parse");
}

/// An overstated length makes the reader drop the stream; trusting `endstream`
/// gives it back without moving a byte.
#[test]
fn overstated_stream_length_still_yields_content() {
    let good = pdf_with_xref(true);
    let broken = {
        let at = good.windows(8).position(|w| w == b"/Length ").expect("a /Length") + 8;
        let digits = good[at..].iter().take_while(|c| c.is_ascii_digit()).count();
        let n: usize = std::str::from_utf8(&good[at..at + digits]).unwrap().parse().unwrap();
        let inflated = (n + 1).to_string();
        assert_eq!(inflated.len(), digits, "keep the digit count");
        let mut b = good.clone();
        b[at..at + digits].copy_from_slice(inflated.as_bytes());
        b
    };
    assert_eq!(broken.len(), good.len(), "the defect must not move bytes");
    let raw = lopdf::Document::load_mem(&broken).expect("still loads");
    assert!(
        raw.get_pages().into_values().all(|p| raw.get_page_content(p).is_empty()),
        "the reader should drop the stream; if it stops, drop this repair"
    );
    let texts = |b: &[u8]| -> Vec<String> {
        cells(b, &Vec::new()).into_iter().map(|c| c.text).collect()
    };
    let expected = texts(&good);
    assert!(!expected.is_empty(), "control must produce text");
    assert_eq!(texts(&broken), expected);
}

/// Both defects together, the second visible only once the first is repaired.
#[test]
fn both_defects_together_still_parse() {
    let good = pdf_with_xref(true);
    let broken = {
        let b = pdf_with_xref(false);
        let s = String::from_utf8(b).unwrap();
        assert!(s.contains("/Length 52"));
        s.replace("/Length 52", "/Length 53").into_bytes()
    };
    assert!(lopdf::Document::load_mem(&broken).is_err());
    assert_eq!(text(&broken), text(&good));
}

/// The lines of a repaired file are those of its good form, page by page.
#[test]
fn repaired_files_have_the_lines_of_their_good_form() {
    let lines = |b: &[u8]| {
        pdf_textlines(b, &Vec::new(), &glyph_cells)
            .into_iter()
            .map(|(area, v)| {
                (frame(area), v.into_iter().map(|c| (c.text, c.l, c.t, c.r, c.b)).collect::<Vec<_>>())
            })
            .collect::<Vec<_>>()
    };
    let good = lines(&pdf_with_xref(true));
    assert_eq!(good.len(), 1);
    assert_eq!(good[0].1.len(), 20);
    assert_eq!(lines(&pdf_with_xref(false)), good);
}

/// A file that loads without content is kept for want of a better one; one that
/// does not load at all is not.
#[test]
fn a_file_without_content_is_a_fallback() {
    let empty = pdf_of(
        &[
            b"<</Type/Catalog/Pages 2 0 R>>".to_vec(),
            b"<</Type/Pages/Kids[3 0 R]/Count 1>>".to_vec(),
            b"<</Type/Page/Parent 2 0 R>>".to_vec(),
        ],
        b" \n",
    );
    let doc = load_document(&empty).expect("falls back");
    assert!(!has_page_content(&doc));
    assert_eq!(doc.pages().len(), 1);
    assert!(load_document(b"no document at all").is_none());
    assert!(PageTextParser::open(b"no document at all", Vec::new()).is_none());
    assert!(pdf_all_cells(b"", Vec::new(), &line_and_word, &one_cell).is_empty());
}

/// Content on any page is content, however late it comes.
#[test]
fn content_of_a_late_page_counts() {
    let five = |last: &str| {
        let mut objs: Vec<Vec<u8>> = vec![
            b"<</Type/Catalog/Pages 2 0 R>>".to_vec(),
            b"<</Type/Pages/Kids[3 0 R 4 0 R 5 0 R 6 0 R 7 0 R]/Count 5>>".to_vec(),
        ];
        for _ in 0..4 {
            objs.push(b"<</Type/Page/Parent 2 0 R>>".to_vec());
        }
        objs.push(format!("<</Type/Page/Parent 2 0 R{last}>>").into_bytes());
        objs.push(stream("", b"BT ET"));
        pdf_of(&objs, b" \n")
    };
    assert!(has_page_content(&load_document(&five("/Contents 8 0 R")).unwrap()));
    assert!(!has_page_content(&load_document(&five("")).unwrap()));
}

/// A file that is not handed to the reader is refused in so many words.
#[test]
fn refused_files_do_not_open() {
    let rows = |n: usize| -> Vec<Vec<u8>> {
        (6..6 + n).map(|i| format!("<</Length {} 0 R>>stream\nendstream", i + 1).into_bytes()).collect()
    };
    let chained = |n: usize| one_page(PAGE, b"BT ET", HUNDRED, &rows(n));
    assert_eq!(page_content(&Doc::load(&chained(31)).unwrap(), 3, 0), b"BT ET\n".to_vec());
    match Doc::load(&chained(32)) {
        Ok(_) => panic!("each stream has the next as its length"),
        Err(e) => assert_eq!(e, REFUSED),
    }
}

/// Streams that are each other's length have none, and the rest of the file is read.
#[test]
fn streams_are_not_each_others_length() {
    let pdf = one_page(
        PAGE,
        b"BT ET",
        HUNDRED,
        &[
            b"<</Length 7 0 R>>stream\nendstream".to_vec(),
            b"<</Length 6 0 R>>stream\nendstream".to_vec(),
        ],
    );
    let doc = Doc::load(&pdf).unwrap();
    assert_eq!(page_content(&doc, 3, 0), b"BT ET\n".to_vec());
    assert!(matches!(doc.object(6, 0), Some(Obj::Stream(_, data)) if data.is_empty()));
}

/// A stream that is its own length has none, and the rest of the file is read.
#[test]
fn a_stream_is_not_its_own_length() {
    let pdf = String::from_utf8(shown("BT ET")).unwrap();
    let at = pdf.find("/Length 5").unwrap();
    let pdf = format!("{}/Length 4 0 R{}", &pdf[..at], &pdf[at + 9..]);
    assert_eq!(Doc::load(pdf.as_bytes()).is_ok(), lopdf::Document::load_mem(pdf.as_bytes()).is_ok());
}

/// What is out of range for cross-references is not so for anything else.
#[test]
fn large_numbers_are_no_tables() {
    let content = b"BT /F1 10 Tf\n9223372036854775807 1\nTd 0 0 Td (A) Tj ET";
    let pdf = one_page(
        PAGE,
        content,
        b"<</Type/Font/Subtype/Type0/BaseFont/X/DescendantFonts[6 0 R]/ToUnicode 8 0 R>>",
        &[
            b"<</Type/Font/Subtype/CIDFontType2/BaseFont/X/W [0 0 0 1 95 500]/DW 700>>".to_vec(),
            stream(
                "/Subtype/Image/Width 1/Height 1/DecodeParms<</K -1/Columns 9223372036854775807>>",
                b"xy",
            ),
            stream("", b"1 beginbfchar <0041> <0041> endbfchar"),
        ],
    );
    let doc = Doc::load(&pdf).unwrap();
    assert_eq!(page_content(&doc, 3, 0).len(), content.len() + 1);
    let f = font_of(&pdf);
    assert_eq!([0u32, 1, 95, 96].map(|c| decoded(&f, c).1), [0.0, 500.0, 500.0, 700.0]);
}

/// A file with a cross-reference stream: a page whose content has object 5 as its
/// length, and what is said of where objects 5 and 6 stand.
fn pdf_with_table(five: [u8; 4], six: [u8; 4]) -> Vec<u8> {
    let mut out = b"%PDF-1.5\n".to_vec();
    let objs: [&[u8]; 6] = [
        b"<</Type/Catalog/Pages 2 0 R>>",
        b"<</Type/Pages/Kids[3 0 R]/Count 1>>",
        b"<</Type/Page/Parent 2 0 R/Contents 4 0 R>>",
        b"<</Length 5 0 R>>stream\nBT ETendstream",
        b" 5 ",
        b"<</Type/ObjStm/N 1/First 4/Length 5 0 R>>stream\n5 0 5endstream",
    ];
    let mut table = vec![0u8, 0, 0, 255];
    for (i, body) in objs.iter().enumerate() {
        let at = out.len() as u16;
        table.extend_from_slice(&[1, (at >> 8) as u8, at as u8, 0]);
        out.extend_from_slice(format!("{} 0 obj", i + 1).as_bytes());
        out.extend_from_slice(body);
        out.extend_from_slice(b" endobj\n");
    }
    if five[0] != 1 {
        table[20..24].copy_from_slice(&five);
    }
    if six[0] != 1 {
        table[24..28].copy_from_slice(&six);
    }
    let at = out.len();
    table.extend_from_slice(&[1, (at >> 8) as u8, at as u8, 0]);
    out.extend_from_slice(b"7 0 obj<</Type/XRef/Size 8/W[1 2 1]/Root 1 0 R/Length 32>>stream\n");
    out.extend_from_slice(&table);
    out.extend_from_slice(format!("endstream endobj\nstartxref\n{at}\n%%EOF\n").as_bytes());
    out
}

/// Where objects stand is looked up before they are: an object stream that cannot
/// be read without itself is told.
#[test]
fn object_streams_may_not_need_themselves() {
    let normal = [1, 0, 0, 0];
    let free = [0, 0, 0, 0];
    let doc = Doc::load(&pdf_with_table(normal, free)).unwrap();
    assert_eq!(page_content(&doc, 3, 0), b"BT ET\n".to_vec());
    let refused = |five: [u8; 4], six: [u8; 4]| match Doc::load(&pdf_with_table(five, six)) {
        Ok(_) => false,
        Err(e) => e == REFUSED,
    };
    // Object 5 in object stream 5, or in 6, which has object 5 as its length.
    assert!(refused([2, 0, 5, 0], free));
    assert!(refused([2, 0, 6, 0], normal));
    assert!(refused([2, 0, 6, 0], [2, 0, 5, 0]));
    // Object 5 in a stream that is not there.
    assert!(!refused([2, 0, 9, 0], free));
}

/// Cross-reference streams with numbers out of range are refused.
#[test]
fn tables_out_of_range_are_refused() {
    let with = |entries: &str| {
        let pdf = pdf_with_table([1, 0, 0, 0], [0, 0, 0, 0]);
        let at = pdf.windows(9).position(|w| w == b"/W[1 2 1]").unwrap();
        [&pdf[..at], entries.as_bytes(), &pdf[at + 9..]].concat()
    };
    assert!(Doc::load(&with("/W[1 2 1]")).is_ok());
    assert!(Doc::load(&with("/W[1 2 1]/Index[0 8 % 9223372036854775807]\n]")).is_ok());
    for entries in [
        "/W[1 2 1]/Index[0 1 %]\n9223372036854775807 5]",
        "/W[0 %]\n 0 0]/Size 9223372036854775807",
        "/W[1 2 1]/Filter/FlateDecode/DecodeParms<</Predictor 12/Columns +9223372036854775807>>",
    ] {
        match Doc::load(&with(entries)) {
            Ok(_) => panic!("{entries}"),
            Err(e) => assert_eq!(e, REFUSED, "{entries}"),
        }
    }
}

/// An object stream in base 85 is read where its groups fit.
#[test]
fn object_streams_may_be_in_base_85() {
    let with = |data: &str| {
        let pdf = pdf_with_table([2, 0, 6, 0], [1, 0, 0, 0]);
        let plain = b"/Length 5 0 R>>stream\n5 0 5endstream";
        let at = pdf.windows(plain.len()).position(|w| w == plain).unwrap();
        let coded = format!("/Filter/ASCII85Decode/Length {}>>stream\n{data}endstream", data.len());
        let table = pdf.windows(7).position(|w| w == b"7 0 obj").unwrap();
        let moved = (table + coded.len() - plain.len()) as u16;
        let mut out = [&pdf[..at], coded.as_bytes(), &pdf[at + plain.len()..]].concat();
        let entry = out.windows(17).rposition(|w| w == b"endstream endobj\n").unwrap() - 4;
        out[entry..entry + 4].copy_from_slice(&[1, (moved >> 8) as u8, moved as u8, 0]);
        let end = out.windows(9).rposition(|w| w == b"startxref").unwrap();
        out.truncate(end);
        out.extend_from_slice(format!("startxref\n{moved}\n%%EOF\n").as_bytes());
        out
    };
    // `5 0 5` in base 85.
    let doc = Doc::load(&with("2'=Rq2#~>")).unwrap();
    assert_eq!(page_content(&doc, 3, 0), b"BT ET\n".to_vec());
    match Doc::load(&with("s8W-\"~>")) {
        Ok(_) => panic!("a group that does not fit"),
        Err(e) => assert_eq!(e, REFUSED),
    }
}

/// The repair's own account of itself.
#[test]
fn repair_status_is_told() {
    assert_eq!(xref_repair_status(&pdf_with_xref(true)), "loads unaided; no repair needed");
    assert_eq!(
        xref_repair_status(&pdf_with_xref(false)),
        "repaired: cross-reference entries padded to 20 bytes"
    );
    assert_eq!(
        xref_repair_status(b"%PDF-1.4"),
        "repair declined \u{2014} no classic `xref` section (an xref stream?)"
    );
    let hopeless = b"1 0 obj\nxref\n0 1\n0000000000 65535 f\ntrailer<<>>";
    let padded = b"1 0 obj\nxref\n0 1\n0000000000 65535 f \ntrailer<<>>";
    let why = match lopdf::Document::load_mem(padded) {
        Ok(_) => panic!("no document"),
        Err(e) => e.to_string(),
    };
    assert_eq!(
        xref_repair_status(hopeless),
        format!("padded the entries, but it still will not load: {why}")
    );
}

/// What is said of the pages of a document.
#[test]
fn diagnosis_names_what_is_there() {
    let one = pdf_with_xref(true);
    assert_eq!(
        content_diagnosis(&one, &Vec::new()),
        "\n   page 1: content 53 B, ops 5, resources ok, fonts 1, glyphs 20"
    );
    assert_eq!(content_diagnosis(b"junk", &Vec::new()), "document does not load");
    let bare = one_page("", b"BT ET", b"null", &[]);
    assert_eq!(
        content_diagnosis(&bare, &Vec::new()),
        "\n   page 1: content 6 B, ops 2, resources MISSING, fonts -, glyphs 0"
    );
}

// ---- built-in faces --------------------------------------------------------

/// A face with one advance for all ASCII characters.
fn face(name: &[u8], width: i64) -> CoreFace {
    CoreFace {
        name: name.to_vec(),
        widths: (0x20u8..0x7f).map(|b| (b as char, Number::Int(width))).collect(),
    }
}

fn core_faces() -> Vec<CoreFace> {
    vec![
        face(b"Helvetica", 667),
        face(b"Times-BoldItalic", 500),
        face(b"Arial,Bold", 722),
        face(b"Courier-Oblique", 600),
    ]
}

fn pdf_with_font(fontdict: &[u8], text: &[u8]) -> Vec<u8> {
    let content = [b"BT /F1 12 Tf 72 700 Td (".as_slice(), text, b") Tj ET\n"].concat();
    one_page(PAGE, &content, fontdict, &[])
}

/// Every built-in name decodes with real, positive-width boxes.
#[test]
fn standard14_faces_get_builtin_widths() {
    for fontdict in [
        b"<</Type/Font/Subtype/Type1/BaseFont/Helvetica/Encoding/WinAnsiEncoding>>".as_slice(),
        b"<</Type/Font/Subtype/Type1/BaseFont/Times-BoldItalic>>",
        b"<</Type/Font/Subtype/TrueType/BaseFont/Arial,Bold>>",
        b"<</Type/Font/Subtype/Type1/BaseFont/ABCDEF+Courier-Oblique>>",
    ] {
        let pdf = pdf_with_font(fontdict, b"Words have width now");
        let cs = cells(&pdf, &core_faces());
        let text: String = cs.iter().map(|c| c.text.as_str()).collect::<Vec<_>>().join(" ");
        assert!(text.contains("Words have width now"), "text lost: {text:?}");
        assert!(cs.iter().all(|c| f32::from_bits(c.r) > f32::from_bits(c.l)));
        let singles = place(&debug_glyphs(&pdf, &core_faces(), 0));
        assert!(singles.iter().all(|g| g.3 > g.1), "zero-width glyphs: {singles:?}");
    }
}

/// Declared widths win over built-in ones, and an unknown face is left alone.
#[test]
fn explicit_widths_win_and_unknown_faces_are_untouched() {
    let explicit = pdf_with_font(
        b"<</Type/Font/Subtype/Type1/BaseFont/Helvetica/FirstChar 65\
           /Widths[100 100 100 100]/Encoding/WinAnsiEncoding>>",
        b"ABBA",
    );
    let builtin = pdf_with_font(
        b"<</Type/Font/Subtype/Type1/BaseFont/Helvetica/Encoding/WinAnsiEncoding>>",
        b"ABBA",
    );
    let w = |pdf: &[u8]| {
        let cs = cells(pdf, &core_faces());
        assert_eq!(cs.len(), 1, "one word cell");
        f32::from_bits(cs[0].r) - f32::from_bits(cs[0].l)
    };
    let (we, wb) = (w(&explicit), w(&builtin));
    assert!((we - 4.8).abs() < 0.1, "explicit widths must win: got {we}, want 4x100x12/1000");
    assert!(wb > 2.0 * we, "built-in Helvetica is much wider: {wb} vs {we}");
    let unknown = pdf_with_font(
        b"<</Type/Font/Subtype/Type1/BaseFont/FancyCorp-Display>>",
        b"Mystery",
    );
    let cs = cells(&unknown, &core_faces());
    let text: String = cs.iter().map(|c| c.text.as_str()).collect();
    assert!(text.contains("Mystery"), "text still decodes");
    assert!(place(&debug_glyphs(&unknown, &core_faces(), 0)).iter().all(|g| g.3 == g.1));
}

/// A code that the built-in face misses advances half an em.
#[test]
fn built_in_faces_leave_no_zero_width() {
    let font = b"<</Type/Font/Subtype/Type1/BaseFont/Helvetica/Encoding/WinAnsiEncoding>>";
    let pdf = pdf_with_font(font, &[b'A', 0xE9]);
    let g = place(&debug_glyphs(&pdf, &core_faces(), 0));
    assert!(near(g[0].3 - g[0].1, 667.0 * 12.0 / 1000.0));
    assert!(near(g[1].3 - g[1].1, 6.0));
}

// ---- the content machine ---------------------------------------------------

/// A glyph's box is made of the font's advance and metrics, the font size, and
/// the matrices.
#[test]
fn glyph_boxes_are_exact() {
    let g = glyphs(&shown("BT /F1 10 Tf 72 700 Td (AB) Tj ET"));
    assert_eq!(g.len(), 2);
    assert_eq!(g[0].0, 'A');
    assert!(near(g[0].1, 72.0) && near(g[0].3, 73.0));
    assert!(near(g[0].2, 698.0) && near(g[0].4, 708.0));
    assert!(near(g[1].1, 73.0) && near(g[1].3, 74.0));
}

/// Spacing, scale, rise and kerning.
#[test]
fn text_parameters_place_glyphs() {
    let lefts = |c: &str| glyphs(&shown(c)).iter().map(|g| g.1).collect::<Vec<_>>();
    let at = |c: &str, want: &[f64]| {
        let got = lefts(c);
        assert_eq!(got.len(), want.len());
        assert!(got.iter().zip(want).all(|(a, b)| near(*a, *b)), "{c}: {got:?}");
    };
    at("BT /F1 10 Tf 2 Tc (ABC) Tj ET", &[0.0, 3.0, 6.0]);
    at("BT /F1 10 Tf 5 Tw (A B) Tj ET", &[0.0, 1.0, 7.0]);
    at("BT /F1 10 Tf 50 Tz 2 Tc (AB) Tj ET", &[0.0, 1.5]);
    at("BT /F1 10 Tf [(A) -500 (B) 100 (C)] TJ ET", &[0.0, 6.0, 6.0]);
    at("BT /F1 10 Tf 1 2 (A B) \" (C) Tj ET", &[0.0, 3.0, 7.0, 10.0]);
    let g = glyphs(&shown("BT /F1 10 Tf 3 Ts (A) Tj ET"));
    assert!(near(g[0].2, 1.0) && near(g[0].4, 11.0));
}

/// Lines move by what the operators say.
#[test]
fn line_operators_move_lines() {
    let bases = |c: &str| {
        glyphs(&shown(c)).iter().map(|g| (g.1, g.2 + 2.0)).collect::<Vec<_>>()
    };
    let at = |c: &str, want: &[(f64, f64)]| {
        let got = bases(c);
        assert_eq!(got.len(), want.len());
        assert!(got.iter().zip(want).all(|(a, b)| near(a.0, b.0) && near(a.1, b.1)), "{c}: {got:?}");
    };
    at("BT /F1 10 Tf 10 700 Td (A) Tj 5 -20 Td (B) Tj ET", &[(10.0, 700.0), (15.0, 680.0)]);
    at(
        "BT /F1 10 Tf 10 700 TD (A) Tj 0 -12 TD (B) Tj T* (C) Tj ET",
        &[(10.0, 700.0), (10.0, 688.0), (10.0, 676.0)],
    );
    at("BT /F1 10 Tf 14 TL 10 700 Td (A) Tj T* (B) Tj ET", &[(10.0, 700.0), (10.0, 686.0)]);
    at("BT /F1 10 Tf 14 TL 10 700 Td (A) Tj (B) ' ET", &[(10.0, 700.0), (10.0, 686.0)]);
    at("BT /F1 10 Tf 1 0 0 1 30 40 Tm (A) Tj ET", &[(30.0, 40.0)]);
    at(
        "BT /F1 10 Tf 10 10 Td (A) Tj ET BT (B) Tj ET",
        &[(10.0, 10.0), (0.0, 0.0)],
    );
    at("2 0 0 2 5 6 cm BT /F1 5 Tf 10 20 Td (A) Tj ET", &[(25.0, 46.0)]);
    at("1 0 0 1 5 0 cm 1 0 0 1 0 7 cm BT /F1 10 Tf (A) Tj ET", &[(5.0, 7.0)]);
}

/// A block between `q` and `Q` leaves no text parameter and no matrix behind.
#[test]
fn graphics_state_is_restored_whole() {
    let plain = glyphs(&shown("BT /F1 10 Tf (AB) Tj ET"));
    let block = "q 3 0 0 3 9 9 cm 4 Tc 5 Tw 50 Tz 6 TL 7 Ts /None 3 Tf q 1 0 0 1 1 1 cm Q Q ";
    let fenced = glyphs(&shown(&format!("/F1 10 Tf {block} BT (AB) Tj ET")));
    assert_eq!(plain, fenced);
    // Without a saved state there is nothing to restore.
    assert_eq!(glyphs(&shown("Q Q BT /F1 10 Tf (AB) Tj ET")), plain);
}

/// Nothing is shown without a font, and an unknown font is none.
#[test]
fn text_needs_a_font() {
    assert!(glyphs(&shown("BT (AB) Tj [(AB)] TJ ET")).is_empty());
    assert!(glyphs(&shown("BT /F1 10 Tf /F2 10 Tf (AB) Tj ET")).is_empty());
    assert_eq!(glyphs(&shown("BT /F1 10 Tf 7 8 Tf (AB) Tj ET")).len(), 2);
    assert!(glyphs(&shown("BT /F1 10 Tf (AB) Tj ET").replace_page()).is_empty());
}

/// A page whose resources are gone.
trait ReplacePage {
    fn replace_page(self) -> Vec<u8>;
}

impl ReplacePage for Vec<u8> {
    fn replace_page(self) -> Vec<u8> {
        let s = String::from_utf8(self).unwrap();
        s.replace("/Resources<</Font<</F1 5 0 R>>>>", "/Resourcez<</Font<</F1 5 0 R>>>>").into_bytes()
    }
}

// ---- forms -----------------------------------------------------------------

const FORM_PAGE: &str = "/MediaBox[0 0 595 842]\
    /Resources<</Font<</F1 5 0 R>>/XObject<</X 6 0 R/I 7 0 R>>>>";

fn with_form(content: &str, dict: &str, form: &str) -> Vec<u8> {
    one_page(
        FORM_PAGE,
        content.as_bytes(),
        HUNDRED,
        &[
            stream(&format!("/Type/XObject/Subtype/Form{dict}"), form.as_bytes()),
            stream("/Type/XObject/Subtype/Image/Width 1/Height 1", b"BT /F1 10 Tf (I) Tj ET"),
        ],
    )
}

/// A form runs with its matrix before the current one and inherits resources and
/// text parameters; it leaves nothing behind but glyphs.
#[test]
fn forms_are_run_in_place() {
    let form = "BT /F1 10 Tf 1 2 Td (F) Tj ET 9 Tc 2 0 0 2 0 0 cm";
    let pdf = with_form(
        "1 0 0 1 100 200 cm /X Do BT /F1 10 Tf (AB) Tj ET",
        "/Matrix[2 0 0 2 10 20]",
        form,
    );
    let g = glyphs(&pdf);
    assert_eq!(g.iter().map(|p| p.0).collect::<String>(), "FAB");
    assert!(near(g[0].1, 112.0) && near(g[0].2, 220.0), "{:?}", g[0]);
    assert!(near(g[1].1, 100.0) && near(g[2].1, 101.0));
    // Character spacing of the caller counts inside.
    let spaced = with_form("3 Tc /X Do", "", "BT /F1 10 Tf (AB) Tj ET");
    let s = glyphs(&spaced);
    assert!(near(s[1].1, 4.0), "{s:?}");
    // A matrix that is not six numbers is none.
    let odd = glyphs(&with_form("/X Do", "/Matrix[2 0 0 2 10]", "BT /F1 10 Tf (A) Tj ET"));
    assert!(near(odd[0].1, 0.0));
}

/// With a form between two lists of operations, its glyphs stand between theirs,
/// which stay as they are without it.
#[test]
fn forms_are_inserted() {
    let before = "q 2 Tc BT /F1 10 Tf 5 6 Td (AB) Tj ";
    let after = "(C) Tj ET Q BT /F1 20 Tf (DE) Tj ET";
    let form = "Q Q 7 0 0 7 0 0 cm 50 Tc 9 TL BT /F1 30 Tf (xy) Tj q q";
    let plain = glyphs(&with_form(&format!("{before}{after}"), "", form));
    let whole = glyphs(&with_form(&format!("{before}/X Do {after}"), "", form));
    assert_eq!(whole.iter().map(|p| p.0).collect::<String>(), "ABxyCDE");
    assert_eq!(whole[..2], plain[..2]);
    assert_eq!(whole[4..], plain[2..]);
}

/// Images, unknown names and odd operands show nothing.
#[test]
fn only_forms_are_run() {
    let form = "BT /F1 10 Tf (F) Tj ET";
    assert!(glyphs(&with_form("/I Do", "", form)).is_empty());
    assert!(glyphs(&with_form("/None Do", "", form)).is_empty());
    assert!(glyphs(&with_form("7 Do Do", "", form)).is_empty());
    assert_eq!(glyphs(&with_form("/X Do /X Do", "", form)).len(), 2);
}

/// A form that invokes itself is run to a depth of eight.
#[test]
fn forms_nest_to_a_limit() {
    let g = glyphs(&with_form("/X Do", "", "BT /F1 10 Tf (F) Tj ET /X Do"));
    assert_eq!(g.len(), 8);
}

/// A form with resources of its own uses those alone.
#[test]
fn forms_use_their_own_resources() {
    let own = "/Resources<</Font<</G 5 0 R>>>>";
    let g = glyphs(&with_form("/X Do", own, "BT /F1 10 Tf (A) Tj /G 10 Tf (B) Tj ET"));
    assert_eq!(g.iter().map(|p| p.0).collect::<String>(), "B");
}

// ---- fonts through documents -----------------------------------------------

/// The font of the only page, under the name `F1`.
fn font_of(pdf: &[u8]) -> Font {
    let doc = Doc::load(pdf).unwrap();
    let (num, gen) = doc.pages()[0];
    let res = page_res(&doc, num, gen).unwrap();
    let mut caches = DocCaches::new();
    let mut fonts =
        textparse::content::fonts_from_res(&doc, &Vec::new(), &res, &mut caches);
    drop(caches);
    let named = fonts.remove(0);
    assert_eq!(named.name, b"F1".to_vec());
    std::sync::Arc::try_unwrap(named.font).ok().unwrap()
}

fn decoded(f: &Font, code: u32) -> (Option<String>, f64) {
    let (t, w) = f.decode_code(code);
    (t, number(w))
}

/// A composite font: two-byte codes, widths of the descendant, a ToUnicode map.
#[test]
fn composite_fonts_decode() {
    let cmap = "beginbfchar<0041><0058>endbfchar beginbfrange<0050><0052><0061> <0060> <0061> [<00480049> <FB01>] endbfrange";
    let font = b"<</Type/Font/Subtype/Type0/Encoding/Identity-H/ToUnicode 6 0 R\
        /DescendantFonts[7 0 R]>>";
    let more = vec![
        stream("", cmap.as_bytes()),
        b"<</Subtype/CIDFontType2/DW 900/W[1 [10 20] 5 7 30 9 8.9 40 65 [650]]\
          /FontDescriptor<</Ascent 700/Descent -100>>>>"
            .to_vec(),
    ];
    let pdf = one_page(PAGE, b"BT /F1 10 Tf <0041005000510052004> Tj ET", font, &more);
    let f = font_of(&pdf);
    assert!(f.two_byte);
    assert_eq!(decoded(&f, 0x41), (Some("X".to_string()), 650.0));
    assert_eq!(decoded(&f, 0x50), (Some("a".to_string()), 900.0));
    assert_eq!(decoded(&f, 0x52).0, Some("c".to_string()));
    assert_eq!(decoded(&f, 0x60).0, Some("HI".to_string()));
    assert_eq!(decoded(&f, 0x61).0, Some("fi".to_string()));
    assert_eq!(decoded(&f, 0x99), (None, 900.0));
    assert_eq!([1, 2, 3, 5, 6, 7, 8, 9].map(|c| decoded(&f, c).1), [
        10.0, 20.0, 900.0, 30.0, 30.0, 30.0, 900.0, 900.0
    ]);
    assert_eq!((f.ascent, f.descent), (Number::Int(700), Number::Int(-100)));
    // The odd last byte of the string is a code of its own, which maps to nothing.
    assert_eq!(text(&pdf), "Xabc");
}

/// The glyphs of one code share its box, and a null character is none.
#[test]
fn glyphs_of_a_code_share_its_box() {
    let font = b"<</Subtype/Type1/FirstChar 65/Widths[400 500 600]/ToUnicode 6 0 R>>";
    let map = stream("", b"beginbfchar <41> <FB03> <42> <00580000> <43> <0000> endbfchar");
    let g = glyphs(&one_page(PAGE, b"BT /F1 10 Tf (ABC) Tj (C) Tj ET", font, &[map]));
    assert_eq!(g.iter().map(|p| p.0).collect::<String>(), "ffiX");
    assert!(g[..3].iter().all(|p| near(p.1, 0.0) && near(p.3, 4.0)), "{g:?}");
    assert!(near(g[3].1, 4.0) && near(g[3].3, 9.0));
}

/// A mark without an advance takes no room, and a space as much as the font says.
#[test]
fn advances_are_the_fonts_own() {
    let font = b"<</Subtype/Type1/FirstChar 65/Widths[0 250]/ToUnicode 6 0 R>>";
    let map = stream("", b"beginbfchar <41> <0301> <42> <0020> endbfchar");
    let g = glyphs(&one_page(PAGE, b"BT /F1 10 Tf (ABA) Tj ET", font, &[map]));
    assert_eq!(g.iter().map(|p| p.0).collect::<String>(), "\u{301} \u{301}");
    assert!(near(g[0].1, 0.0) && near(g[0].3, 0.0));
    assert!(near(g[1].1, 0.0) && near(g[1].3, 2.5));
    assert!(near(g[2].1, 2.5) && near(g[2].3, 2.5));
}

/// A composite font without a descendant.
#[test]
fn composite_fonts_have_defaults() {
    let f = font_of(&one_page(PAGE, b"BT ET", b"<</Subtype/Type0>>", &[]));
    assert_eq!(decoded(&f, 5), (None, 1000.0));
    assert_eq!((f.ascent, f.descent), (Number::Int(750), Number::Int(-250)));
}

/// Simple-font widths, the missing width, and fractional ones.
#[test]
fn simple_widths_are_read() {
    let font = b"<</Subtype/TrueType/FirstChar 65/Widths[500 /x 250.5]\
        /FontDescriptor<</MissingWidth 333/Ascent 0/Descent 0>>>>";
    let f = font_of(&one_page(PAGE, b"BT ET", font, &[]));
    assert_eq!([65, 66, 67, 68].map(|c| decoded(&f, c).1), [500.0, 333.0, 250.5, 333.0]);
    assert_eq!((f.ascent, f.descent), (Number::Int(750), Number::Int(-250)));
}

/// Encodings: base tables, differences, placeholder names.
#[test]
fn encodings_are_resolved() {
    let text_of = |font: &str, code: u32| {
        let pdf = one_page(PAGE, b"BT ET", font.as_bytes(), &[]);
        decoded(&font_of(&pdf), code).0
    };
    let some = |s: &str| Some(s.to_string());
    let diff = "<</Encoding<</Differences[65/beta/g115/fi/nosuch/one.taboldstyle]>>>>";
    assert_eq!(text_of(diff, 65), some("\u{03B2}"));
    assert_eq!(text_of(diff, 66), some("/g115"));
    assert_eq!(text_of(diff, 67), some("fi"));
    // A name that stands for nothing leaves the base character.
    assert_eq!(text_of(diff, 68), some("D"));
    assert_eq!(text_of(diff, 69), some("1"));
    // 321 is 65 modulo 256, and a later entry wins.
    assert_eq!(text_of(&diff.replace("style]", "style 321/gamma 65/a]"), 65), some("a"));
    assert_eq!(text_of(&diff.replace("style]", "style 65/a 321/gamma]"), 65), some("\u{03B3}"));
    assert_eq!(text_of("<</Encoding/MacRomanEncoding>>", 0xCA), some("\u{00A0}"));
    assert_eq!(text_of("<</Encoding/MacRomanEncoding>>", 0xDE), some("fi"));
    assert_eq!(text_of("<</Encoding/WinAnsiEncoding>>", 0x95), some("\u{2022}"));
    assert_eq!(text_of("<</Encoding/WinAnsiEncoding>>", 0x80), None);
    assert_eq!(text_of("<</BaseFont/CMSY10>>", 0x66), some("{"));
    assert_eq!(text_of("<</BaseFont/ABCDEF+cmbsy7>>", 0x21), some("\u{2192}"));
    assert_eq!(text_of("<</BaseFont/CMMI10>>", 21), some("\u{03BB}"));
    assert_eq!(text_of("<</BaseFont/CMR10>>", 0x66), some("f"));
    // A named encoding beats the built-in layout.
    assert_eq!(text_of("<</BaseFont/CMSY10/Encoding/WinAnsiEncoding>>", 0x66), some("f"));
    // A prefix that is not six letters long is part of the name.
    assert_eq!(text_of("<</BaseFont/ABC+CMSY10>>", 0x66), some("f"));
}

/// The encoding vector of an embedded font program fills only gaps.
#[test]
fn program_encodings_fill_gaps() {
    let program = b"%!PS \xff dup 21 /lambda put dup 65 /beta put dup 300 /alpha put \
        dup 22 lambda put dup +23 /uni2264 put eexec dup 24 /gamma put";
    let font = b"<</Subtype/Type1/FontDescriptor<</FontFile 6 0 R>>>>";
    let pdf = one_page(PAGE, b"BT ET", font, &[stream("", program)]);
    let f = font_of(&pdf);
    let text = |c: u32| decoded(&f, c).0;
    assert_eq!(text(21), Some("\u{03BB}".to_string()));
    assert_eq!(text(65), Some("A".to_string()));
    assert_eq!(text(22), None);
    assert_eq!(text(23), Some("\u{2264}".to_string()));
    assert_eq!(text(24), None);
    assert_eq!(text(300 % 256), Some(",".to_string()));
}

/// A font program that is text is read word by word.
#[test]
fn program_text_is_read() {
    let program = "%!PS dup\t21\n/lambda put dup 22 /alpha\u{a0}put dup 23 /beta eexec dup 24 /gamma put";
    let font = b"<</Subtype/Type1/FontDescriptor<</FontFile 6 0 R>>>>";
    let f = font_of(&one_page(PAGE, b"BT ET", font, &[stream("", program.as_bytes())]));
    let text = |c: u32| decoded(&f, c).0;
    assert_eq!(text(21), Some("\u{03BB}".to_string()));
    assert_eq!(text(22), Some("\u{03B1}".to_string()));
    assert_eq!(text(24), None);
}

/// A compressed content stream and a compressed map are decoded.
#[test]
fn compressed_streams_are_decoded() {
    let mut content =
        lopdf::Stream::new(lopdf::Dictionary::new(), b"BT /F1 10 Tf (AAAAAAAAAAAAAAAAAAAA) Tj ET".repeat(9));
    content.compress().unwrap();
    let mut cmap =
        lopdf::Stream::new(lopdf::Dictionary::new(), b"beginbfchar <41> <0042> endbfchar  ".repeat(40));
    cmap.compress().unwrap();
    assert!(content.dict.get(b"Filter").is_ok() && cmap.dict.get(b"Filter").is_ok());
    let pdf = pdf_of(
        &[
            b"<</Type/Catalog/Pages 2 0 R>>".to_vec(),
            b"<</Type/Pages/Kids[3 0 R]/Count 1>>".to_vec(),
            format!("<</Type/Page/Parent 2 0 R/Contents 4 0 R{PAGE}>>").into_bytes(),
            stream("/Filter/FlateDecode", &content.content),
            b"<</Subtype/Type1/ToUnicode 6 0 R>>".to_vec(),
            stream("/Filter/FlateDecode", &cmap.content),
        ],
        b" \n",
    );
    assert_eq!(text(&pdf), "B".repeat(180));
}

/// A stream with a filter that is not known has no data.
#[test]
fn unknown_filters_give_no_map() {
    let font = b"<</Subtype/Type1/ToUnicode 6 0 R>>";
    let map = stream("/Filter/JBIG2Decode", b"beginbfchar<41><0042>endbfchar");
    assert_eq!(text(&one_page(PAGE, b"BT /F1 9 Tf (A) Tj ET", font, &[map])), "A");
}

/// Malformed bytes in a map do not hide its entries.
#[test]
fn maps_are_read_as_text() {
    let font = b"<</Subtype/Type1/ToUnicode 6 0 R>>";
    let map = stream("", b"\xff\xfe beginbfchar<41><0042>endbfchar \x80");
    assert_eq!(text(&one_page(PAGE, b"BT /F1 9 Tf (A) Tj ET", font, &[map])), "B");
}

// ---- pages -----------------------------------------------------------------

/// Two pages, two content streams on the second, resources inherited by
/// reference through a chain of references.
fn two_pages() -> Vec<u8> {
    pdf_of(
        &[
            b"<</Type/Catalog/Pages 2 0 R>>".to_vec(),
            b"<</Type/Pages/Kids[3 0 R 4 0 R]/Count 2/Resources 9 0 R\
              /MediaBox[0 0 100 200]>>"
                .to_vec(),
            b"<</Type/Page/Parent 2 0 R/Contents 5 0 R>>".to_vec(),
            b"<</Type/Page/Parent 2 0 R/Contents[6 0 R 7 0 R]/MediaBox[0 0 300 400]>>".to_vec(),
            stream("", b"BT /F1 10 Tf (one) Tj ET"),
            stream("", b"BT /F1 10 Tf (t"),
            stream("", b"wo) Tj ET"),
            HUNDRED.to_vec(),
            b"10 0 R".to_vec(),
            b"<</Font<</F1 8 0 R>>>>".to_vec(),
        ],
        b" \n",
    )
}

/// The parts of a page: every content stream, as it stands where it does not
/// decode, and the resources of the nearest node that names some.
#[test]
fn pages_have_their_parts() {
    let doc = load_document(&two_pages()).unwrap();
    assert_eq!(page_content(&doc, 3, 0), b"BT /F1 10 Tf (one) Tj ET\n".to_vec());
    assert_eq!(page_content(&doc, 4, 0), b"BT /F1 10 Tf (t\nwo) Tj ET\n".to_vec());
    assert!(page_content(&doc, 8, 0).is_empty());
    assert!(page_content(&doc, 99, 0).is_empty());
    let (own, ids) = page_resources(&doc, 3, 0).unwrap();
    assert!(own.is_none());
    assert_eq!(ids, vec![(9, 0)]);
    let res = page_res(&doc, 3, 0).unwrap();
    assert_eq!(res.len(), 1);
    assert_eq!(res[0].key, b"Font".to_vec());
    let (own, ids) = page_resources(&doc, 99, 0).unwrap();
    assert!(own.is_none() && ids.is_empty());

    let odd = pdf_of(
        &[
            b"<</Type/Catalog/Pages 2 0 R>>".to_vec(),
            b"<</Type/Pages/Kids[3 0 R]/Count 1/Parent 2 0 R>>".to_vec(),
            b"<</Type/Page/Parent 2 0 R/Contents 5 0 R>>".to_vec(),
            stream("/Filter/Unheard", b"BT ET"),
            b"[4 0 R 3 0 R 99 0 R 4 0 R]".to_vec(),
        ],
        b" \n",
    );
    let doc = Doc::load(&odd).unwrap();
    assert_eq!(page_content(&doc, 3, 0), b"BT ET\nBT ET\n".to_vec());
    assert_eq!(doc.content_ids(3, 0), vec![(4, 0), (3, 0), (99, 0), (4, 0)]);
    // A node above itself has no resources.
    assert!(page_resources(&doc, 3, 0).is_none());
    assert!(page_res(&doc, 3, 0).is_none());
}

/// Content with groups that do not fit is left out.
#[test]
fn content_out_of_range_is_left_out() {
    let page = |data: &[u8]| {
        let pdf = pdf_of(
            &[
                b"<</Type/Catalog/Pages 2 0 R>>".to_vec(),
                b"<</Type/Pages/Kids[3 0 R]/Count 1>>".to_vec(),
                b"<</Type/Page/Parent 2 0 R/Contents[4 0 R 5 0 R]>>".to_vec(),
                stream("", b"BT"),
                stream("/Filter/ASCII85Decode", data),
            ],
            b" \n",
        );
        page_content(&Doc::load(&pdf).unwrap(), 3, 0)
    };
    assert_eq!(page(b"87cURDZ~>"), b"BT\nHello\n".to_vec());
    assert_eq!(page(b"abz~>"), b"BT\nabz~>\n".to_vec());
    assert!(page(b"s8W-\"~>").is_empty());
}

/// Resources come down from any ancestor.
#[test]
fn resources_come_down_the_page_tree() {
    let deep = |levels: usize| {
        let mut objs = vec![
            b"<</Type/Catalog/Pages 2 0 R>>".to_vec(),
            b"<</Type/Pages/Kids[3 0 R]/Count 1/Resources 99 0 R>>".to_vec(),
        ];
        for i in 3..3 + levels {
            objs.push(format!("<</Type/Pages/Kids[{} 0 R]/Count 1/Parent {} 0 R>>", i + 1, i - 1).into_bytes());
        }
        objs.push(format!("<</Type/Page/Parent {} 0 R>>", 2 + levels).into_bytes());
        let doc = Doc::load(&pdf_of(&objs, b" \n")).unwrap();
        page_resources(&doc, 3 + levels as u32, 0).map(|(own, ids)| (own.is_some(), ids))
    };
    assert_eq!(deep(0), Some((false, vec![(99, 0)])));
    assert_eq!(deep(40), Some((false, vec![(99, 0)])));
    assert_eq!(deep(999), Some((false, vec![(99, 0)])));
    assert_eq!(deep(1000), None);
}

/// Pages come in order, with their sizes, and with all of their content.
#[test]
fn pages_come_in_order() {
    let pages = pdf_textlines(&two_pages(), &Vec::new(), &one_cell);
    let got: Vec<(f32, f32, String)> = pages
        .iter()
        .map(|(e, c)| (frame(*e).2, frame(*e).3, c.iter().map(|c| c.text.clone()).collect()))
        .collect();
    // The line feed between the parts of the content falls into the string, and
    // maps to nothing.
    assert_eq!(got, vec![(100.0, 200.0, "one".to_string()), (300.0, 400.0, "two".to_string())]);
    let words = pdf_words(&two_pages(), &Vec::new(), &glyph_cells);
    assert_eq!(words.iter().map(|(_, c)| c.len()).collect::<Vec<_>>(), vec![3, 3]);
}

/// The page-by-page parser, the eager form and the raw glyphs agree, and caches
/// change nothing.
#[test]
fn page_by_page_and_eager_agree() {
    let pdf = two_pages();
    let mut parser = PageTextParser::open(&pdf, Vec::new()).unwrap();
    assert_eq!(parser.page_count(), 2);
    let eager = pdf_all_cells(&pdf, Vec::new(), &line_and_word, &one_cell);
    assert_eq!(eager.len(), 2);
    let key = |c: &TextCell| (c.text.clone(), c.l, c.t, c.r, c.b);
    for i in [1usize, 0, 1] {
        let lazy = parser.cells(i, &line_and_word, &one_cell);
        let keys = |v: &[TextCell]| v.iter().map(key).collect::<Vec<_>>();
        assert_eq!(keys(&lazy.prose), keys(&eager[i].prose));
        assert_eq!(keys(&lazy.words), keys(&eager[i].words));
        assert_eq!(keys(&lazy.code), keys(&eager[i].code));
        let raw = debug_glyphs(&pdf, &Vec::new(), i);
        let joined: String = raw.glyphs.iter().map(|g| g.ch).collect();
        assert_eq!(lazy.prose[0].text, joined);
    }
    let past = parser.cells(2, &line_and_word, &one_cell);
    assert!(past.prose.is_empty() && past.words.is_empty() && past.code.is_empty());
    assert!(debug_glyphs(&pdf, &Vec::new(), 2).glyphs.is_empty());

    let doc = load_document(&pdf).unwrap();
    let mut caches = DocCaches::new();
    for (num, gen) in doc.pages() {
        let cold = page_glyphs(&doc, &Vec::new(), num, gen);
        let warm = page_glyphs_cached(&doc, &Vec::new(), num, gen, &mut caches);
        let again = page_glyphs_cached(&doc, &Vec::new(), num, gen, &mut caches);
        assert_eq!(place(&cold), place(&warm));
        assert_eq!(place(&cold), place(&again));
    }
}

/// The cells of each page, of all pages and of the assembled pages are the same,
/// where nothing is stacked; a second opening changes nothing.
#[test]
fn all_ways_to_the_cells_agree() {
    let pdf = two_pages();
    let key = |c: &TextCell| (c.text.clone(), c.l, c.t, c.r, c.b);
    let keys = |v: &[TextCell]| v.iter().map(key).collect::<Vec<_>>();
    let never = |_: &TextCell, _: &TextCell| false;
    let all = pdf_all_cells(&pdf, Vec::new(), &line_and_word, &one_cell);
    let pages = pdf_text_pages(&pdf, &Vec::new(), &line_and_word, &one_cell, &never);
    let again = pdf_all_cells(&pdf, Vec::new(), &line_and_word, &one_cell);
    assert_eq!((all.len(), pages.len(), again.len()), (2, 2, 2));
    for i in 0..2 {
        assert_eq!(keys(&pages[i].cells), keys(&all[i].prose));
        assert_eq!(keys(&pages[i].word_cells), keys(&all[i].words));
        assert_eq!(keys(&pages[i].code_cells), keys(&all[i].code));
        assert_eq!(keys(&again[i].words), keys(&all[i].words));
    }
    // Past the end there is nothing, and the pages before are not disturbed.
    let mut parser = PageTextParser::open(&pdf, Vec::new()).unwrap();
    assert!(parser.cells(usize::MAX, &line_and_word, &one_cell).prose.is_empty());
    assert_eq!(parser.page_count(), 2);
    assert_eq!(keys(&parser.cells(1, &line_and_word, &one_cell).words), keys(&all[1].words));
}

/// Whole pages come with their box, at scale 1, without stacked cells.
#[test]
fn text_pages_are_assembled() {
    let inside = |a: &TextCell, b: &TextCell| a.text == "o" && b.text == "w";
    let pages = pdf_text_pages(&two_pages(), &Vec::new(), &line_and_word, &one_cell, &inside);
    assert_eq!(pages.len(), 2);
    assert_eq!(f32::from_bits(pages[1].scale), 1.0);
    assert_eq!(frame(pages[1].area), (0.0, 0.0, 300.0, 400.0));
    assert_eq!(pages[1].cells[0].text, "two");
    assert_eq!(pages[1].code_cells[0].text, "two");
    let words: String = pages[1].word_cells.iter().map(|c| c.text.as_str()).collect();
    assert_eq!(words, "t");
    let words: String = pages[0].word_cells.iter().map(|c| c.text.as_str()).collect();
    assert_eq!(words, "one");
}

/// A reference that does not resolve, or only to itself, means nothing.
#[test]
fn dangling_references_mean_nothing() {
    let cyclic = one_page(
        "/MediaBox 6 0 R/Resources<</Font<</F1 5 0 R/F2 99 0 R>>>>",
        b"BT /F2 10 Tf (A) Tj /F1 10 Tf (B) Tj ET",
        HUNDRED,
        &[b"6 0 R".to_vec()],
    );
    let (pb, g) = only_page(&cyclic);
    assert_eq!(pb, (0.0, 0.0, 612.0, 792.0));
    assert_eq!(g.iter().map(|p| p.0).collect::<String>(), "B");
    assert!(content_diagnosis(&cyclic, &Vec::new()).contains("fonts 1, glyphs 1"));
}
