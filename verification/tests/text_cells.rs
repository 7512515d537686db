use textparse::cells::{drop_overpainted_cells, text_layer_is_vestigial, PdfPage, TextCell};

fn cell(text: &str, l: f32, t: f32, r: f32, b: f32) -> TextCell {
    TextCell { text: text.into(), l: l.to_bits(), t: t.to_bits(), r: r.to_bits(), b: b.to_bits() }
}

/// `a` lies in the line band of `b` and inside its horizontal extent.
fn inside(a: &TextCell, b: &TextCell) -> bool {
    let edges = |c: &TextCell| {
        (f32::from_bits(c.l), f32::from_bits(c.t), f32::from_bits(c.r), f32::from_bits(c.b))
    };
    let (al, at, ar, ab) = edges(a);
    let (bl, bt, br, bb) = edges(b);
    let vo = (ab.min(bb) - at.max(bt)).max(0.0);
    if vo < 0.6 * (ab - at).min(bb - bt) {
        return false;
    }
    let ho = (ar.min(br) - al.max(bl)).max(0.0);
    ho >= 0.8 * (ar - al) && (ar - al) <= (br - bl)
}

fn page_with(texts: &[&str]) -> PdfPage {
    let cells = texts
        .iter()
        .enumerate()
        .map(|(i, t)| cell(t, 10.0, 10.0 + 12.0 * i as f32, 90.0, 20.0 + 12.0 * i as f32))
        .collect();
    PdfPage::from_cells(595.0f32.to_bits(), 842.0f32.to_bits(), 1.0f32.to_bits(), cells)
}

/// A `"` painted inside a `==` on one band is artwork drawn with glyphs. Both
/// cells go; the real text on the next band stays.
#[test]
fn stacked_logo_glyphs_are_dropped() {
    let mut cells = vec![
        cell("\"", 72.7, 21.5, 86.4, 31.5),
        cell("==", 59.4, 21.5, 99.6, 31.5),
        cell("Herr", 65.2, 151.3, 81.7, 161.3),
    ];
    drop_overpainted_cells(&mut cells, &inside);
    assert_eq!(cells.len(), 1);
    assert_eq!(cells[0].text, "Herr");
}

/// Adjacent words touch but never contain each other, and a double-drawn text
/// is no evidence of artwork.
#[test]
fn prose_and_double_draw_are_kept() {
    let mut cells = vec![
        cell("Telefon", 354.3, 133.2, 381.5, 143.2),
        cell("0676/2000", 387.3, 133.2, 428.7, 143.2),
        cell("Bold", 100.0, 50.0, 130.0, 60.0),
        cell("Bold", 100.3, 50.0, 130.3, 60.0),
    ];
    drop_overpainted_cells(&mut cells, &inside);
    assert_eq!(cells.len(), 4);
}

/// Three typed-in field values over three image pages are no usable layer.
#[test]
fn typed_in_form_fields_are_not_a_text_layer() {
    let pages = vec![page_with(&["03", "05", "2025"]), page_with(&[]), page_with(&[])];
    assert!(text_layer_is_vestigial(&pages));
    assert!(text_layer_is_vestigial(&[page_with(&[])]));
}

/// One page with a few real lines keeps its text.
#[test]
fn sparse_but_real_documents_pass() {
    let one_pager = vec![page_with(&[
        "Confidential briefing",
        "Prepared for the board meeting",
        "Do not distribute",
    ])];
    assert!(!text_layer_is_vestigial(&one_pager));
}

/// The bounds of the rule: one line per page and 31 characters still are a
/// vestige, 32 characters or one more line are not.
#[test]
fn vestigial_bounds_are_exact() {
    let long31 = "a".repeat(31);
    let long32 = "a".repeat(32);
    assert!(text_layer_is_vestigial(&[page_with(&[&long31])]));
    assert!(!text_layer_is_vestigial(&[page_with(&[&long32])]));
    assert!(text_layer_is_vestigial(&[page_with(&["a"]), page_with(&["b"])]));
    assert!(!text_layer_is_vestigial(&[page_with(&["a", "b"])]));
    assert!(text_layer_is_vestigial(&[]));
    // Characters count, not bytes.
    let umlauts = "\u{e4}".repeat(31);
    assert!(text_layer_is_vestigial(&[page_with(&[&umlauts])]));
}

/// Every cell that is stacked with one of another text goes, the rest keep
/// their order.
#[test]
fn kept_cells_keep_their_order() {
    let mut cells = vec![
        cell("one", 0.0, 0.0, 10.0, 10.0),
        cell("mark", 20.0, 0.0, 40.0, 10.0),
        cell("two", 50.0, 0.0, 60.0, 10.0),
        cell("ink", 25.0, 0.0, 35.0, 10.0),
        cell("three", 70.0, 0.0, 80.0, 10.0),
    ];
    drop_overpainted_cells(&mut cells, &inside);
    let texts: Vec<&str> = cells.iter().map(|c| c.text.as_str()).collect();
    assert_eq!(texts, vec!["one", "two", "three"]);
}

/// Nothing is stacked on what was kept.
#[test]
fn a_second_drop_changes_nothing() {
    let mut cells = vec![
        cell("\"", 72.7, 21.5, 86.4, 31.5),
        cell("==", 59.4, 21.5, 99.6, 31.5),
        cell("Herr", 65.2, 151.3, 81.7, 161.3),
        cell("Bold", 100.0, 50.0, 130.0, 60.0),
        cell("Bold", 100.3, 50.0, 130.3, 60.0),
    ];
    drop_overpainted_cells(&mut cells, &inside);
    let texts = |v: &[TextCell]| v.iter().map(|c| c.text.clone()).collect::<Vec<_>>();
    let once = texts(&cells);
    assert_eq!(once, vec!["Herr", "Bold", "Bold"]);
    drop_overpainted_cells(&mut cells, &inside);
    assert_eq!(texts(&cells), once);
}
