use textparse::repair::{fix_stream_lengths, pad_short_xref_entries};

/// A one-page file whose cross-reference entries end in two bytes or in one.
fn pdf_with_xref(two_byte_eol: bool) -> Vec<u8> {
    let content = b"BT /F1 12 Tf 72 700 Td (Invoice 922769430725) Tj ET\n";
    let stream = format!("<</Length {}>>stream\n", content.len()).into_bytes();
    let objs: Vec<Vec<u8>> = vec![
        b"<</Type/Catalog/Pages 2 0 R>>".to_vec(),
        b"<</Type/Pages/Kids[3 0 R]/Count 1>>".to_vec(),
        b"<</Type/Page/Parent 2 0 R/MediaBox[0 0 595 842]/Contents 4 0 R\
           /Resources<</Font<</F1 5 0 R>>>>>>"
            .to_vec(),
        [stream.as_slice(), content.as_slice(), b"endstream"].concat(),
        b"<</Type/Font/Subtype/Type1/BaseFont/Helvetica>>".to_vec(),
    ];
    let mut out = b"%PDF-1.4\n".to_vec();
    let mut offsets = Vec::new();
    for (i, body) in objs.iter().enumerate() {
        offsets.push(out.len());
        out.extend_from_slice(format!("{} 0 obj", i + 1).as_bytes());
        out.extend_from_slice(body);
        out.extend_from_slice(b"endobj\n");
    }
    let xref_at = out.len();
    let eol: &[u8] = if two_byte_eol { b" \n" } else { b"\n" };
    out.extend_from_slice(format!("xref\n0 {}\n", objs.len() + 1).as_bytes());
    out.extend_from_slice(b"0000000000 65535 f");
    out.extend_from_slice(eol);
    for off in &offsets {
        out.extend_from_slice(format!("{off:010} 00000 n").as_bytes());
        out.extend_from_slice(eol);
    }
    out.extend_from_slice(format!("trailer<</Size {}/Root 1 0 R>>\n", objs.len() + 1).as_bytes());
    out.extend_from_slice(format!("startxref\n{xref_at}\n%%EOF\n").as_bytes());
    out
}

/// The repair declines a file whose table precedes an object, rather than
/// shifting every offset that the table records.
#[test]
fn repair_declines_when_padding_would_move_objects() {
    let mut incremental = pdf_with_xref(false);
    incremental.extend_from_slice(b"6 0 obj<</Type/Whatever>>endobj\n");
    let declined = pad_short_xref_entries(&incremental).unwrap_err();
    assert!(declined.contains("object follows the xref"), "reason: {declined}");
}

/// Padding a file with short entries gives the file with full ones.
#[test]
fn padded_file_is_the_well_formed_one() {
    assert_eq!(pad_short_xref_entries(&pdf_with_xref(false)), Ok(pdf_with_xref(true)));
    assert_eq!(pad_short_xref_entries(&pdf_with_xref(true)), Ok(pdf_with_xref(true)));
}

/// Each reason to decline, in its own words.
#[test]
fn padding_says_why_it_declines() {
    let why = |b: &[u8]| pad_short_xref_entries(b).unwrap_err();
    let table = |t: &str| format!("1 0 obj\n{t}").into_bytes();
    assert_eq!(why(b"%PDF-1.4"), "no classic `xref` section (an xref stream?)");
    assert_eq!(why(b""), "no classic `xref` section (an xref stream?)");
    // A keyword inside a line, or at the very end, starts no section.
    assert_eq!(why(b"startxref\n12"), "no classic `xref` section (an xref stream?)");
    assert_eq!(why(b"obj\nxref"), "no classic `xref` section (an xref stream?)");
    assert_eq!(
        why(&table("xref\n0 1\nxref\n")),
        "more than one xref section (incremental update)"
    );
    assert_eq!(why(b"xref\n0 1\n"), "no objects found");
    assert_eq!(
        why(b"xref\n0 1\n1 0 obj"),
        "an object follows the xref \u{2014} padding would move it"
    );
    assert_eq!(why(&table("xref\n0 1")), "subsection header runs off the end");
    assert_eq!(why(b"1 0 obj\nxref\n0 \xff1\n"), "subsection header is not text");
    assert_eq!(why(&table("xref\n0\n")), "unparseable subsection header");
    assert_eq!(why(&table("xref\n0 x\n")), "unparseable subsection header");
    assert_eq!(
        why(&table("xref\n0 99999999999999999999\n")),
        "unparseable subsection header"
    );
    assert_eq!(why(&table("xref\n0 0\n")), "unexpected subsection header shape");
    assert_eq!(why(&table("xref\n0 1 2\n")), "unexpected subsection header shape");
    assert_eq!(why(&table("xref\n0 1\n0000000000 65535 ")), "xref entry runs off the end");
    assert_eq!(
        why(&table("xref\n0 1\n0000000000 65535 x\n")),
        "xref entry is not `nnnnnnnnnn ggggg n`"
    );
    assert_eq!(
        why(&table("xref\n0 1\n000000000 x65535 n\n")),
        "xref entry is not `nnnnnnnnnn ggggg n`"
    );
}

/// Several subsections, a signed count and blanks round a header.
#[test]
fn padding_reads_every_subsection() {
    let bytes = b"1 0 obj\nxref\r\n  0 +1 \r\n0000000000 65535 f\n3 1\n0000000010 00000 n\ntrailer<<>>";
    let expected =
        b"1 0 obj\nxref\n0 +1\n0000000000 65535 f \n3 1\n0000000010 00000 n \ntrailer<<>>";
    assert_eq!(pad_short_xref_entries(bytes), Ok(expected.to_vec()));
}

/// A length that overstates its data is written over in place, padded with
/// spaces; one that tells the truth is left alone.
#[test]
fn overstated_lengths_are_corrected_in_place() {
    let fix = |s: &str| String::from_utf8(fix_stream_lengths(s.as_bytes())).unwrap();
    assert_eq!(fix("<</Length 12>>stream\nabcendstream"), "<</Length 3 >>stream\nabcendstream");
    assert_eq!(
        fix("<</Length 12>>stream\r\nabcendstream"),
        "<</Length 3 >>stream\r\nabcendstream"
    );
    assert_eq!(fix("<</Length 3>>stream\nabcendstream"), "<</Length 3>>stream\nabcendstream");
    assert_eq!(fix("<</Length  9>>streamabcendstream"), "<</Length  3>>streamabcendstream");
    // The number must fit the digits that are there.
    assert_eq!(
        fix("<</Length 1>>stream\n0123456789endstream"),
        "<</Length 1>>stream\n0123456789endstream"
    );
    // Every stream is looked at.
    assert_eq!(
        fix("<</Length 99>>stream\nabendstream <</Length 77>>stream\rcendstream"),
        "<</Length 2 >>stream\nabendstream <</Length 1 >>stream\rcendstream"
    );
    // No number, no end, no entry: nothing to correct.
    assert_eq!(fix("<</Length 5 0 R>>stream\nendstream"), "<</Length 0 0 R>>stream\nendstream");
    assert_eq!(fix("<</Length x>>stream\nendstream"), "<</Length x>>stream\nendstream");
    assert_eq!(fix("<</Length 12>>stream\nabc"), "<</Length 12>>stream\nabc");
    assert_eq!(fix("<</Size 12>>stream\nabcendstream"), "<</Size 12>>stream\nabcendstream");
}

/// Correcting lengths moves nothing.
#[test]
fn corrected_file_keeps_its_length() {
    let good = pdf_with_xref(true);
    let text = String::from_utf8(good.clone()).unwrap();
    let broken = text.replace("/Length 52", "/Length 53").into_bytes();
    assert_ne!(broken, good);
    assert_eq!(fix_stream_lengths(&broken), good);
    assert_eq!(fix_stream_lengths(&good), good);
}

/// The entry `/Length` is told from one whose name begins with it.
#[test]
fn only_the_length_itself_is_corrected() {
    let fix = |s: &str| String::from_utf8(fix_stream_lengths(s.as_bytes())).unwrap();
    assert_eq!(
        fix("<</Length1 9/Length 123>>stream\nabendstream"),
        "<</Length1 9/Length 2  >>stream\nabendstream"
    );
    assert_eq!(
        fix("<</Length 123/Length1 9>>stream\nabendstream"),
        "<</Length 2  /Length1 9>>stream\nabendstream"
    );
    assert_eq!(
        fix("<</Length1 9>>stream\nabendstream"),
        "<</Length1 9>>stream\nabendstream"
    );
}

/// A second correction finds nothing to correct, and true lengths stay.
#[test]
fn a_second_correction_changes_nothing() {
    let text = String::from_utf8(pdf_with_xref(true)).unwrap();
    let broken = text.replace("/Length 52", "/Length 99").into_bytes();
    let once = fix_stream_lengths(&broken);
    assert_ne!(once, broken);
    assert_eq!(fix_stream_lengths(&once), once);
    let two = b"<</Length 99>>stream\nabendstream <</Length 77>>stream\rcendstream";
    let once = fix_stream_lengths(two);
    assert_eq!(fix_stream_lengths(&once), once);
    // A word of the data may be taken for a keyword; the last one has its way.
    let word = b"<</Length 99>>stream\n(a stream of words)endstream";
    let once = fix_stream_lengths(word);
    assert_eq!(once, b"<</Length 10>>stream\n(a stream of words)endstream".to_vec());
    assert_eq!(fix_stream_lengths(&once), once);
    // But for a length with leading zeros that two streams share.
    let data = "a".repeat(100);
    let odd = format!("<</Length 005>>stream\n12345endstream stream\n{data}endstream");
    let once = fix_stream_lengths(odd.as_bytes());
    assert_eq!(once, odd.replace("005", "100").into_bytes());
    assert_eq!(fix_stream_lengths(&once), odd.replace("005", "5  ").into_bytes());
}

/// A second padding finds nothing to pad.
#[test]
fn a_second_padding_changes_nothing() {
    let once = pad_short_xref_entries(&pdf_with_xref(false)).unwrap();
    assert_eq!(pad_short_xref_entries(&once), Ok(once.clone()));
    let bytes = b"1 0 obj\nxref\r\n  0 +1 \r\n0000000000 65535 f\n3 1\n0000000010 00000 n\ntrailer<<>>";
    let once = pad_short_xref_entries(bytes).unwrap();
    assert_ne!(once, bytes.to_vec());
    assert_eq!(pad_short_xref_entries(&once), Ok(once.clone()));
    // But for a header that begins with the keyword, and is a section once it
    // stands at the start of a line.
    let once = pad_short_xref_entries(b"1 0 obj\nxref\n xref 1\n0000000000 65535 f\ntrailer");
    assert_eq!(once, Ok(b"1 0 obj\nxref\nxref 1\n0000000000 65535 f \ntrailer".to_vec()));
    assert!(pad_short_xref_entries(&once.unwrap()).is_err());
}
