//! That padding the cross-reference entries of a file twice is padding them once.

use crate::bytes;
use crate::repair;
use crate::text;
use vstd::prelude::*;
use vstd::string::StringSliceAdditionalSpecFns;

verus! {

/// No subsection header from index `i` on begins with `xref`.
pub open spec fn headers_are_no_sections(b: Seq<u8>, i: int) -> bool
    decreases b.len() - i,
{
    let j = repair::after_blank(b, i);
    if i < 0 || i > b.len() || bytes::occurs_at(b, "trailer".spec_bytes(), j) {
        true
    } else {
        match repair::section_header(b, j) {
            Err(_) => true,
            Ok((header, count, end)) => !bytes::occurs_at(header, "xref".spec_bytes(), 0)
                && match repair::padded_entries(b, end, count) {
                Err(_) => true,
                Ok((_, next)) => {
                    proof {
                        repair::lemma_after_blank(b, i);
                        repair::lemma_line_end(b, j);
                        repair::lemma_padded_entries(b, end, count);
                    }
                    headers_are_no_sections(b, next)
                },
            },
        }
    }
}

/// A blank byte.
spec fn is_blank(c: u8) -> bool {
    repair::is_eol(c) || c == 0x20
}

/// Blanks are passed over up to a byte that is none.
proof fn lemma_blank_until(b: Seq<u8>, q: int, p: int)
    requires
        0 <= q <= p < b.len(),
        forall|k: int| q <= k < p ==> is_blank(#[trigger] b[k]),
        !is_blank(b[p]),
    ensures
        repair::after_blank(b, q) == p,
    decreases p - q,
{
    if q < p {
        assert(is_blank(b[q]));
        lemma_blank_until(b, q + 1, p);
    }
}

/// A line ends at its first end-of-line byte.
proof fn lemma_line_until(b: Seq<u8>, i: int, e: int)
    requires
        0 <= i <= e < b.len(),
        forall|k: int| i <= k < e ==> !repair::is_eol(#[trigger] b[k]),
        repair::is_eol(b[e]),
    ensures
        repair::line_end(b, i) == Some(e),
    decreases e - i,
{
    if i < e {
        lemma_line_until(b, i + 1, e);
    }
}

/// Padded entries pad to themselves.
proof fn lemma_entries_again(b: Seq<u8>, i: int, count: nat, out: Seq<u8>, q: int, p: int)
    requires
        0 <= i <= b.len(),
        repair::padded_entries(b, i, count) is Ok,
        0 <= q <= p,
        p + 20 * count <= out.len(),
        out.subrange(p, p + 20 * count) == repair::padded_entries(b, i, count)->Ok_0.0,
        forall|k: int| q <= k < p ==> is_blank(#[trigger] out[k]),
    ensures
        repair::padded_entries(out, q, count) is Ok,
        repair::padded_entries(out, q, count)->Ok_0.0 == repair::padded_entries(b, i, count)->Ok_0.0,
        q <= repair::padded_entries(out, q, count)->Ok_0.1 <= p + 20 * count,
        forall|k: int|
            repair::padded_entries(out, q, count)->Ok_0.1 <= k < p + 20 * count ==> is_blank(
                #[trigger] out[k],
            ),
    decreases count,
{
    repair::lemma_padded_entries(b, i, count);
    if count > 0 {
        repair::lemma_keywords();
        repair::lemma_after_blank(b, i);
        let j = repair::after_blank(b, i);
        let es = repair::padded_entries(b, i, count)->Ok_0.0;
        let rest = repair::padded_entries(b, j + 18, (count - 1) as nat)->Ok_0.0;
        let entry = b.subrange(j, j + 18);
        assert(repair::is_entry(entry));
        assert(es == entry + " \n".spec_bytes() + rest);
        assert forall|k: int| 0 <= k < 20 * count implies #[trigger] out[p + k] == es[k] by {
            assert(out.subrange(p, p + 20 * count)[k] == out[p + k]);
        }
        assert(out.subrange(p, p + 18) =~= entry) by {
            assert forall|k: int| 0 <= k < 18 implies out.subrange(p, p + 18)[k] == entry[k] by {
                assert(out[p + k] == es[k]);
            }
        }
        assert(bytes::is_digit(out[p])) by {
            assert(out[p + 0] == es[0]);
            assert(entry.subrange(0, 10)[0] == entry[0]);
        }
        lemma_blank_until(out, q, p);
        assert(out[p + 18] == es[18] && out[p + 19] == es[19]);
        assert forall|k: int| p + 18 <= k < p + 20 implies is_blank(#[trigger] out[k]) by {
            assert(k == p + 18 || k == p + 19);
        }
        repair::lemma_padded_entries(b, j + 18, (count - 1) as nat);
        assert(out.subrange(p + 20, p + 20 + 20 * (count - 1)) =~= rest) by {
            assert forall|k: int| 0 <= k < rest.len() implies out.subrange(
                p + 20,
                p + 20 + 20 * (count - 1),
            )[k] == rest[k] by {
                assert(out[p + (20 + k)] == es[20 + k]);
            }
        }
        lemma_entries_again(b, j + 18, (count - 1) as nat, out, p + 18, p + 20);
    } else {
        assert(repair::padded_entries(out, q, count)->Ok_0.0 =~= repair::padded_entries(b, i, count)->Ok_0.0);
    }
}

/// The bytes of two texts, one after the other.
proof fn lemma_encode_both(a: Seq<char>, b: Seq<char>)
    ensures
        vstd::utf8::encode_utf8(a + b) == vstd::utf8::encode_utf8(a) + vstd::utf8::encode_utf8(b),
    decreases a.len(),
{
    if a.len() == 0 {
        assert(a + b =~= b);
        assert(vstd::utf8::encode_utf8(a) =~= Seq::<u8>::empty());
    } else {
        assert((a + b).drop_first() =~= a.drop_first() + b);
        lemma_encode_both(a.drop_first(), b);
    }
    assert(vstd::utf8::encode_utf8(a + b) =~= vstd::utf8::encode_utf8(a) + vstd::utf8::encode_utf8(
        b,
    ));
}

/// Where a trimmed text begins in the text.
spec fn trimmed_from(s: Seq<char>) -> int {
    s.len() - text::trim_front(s).len()
}

/// What is trimmed in front is a tail of the text.
proof fn lemma_front_is_tail(s: Seq<char>)
    ensures
        text::trim_front(s).len() <= s.len(),
        text::trim_front(s) == s.skip(trimmed_from(s)),
    decreases s.len(),
{
    if s.len() > 0 && text::is_white(s[0]) {
        lemma_front_is_tail(s.drop_first());
        assert(s.skip(trimmed_from(s)) =~= s.drop_first().skip(trimmed_from(s.drop_first())));
    } else {
        assert(s.skip(0) =~= s);
    }
}

/// What is trimmed at the back is a head of the text.
proof fn lemma_back_is_head(s: Seq<char>)
    ensures
        text::trim_back(s).len() <= s.len(),
        text::trim_back(s) == s.take(text::trim_back(s).len() as int),
    decreases s.len(),
{
    if s.len() > 0 && text::is_white(s.last()) {
        lemma_back_is_head(s.drop_last());
        let n = text::trim_back(s).len() as int;
        assert(s.take(n) =~= s.drop_last().take(n));
    } else {
        assert(s.take(s.len() as int) =~= s);
    }
}

/// Where the text of the header on the line at `j` begins.
spec fn header_from(b: Seq<u8>, j: int) -> int {
    let chars = vstd::utf8::decode_utf8(b.subrange(j, repair::line_end(b, j).unwrap()));
    j + vstd::utf8::encode_utf8(chars.take(trimmed_from(chars))).len()
}

/// No end of line lies in a line.
proof fn lemma_line_inside(b: Seq<u8>, i: int)
    ensures
        repair::line_end(b, i) matches Some(e) ==> forall|k: int| i <= k < e ==> !repair::is_eol(#[trigger] b[k]),
    decreases b.len() - i,
{
    if 0 <= i < b.len() && !repair::is_eol(b[i]) {
        lemma_line_inside(b, i + 1);
    }
}

/// The text of a header stands in its line, and does not begin with a blank.
proof fn lemma_header(b: Seq<u8>, j: int)
    requires
        0 <= j <= b.len(),
        repair::section_header(b, j) is Ok,
    ensures
        ({
            let h = repair::section_header(b, j)->Ok_0.0;
            let from = header_from(b, j);
            &&& h.len() > 0
            &&& !is_blank(h[0])
            &&& j <= from
            &&& from + h.len() <= b.len()
            &&& b.subrange(from, from + h.len()) == h
            &&& forall|k: int| 0 <= k < h.len() ==> !repair::is_eol(#[trigger] h[k])
        }),
{
    repair::lemma_line_end(b, j);
    lemma_line_inside(b, j);
    let e = repair::line_end(b, j).unwrap();
    let line = b.subrange(j, e);
    let chars = vstd::utf8::decode_utf8(line);
    let front = text::trim_front(chars);
    let t = text::trimmed(chars);
    let h = vstd::utf8::encode_utf8(t);
    let before = chars.take(trimmed_from(chars));
    let after = front.skip(t.len() as int);
    text::lemma_trimmed(chars);
    lemma_front_is_tail(chars);
    lemma_back_is_head(front);
    vstd::utf8::decode_utf8_encode_utf8(line);
    assert(chars =~= before + (t + after));
    lemma_encode_both(before, t + after);
    lemma_encode_both(t, after);
    let x = vstd::utf8::encode_utf8(before);
    assert(line == x + (h + vstd::utf8::encode_utf8(after)));
    let from = header_from(b, j);
    assert forall|k: int| 0 <= k < h.len() implies #[trigger] h[k] == b[from + k] by {
        assert(line[x.len() + k] == b[j + (x.len() + k)]);
    }
    assert(b.subrange(from, from + h.len()) =~= h);
    if t.len() == 0 {
        assert(text::words(t).len() == 0);
    }
    vstd::utf8::encode_utf8_first_scalar(t);
    let c = h[0];
    if is_blank(c) {
        assert(c <= 0x7F ==> (c & 0x7F) == c) by (bit_vector);
        assert(t[0] as u32 == c as u32);
    }
    assert forall|k: int| 0 <= k < h.len() implies !repair::is_eol(#[trigger] h[k]) by {
        assert(h[k] == b[from + k]);
    }
}

/// A header reads the same where its text stands alone on a line.
proof fn lemma_header_again(b: Seq<u8>, j: int, out: Seq<u8>, p: int)
    requires
        0 <= j <= b.len(),
        repair::section_header(b, j) is Ok,
        0 <= p,
        p + repair::section_header(b, j)->Ok_0.0.len() < out.len(),
        out.subrange(p, p + repair::section_header(b, j)->Ok_0.0.len()) == repair::section_header(b, j)->Ok_0.0,
        out[p + repair::section_header(b, j)->Ok_0.0.len()] == 0x0A,
    ensures
        repair::section_header(out, p) == Ok::<(Seq<u8>, nat, int), Seq<char>>(
            (
                repair::section_header(b, j)->Ok_0.0,
                repair::section_header(b, j)->Ok_0.1,
                p + repair::section_header(b, j)->Ok_0.0.len(),
            ),
        ),
{
    let h = repair::section_header(b, j)->Ok_0.0;
    lemma_header(b, j);
    let line = b.subrange(j, repair::line_end(b, j).unwrap());
    let t = text::trimmed(vstd::utf8::decode_utf8(line));
    text::lemma_trimmed(vstd::utf8::decode_utf8(line));
    vstd::utf8::encode_utf8_valid_utf8(t);
    vstd::utf8::encode_utf8_decode_utf8(t);
    let e = p + h.len();
    assert forall|k: int| p <= k < e implies !repair::is_eol(#[trigger] out[k]) by {
        assert(out.subrange(p, e)[k - p] == out[k]);
        assert(!repair::is_eol(h[k - p]));
    }
    lemma_line_until(out, p, e);
}

/// A padded table pads to itself.
proof fn lemma_sections_again(b: Seq<u8>, i: int, out: Seq<u8>, q: int, p: int)
    requires
        0 <= i <= b.len(),
        repair::padded_sections(b, i) is Ok,
        0 <= q <= p <= out.len(),
        out.skip(p) == repair::padded_sections(b, i)->Ok_0,
        forall|k: int| q <= k < p ==> is_blank(#[trigger] out[k]),
    ensures
        repair::padded_sections(out, q) == repair::padded_sections(b, i),
    decreases b.len() - i,
{
    repair::lemma_keywords();
    reveal_strlit("trailer");
    vstd::string::is_ascii_spec_bytes("trailer");
    repair::lemma_after_blank(b, i);
    let j = repair::after_blank(b, i);
    let rest = repair::padded_sections(b, i)->Ok_0;
    assert forall|k: int| 0 <= k < rest.len() implies #[trigger] rest[k] == out[p + k] by {
        assert(out.skip(p)[k] == out[p + k]);
    }
    if bytes::occurs_at(b, "trailer".spec_bytes(), j) {
        assert(rest == b.skip(j));
        assert forall|k: int| 0 <= k < 7 implies #[trigger] out[p + k] == b[j + k] by {
            assert(rest[k] == out[p + k]);
        }
        assert(out.subrange(p, p + 7) =~= b.subrange(j, j + 7));
        assert(b.subrange(j, j + 7)[0] == b[j]);
        assert(out[p + 0] == b[j + 0]);
        lemma_blank_until(out, q, p);
    } else {
        let (h, count, end) = repair::section_header(b, j)->Ok_0;
        let (es, next) = repair::padded_entries(b, end, count)->Ok_0;
        repair::lemma_line_end(b, j);
        repair::lemma_padded_entries(b, end, count);
        let tail = repair::padded_sections(b, next)->Ok_0;
        assert(rest == h.push(0x0A) + es + tail);
        let n = h.len() as int;
        assert(out.subrange(p, p + n) =~= h) by {
            assert forall|k: int| 0 <= k < n implies out.subrange(p, p + n)[k] == h[k] by {
                assert(rest[k] == out[p + k]);
            }
        }
        assert(out[p + n] == 0x0A) by {
            assert(rest[n] == out[p + n]);
        }
        lemma_header(b, j);
        lemma_header_again(b, j, out, p);
        assert(out[p + 0] == rest[0] && rest[0] == h[0]);
        lemma_blank_until(out, q, p);
        assert(out.subrange(p + n + 1, p + n + 1 + 20 * count) =~= es) by {
            assert forall|k: int| 0 <= k < es.len() implies out.subrange(
                p + n + 1,
                p + n + 1 + 20 * count,
            )[k] == es[k] by {
                assert(rest[n + 1 + k] == out[p + (n + 1 + k)]);
            }
        }
        lemma_entries_again(b, end, count, out, p + n, p + n + 1);
        let next2 = repair::padded_entries(out, p + n, count)->Ok_0.1;
        let p2 = p + n + 1 + 20 * count;
        assert(out.skip(p2) =~= tail) by {
            assert forall|k: int| 0 <= k < tail.len() implies out.skip(p2)[k] == tail[k] by {
                assert(rest[n + 1 + 20 * count + k] == out[p + (n + 1 + 20 * count + k)]);
            }
        }
        lemma_sections_again(b, next, out, next2, p2);
    }
}

/// A byte of a padded entry.
spec fn is_dull(c: u8) -> bool {
    bytes::is_digit(c) || c == 0x20 || c == 0x0A || c == 0x6E || c == 0x66
}

/// Where the trailer stands that ends the table from index `i` on.
spec fn trailer_at(b: Seq<u8>, i: int) -> int
    decreases b.len() - i,
{
    let j = repair::after_blank(b, i);
    if i < 0 || i > b.len() || bytes::occurs_at(b, "trailer".spec_bytes(), j) {
        j
    } else {
        match repair::section_header(b, j) {
            Err(_) => j,
            Ok((header, count, end)) => match repair::padded_entries(b, end, count) {
                Err(_) => j,
                Ok((_, next)) => {
                    proof {
                        repair::lemma_after_blank(b, i);
                        repair::lemma_line_end(b, j);
                        repair::lemma_padded_entries(b, end, count);
                    }
                    trailer_at(b, next)
                },
            },
        }
    }
}

/// Padded entries are made of dull bytes.
proof fn lemma_entries_dull(b: Seq<u8>, i: int, count: nat)
    requires
        0 <= i <= b.len(),
        repair::padded_entries(b, i, count) is Ok,
    ensures
        forall|k: int|
            0 <= k < repair::padded_entries(b, i, count)->Ok_0.0.len() ==> is_dull(
                #[trigger] repair::padded_entries(b, i, count)->Ok_0.0[k],
            ),
    decreases count,
{
    if count > 0 {
        repair::lemma_keywords();
        repair::lemma_after_blank(b, i);
        let j = repair::after_blank(b, i);
        let e = b.subrange(j, j + 18);
        lemma_entries_dull(b, j + 18, (count - 1) as nat);
        assert forall|k: int| 0 <= k < 18 implies is_dull(#[trigger] e[k]) by {
            if k < 10 {
                assert(e.subrange(0, 10)[k] == e[k]);
            } else if 11 <= k < 16 {
                assert(e.subrange(11, 16)[k - 11] == e[k]);
            }
        }
    }
}

/// Neither an object nor a section begins at `k`.
spec fn is_quiet(s: Seq<u8>, k: int) -> bool {
    &&& !bytes::occurs_at(s, "obj".spec_bytes(), k)
    &&& bytes::occurs_at(s, "xref".spec_bytes(), k) ==> k > 0 && !repair::is_eol(s[k - 1])
}

/// The words that are looked for in a table.
proof fn lemma_table_words()
    ensures
        "obj".spec_bytes() == seq![0x6Fu8, 0x62, 0x6A],
        "xref".spec_bytes() == seq![0x78u8, 0x72, 0x65, 0x66],
        "xref\n".spec_bytes() == seq![0x78u8, 0x72, 0x65, 0x66, 0x0A],
        "trailer".spec_bytes().len() == 7,
        "trailer".spec_bytes()[0] == 0x74,
{
    reveal_strlit("obj");
    reveal_strlit("xref");
    reveal_strlit("xref\n");
    reveal_strlit("trailer");
    vstd::string::is_ascii_spec_bytes("obj");
    vstd::string::is_ascii_spec_bytes("xref");
    vstd::string::is_ascii_spec_bytes("xref\n");
    vstd::string::is_ascii_spec_bytes("trailer");
    assert("obj".spec_bytes() =~= seq![0x6Fu8, 0x62, 0x6A]);
    assert("xref".spec_bytes() =~= seq![0x78u8, 0x72, 0x65, 0x66]);
    assert("xref\n".spec_bytes() =~= seq![0x78u8, 0x72, 0x65, 0x66, 0x0A]);
}

/// A subsection is quiet, if what follows it is.
proof fn lemma_section_quiet(b: Seq<u8>, j: int, es: Seq<u8>, tail: Seq<u8>, k: int)
    requires
        0 <= j <= b.len(),
        repair::section_header(b, j) is Ok,
        !bytes::occurs_at(repair::section_header(b, j)->Ok_0.0, "xref".spec_bytes(), 0),
        forall|y: int| j <= y ==> !#[trigger] bytes::occurs_at(b, "obj".spec_bytes(), y),
        forall|k: int| 0 <= k < es.len() ==> is_dull(#[trigger] es[k]),
        ({
            let n = repair::section_header(b, j)->Ok_0.0.len() + 1 + es.len();
            0 <= k && (k >= n ==> is_quiet(tail, k - n))
        }),
    ensures
        is_quiet(repair::section_header(b, j)->Ok_0.0.push(0x0A) + es + tail, k),
{
    let h = repair::section_header(b, j)->Ok_0.0;
    let rest = h.push(0x0A) + es + tail;
    let n = h.len() + 1 + es.len();
    lemma_header(b, j);
    lemma_table_words();
    let from = header_from(b, j);
    let w = rest.subrange(k, k + 3);
    let v = rest.subrange(k, k + 4);
    if bytes::occurs_at(rest, "obj".spec_bytes(), k) {
        assert(w[0] == rest[k] && w[1] == rest[k + 1] && w[2] == rest[k + 2]);
        if k < h.len() {
            assert(k + 3 <= h.len());
            assert(b.subrange(from + k, from + k + 3) =~= w) by {
                assert forall|x: int| 0 <= x < 3 implies b.subrange(from + k, from + k + 3)[x]
                    == w[x] by {
                    assert(b.subrange(from, from + h.len())[k + x] == b[from + k + x]);
                }
            }
            assert(bytes::occurs_at(b, "obj".spec_bytes(), from + k));
        } else if h.len() < k < n {
            assert(rest[k] == es[k - h.len() - 1]);
        } else if k >= n {
            assert(tail.subrange(k - n, k - n + 3) =~= w);
        }
    }
    if bytes::occurs_at(rest, "xref".spec_bytes(), k) {
        assert(v[0] == rest[k] && v[1] == rest[k + 1] && v[2] == rest[k + 2] && v[3] == rest[k
            + 3]);
        if k < h.len() {
            assert(k + 4 <= h.len());
            if k == 0 {
                assert(h.subrange(0, 4) =~= v);
            } else {
                assert(rest[k - 1] == h[k - 1]);
            }
        } else if h.len() < k < n {
            assert(rest[k] == es[k - h.len() - 1]);
        } else if k >= n {
            assert(tail.subrange(k - n, k - n + 4) =~= v);
            assert(k > n);
            assert(rest[k - 1] == tail[k - n - 1]);
        }
    }
}

/// A padded table is quiet up to the trailer, which is as it stands in the file.
#[verifier::rlimit(40)]
proof fn lemma_sections_shape(b: Seq<u8>, i: int)
    requires
        0 <= i <= b.len(),
        repair::padded_sections(b, i) is Ok,
        headers_are_no_sections(b, i),
        forall|y: int| i <= y ==> !#[trigger] bytes::occurs_at(b, "obj".spec_bytes(), y),
    ensures
        i <= trailer_at(b, i),
        bytes::occurs_at(b, "trailer".spec_bytes(), trailer_at(b, i)),
        repair::padded_sections(b, i)->Ok_0.len() >= b.len() - trailer_at(b, i),
        ({
            let rest = repair::padded_sections(b, i)->Ok_0;
            let n = rest.len() - (b.len() - trailer_at(b, i));
            &&& rest.skip(n) == b.skip(trailer_at(b, i))
            &&& forall|k: int| 0 <= k < n ==> #[trigger] is_quiet(rest, k)
        }),
    decreases b.len() - i,
{
    repair::lemma_keywords();
    repair::lemma_after_blank(b, i);
    let j = repair::after_blank(b, i);
    let rest = repair::padded_sections(b, i)->Ok_0;
    if bytes::occurs_at(b, "trailer".spec_bytes(), j) {
        assert(rest.skip(0) =~= rest);
    } else {
        let (h, count, end) = repair::section_header(b, j)->Ok_0;
        let (es, next) = repair::padded_entries(b, end, count)->Ok_0;
        repair::lemma_line_end(b, j);
        repair::lemma_padded_entries(b, end, count);
        lemma_sections_shape(b, next);
        lemma_entries_dull(b, end, count);
        let tail = repair::padded_sections(b, next)->Ok_0;
        let t = trailer_at(b, i);
        let n = rest.len() - (b.len() - t);
        let m = tail.len() - (b.len() - t);
        assert(rest == h.push(0x0A) + es + tail);
        assert(rest.skip(n) =~= tail.skip(m));
        assert forall|k: int| 0 <= k < n implies #[trigger] is_quiet(rest, k) by {
            let x = k - (h.len() + 1 + es.len());
            if x >= 0 {
                assert(is_quiet(tail, x));
            }
            lemma_section_quiet(b, j, es, tail, k);
        }
    }
}

/// A file and its padded form: they agree up to and with the keyword at `x`, then
/// comes a line feed and a table that is quiet up to the trailer.
spec fn is_padded_form(b: Seq<u8>, out: Seq<u8>, x: int) -> bool {
    let t = trailer_at(b, x + 4);
    let rest = out.skip(x + 5);
    let n = rest.len() - (b.len() - t);
    &&& 0 <= x && x + 4 <= t && t + 7 <= b.len()
    &&& x + 5 + n + (b.len() - t) == out.len()
    &&& n >= 0
    &&& forall|k: int| 0 <= k < x + 4 ==> #[trigger] out[k] == b[k]
    &&& out[x + 4] == 0x0A
    &&& rest.skip(n) == b.skip(t)
    &&& forall|k: int| 0 <= k < n ==> #[trigger] is_quiet(rest, k)
    &&& b[t] == 0x74
    &&& bytes::occurs_at(b, "xref".spec_bytes(), x)
}

/// The section begins where it did, and no other does.
#[verifier::rlimit(40)]
proof fn lemma_same_section(b: Seq<u8>, out: Seq<u8>, x: int)
    requires
        is_padded_form(b, out, x),
        repair::next_xref(b, 0) == Some(x),
        repair::next_xref(b, x + 1) is None,
    ensures
        repair::next_xref(out, 0) == Some(x),
        repair::next_xref(out, x + 1) is None,
{
    lemma_table_words();
    repair::lemma_next_xref(b, 0);
    repair::lemma_next_xref(b, x + 1);
    let t = trailer_at(b, x + 4);
    let rest = out.skip(x + 5);
    let n = rest.len() - (b.len() - t);
    let u = x + 5 + n;
    assert(out.subrange(x, x + 4) =~= b.subrange(x, x + 4));
    assert(repair::is_xref_start(out, x));
    assert forall|y: int| repair::is_xref_start(out, y) implies y == x by {
        let w = out.subrange(y, y + 4);
        assert(w[0] == out[y] && w[1] == out[y + 1] && w[2] == out[y + 2] && w[3] == out[y + 3]);
        if y < x {
            assert(b.subrange(y, y + 4) =~= w);
            assert(repair::is_xref_start(b, y));
        } else if x < y < x + 4 {
            assert(b.subrange(x, x + 4)[y - x] == out[y]);
        } else if x + 4 < y < u {
            let k = y - x - 5;
            assert(rest.subrange(k, k + 4) =~= w);
            assert(is_quiet(rest, k));
            assert(rest[k - 1] == out[y - 1]);
        } else if y >= u {
            let z = y - u + t;
            assert forall|k: int| 0 <= k < 4 implies #[trigger] w[k] == b[z + k] by {
                assert(rest.skip(n)[y - u + k] == out[y + k]);
                assert(b.skip(t)[y - u + k] == b[z + k]);
            }
            assert(b.subrange(z, z + 4) =~= w);
            if y > u {
                assert(rest.skip(n)[y - u - 1] == out[y - 1]);
                assert(b.skip(t)[y - u - 1] == b[z - 1]);
                assert(repair::is_xref_start(b, z));
            }
        }
    }
    repair::lemma_next_xref(out, 0);
    repair::lemma_next_xref(out, x + 1);
}

/// The last object stands where it did.
proof fn lemma_same_objects(b: Seq<u8>, out: Seq<u8>, x: int, o: int)
    requires
        is_padded_form(b, out, x),
        bytes::last_before(b, "obj".spec_bytes(), b.len() as int) == Some(o),
        o <= x,
    ensures
        bytes::last_before(out, "obj".spec_bytes(), out.len() as int) matches Some(y) && y <= x,
{
    lemma_table_words();
    bytes::lemma_last_before(b, "obj".spec_bytes(), b.len() as int);
    let t = trailer_at(b, x + 4);
    let rest = out.skip(x + 5);
    let n = rest.len() - (b.len() - t);
    let u = x + 5 + n;
    assert(b.subrange(o, o + 3)[0] == b[o]);
    assert(b.subrange(x, x + 4)[0] == b[x]);
    assert(out.subrange(o, o + 3) =~= b.subrange(o, o + 3));
    assert(bytes::occurs_at(out, "obj".spec_bytes(), o));
    assert forall|y: int| bytes::occurs_at(out, "obj".spec_bytes(), y) implies y <= x by {
        let w = out.subrange(y, y + 3);
        assert(w[0] == out[y] && w[1] == out[y + 1] && w[2] == out[y + 2]);
        if x < y < x + 4 {
            assert(b.subrange(x, x + 4)[y - x] == out[y]);
        } else if x + 4 < y < u {
            let k = y - x - 5;
            assert(rest.subrange(k, k + 3) =~= w);
            assert(is_quiet(rest, k));
        } else if y >= u {
            let z = y - u + t;
            assert forall|k: int| 0 <= k < 3 implies #[trigger] w[k] == b[z + k] by {
                assert(rest.skip(n)[y - u + k] == out[y + k]);
                assert(b.skip(t)[y - u + k] == b[z + k]);
            }
            assert(b.subrange(z, z + 3) =~= w);
            assert(bytes::occurs_at(b, "obj".spec_bytes(), z));
            assert(z < b.len());
        }
    }
    bytes::lemma_last_before(out, "obj".spec_bytes(), out.len() as int);
}

/// Padding gives the padded form.
#[verifier::rlimit(40)]
proof fn lemma_padded_form(b: Seq<u8>, out: Seq<u8>, x: int)
    requires
        repair::padded_xref(b) == Ok::<Seq<u8>, Seq<char>>(out),
        repair::next_xref(b, 0) == Some(x),
        headers_are_no_sections(b, x + 4),
    ensures
        is_padded_form(b, out, x),
        repair::padded_sections(b, x + 4) == Ok::<Seq<u8>, Seq<char>>(out.skip(x + 5)),
{
    lemma_table_words();
    repair::lemma_next_xref(b, 0);
    bytes::lemma_last_before(b, "obj".spec_bytes(), b.len() as int);
    let rest = repair::padded_sections(b, x + 4)->Ok_0;
    assert forall|y: int| x + 4 <= y implies !#[trigger] bytes::occurs_at(
        b,
        "obj".spec_bytes(),
        y,
    ) by {
        if bytes::occurs_at(b, "obj".spec_bytes(), y) {
            assert(y < b.len());
        }
    }
    lemma_sections_shape(b, x + 4);
    assert(out == b.take(x) + "xref\n".spec_bytes() + rest);
    assert(b.subrange(x, x + 4) == "xref".spec_bytes());
    assert forall|k: int| 0 <= k < x + 4 implies #[trigger] out[k] == b[k] by {
        if k >= x {
            assert(b.subrange(x, x + 4)[k - x] == b[k]);
        }
    }
    assert(out.skip(x + 5) =~= rest);
    let t = trailer_at(b, x + 4);
    assert(b.subrange(t, t + 7)[0] == b[t]);
}

/// Padding a padded file changes nothing, where no subsection header begins with
/// `xref`; one that does would read as a section of its own at the start of a line.
#[verifier::rlimit(40)]
pub proof fn law_second_padding_changes_nothing(b: Seq<u8>, out: Seq<u8>, x: int)
    requires
        repair::padded_xref(b) == Ok::<Seq<u8>, Seq<char>>(out),
        repair::next_xref(b, 0) == Some(x),
        headers_are_no_sections(b, x + 4),
    ensures
        repair::padded_xref(out) == Ok::<Seq<u8>, Seq<char>>(out),
{
    let o = bytes::last_before(b, "obj".spec_bytes(), b.len() as int).unwrap();
    lemma_padded_form(b, out, x);
    lemma_same_section(b, out, x);
    lemma_same_objects(b, out, x, o);
    assert(is_blank(out[x + 4]));
    lemma_sections_again(b, x + 4, out, x + 4, x + 5);
    lemma_table_words();
    let rest = out.skip(x + 5);
    assert forall|k: int| x <= k < x + 4 implies #[trigger] out[k] == "xref".spec_bytes()[k
        - x] by {
        assert(b.subrange(x, x + 4)[k - x] == b[k]);
    }
    assert(out.take(x) + "xref\n".spec_bytes() + rest =~= out);
}

} // verus!
