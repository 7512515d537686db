//! How a stream and a cross-reference table are read where they are repaired.

use crate::bytes;
use crate::name_laws;
use crate::repair;
use crate::text;
use vstd::prelude::*;
use vstd::string::StringSliceAdditionalSpecFns;

verus! {

/// No byte of a string is `c`.
pub open spec fn free_of(s: Seq<u8>, c: u8) -> bool {
    forall|i: int| 0 <= i < s.len() ==> #[trigger] s[i] != c
}

/// A number is written out of digits.
pub open spec fn is_number(d: Seq<u8>) -> bool {
    d.len() > 0 && forall|i: int| 0 <= i < d.len() ==> 0x30 <= #[trigger] d[i] <= 0x39
}

/// What may stand between the keyword of a stream and its data: CR and LF, LF, or CR, or
/// nothing where the data does not begin like an end of line.
pub open spec fn ends_keyword(eol: Seq<u8>, data: Seq<u8>) -> bool {
    ||| eol == seq![0x0Du8, 0x0Au8]
    ||| eol == seq![0x0Au8]
    ||| eol == seq![0x0Du8] && (data.len() == 0 || data[0] != 0x0A)
    ||| eol == Seq::<u8>::empty() && (data.len() == 0 || data[0] != 0x0A && data[0] != 0x0D)
}

/// What stands before the length of a stream: an open dictionary, and the key with at
/// least one space behind it.
pub open spec fn before_length(head: Seq<u8>, gap: Seq<u8>, blanks: nat) -> Seq<u8> {
    head + "<".spec_bytes() + gap + "/Length".spec_bytes() + repair::spaces(blanks)
}

/// What stands behind the length of a stream: the rest of its dictionary, and the data
/// between its keywords.
pub open spec fn behind_length(mid: Seq<u8>, eol: Seq<u8>, data: Seq<u8>, post: Seq<u8>) -> Seq<u8> {
    mid + "stream".spec_bytes() + eol + data + "endstream".spec_bytes() + post
}

/// The parts of a file around the length of a stream.
pub open spec fn is_stream_text(
    gap: Seq<u8>,
    blanks: nat,
    num: Seq<u8>,
    mid: Seq<u8>,
    eol: Seq<u8>,
    data: Seq<u8>,
) -> bool {
    &&& free_of(gap, 0x3C) && free_of(gap, 0x2F)
    &&& blanks > 0
    &&& is_number(num)
    &&& free_of(mid, 0x3C)
    &&& mid.len() > 0 && !(0x30 <= mid[0] <= 0x39)
    &&& ends_keyword(eol, data)
    &&& forall|j: int|
        0 <= j < data.len() ==> !(#[trigger] bytes::occurs_at(
            data + "endstream".spec_bytes(),
            "endstream".spec_bytes(),
            j,
        ))
}

/// The first key is the one that is written.
proof fn lemma_key_at(s: Seq<u8>, from: int, l: int, to: int)
    requires
        0 <= from <= l,
        l + 7 <= to,
        repair::is_length_key(s, l),
        forall|j: int| from <= j < l ==> #[trigger] s[j] != 0x2F,
    ensures
        repair::length_key(s, from, to) == Some(l),
    decreases l - from,
{
    if from < l {
        reveal_strlit("/Length");
        vstd::string::is_ascii_spec_bytes("/Length");
        if repair::is_length_key(s, from) {
            assert(s.subrange(from, from + 7)[0] == s[from]);
        }
        lemma_key_at(s, from + 1, l, to);
    }
}

/// Spaces end at the first byte that is none.
proof fn lemma_spaces_to(s: Seq<u8>, i: int, d: int)
    requires
        0 <= i <= d < s.len(),
        forall|j: int| i <= j < d ==> #[trigger] s[j] == 0x20,
        s[d] != 0x20,
    ensures
        repair::after_spaces(s, i) == d,
    decreases d - i,
{
    if i < d {
        assert(s[i] == 0x20);
        lemma_spaces_to(s, i + 1, d);
    }
}

/// A run of digits ends at the first byte that is none.
proof fn lemma_run_is(num: Seq<u8>, rest: Seq<u8>)
    requires
        forall|i: int| 0 <= i < num.len() ==> 0x30 <= #[trigger] num[i] <= 0x39,
        rest.len() > 0 ==> !(0x30 <= rest[0] <= 0x39),
    ensures
        bytes::digit_run(num + rest) == num.len(),
{
    let s = num + rest;
    bytes::lemma_digit_run(s);
    let n = bytes::digit_run(s);
    if n < num.len() {
        assert(s[n as int] == num[n as int]);
    }
    if n > num.len() {
        assert(s.take(n as int)[num.len() as int] == rest[0]);
    }
}

/// A stream is read by its text: its data lies between the end of line behind `stream`
/// and the next `endstream`, and its length is the number behind the `/Length` of the
/// dictionary before it.
#[verifier::rlimit(40)]
pub proof fn law_streams_are_read_by_their_text(
    head: Seq<u8>,
    gap: Seq<u8>,
    blanks: nat,
    num: Seq<u8>,
    mid: Seq<u8>,
    eol: Seq<u8>,
    data: Seq<u8>,
    post: Seq<u8>,
)
    requires
        is_stream_text(gap, blanks, num, mid, eol, data),
    ensures
        ({
            let a = before_length(head, gap, blanks);
            let s = a + num + behind_length(mid, eol, data, post);
            let d = a.len() as int;
            let kw = d + num.len() + mid.len();
            &&& bytes::occurs_at(s, "stream".spec_bytes(), kw)
            &&& repair::length_at(s, kw) == Some(d)
            &&& repair::number_len(s, d) == num.len()
            &&& repair::number_at(s, d) == bytes::decimal_value(num)
            &&& repair::data_start(s, kw) == kw + 6 + eol.len()
            &&& repair::data_end(s, kw) == Some(kw + 6 + eol.len() + data.len())
        }),
{
    repair::lemma_keywords();
    reveal_strlit("/Length");
    reveal_strlit("stream");
    reveal_strlit("endstream");
    reveal_strlit("<");
    vstd::string::is_ascii_spec_bytes("/Length");
    vstd::string::is_ascii_spec_bytes("stream");
    vstd::string::is_ascii_spec_bytes("endstream");
    vstd::string::is_ascii_spec_bytes("<");
    let key = "/Length".spec_bytes();
    let word = "stream".spec_bytes();
    let mark = "endstream".spec_bytes();
    let open = "<".spec_bytes();
    let sp = repair::spaces(blanks);
    let a = before_length(head, gap, blanks);
    let c = behind_length(mid, eol, data, post);
    let s = a + num + c;
    let d = a.len() as int;
    let kw = d + num.len() + mid.len();
    let o = head.len() as int;
    let l = o + 1 + gap.len();
    assert(d == l + 7 + blanks);
    assert(s.subrange(kw, kw + 6) =~= word);
    // The dictionary.
    assert(s.subrange(o, o + 1) =~= open);
    assert(bytes::occurs_at(s, open, o));
    bytes::lemma_last_before(s, open, kw);
    assert forall|j: int| o < j < kw implies s[j] != 0x3C by {
        if j < l {
            assert(s[j] == gap[j - o - 1]);
        } else if j < l + 7 {
            assert(s[j] == key[j - l]);
        } else if j < d {
            assert(s[j] == sp[j - l - 7]);
        } else if j < d + num.len() {
            assert(s[j] == num[j - d]);
        } else {
            assert(s[j] == mid[j - d - num.len()]);
        }
    }
    assert forall|j: int| o < j < kw implies !bytes::occurs_at(s, open, j) by {
        if bytes::occurs_at(s, open, j) {
            assert(s.subrange(j, j + 1)[0] == s[j]);
        }
    }
    assert(bytes::last_before(s, open, kw) == Some(o));
    // The key.
    assert(s.subrange(l, l + 7) =~= key);
    assert(s[l + 7] == sp[0]);
    assert(repair::is_length_key(s, l));
    assert forall|j: int| o <= j < l implies #[trigger] s[j] != 0x2F by {
        if j > o {
            assert(s[j] == gap[j - o - 1]);
        } else {
            assert(s[j] == open[0]);
        }
    }
    lemma_key_at(s, o, l, kw);
    assert forall|j: int| l + 7 <= j < d implies #[trigger] s[j] == 0x20 by {
        assert(s[j] == sp[j - l - 7]);
    }
    assert(s[d] == num[0]);
    lemma_spaces_to(s, l + 7, d);
    // The number.
    assert(s.skip(d) =~= num + c);
    assert(c[0] == mid[0]);
    lemma_run_is(num, c);
    assert(s.subrange(d, d + num.len()) =~= num);
    // The data.
    let p = kw + 6;
    let b = p + eol.len();
    assert(b == repair::data_start(s, kw)) by {
        if eol.len() > 0 {
            assert(s[p] == eol[0]);
        }
        if eol.len() > 1 {
            assert(s[p + 1] == eol[1]);
        }
        if data.len() > 0 {
            assert(s[b] == data[0]);
        } else {
            assert(s[b] == mark[0]);
        }
    }
    let e = b + data.len();
    assert(s.subrange(e, e + 9) =~= mark);
    assert(bytes::occurs_at(s, mark, e));
    bytes::lemma_first_at(s, mark, b);
    assert forall|j: int| b <= j < e implies !bytes::occurs_at(s, mark, j) by {
        if bytes::occurs_at(s, mark, j) {
            let t = data + mark;
            assert(!bytes::occurs_at(t, mark, j - b));
            assert(t.subrange(j - b, j - b + 9) =~= s.subrange(j, j + 9));
        }
    }
}

/// The key is `/Length` itself: what goes on with a letter, a digit or a sign is another
/// name, and a blank or the beginning of a value ends it.
pub proof fn law_longer_names_are_not_the_length(a: Seq<u8>, next: u8, rest: Seq<u8>)
    ensures
        next == 0x20 || next == 0x0A || next == 0x0D || next == 0x09 || next == 0x2F || next == 0x28
            || next == 0x5B || next == 0x3C || next == 0x3E ==> repair::is_length_key(
            a + "/Length".spec_bytes() + seq![next] + rest,
            a.len() as int,
        ),
        0x30 <= next <= 0x39 || 0x41 <= next <= 0x5A || 0x61 <= next <= 0x7A || next == 0x2D || next
            == 0x2E || next == 0x5F || next == 0x23 || next == 0x2B ==> !repair::is_length_key(
            a + "/Length".spec_bytes() + seq![next] + rest,
            a.len() as int,
        ),
{
    repair::lemma_keywords();
    let s = a + "/Length".spec_bytes() + seq![next] + rest;
    let n = a.len() as int;
    assert(s.subrange(n, n + 7) =~= "/Length".spec_bytes());
    assert(s[n + 7] == next);
}

/// A stream whose length is wrong gets the length of its data, written over the old one
/// and filled up with spaces; all else stays. One that has no room for it, or is right,
/// stays as it is.
pub proof fn law_wrong_lengths_are_corrected(
    head: Seq<u8>,
    gap: Seq<u8>,
    blanks: nat,
    num: Seq<u8>,
    mid: Seq<u8>,
    eol: Seq<u8>,
    data: Seq<u8>,
    post: Seq<u8>,
)
    requires
        is_stream_text(gap, blanks, num, mid, eol, data),
        mid.len() >= 3,
        mid.skip(mid.len() - 3) != "end".spec_bytes(),
        bytes::decimal_value(num) <= usize::MAX,
    ensures
        ({
            let a = before_length(head, gap, blanks);
            let c = behind_length(mid, eol, data, post);
            let right = bytes::decimal(data.len());
            let kw = a.len() + num.len() + mid.len();
            repair::corrected(a + num + c, kw as int) == if bytes::decimal_value(num) != data.len()
                && right.len() <= num.len() {
                a + right + repair::spaces((num.len() - right.len()) as nat) + c
            } else {
                a + num + c
            }
        }),
{
    repair::lemma_keywords();
    law_streams_are_read_by_their_text(head, gap, blanks, num, mid, eol, data, post);
    let a = before_length(head, gap, blanks);
    let c = behind_length(mid, eol, data, post);
    let s = a + num + c;
    let d = a.len() as int;
    let kw = d + num.len() + mid.len();
    assert(s.subrange(kw - 3, kw) =~= mid.skip(mid.len() - 3));
    assert(s.take(d) =~= a);
    assert(s.skip(d + num.len()) =~= c);
}

/// Only blanks: spaces and ends of line.
pub open spec fn all_blank(g: Seq<u8>) -> bool {
    forall|i: int|
        0 <= i < g.len() ==> (#[trigger] g[i] == 0x20 || g[i] == 0x0A || g[i] == 0x0D)
}

/// Blanks end at the first byte that is none.
proof fn lemma_blanks_to(b: Seq<u8>, i: int, g: Seq<u8>, rest: Seq<u8>)
    requires
        0 <= i <= b.len(),
        b.skip(i) == g + rest,
        all_blank(g),
        rest.len() > 0,
        rest[0] != 0x20 && rest[0] != 0x0A && rest[0] != 0x0D,
    ensures
        repair::after_blank(b, i) == i + g.len(),
        i + g.len() <= b.len(),
        b.skip(i + g.len()) == rest,
    decreases g.len(),
{
    assert(b.skip(i).len() == b.len() - i);
    assert(b[i] == b.skip(i)[0]);
    if g.len() > 0 {
        assert(b[i] == g[0]);
        assert(b.skip(i + 1) =~= b.skip(i).skip(1));
        assert((g + rest).skip(1) =~= g.skip(1) + rest);
        assert(all_blank(g.skip(1)));
        lemma_blanks_to(b, i + 1, g.skip(1), rest);
    } else {
        assert(g + rest =~= rest);
        assert(b[i] == rest[0]);
    }
}

/// An entry of a cross-reference table: ten digits, five digits, and `n` or `f`.
pub open spec fn entry_text(offset: Seq<u8>, generation: Seq<u8>, kind: u8) -> Seq<u8> {
    offset + " ".spec_bytes() + generation + " ".spec_bytes() + seq![kind]
}

/// The numbers and the letter of an entry are what they should be.
pub open spec fn is_entry_text(offset: Seq<u8>, generation: Seq<u8>, kind: u8) -> bool {
    is_number(offset) && offset.len() == 10 && is_number(generation) && generation.len() == 5 && (
    kind == 0x6E || kind == 0x66)
}

/// Entries are taken one by one, whatever blanks stand before them: each comes out as
/// its 18 bytes with a space and a line feed behind them.
pub proof fn law_entries_come_out_with_full_ends(
    b: Seq<u8>,
    i: int,
    g: Seq<u8>,
    offset: Seq<u8>,
    generation: Seq<u8>,
    kind: u8,
    rest: Seq<u8>,
    count: nat,
)
    requires
        0 <= i <= b.len(),
        b.skip(i) == g + entry_text(offset, generation, kind) + rest,
        all_blank(g),
        is_entry_text(offset, generation, kind),
    ensures
        repair::padded_entries(b, i, 0) == Ok::<(Seq<u8>, int), Seq<char>>((Seq::empty(), i)),
        ({
            let e = entry_text(offset, generation, kind);
            repair::padded_entries(b, i, count + 1) == match repair::padded_entries(
                b,
                i + g.len() + 18,
                count,
            ) {
                Ok((more, end)) => Ok((e + " \n".spec_bytes() + more, end)),
                Err(why) => Err::<(Seq<u8>, int), Seq<char>>(why),
            }
        }),
        b.skip(i + g.len() + 18) == rest,
{
    reveal_strlit(" ");
    vstd::string::is_ascii_spec_bytes(" ");
    let e = entry_text(offset, generation, kind);
    assert(e.len() == 18);
    assert(g + e + rest =~= g + (e + rest));
    assert(e[0] == offset[0]);
    lemma_blanks_to(b, i, g, e + rest);
    let j = i + g.len();
    assert(b.skip(j).len() == b.len() - j);
    assert(b.subrange(j, j + 18) =~= b.skip(j).take(18));
    assert((e + rest).take(18) =~= e);
    assert(b.skip(j + 18) =~= b.skip(j).skip(18));
    assert((e + rest).skip(18) =~= rest);
    assert(e.subrange(0, 10) =~= offset);
    assert(e.subrange(11, 16) =~= generation);
    assert(e[10] == 0x20 && e[16] == 0x20 && e[17] == kind);
    assert(repair::is_entry(e));
}

/// What is no entry is refused: too short, or not of the numbers and letters that an
/// entry has.
pub proof fn law_other_entries_are_refused(
    b: Seq<u8>,
    i: int,
    g: Seq<u8>,
    rest: Seq<u8>,
    count: nat,
)
    requires
        0 <= i <= b.len(),
        b.skip(i) == g + rest,
        all_blank(g),
        rest.len() > 0,
        rest[0] != 0x20 && rest[0] != 0x0A && rest[0] != 0x0D,
        rest.len() < 18 || !(exists|offset: Seq<u8>, generation: Seq<u8>, kind: u8| #[trigger]
            is_entry_text(offset, generation, kind) && rest.take(18) == entry_text(
                offset,
                generation,
                kind,
            )),
    ensures
        repair::padded_entries(b, i, count + 1) == Err::<(Seq<u8>, int), Seq<char>>(
            if rest.len() < 18 {
                "xref entry runs off the end"@
            } else {
                "xref entry is not `nnnnnnnnnn ggggg n`"@
            },
        ),
{
    reveal_strlit(" ");
    vstd::string::is_ascii_spec_bytes(" ");
    lemma_blanks_to(b, i, g, rest);
    let j = i + g.len();
    assert(b.skip(j).len() == b.len() - j);
    if rest.len() >= 18 {
        let e = b.subrange(j, j + 18);
        assert(e =~= rest.take(18));
        if repair::is_entry(e) {
            let offset = e.subrange(0, 10);
            let generation = e.subrange(11, 16);
            let kind = e[17];
            assert(is_number(offset) && is_number(generation));
            assert(is_entry_text(offset, generation, kind));
            assert(e =~= entry_text(offset, generation, kind));
        }
    }
}

/// ASCII as characters.
proof fn lemma_ascii_line(s: Seq<char>)
    requires
        forall|i: int| 0 <= i < s.len() ==> '\0' <= #[trigger] s[i] <= '\u{7f}',
    ensures
        vstd::utf8::encode_utf8(s).len() == s.len(),
        forall|i: int|
            0 <= i < s.len() ==> #[trigger] vstd::utf8::encode_utf8(s)[i] == s[i] as u8,
        vstd::utf8::valid_utf8(vstd::utf8::encode_utf8(s)),
        vstd::utf8::decode_utf8(vstd::utf8::encode_utf8(s)) == s,
{
    assert(vstd::utf8::is_ascii_chars(s));
    vstd::utf8::is_ascii_chars_encode_utf8(s);
    vstd::utf8::encode_utf8_valid_utf8(s);
    vstd::utf8::encode_utf8_decode_utf8(s);
}

/// A line ends at its first end-of-line byte.
proof fn lemma_line_to(b: Seq<u8>, i: int, e: int)
    requires
        0 <= i <= e < b.len(),
        b[e] == 0x0A || b[e] == 0x0D,
        forall|j: int| i <= j < e ==> #[trigger] b[j] != 0x0A && b[j] != 0x0D,
    ensures
        repair::line_end(b, i) == Some(e),
    decreases e - i,
{
    if i < e {
        assert(b[i] != 0x0A && b[i] != 0x0D);
        lemma_line_to(b, i + 1, e);
    }
}

/// A header of a subsection: the first object, a space, and how many there are.
pub open spec fn header_text(first: nat, count: nat) -> Seq<char> {
    name_laws::digits_of(first) + seq![' '] + name_laws::digits_of(count)
}

/// The header on a line is read as it is written.
#[verifier::rlimit(40)]
pub proof fn law_headers_are_read_as_written(
    b: Seq<u8>,
    i: int,
    first: nat,
    count: nat,
    eol: u8,
    rest: Seq<u8>,
)
    requires
        0 <= i <= b.len(),
        count > 0,
        count <= usize::MAX,
        eol == 0x0A || eol == 0x0D,
        b.skip(i) == vstd::utf8::encode_utf8(header_text(first, count)) + seq![eol] + rest,
    ensures
        repair::section_header(b, i) == Ok::<(Seq<u8>, nat, int), Seq<char>>(
            (
                vstd::utf8::encode_utf8(header_text(first, count)),
                count,
                i + header_text(first, count).len(),
            ),
        ),
{
    let x = name_laws::digits_of(first);
    let y = name_laws::digits_of(count);
    let t = header_text(first, count);
    name_laws::lemma_digits_of(first);
    name_laws::lemma_digits_of(count);
    name_laws::law_written_numbers_are_read_back(count);
    assert forall|k: int| 0 <= k < t.len() implies '\0' <= #[trigger] t[k] <= '\u{7f}' && (k != x.len()
        ==> text::is_digit_char(t[k])) by {
        if k < x.len() {
            assert(t[k] == x[k]);
        } else if k > x.len() {
            assert(t[k] == y[k - x.len() - 1]);
        }
    }
    lemma_ascii_line(t);
    let h = vstd::utf8::encode_utf8(t);
    let e = i + h.len();
    assert(b.skip(i).len() == b.len() - i);
    assert(b[e] == b.skip(i)[h.len() as int]);
    assert forall|j: int| i <= j < e implies #[trigger] b[j] != 0x0A && b[j] != 0x0D by {
        assert(b[j] == b.skip(i)[j - i]);
        assert(b[j] == h[j - i]);
        assert(h[j - i] == t[j - i] as u8);
        if j - i == x.len() {
            assert(t[j - i] == ' ');
        } else {
            assert(text::is_digit_char(t[j - i]));
        }
    }
    lemma_line_to(b, i, e);
    assert(b.subrange(i, e) =~= b.skip(i).take(h.len() as int));
    assert(b.skip(i).take(h.len() as int) =~= h);
    assert(t[0] == x[0] && t.last() == y.last());
    assert(text::is_digit_char(x[0]) && text::is_digit_char(y[y.len() - 1]));
    assert(text::trim_front(t) == t);
    assert(text::trim_back(t) == t);
    assert(name_laws::is_solid(x)) by {
        assert forall|k: int| 0 <= k < x.len() implies !text::is_white(#[trigger] x[k]) by {
            assert(text::is_digit_char(x[k]));
        }
    }
    assert(name_laws::is_solid(y)) by {
        assert forall|k: int| 0 <= k < y.len() implies !text::is_white(#[trigger] y[k]) by {
            assert(text::is_digit_char(y[k]));
        }
    }
    name_laws::law_words_stand_between_white_space(' ', x, y);
    name_laws::law_words_stand_between_white_space(' ', y, seq![]);
    assert(text::words(t) == seq![x] + seq![y]);
    assert(text::words(t)[1] == y && text::words(t).len() == 2);
}

/// A table goes section by section up to its trailer: a header comes out on a line of
/// its own, the entries with full ends, and the trailer as it stands.
pub proof fn law_tables_go_by_sections(
    b: Seq<u8>,
    i: int,
    g: Seq<u8>,
    first: nat,
    count: nat,
    eol: u8,
    rest: Seq<u8>,
    tail: Seq<u8>,
)
    requires
        0 <= i <= b.len(),
        all_blank(g),
        count > 0,
        count <= usize::MAX,
        eol == 0x0A || eol == 0x0D,
    ensures
        b.skip(i) == g + "trailer".spec_bytes() + tail ==> repair::padded_sections(b, i) == Ok::<
            Seq<u8>,
            Seq<char>,
        >("trailer".spec_bytes() + tail),
        b.skip(i) == g + (vstd::utf8::encode_utf8(header_text(first, count)) + seq![eol] + rest)
            ==> repair::padded_sections(b, i) == match repair::padded_entries(
            b,
            i + g.len() + header_text(first, count).len(),
            count,
        ) {
            Ok((entries, end)) => match repair::padded_sections(b, end) {
                Ok(more) => Ok(
                    vstd::utf8::encode_utf8(header_text(first, count)) + seq![0x0Au8] + entries
                        + more,
                ),
                Err(why) => Err::<Seq<u8>, Seq<char>>(why),
            },
            Err(why) => Err(why),
        },
{
    reveal_strlit("trailer");
    vstd::string::is_ascii_spec_bytes("trailer");
    let word = "trailer".spec_bytes();
    if b.skip(i) == g + word + tail {
        assert(g + word + tail =~= g + (word + tail));
        lemma_blanks_to(b, i, g, word + tail);
        let j = i + g.len();
        assert(b.skip(j).len() == b.len() - j);
        assert(b.subrange(j, j + 7) =~= b.skip(j).take(7));
        assert((word + tail).take(7) =~= word);
    }
    let t = header_text(first, count);
    let h = vstd::utf8::encode_utf8(t);
    if b.skip(i) == g + (h + seq![eol] + rest) {
        let x = name_laws::digits_of(first);
        let y = name_laws::digits_of(count);
        name_laws::lemma_digits_of(first);
        name_laws::lemma_digits_of(count);
        assert forall|k: int| 0 <= k < t.len() implies '\0' <= #[trigger] t[k] <= '\u{7f}' by {
            if k < x.len() {
                assert(t[k] == x[k] && text::is_digit_char(x[k]));
            } else if k > x.len() {
                assert(t[k] == y[k - x.len() - 1] && text::is_digit_char(y[k - x.len() - 1]));
            }
        }
        lemma_ascii_line(t);
        let r = h + seq![eol] + rest;
        assert(text::is_digit_char(x[0]));
        assert(t[0] == x[0]);
        assert(h[0] == t[0] as u8);
        assert(r[0] == h[0]);
        lemma_blanks_to(b, i, g, r);
        let j = i + g.len();
        assert(b.skip(j).len() == b.len() - j);
        if bytes::occurs_at(b, word, j) {
            assert(b.subrange(j, j + 7)[0] == b.skip(j)[0]);
        }
        law_headers_are_read_as_written(b, j, first, count, eol, rest);
        match repair::padded_entries(b, j + t.len(), count) {
            Ok((entries, end)) => {
                match repair::padded_sections(b, end) {
                    Ok(more) => {
                        assert(h.push(0x0A) =~= h + seq![0x0Au8]);
                    },
                    Err(_) => {},
                }
            },
            Err(_) => {},
        }
    }
}

/// A file with one table behind its last object is padded: what stands before the table
/// is kept, and the table follows. One with no table, several, no object, or an object
/// behind the table is refused, for that reason.
pub proof fn law_only_safe_files_are_padded(b: Seq<u8>, x: int, o: int)
    ensures
        (forall|i: int| !(#[trigger] repair::is_xref_start(b, i))) ==> repair::padded_xref(b)
            == Err::<Seq<u8>, Seq<char>>("no classic `xref` section (an xref stream?)"@),
        repair::is_xref_start(b, x) && repair::is_xref_start(b, o) && x != o
            ==> repair::padded_xref(b) == Err::<Seq<u8>, Seq<char>>(
            "more than one xref section (incremental update)"@,
        ),
        repair::is_xref_start(b, x) && (forall|i: int|
            #[trigger] repair::is_xref_start(b, i) ==> i == x) ==> {
            &&& (forall|i: int| !(#[trigger] bytes::occurs_at(b, "obj".spec_bytes(), i)))
                ==> repair::padded_xref(b) == Err::<Seq<u8>, Seq<char>>("no objects found"@)
            &&& bytes::occurs_at(b, "obj".spec_bytes(), o) && o > x ==> repair::padded_xref(b)
                == Err::<Seq<u8>, Seq<char>>(
                "an object follows the xref \u{2014} padding would move it"@,
            )
            &&& bytes::occurs_at(b, "obj".spec_bytes(), o) && (forall|i: int| #[trigger]
                bytes::occurs_at(b, "obj".spec_bytes(), i) ==> i < x) ==> repair::padded_xref(b)
                == match repair::padded_sections(b, x + 4) {
                Ok(rest) => Ok(b.take(x) + "xref\n".spec_bytes() + rest),
                Err(why) => Err::<Seq<u8>, Seq<char>>(why),
            }
        },
{
    repair::lemma_keywords();
    repair::lemma_next_xref(b, 0);
    if let Some(y) = repair::next_xref(b, 0) {
        repair::lemma_next_xref(b, y + 1);
    }
    bytes::lemma_last_before(b, "obj".spec_bytes(), b.len() as int);
    if bytes::occurs_at(b, "obj".spec_bytes(), o) {
        assert(o < b.len());
    }
}

/// A table starts where `xref` stands at the start of a line and something follows.
pub proof fn law_tables_start_lines(a: Seq<u8>, next: u8, rest: Seq<u8>)
    ensures
        repair::is_xref_start(a + "xref".spec_bytes() + seq![next] + rest, a.len() as int) <==> (
        a.len() == 0 || a.last() == 0x0A || a.last() == 0x0D),
{
    repair::lemma_keywords();
    let b = a + "xref".spec_bytes() + seq![next] + rest;
    let n = a.len() as int;
    assert(b.subrange(n, n + 4) =~= "xref".spec_bytes());
    if n > 0 {
        assert(b[n - 1] == a.last());
    }
}

} // verus!
