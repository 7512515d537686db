//! What the reader works out of a file before and while it reads its objects: the
//! cross-references, and the streams that it decodes on the way.

use crate::bytes::{self, count_digits, find_from, matches_at};
use crate::filters::{self, short_groups, MAX_ROW};
use crate::loading::{
    self, find_length_ref, find_stream_head, find_value_at, holds_name, read_digits, skip_gap,
};
use crate::tokens::{self, find_comment_end};
use vstd::prelude::*;
use vstd::slice::slice_subrange;
use vstd::string::StringSliceAdditionalSpecFns;

verus! {

/// The largest number in a list that cross-references are counted by.
pub const MAX_INDEX: usize = 0x7FFF_FFFF;

/// The largest width of a field of a cross-reference stream.
pub const MAX_WIDTH: usize = 0xFF_FFFF;

/// Where a number at `v` has its digits: after a sign, if there is one.
pub open spec fn after_sign(b: Seq<u8>, v: int) -> int {
    if 0 <= v < b.len() && (b[v] == 0x2B || b[v] == 0x2D) {
        v + 1
    } else {
        v
    }
}

/// Find the digits of a number.
pub fn skip_sign(b: &[u8], v: usize) -> (r: usize)
    requires
        v <= b@.len(),
    ensures
        r == after_sign(b@, v as int),
        v <= r <= b@.len(),
{
    if v < b.len() && (b[v] == 0x2B || b[v] == 0x2D) {
        v + 1
    } else {
        v
    }
}

/// The number that is written at `v`, without its sign.
pub open spec fn number_at(b: Seq<u8>, v: int) -> Option<nat> {
    let w = after_sign(b, v);
    if loading::digits_at(b, w) > 0 {
        Some(loading::value_of_digits(b, w))
    } else {
        None
    }
}

/// The place after the comment that begins at `i`.
pub open spec fn past_comment(b: Seq<u8>, i: int) -> Option<int> {
    match tokens::comment_end(b, i + 1) {
        Some(e) => if i < e <= b.len() {
            Some(e)
        } else {
            None
        },
        None => None,
    }
}

/// No run of digits from `i` up to the end of the list has a value above `limit`;
/// what stands in a comment does not count.
pub open spec fn list_fits(b: Seq<u8>, i: int, limit: nat) -> bool
    decreases b.len() - i,
{
    if i < 0 || i >= b.len() || b[i] == 0x5D || b[i] == 0x5B {
        true
    } else if b[i] == 0x25 {
        match past_comment(b, i) {
            Some(e) => if i < e <= b.len() {
                list_fits(b, e, limit)
            } else {
                true
            },
            None => true,
        }
    } else {
        (loading::digits_at(b, i) > 0 ==> loading::value_of_digits(b, i) <= limit) && list_fits(
            b,
            i + 1,
            limit,
        )
    }
}

/// Not all of the first three numbers of a list are 0, of which `n` came before
/// `i` and were; or it has fewer, or another list in it. What stands in a comment
/// does not count.
pub open spec fn list_counts(b: Seq<u8>, i: int, n: nat) -> bool
    decreases b.len() - i,
{
    if n >= 3 {
        false
    } else if i < 0 || i >= b.len() || b[i] == 0x5B || b[i] == 0x5D {
        true
    } else if b[i] == 0x25 {
        match past_comment(b, i) {
            Some(e) => if i < e <= b.len() {
                list_counts(b, e, n)
            } else {
                true
            },
            None => true,
        }
    } else if bytes::is_digit(b[i]) && b[i] != 0x30 {
        true
    } else if b[i] == 0x30 && !(i + 1 < b.len() && bytes::is_digit(b[i + 1])) {
        list_counts(b, i + 1, n + 1)
    } else {
        list_counts(b, i + 1, n)
    }
}

/// The list under a key at `p`, if one stands there, has no number above `limit`.
pub open spec fn list_at_fits(b: Seq<u8>, p: int, key: Seq<u8>, limit: nat) -> bool {
    loading::value_at(b, p, key) matches Some(v) ==> (v < b.len() && b[v] == 0x5B ==> list_fits(
        b,
        v + 1,
        limit,
    ))
}

/// The widths under a key `/W` at `p` are not all 0.
pub open spec fn widths_count(b: Seq<u8>, p: int) -> bool {
    loading::value_at(b, p, "W".spec_bytes()) matches Some(v) ==> (v < b.len() && b[v] == 0x5B
        ==> list_counts(b, v + 1, 0))
}

/// The list that may stand under a key at `p` is in range for a cross-reference
/// stream.
pub open spec fn entry_fits(b: Seq<u8>, p: int) -> bool {
    &&& list_at_fits(b, p, "Index".spec_bytes(), MAX_INDEX as nat)
    &&& list_at_fits(b, p, "W".spec_bytes(), MAX_WIDTH as nat)
    &&& widths_count(b, p)
}

/// The lists of a cross-reference stream with the dictionary from `d` to `g` are in
/// range.
pub open spec fn table_fits(b: Seq<u8>, d: int, g: int) -> bool {
    forall|p: int| d <= p < g ==> #[trigger] entry_fits(b, p)
}

/// A byte that ends a line.
pub open spec fn is_eol(c: u8) -> bool {
    c == 0x0A || c == 0x0D
}

/// A line ends at `i`, after a space or at once.
pub open spec fn line_ends(b: Seq<u8>, i: int) -> bool {
    ||| 0 <= i < b.len() && is_eol(b[i])
    ||| 0 <= i && i + 1 < b.len() && b[i] == 0x20 && is_eol(b[i + 1])
}

/// The first number of a cross-reference subsection that may stand at `p`, two
/// numbers on a line, can be counted up from, or is too large to be read.
pub open spec fn subsection_fits(b: Seq<u8>, p: int) -> bool {
    let e = p + loading::digits_at(b, p);
    let f = e + 1 + loading::digits_at(b, e + 1);
    let first = loading::value_of_digits(b, p);
    p > 0 && is_eol(b[p - 1]) && loading::digits_at(b, p) > 0 && e < b.len() && b[e] == 0x20
        && loading::digits_at(b, e + 1) > 0 && line_ends(b, f) ==> first + b.len() <= usize::MAX
        || first > usize::MAX
}

/// Where the reader takes a file to begin.
pub open spec fn file_start(b: Seq<u8>) -> int {
    match bytes::first_at(b, "%PDF-".spec_bytes(), 0) {
        Some(s) => s,
        None => 0,
    }
}

/// Where the offset of cross-references is written that something at `p` announces.
pub open spec fn offset_place(b: Seq<u8>, p: int) -> Option<int> {
    if bytes::occurs_at(b, "startxref".spec_bytes(), p) {
        Some(loading::gap_end(b, p + 9))
    } else {
        match loading::value_at(b, p, "Prev".spec_bytes()) {
            Some(v) => Some(v),
            None => loading::value_at(b, p, "XRefStm".spec_bytes()),
        }
    }
}

/// The stream at the offset that something at `p` announces.
pub open spec fn table_head(b: Seq<u8>, p: int) -> Option<(u64, int, int)> {
    match offset_place(b, p) {
        Some(v) => match number_at(b, v) {
            Some(n) => if file_start(b) + n < b.len() {
                loading::stream_head(b, loading::gap_end(b, file_start(b) + n))
            } else {
                None
            },
            None => None,
        },
        None => None,
    }
}

/// The stream with this number and dictionary may be read as cross-references.
pub open spec fn is_table(b: Seq<u8>, id: u64, d: int, g: int) -> bool {
    exists|p: int| 0 <= p < b.len() && #[trigger] table_head(b, p) == Some((id, d, g))
}

/// The largest number under a key from `from` up to `to`, or `low`.
pub open spec fn largest(b: Seq<u8>, key: Seq<u8>, from: int, to: int, low: nat) -> nat
    decreases to - from,
{
    if from >= to {
        low
    } else {
        let rest = largest(b, key, from + 1, to, low);
        match loading::value_at(b, from, key) {
            Some(v) => match number_at(b, v) {
                Some(n) => if n > rest {
                    n
                } else {
                    rest
                },
                None => rest,
            },
            None => rest,
        }
    }
}

/// The rows of the predictor are not too long.
pub open spec fn rows_in(b: Seq<u8>, d: int, g: int) -> bool {
    let across = largest(b, "Colors".spec_bytes(), d, g, 1) * largest(
        b,
        "BitsPerComponent".spec_bytes(),
        d,
        g,
        8,
    );
    across <= MAX_ROW && across / 8 * largest(b, "Columns".spec_bytes(), d, g, 1)
        <= MAX_ROW
}

/// The name at `p` is that of the first filter of a stream.
pub open spec fn is_first_filter(b: Seq<u8>, d: int, g: int, p: int) -> bool {
    exists|l: int| d <= l < g && #[trigger] names_first(b, l, p)
}

/// The key `/Filter` at `l` has the name at `p` as its value, or as the first of a
/// list.
pub open spec fn names_first(b: Seq<u8>, l: int, p: int) -> bool {
    loading::value_at(b, l, "Filter".spec_bytes()) matches Some(v) && (v == p || (v < b.len()
        && b[v] == 0x5B && loading::gap_end(b, v + 1) == p))
}

/// Where spaces and tabs from `i` on end.
pub open spec fn blanks_end(b: Seq<u8>, i: int) -> int
    decreases b.len() - i,
{
    if 0 <= i < b.len() && (b[i] == 0x20 || b[i] == 0x09) {
        blanks_end(b, i + 1)
    } else {
        i
    }
}

/// Where the data of the stream whose dictionary ends at `g` begins: after the
/// keyword and the end of its line.
pub open spec fn data_start(b: Seq<u8>, g: int) -> int {
    let i = blanks_end(b, loading::gap_end(b, g) + 6);
    if i + 1 < b.len() && b[i] == 0x0D && b[i + 1] == 0x0A {
        i + 2
    } else if i < b.len() && is_eol(b[i]) {
        i + 1
    } else {
        i
    }
}

/// The data of the stream whose dictionary ends at `g` has base-85 groups that fit,
/// if its length is written at `v`.
pub open spec fn data_fits(b: Seq<u8>, g: int, v: int) -> bool {
    let s = data_start(b, g);
    number_at(b, v) matches Some(n) ==> (s + n <= b.len() ==> filters::groups_fit(
        filters::before_mark(b.subrange(s, s + n)),
        0,
        0,
        0,
    ))
}

/// The length under a key at `l` is written there, and with it the data has base-85
/// groups that fit.
pub open spec fn length_fits(b: Seq<u8>, g: int, l: int) -> bool {
    loading::value_at(b, l, "Length".spec_bytes()) matches Some(v) ==> loading::length_ref(b, l)
        is None && data_fits(b, g, v)
}

/// The stream with the dictionary from `d` to `g` is not in base 85, or only in the
/// first place and with groups that fit.
pub open spec fn base85_fits(b: Seq<u8>, d: int, g: int) -> bool {
    &&& forall|p: int|
        d <= p < g && #[trigger] loading::value_at(b, p, "ASCII85Decode".spec_bytes()) is Some
            ==> is_first_filter(b, d, g, p)
    &&& loading::has_name(b, d, g, "ASCII85Decode".spec_bytes()) ==> forall|l: int|
        d <= l < g ==> #[trigger] length_fits(b, g, l)
}

/// Whether a list has no number above a limit.
fn small_list(b: &[u8], from: usize, limit: usize) -> (r: bool)
    requires
        from <= b@.len(),
    ensures
        r == list_fits(b@, from as int, limit as nat),
{
    let mut i: usize = from;
    while i < b.len() && b[i] != 0x5D && b[i] != 0x5B
        invariant
            from <= i <= b@.len(),
            list_fits(b@, from as int, limit as nat) == list_fits(b@, i as int, limit as nat),
        decreases b@.len() - i,
    {
        if b[i] == 0x25 {
            match find_comment_end(b, i + 1) {
                Some(e) => {
                    i = e;
                },
                None => {
                    return true;
                },
            }
        } else {
            if count_digits(b, i) > 0 && read_digits(b, i, limit).is_none() {
                return false;
            }
            i += 1;
        }
    }
    true
}

/// Whether not all of the first three numbers of a list are 0.
fn counting_list(b: &[u8], from: usize) -> (r: bool)
    requires
        from <= b@.len(),
    ensures
        r == list_counts(b@, from as int, 0),
{
    let mut i: usize = from;
    let mut n: usize = 0;
    while i < b.len() && n < 3 && b[i] != 0x5D && b[i] != 0x5B
        invariant
            from <= i <= b@.len(),
            n <= 3,
            list_counts(b@, from as int, 0) == list_counts(b@, i as int, n as nat),
        decreases b@.len() - i,
    {
        if b[i] == 0x25 {
            match find_comment_end(b, i + 1) {
                Some(e) => {
                    i = e;
                },
                None => {
                    return true;
                },
            }
        } else {
            if 0x31 <= b[i] && b[i] <= 0x39 {
                return true;
            }
            if b[i] == 0x30 && !(b.len() - i > 1 && 0x30 <= b[i + 1] && b[i + 1] <= 0x39) {
                n += 1;
            }
            i += 1;
        }
    }
    n < 3
}

/// Whether the list under a key at `p` has no number above a limit.
fn small_list_at(b: &[u8], p: usize, key: &[u8], limit: usize) -> (r: bool)
    ensures
        r == list_at_fits(b@, p as int, key@, limit as nat),
{
    match find_value_at(b, p, key) {
        Some(v) => !(v < b.len() && b[v] == 0x5B) || small_list(b, v + 1, limit),
        None => true,
    }
}

/// Whether the widths under a key at `p` are not all 0.
fn counting_widths(b: &[u8], p: usize) -> (r: bool)
    ensures
        r == widths_count(b@, p as int),
{
    match find_value_at(b, p, "W".as_bytes()) {
        Some(v) => !(v < b.len() && b[v] == 0x5B) || counting_list(b, v + 1),
        None => true,
    }
}

/// Whether the lists of a cross-reference stream are in range.
pub fn small_table(b: &[u8], d: usize, g: usize) -> (r: bool)
    requires
        d <= g <= b@.len(),
    ensures
        r == table_fits(b@, d as int, g as int),
{
    let mut p: usize = d;
    while p < g
        invariant
            d <= p <= g <= b@.len(),
            forall|q: int| d <= q < p ==> #[trigger] entry_fits(b@, q),
        decreases g - p,
    {
        if !(small_list_at(b, p, "Index".as_bytes(), MAX_INDEX) && small_list_at(
            b,
            p,
            "W".as_bytes(),
            MAX_WIDTH,
        ) && counting_widths(b, p)) {
            assert(!entry_fits(b@, p as int));
            return false;
        }
        p += 1;
    }
    true
}

/// Whether the first number of a subsection can be counted up from.
pub fn small_subsection(b: &[u8], p: usize) -> (r: bool)
    requires
        p < b@.len(),
    ensures
        r == subsection_fits(b@, p as int),
{
    if p == 0 || (b[p - 1] != 0x0A && b[p - 1] != 0x0D) {
        return true;
    }
    let len: usize = b.len();
    let n: usize = count_digits(b, p);
    proof {
        bytes::lemma_digit_run(b@.skip(p as int));
    }
    assert(p + n <= len);
    let e: usize = p + n;
    if n == 0 || e >= len || b[e] != 0x20 {
        return true;
    }
    let m: usize = count_digits(b, e + 1);
    proof {
        bytes::lemma_digit_run(b@.skip(e + 1));
    }
    assert(e + 1 + m <= len);
    let f: usize = e + 1 + m;
    let ends: bool = (f < len && (b[f] == 0x0A || b[f] == 0x0D)) || (len - f >= 2 && b[f] == 0x20
        && (b[f + 1] == 0x0A || b[f + 1] == 0x0D));
    if m == 0 || !ends {
        return true;
    }
    match read_digits(b, p, usize::MAX) {
        Some((v, _)) => v <= usize::MAX - len,
        None => true,
    }
}

/// Find where the reader takes a file to begin.
pub fn find_start(b: &[u8]) -> (r: usize)
    ensures
        r == file_start(b@),
        r <= b@.len(),
{
    proof {
        bytes::lemma_first_at(b@, "%PDF-".spec_bytes(), 0);
    }
    match find_from(b, "%PDF-".as_bytes(), 0) {
        Some(s) => s,
        None => 0,
    }
}

/// Find where an offset is written.
fn find_offset_place(b: &[u8], p: usize) -> (r: Option<usize>)
    ensures
        match r {
            Some(v) => offset_place(b@, p as int) == Some(v as int) && v <= b@.len(),
            None => offset_place(b@, p as int) is None,
        },
{
    proof {
        reveal_strlit("startxref");
        vstd::string::is_ascii_spec_bytes("startxref");
    }
    if matches_at(b, "startxref".as_bytes(), p) {
        let len: usize = b.len();
        assert(p + 9 <= len);
        return Some(skip_gap(b, p + 9));
    }
    match find_value_at(b, p, "Prev".as_bytes()) {
        Some(v) => Some(v),
        None => find_value_at(b, p, "XRefStm".as_bytes()),
    }
}

/// Find the stream at the offset that something at `p` announces.
fn find_table_head(b: &[u8], start: usize, p: usize) -> (r: Option<(u64, usize, usize)>)
    requires
        start == file_start(b@),
        start <= b@.len(),
    ensures
        match r {
            Some((id, d, g)) => table_head(b@, p as int) == Some((id, d as int, g as int)) && d < g
                <= b@.len(),
            None => table_head(b@, p as int) is None,
        },
{
    let v: usize = match find_offset_place(b, p) {
        Some(v) => v,
        None => {
            return None;
        },
    };
    let len: usize = b.len();
    let w: usize = skip_sign(b, v);
    match read_digits(b, w, len) {
        Some((n, _)) => {
            if n >= len - start {
                return None;
            }
            let q: usize = skip_gap(b, start + n);
            if q >= len {
                proof {
                    assert(b@.skip(q as int) =~= Seq::<u8>::empty());
                    assert(loading::digits_at(b@, q as int) == 0);
                }
                return None;
            }
            find_stream_head(b, q)
        },
        None => None,
    }
}

/// Some streams are those that are announced before `q`.
pub open spec fn tables_upto(b: Seq<u8>, tables: Seq<(u64, usize, usize)>, q: int) -> bool {
    &&& forall|i: int|
        0 <= i < tables.len() ==> is_table(
            b,
            (#[trigger] tables[i]).0,
            tables[i].1 as int,
            tables[i].2 as int,
        ) && tables[i].1 < tables[i].2 <= b.len()
    &&& forall|x: int|
        0 <= x < q && x < b.len() ==> (#[trigger] table_head(b, x) matches Some((id, d, g))
            ==> exists|i: int|
            0 <= i < tables.len() && (#[trigger] tables[i]).0 == id && tables[i].1 == d
                && tables[i].2 == g)
}

/// Find the streams of a file that may be read as cross-references.
pub fn collect_tables(b: &[u8]) -> (r: Vec<(u64, usize, usize)>)
    ensures
        tables_upto(b@, r@, b@.len() as int),
{
    let start: usize = find_start(b);
    let mut tables: Vec<(u64, usize, usize)> = Vec::new();
    let mut p: usize = 0;
    while p < b.len()
        invariant
            p <= b@.len(),
            start == file_start(b@),
            start <= b@.len(),
            tables_upto(b@, tables@, p as int),
        decreases b@.len() - p,
    {
        let ghost before = tables@;
        if let Some((id, d, g)) = find_table_head(b, start, p) {
            tables.push((id, d, g));
            assert(is_table(b@, id, d as int, g as int));
        }
        proof {
            assert forall|i: int| 0 <= i < tables@.len() implies is_table(
                b@,
                (#[trigger] tables@[i]).0,
                tables@[i].1 as int,
                tables@[i].2 as int,
            ) && tables@[i].1 < tables@[i].2 <= b@.len() by {
                if i < before.len() {
                    assert(tables@[i] == before[i]);
                }
            }
            assert forall|x: int| 0 <= x < p + 1 && x < b@.len() implies (
            #[trigger] table_head(b@, x) matches Some((id, d, g)) ==> exists|i: int|
                0 <= i < tables@.len() && (#[trigger] tables@[i]).0 == id && tables@[i].1 == d
                    && tables@[i].2 == g) by {
                if let Some((id, d, g)) = table_head(b@, x) {
                    if x < p {
                        let i = choose|i: int|
                            0 <= i < before.len() && (#[trigger] before[i]).0 == id && before[i].1
                                == d && before[i].2 == g;
                        assert(tables@[i] == before[i]);
                    } else {
                        assert(tables@[before.len() as int].0 == id);
                    }
                }
            }
        }
        p += 1;
    }
    tables
}

/// Find the largest number under a key, if it is not too large itself.
fn find_largest(b: &[u8], key: &[u8], from: usize, to: usize, low: usize) -> (r: Option<usize>)
    requires
        from <= to <= b@.len(),
    ensures
        match r {
            Some(n) => n == largest(b@, key@, from as int, to as int, low as nat) && n >= low,
            None => largest(b@, key@, from as int, to as int, low as nat) > usize::MAX,
        },
{
    let mut most: Option<usize> = Some(low);
    let mut p: usize = to;
    while p > from
        invariant
            from <= p <= to <= b@.len(),
            match most {
                Some(n) => n == largest(b@, key@, p as int, to as int, low as nat) && n >= low,
                None => largest(b@, key@, p as int, to as int, low as nat) > usize::MAX,
            },
        decreases p,
    {
        p -= 1;
        if let Some(v) = find_value_at(b, p, key) {
            let w: usize = skip_sign(b, v);
            if count_digits(b, w) > 0 {
                match read_digits(b, w, usize::MAX) {
                    Some((n, _)) => {
                        if let Some(m) = most {
                            if n > m {
                                most = Some(n);
                            }
                        }
                    },
                    None => {
                        most = None;
                    },
                }
            }
        }
    }
    most
}

/// Whether the rows of the predictor are not too long.
pub fn short_rows(b: &[u8], d: usize, g: usize) -> (r: bool)
    requires
        d <= g <= b@.len(),
    ensures
        r == rows_in(b@, d as int, g as int),
{
    let ghost k = largest(b@, "Colors".spec_bytes(), d as int, g as int, 1);
    let ghost m = largest(b@, "BitsPerComponent".spec_bytes(), d as int, g as int, 8);
    let ghost n = largest(b@, "Columns".spec_bytes(), d as int, g as int, 1);
    proof {
        lemma_largest(b@, "Colors".spec_bytes(), d as int, g as int, 1);
        lemma_largest(b@, "BitsPerComponent".spec_bytes(), d as int, g as int, 8);
        lemma_largest(b@, "Columns".spec_bytes(), d as int, g as int, 1);
        assert(k * m >= k && k * m >= m && k * m >= 8) by (nonlinear_arith)
            requires
                k >= 1,
                m >= 8,
        ;
        assert(k * m / 8 * n >= n) by (nonlinear_arith)
            requires
                k * m >= 8,
                n >= 1,
        ;
    }
    let colors = find_largest(b, "Colors".as_bytes(), d, g, 1);
    let bits = find_largest(b, "BitsPerComponent".as_bytes(), d, g, 8);
    let columns = find_largest(b, "Columns".as_bytes(), d, g, 1);
    match (colors, bits, columns) {
        (Some(x), Some(y), Some(z)) => match x.checked_mul(y) {
            Some(across) => {
                assert(across == k * m);
                across <= MAX_ROW as usize && match (across / 8).checked_mul(z) {
                    Some(row) => row <= MAX_ROW as usize,
                    None => false,
                }
            },
            None => false,
        },
        _ => false,
    }
}

/// The largest number is at least the least.
proof fn lemma_largest(b: Seq<u8>, key: Seq<u8>, from: int, to: int, low: nat)
    ensures
        largest(b, key, from, to, low) >= low,
    decreases to - from,
{
    if from < to {
        lemma_largest(b, key, from + 1, to, low);
    }
}

/// Whether the name at `p` is that of the first filter.
fn first_filter(b: &[u8], d: usize, g: usize, p: usize) -> (r: bool)
    requires
        d <= g <= b@.len(),
    ensures
        r == is_first_filter(b@, d as int, g as int, p as int),
{
    let mut l: usize = d;
    while l < g
        invariant
            d <= l <= g <= b@.len(),
            forall|x: int| d <= x < l ==> !#[trigger] names_first(b@, x, p as int),
        decreases g - l,
    {
        if let Some(v) = find_value_at(b, l, "Filter".as_bytes()) {
            if v == p || (v < b.len() && b[v] == 0x5B && skip_gap(b, v + 1) == p) {
                assert(names_first(b@, l as int, p as int));
                return true;
            }
        }
        l += 1;
    }
    false
}

/// Find the end of spaces and tabs.
pub fn skip_blanks(b: &[u8], from: usize) -> (r: usize)
    requires
        from <= b@.len(),
    ensures
        r == blanks_end(b@, from as int),
        from <= r <= b@.len(),
{
    let mut i: usize = from;
    while i < b.len() && (b[i] == 0x20 || b[i] == 0x09)
        invariant
            from <= i <= b@.len(),
            blanks_end(b@, from as int) == blanks_end(b@, i as int),
        decreases b@.len() - i,
    {
        i += 1;
    }
    i
}

/// Find where the data of a stream begins.
fn find_data_start(b: &[u8], g: usize) -> (r: usize)
    requires
        g <= b@.len(),
        bytes::occurs_at(b@, "stream".spec_bytes(), loading::gap_end(b@, g as int)),
    ensures
        r == data_start(b@, g as int),
        r <= b@.len(),
{
    proof {
        reveal_strlit("stream");
        vstd::string::is_ascii_spec_bytes("stream");
    }
    let len: usize = b.len();
    let s: usize = skip_gap(b, g);
    assert(s + 6 <= len);
    let i: usize = skip_blanks(b, s + 6);
    if len - i >= 2 && b[i] == 0x0D && b[i + 1] == 0x0A {
        i + 2
    } else if i < len && (b[i] == 0x0A || b[i] == 0x0D) {
        i + 1
    } else {
        i
    }
}

/// Whether data of a length has base-85 groups that fit.
fn small_data(b: &[u8], g: usize, v: usize) -> (r: bool)
    requires
        g <= b@.len(),
        v <= b@.len(),
        bytes::occurs_at(b@, "stream".spec_bytes(), loading::gap_end(b@, g as int)),
    ensures
        r == data_fits(b@, g as int, v as int),
{
    let s: usize = find_data_start(b, g);
    let room: usize = b.len() - s;
    let w: usize = skip_sign(b, v);
    match read_digits(b, w, room) {
        Some((n, _)) => {
            let data = slice_subrange(b, s, s + n);
            short_groups(data)
        },
        None => true,
    }
}

/// Whether a stream is not in base 85, or only in the first place and with groups
/// that fit.
pub fn small_base85(b: &[u8], d: usize, g: usize) -> (r: bool)
    requires
        d <= g <= b@.len(),
        bytes::occurs_at(b@, "stream".spec_bytes(), loading::gap_end(b@, g as int)),
    ensures
        r == base85_fits(b@, d as int, g as int),
{
    if !holds_name(b, d, g, "ASCII85Decode".as_bytes()) {
        return true;
    }
    let mut p: usize = d;
    while p < g
        invariant
            d <= p <= g <= b@.len(),
            bytes::occurs_at(b@, "stream".spec_bytes(), loading::gap_end(b@, g as int)),
            loading::has_name(b@, d as int, g as int, "ASCII85Decode".spec_bytes()),
            forall|q: int|
                d <= q < p && #[trigger] loading::value_at(b@, q, "ASCII85Decode".spec_bytes())
                    is Some ==> is_first_filter(b@, d as int, g as int, q),
            forall|l: int| d <= l < p ==> #[trigger] length_fits(b@, g as int, l),
        decreases g - p,
    {
        if find_value_at(b, p, "ASCII85Decode".as_bytes()).is_some() && !first_filter(b, d, g, p) {
            assert(loading::value_at(b@, p as int, "ASCII85Decode".spec_bytes()) is Some);
            return false;
        }
        if let Some(v) = find_value_at(b, p, "Length".as_bytes()) {
            if find_length_ref(b, p).is_some() || !small_data(b, g, v) {
                assert(!length_fits(b@, g as int, p as int));
                return false;
            }
        }
        p += 1;
    }
    true
}

} // verus!
