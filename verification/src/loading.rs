//! Which files are handed to the reader.
//!
//! The reader follows a stream whose `/Length` is a reference to the object that
//! it refers to, and reads that object first, and before an object that stands in
//! an object stream it reads that stream; so it may go on, one call inside the
//! other. It also adds and multiplies numbers of the cross-references and of the
//! streams that it decodes on the way without a check. Files in which such a chain
//! may be long, or such a number out of range, are refused. The look is at the bytes
//! of the file, so that some are refused that the reader would have come back from,
//! such as one that has more in base 85 than can be told without decoding the rest.
//!
//! Where an object stands shows only in what the reader makes of the
//! cross-references. It is asked for them with a quieted file, in which the names
//! are changed that would have it look an object up.

use crate::bytes::{self, count_digits, matches_at, read_decimal};
use crate::names;
use crate::pdf::{self, homes_of, load_mem};
use crate::tables::{
    self, collect_tables, short_rows, skip_blanks, skip_sign, small_base85, small_subsection,
    small_table,
};
use crate::tokens::{self, find_comment_end, find_group_end, regular, space};
use std::collections::HashSet;
use vstd::prelude::*;
use vstd::slice::slice_subrange;
use vstd::string::StringSliceAdditionalSpecFns;

verus! {

/// What is said of a file that is refused.
pub const REFUSED: &'static str =
    "objects may need one another in too long a chain, or a number may be out of range";

/// The longest chain of objects, each of which needs the next to be read.
pub const MAX_CHAIN: usize = 32;

/// Where white space and comments that begin at `i` end.
pub open spec fn gap_end(b: Seq<u8>, i: int) -> int
    decreases b.len() - i,
{
    if i < 0 || i >= b.len() {
        i
    } else if tokens::is_space(b[i]) {
        gap_end(b, i + 1)
    } else if b[i] == 0x25 {
        match tokens::comment_end(b, i + 1) {
            Some(e) => if i < e <= b.len() {
                gap_end(b, e)
            } else {
                i
            },
            None => i,
        }
    } else {
        i
    }
}

/// Find the end of white space and comments.
pub fn skip_gap(b: &[u8], from: usize) -> (r: usize)
    requires
        from <= b@.len(),
    ensures
        r == gap_end(b@, from as int),
        from <= r <= b@.len(),
{
    let mut i: usize = from;
    while i < b.len()
        invariant
            from <= i <= b@.len(),
            gap_end(b@, from as int) == gap_end(b@, i as int),
        decreases b@.len() - i,
    {
        if space(b[i]) {
            i += 1;
        } else if b[i] == 0x25 {
            match find_comment_end(b, i + 1) {
                Some(e) => {
                    i = e;
                },
                None => {
                    return i;
                },
            }
        } else {
            return i;
        }
    }
    i
}

/// The next byte of a name at `i`, and how many bytes it takes: a regular byte, or
/// an escape of two hexadecimal digits.
pub open spec fn name_byte(b: Seq<u8>, i: int) -> Option<(u8, int)> {
    if i < 0 || i >= b.len() || !tokens::is_regular(b[i]) {
        None
    } else if b[i] == 0x23 {
        if i + 2 < b.len() {
            match (names::hex_digit(b[i + 1]), names::hex_digit(b[i + 2])) {
                (Some(h), Some(l)) => Some(((h * 16 + l) as u8, 3)),
                _ => None,
            }
        } else {
            None
        }
    } else {
        Some((b[i], 1))
    }
}

/// Where a name that reads as `key` from its byte `k` on ends, if it does.
pub open spec fn name_end(b: Seq<u8>, i: int, key: Seq<u8>, k: int) -> Option<int>
    decreases key.len() - k,
{
    if k < 0 || k >= key.len() {
        if name_byte(b, i) is Some {
            None
        } else {
            Some(i)
        }
    } else {
        match name_byte(b, i) {
            Some((c, n)) => if c == key[k] {
                name_end(b, i + n, key, k + 1)
            } else {
                None
            },
            None => None,
        }
    }
}

/// Where the value of a key `/key` at `p` begins.
pub open spec fn value_at(b: Seq<u8>, p: int, key: Seq<u8>) -> Option<int> {
    if 0 <= p < b.len() && b[p] == 0x2F {
        match name_end(b, p + 1, key, 0) {
            Some(e) => Some(gap_end(b, e)),
            None => None,
        }
    } else {
        None
    }
}

/// Read the next byte of a name.
fn read_name_byte(b: &[u8], i: usize) -> (r: Option<(u8, usize)>)
    ensures
        match r {
            Some((c, n)) => name_byte(b@, i as int) == Some((c, n as int)) && i + n <= b@.len(),
            None => name_byte(b@, i as int) is None,
        },
{
    if i >= b.len() || !regular(b[i]) {
        return None;
    }
    if b[i] == 0x23 {
        if b.len() - i < 3 {
            return None;
        }
        match (names::read_hex_digit(b[i + 1]), names::read_hex_digit(b[i + 2])) {
            (Some(h), Some(l)) => Some(((h * 16 + l) as u8, 3)),
            _ => None,
        }
    } else {
        Some((b[i], 1))
    }
}

/// Find the value of a key.
pub fn find_value_at(b: &[u8], p: usize, key: &[u8]) -> (r: Option<usize>)
    ensures
        match r {
            Some(v) => value_at(b@, p as int, key@) == Some(v as int) && p < v <= b@.len(),
            None => value_at(b@, p as int, key@) is None,
        },
{
    if p >= b.len() || b[p] != 0x2F {
        return None;
    }
    let mut i: usize = p + 1;
    let mut k: usize = 0;
    while k < key.len()
        invariant
            k <= key@.len(),
            p < i <= b@.len(),
            name_end(b@, p + 1, key@, 0) == name_end(b@, i as int, key@, k as int),
        decreases key@.len() - k,
    {
        match read_name_byte(b, i) {
            Some((c, n)) => {
                if c != key[k] {
                    return None;
                }
                let len: usize = b.len();
                assert(i + n <= len);
                i += n;
                k += 1;
            },
            None => {
                return None;
            },
        }
    }
    if read_name_byte(b, i).is_some() {
        return None;
    }
    Some(skip_gap(b, i))
}

/// The number of digits at `i`.
pub open spec fn digits_at(b: Seq<u8>, i: int) -> nat {
    bytes::digit_run(b.skip(i))
}

/// The value of the digits at `i`.
pub open spec fn value_of_digits(b: Seq<u8>, i: int) -> nat {
    bytes::decimal_value(b.subrange(i, i + digits_at(b, i)))
}

/// The value of the digits at `i`, if it is at most `limit`, and where they end.
pub fn read_digits(b: &[u8], i: usize, limit: usize) -> (r: Option<(usize, usize)>)
    requires
        i <= b@.len(),
    ensures
        match r {
            Some((v, e)) => digits_at(b@, i as int) > 0 && v == value_of_digits(b@, i as int) && v
                <= limit && e == i + digits_at(b@, i as int) && i < e <= b@.len(),
            None => digits_at(b@, i as int) == 0 || value_of_digits(b@, i as int) > limit,
        },
{
    let n: usize = count_digits(b, i);
    proof {
        bytes::lemma_digit_run(b@.skip(i as int));
    }
    if n == 0 {
        return None;
    }
    let len: usize = b.len();
    assert(i + n <= len);
    let s = slice_subrange(b, i, i + n);
    assert(s@ =~= b@.skip(i as int).take(n as int));
    match read_decimal(s) {
        Some(v) => if v <= limit {
            Some((v, i + n))
        } else {
            None
        },
        None => None,
    }
}

/// The number of the object whose identifier is written at `i`, and where what
/// follows the identifier begins.
pub open spec fn id_at(b: Seq<u8>, i: int) -> Option<(u64, int)> {
    let j = gap_end(b, i + digits_at(b, i));
    if digits_at(b, i) == 0 || value_of_digits(b, i) > u32::MAX {
        None
    } else if digits_at(b, j) == 0 || value_of_digits(b, j) > u16::MAX {
        None
    } else {
        Some((value_of_digits(b, i) as u64, gap_end(b, j + digits_at(b, j))))
    }
}

/// Read an identifier.
fn read_id(b: &[u8], i: usize) -> (r: Option<(u64, usize)>)
    requires
        i <= b@.len(),
    ensures
        match r {
            Some((id, e)) => id_at(b@, i as int) == Some((id, e as int)) && i < e <= b@.len(),
            None => id_at(b@, i as int) is None,
        },
{
    let (num, e) = match read_digits(b, i, 0xFFFF_FFFF) {
        Some(x) => x,
        None => {
            return None;
        },
    };
    let j: usize = skip_gap(b, e);
    let (_gen, f) = match read_digits(b, j, 0xFFFF) {
        Some(x) => x,
        None => {
            return None;
        },
    };
    Some((num as u64, skip_gap(b, f)))
}

/// The number of the object that the key `/Length` at `p` refers to.
pub open spec fn length_ref(b: Seq<u8>, p: int) -> Option<u64> {
    match value_at(b, p, "Length".spec_bytes()) {
        Some(v) => match id_at(b, v) {
            Some((id, e)) => if e < b.len() && b[e] == 0x52 {
                Some(id)
            } else {
                None
            },
            None => None,
        },
        None => None,
    }
}

/// The number of the stream whose object begins at `q`, and where its dictionary
/// begins and ends.
pub open spec fn stream_head(b: Seq<u8>, q: int) -> Option<(u64, int, int)> {
    match id_at(b, q) {
        Some((id, e)) => {
            let d = gap_end(b, e + 3);
            if bytes::occurs_at(b, "obj".spec_bytes(), e) && bytes::occurs_at(
                b,
                "<<".spec_bytes(),
                d,
            ) {
                match tokens::group_end(b, d, 0) {
                    Some(g) => if bytes::occurs_at(b, "stream".spec_bytes(), gap_end(b, g)) {
                        Some((id, d, g))
                    } else {
                        None
                    },
                    None => None,
                }
            } else {
                None
            }
        },
        None => None,
    }
}

/// A stream `u` has, somewhere in its dictionary, another object `v` as a length.
/// Where an object is taken to begin is up to the file, so every place counts.
pub open spec fn leads_to_at(b: Seq<u8>, q: int, p: int, u: u64, v: u64) -> bool {
    0 <= q < b.len() && u != v && (stream_head(b, q) matches Some((id, d, g)) && id == u && d <= p
        < g && length_ref(b, p) == Some(v))
}

/// Some stream `u` has `v` as a length.
pub open spec fn leads_to(b: Seq<u8>, u: u64, v: u64) -> bool {
    exists|q: int, p: int| #[trigger] leads_to_at(b, q, p, u, v)
}

/// The object `u` stands in the object stream `v`.
pub open spec fn housed(homes: Seq<(u32, Option<u32>)>, u: u64, v: u64) -> bool {
    exists|i: int|
        0 <= i < homes.len() && (#[trigger] homes[i]).0 == u && (homes[i].1 matches Some(c) && c
            == v)
}

/// To read the object `u` the reader may have to read `v` first: `v` is the length
/// of the stream `u`, or the object stream that `u` stands in.
pub open spec fn needs(b: Seq<u8>, homes: Seq<(u32, Option<u32>)>, u: u64, v: u64) -> bool {
    leads_to(b, u, v) || housed(homes, u, v)
}

/// From where `n` objects need one another in turn.
pub open spec fn chained(b: Seq<u8>, homes: Seq<(u32, Option<u32>)>, n: nat) -> Set<u64>
    decreases n,
{
    if n == 0 {
        Set::full()
    } else {
        let rest = chained(b, homes, (n - 1) as nat);
        Set::new(|u: u64| exists|v: u64| needs(b, homes, u, v) && #[trigger] rest.contains(v))
    }
}

/// From `u` on, `n` objects need one another in turn.
pub open spec fn chain(b: Seq<u8>, homes: Seq<(u32, Option<u32>)>, u: u64, n: nat) -> bool {
    chained(b, homes, n).contains(u)
}

/// No object needs too many others in turn.
pub open spec fn chains_end(b: Seq<u8>, homes: Seq<(u32, Option<u32>)>) -> bool {
    forall|u: u64| !#[trigger] chain(b, homes, u, MAX_CHAIN as nat)
}

/// The object `v` is the length of a stream, and itself a stream with an object as
/// its length.
pub open spec fn is_middle(b: Seq<u8>, v: u64) -> bool {
    (exists|u: u64| #[trigger] leads_to(b, u, v)) && (exists|w: u64| #[trigger] leads_to(b, v, w))
}

/// The objects that lengths lead through.
pub open spec fn middles(b: Seq<u8>) -> Set<u64> {
    Set::new(|v: u64| is_middle(b, v))
}

/// The length under a key at `p`, if it is an object, stands in no object stream.
pub open spec fn length_outside(b: Seq<u8>, homes: Seq<(u32, Option<u32>)>, p: int) -> bool {
    length_ref(b, p) matches Some(v) ==> !exists|c: u64| housed(homes, v, c)
}

/// No length stands in an object stream, and lengths lead through few objects. From
/// length to length the reader goes to no object twice, so that it comes to an end,
/// even where lengths lead in a circle.
pub open spec fn lengths_end(b: Seq<u8>, homes: Seq<(u32, Option<u32>)>) -> bool {
    &&& forall|p: int| 0 <= p < b.len() ==> #[trigger] length_outside(b, homes, p)
    &&& middles(b).finite() && middles(b).len() + 2 <= MAX_CHAIN
}

/// The name at `p` has the reader look an object up while it loads: a length that
/// is a reference, or the key to an encrypted file.
pub open spec fn is_call(b: Seq<u8>, p: int) -> bool {
    length_ref(b, p) is Some || value_at(b, p, "Encrypt".spec_bytes()) is Some
}

/// The reader looks no object up while it loads.
pub open spec fn is_quiet(b: Seq<u8>) -> bool {
    forall|p: int| 0 <= p < b.len() ==> !#[trigger] is_call(b, p)
}

/// The file with the names changed that have the reader look an object up.
pub open spec fn quieted(b: Seq<u8>) -> Seq<u8> {
    Seq::new(
        b.len(),
        |i: int|
            if i > 0 && is_call(b, i - 1) {
                0x58u8
            } else {
                b[i]
            },
    )
}

/// Where the data of the stream whose dictionary ends at `g` has ended, if its
/// length is written at `v`.
pub open spec fn data_limit(b: Seq<u8>, g: int, v: int) -> int {
    tables::blanks_end(b, gap_end(b, g) + 6) + 2 + value_of_digits(b, tables::after_sign(b, v))
}

/// No name at `p` in the data of the stream with the dictionary from `d` to `g` is
/// to be changed.
pub open spec fn data_kept(b: Seq<u8>, d: int, g: int) -> bool {
    forall|l: int, p: int|
        #![trigger value_at(b, l, "Length".spec_bytes()), is_call(b, p)]
        d <= l < g && g <= p < b.len() && (value_at(b, l, "Length".spec_bytes()) matches Some(v)
            && p < data_limit(b, g, v)) ==> !is_call(b, p)
}

/// The data of cross-reference streams stays as it is when the file is quieted, and
/// with it what the reader makes of them.
pub open spec fn tables_kept(b: Seq<u8>) -> bool {
    forall|id: u64, d: int, g: int| #[trigger] tables::is_table(b, id, d, g) ==> data_kept(b, d, g)
}

/// Which objects of a file stand in an object stream, and in which: what the reader
/// makes of the cross-references, which quieting keeps.
pub open spec fn homes_in(b: Seq<u8>) -> Seq<(u32, Option<u32>)> {
    match pdf::load_outcome(quieted(b)) {
        Ok(m) => m.homes,
        Err(_) => Seq::empty(),
    }
}

/// The cross-references of a file are in range, and so is what is decoded of it
/// while it loads, with no object looked up.
pub open spec fn is_plain(b: Seq<u8>) -> bool {
    &&& forall|p: int| 0 <= p < b.len() ==> #[trigger] tables::subsection_fits(b, p)
    &&& forall|id: u64, d: int, g: int| #[trigger]
        tables::is_table(b, id, d, g) ==> tables::table_fits(b, d, g) && stream_plain(b, d, g)
    &&& streams_plain(b, Seq::empty())
}

/// A file that is handed to the reader: one in which the reader looks no object up,
/// or in which it comes to an end.
#[verifier::opaque]
pub open spec fn loadable(b: Seq<u8>) -> bool {
    is_plain(b) && (is_quiet(b) || {
        &&& is_plain(quieted(b))
        &&& is_quiet(quieted(b))
        &&& tables_kept(b)
        &&& streams_plain(b, homes_in(b))
        &&& chains_end(b, homes_in(b)) || lengths_end(b, homes_in(b))
    })
}

/// Find the stream whose object begins at `q`.
pub fn find_stream_head(b: &[u8], q: usize) -> (r: Option<(u64, usize, usize)>)
    requires
        q < b@.len(),
    ensures
        match r {
            Some((id, d, g)) => stream_head(b@, q as int) == Some((id, d as int, g as int)) && d < g
                <= b@.len(),
            None => stream_head(b@, q as int) is None,
        },
{
    proof {
        reveal_strlit("obj");
        reveal_strlit("<<");
        vstd::string::is_ascii_spec_bytes("obj");
        vstd::string::is_ascii_spec_bytes("<<");
    }
    match read_id(b, q) {
        Some((id, e)) => {
            if !matches_at(b, "obj".as_bytes(), e) {
                return None;
            }
            let n: usize = b.len();
            assert(e + 3 <= n);
            let d: usize = skip_gap(b, e + 3);
            if !matches_at(b, "<<".as_bytes(), d) {
                return None;
            }
            assert(b@.subrange(d as int, d + 2)[0] == b@[d as int]);
            match find_group_end(b, d) {
                Some(g) => {
                    if matches_at(b, "stream".as_bytes(), skip_gap(b, g)) {
                        Some((id, d, g))
                    } else {
                        None
                    }
                },
                None => None,
            }
        },
        None => None,
    }
}

/// Find what the key `/Length` at `p` refers to.
pub fn find_length_ref(b: &[u8], p: usize) -> (r: Option<u64>)
    ensures
        r == length_ref(b@, p as int),
{
    match find_value_at(b, p, "Length".as_bytes()) {
        Some(v) => match read_id(b, v) {
            Some((id, e)) => if e < b.len() && b[e] == 0x52 {
                Some(id)
            } else {
                None
            },
            None => None,
        },
        None => None,
    }
}

/// What follows digits that end at `e` makes an object's header of them.
spec fn header_follows(b: Seq<u8>, e: int) -> bool {
    let j = gap_end(b, e);
    digits_at(b, j) > 0 && bytes::occurs_at(b, "obj".spec_bytes(), gap_end(b, j + digits_at(b, j)))
}

/// Whether a header follows digits that end at `e`.
fn has_header(b: &[u8], e: usize) -> (r: bool)
    requires
        e <= b@.len(),
    ensures
        r == header_follows(b@, e as int),
{
    let j: usize = skip_gap(b, e);
    let n: usize = count_digits(b, j);
    proof {
        bytes::lemma_digit_run(b@.skip(j as int));
    }
    let len: usize = b.len();
    assert(j + n <= len);
    n > 0 && matches_at(b, "obj".as_bytes(), skip_gap(b, j + n))
}

/// A run of digits ends at the same place from each of its digits on.
proof fn lemma_same_run(b: Seq<u8>, q: int, x: int)
    requires
        0 <= q <= x < q + digits_at(b, q),
        q <= b.len(),
    ensures
        x + digits_at(b, x) == q + digits_at(b, q),
    decreases x - q,
{
    assert(b.skip(q).drop_first() =~= b.skip(q + 1));
    if q < x {
        lemma_same_run(b, q + 1, x);
    }
}

/// Where no header follows a run of digits, no stream begins in it.
proof fn lemma_no_head(b: Seq<u8>, q: int)
    requires
        0 <= q <= b.len(),
        !header_follows(b, q + digits_at(b, q)),
    ensures
        forall|x: int| q <= x < q + digits_at(b, q) ==> #[trigger] stream_head(b, x) is None,
{
    assert forall|x: int| q <= x < q + digits_at(b, q) implies #[trigger] stream_head(b, x) is None
        by {
        lemma_same_run(b, q, x);
    }
}

/// A stream begins somewhere, with this identifier and dictionary.
pub open spec fn is_head(b: Seq<u8>, id: u64, d: int, g: int) -> bool {
    exists|q: int| 0 <= q < b.len() && #[trigger] stream_head(b, q) == Some((id, d, g))
}

/// Some streams are those that begin before `q`.
spec fn heads_upto(b: Seq<u8>, heads: Seq<(u64, usize, usize)>, q: int) -> bool {
    &&& forall|i: int|
        0 <= i < heads.len() ==> is_head(
            b,
            (#[trigger] heads[i]).0,
            heads[i].1 as int,
            heads[i].2 as int,
        ) && heads[i].1 < heads[i].2 <= b.len()
    &&& forall|x: int|
        0 <= x < q && x < b.len() ==> (#[trigger] stream_head(b, x) matches Some((id, d, g))
            ==> exists|i: int|
            0 <= i < heads.len() && (#[trigger] heads[i]).0 == id && heads[i].1 == d && heads[i].2
                == g)
}

/// Find the streams of a file, wherever one may begin.
fn collect_heads(b: &[u8]) -> (r: Vec<(u64, usize, usize)>)
    ensures
        heads_upto(b@, r@, b@.len() as int),
{
    let mut heads: Vec<(u64, usize, usize)> = Vec::new();
    let mut q: usize = 0;
    // No stream begins before this place.
    let mut clear: usize = 0;
    while q < b.len()
        invariant
            q <= b@.len(),
            heads_upto(b@, heads@, q as int),
            forall|x: int| q <= x < clear ==> #[trigger] stream_head(b@, x) is None,
        decreases b@.len() - q,
    {
        if q >= clear {
            let n: usize = count_digits(b, q);
            proof {
                bytes::lemma_digit_run(b@.skip(q as int));
            }
            let len: usize = b.len();
            assert(q + n <= len);
            if n > 0 && !has_header(b, q + n) {
                proof {
                    lemma_no_head(b@, q as int);
                }
                clear = q + n;
            }
        }
        if q < clear {
            q += 1;
            continue;
        }
        let ghost before = heads@;
        if let Some((id, d, g)) = find_stream_head(b, q) {
            heads.push((id, d, g));
            assert(is_head(b@, id, d as int, g as int));
        }
        proof {
            assert forall|i: int| 0 <= i < heads@.len() implies is_head(
                b@,
                (#[trigger] heads@[i]).0,
                heads@[i].1 as int,
                heads@[i].2 as int,
            ) && heads@[i].1 < heads@[i].2 <= b@.len() by {
                if i < before.len() {
                    assert(heads@[i] == before[i]);
                }
            }
            assert forall|x: int| 0 <= x < q + 1 && x < b@.len() implies (
            #[trigger] stream_head(b@, x) matches Some((id, d, g)) ==> exists|i: int|
                0 <= i < heads@.len() && (#[trigger] heads@[i]).0 == id && heads@[i].1 == d
                    && heads@[i].2 == g) by {
                if let Some((id, d, g)) = stream_head(b@, x) {
                    if x < q {
                        let i = choose|i: int|
                            0 <= i < before.len() && (#[trigger] before[i]).0 == id && before[i].1
                                == d && before[i].2 == g;
                        assert(heads@[i] == before[i]);
                    } else {
                        assert(heads@[before.len() as int].0 == id);
                    }
                }
            }
        }
        q += 1;
    }
    heads
}

/// A pair of a stream and a length is among some pairs, if the stream is among
/// the first `n`, or is the one after them and the length stands before `p`.
spec fn pairs_upto(
    b: Seq<u8>,
    heads: Seq<(u64, usize, usize)>,
    pairs: Seq<(u64, u64)>,
    n: int,
    p: int,
) -> bool {
    &&& forall|i: int|
        0 <= i < pairs.len() ==> leads_to(b, (#[trigger] pairs[i]).0, pairs[i].1)
    &&& forall|i: int, y: int|
        #![trigger heads[i], length_ref(b, y)]
        0 <= i < heads.len() && heads[i].1 <= y < heads[i].2 && (i < n || (i == n && y < p))
            && length_ref(b, y) is Some && length_ref(b, y) != Some(heads[i].0) ==> pairs.contains(
            (heads[i].0, length_ref(b, y).unwrap()),
        )
}

/// Collect the streams that lead to one another by their lengths.
fn collect_pairs(b: &[u8], heads: &Vec<(u64, usize, usize)>) -> (r: Vec<(u64, u64)>)
    requires
        heads_upto(b@, heads@, b@.len() as int),
    ensures
        forall|u: u64, v: u64| #[trigger] leads_to(b@, u, v) <==> r@.contains((u, v)),
{
    let mut pairs: Vec<(u64, u64)> = Vec::new();
    let mut k: usize = 0;
    while k < heads.len()
        invariant
            k <= heads@.len(),
            heads_upto(b@, heads@, b@.len() as int),
            pairs_upto(b@, heads@, pairs@, k as int, 0),
        decreases heads@.len() - k,
    {
        let (id, d, g) = heads[k];
        let mut p: usize = d;
        assert(is_head(b@, heads@[k as int].0, d as int, g as int));
        assert(pairs_upto(b@, heads@, pairs@, k as int, p as int));
        while p < g
            invariant
                k < heads@.len(),
                heads@[k as int] == (id, d, g),
                is_head(b@, id, d as int, g as int),
                d <= p <= g <= b@.len(),
                pairs_upto(b@, heads@, pairs@, k as int, p as int),
            decreases g - p,
        {
            let ghost before = pairs@;
            let target = find_length_ref(b, p);
            if target.is_some() && target.unwrap() != id {
                let v: u64 = target.unwrap();
                pairs.push((id, v));
                proof {
                    let q = choose|q: int|
                        0 <= q < b@.len() && #[trigger] stream_head(b@, q) == Some(
                            (id, d as int, g as int),
                        );
                    assert(leads_to_at(b@, q, p as int, id, v));
                    assert(leads_to(b@, id, v));
                    assert forall|i: int| 0 <= i < pairs@.len() implies leads_to(
                        b@,
                        (#[trigger] pairs@[i]).0,
                        pairs@[i].1,
                    ) by {
                        if i < before.len() {
                            assert(pairs@[i] == before[i]);
                        }
                    }
                }
            }
            proof {
                assert forall|i: int, y: int|
                    #![trigger heads@[i], length_ref(b@, y)]
                    0 <= i < heads@.len() && heads@[i].1 <= y < heads@[i].2 && (i < k || (i == k
                        && y < p + 1)) && length_ref(b@, y) is Some && length_ref(b@, y) != Some(
                        heads@[i].0,
                    ) implies pairs@.contains((heads@[i].0, length_ref(b@, y).unwrap())) by {
                    let e = (heads@[i].0, length_ref(b@, y).unwrap());
                    if i < k || y < p {
                        assert(before.contains(e));
                        let m = choose|m: int| 0 <= m < before.len() && before[m] == e;
                        assert(pairs@[m] == e);
                    } else {
                        assert(pairs@[before.len() as int] == e);
                    }
                }
            }
            p += 1;
        }
        k += 1;
    }
    proof {
        assert forall|u: u64, v: u64| #[trigger] leads_to(b@, u, v) <==> pairs@.contains((u, v)) by {
            if leads_to(b@, u, v) {
                let (x, y) = choose|x: int, y: int| #[trigger] leads_to_at(b@, x, y, u, v);
                let (id, d, g) = stream_head(b@, x).unwrap();
                let i = choose|i: int|
                    0 <= i < heads@.len() && (#[trigger] heads@[i]).0 == id && heads@[i].1 == d
                        && heads@[i].2 == g;
                assert(heads@[i].0 == u && length_ref(b@, y) == Some(v));
            }
            if pairs@.contains((u, v)) {
                let i = choose|i: int| 0 <= i < pairs@.len() && pairs@[i] == (u, v);
                assert(leads_to(b@, pairs@[i].0, pairs@[i].1));
            }
        }
    }
    pairs
}

/// A name stands in a part of a file.
pub open spec fn has_name(b: Seq<u8>, from: int, to: int, name: Seq<u8>) -> bool {
    exists|p: int| from <= p < to && #[trigger] value_at(b, p, name) is Some
}

/// Whether a name stands in a part of a file.
pub fn holds_name(b: &[u8], from: usize, to: usize, name: &[u8]) -> (r: bool)
    requires
        from <= to <= b@.len(),
    ensures
        r == has_name(b@, from as int, to as int, name@),
{
    let mut p: usize = from;
    while p < to
        invariant
            from <= p <= to <= b@.len(),
            forall|x: int| from <= x < p ==> #[trigger] value_at(b@, x, name@) is None,
        decreases to - p,
    {
        if find_value_at(b, p, name).is_some() {
            return true;
        }
        p += 1;
    }
    false
}

/// An object stands in the stream `id`.
pub open spec fn houses(homes: Seq<(u32, Option<u32>)>, id: u64) -> bool {
    exists|i: int| 0 <= i < homes.len() && ((#[trigger] homes[i]).1 matches Some(c) && c == id)
}

/// The decoder of the stream with the dictionary from `d` to `g` works with numbers
/// that are in range.
pub open spec fn stream_plain(b: Seq<u8>, d: int, g: int) -> bool {
    tables::rows_in(b, d, g) && tables::base85_fits(b, d, g)
}

/// The key to an encrypted file stands somewhere.
pub open spec fn is_locked(b: Seq<u8>) -> bool {
    has_name(b, 0, b.len() as int, "Encrypt".spec_bytes())
}

/// The reader can decode the stream `id`, if it is one that it decodes while it
/// loads: an object stream, or one that objects stand in. The latter may be
/// encrypted, and is then not in base 85.
pub open spec fn container_plain(
    b: Seq<u8>,
    homes: Seq<(u32, Option<u32>)>,
    id: u64,
    d: int,
    g: int,
) -> bool {
    &&& has_name(b, d, g, "ObjStm".spec_bytes()) || houses(homes, id) ==> stream_plain(b, d, g)
    &&& houses(homes, id) && is_locked(b) ==> !has_name(b, d, g, "ASCII85Decode".spec_bytes())
}

/// The reader can decode the streams that it decodes while it loads.
pub open spec fn streams_plain(b: Seq<u8>, homes: Seq<(u32, Option<u32>)>) -> bool {
    forall|id: u64, d: int, g: int| #[trigger]
        is_head(b, id, d, g) ==> container_plain(b, homes, id, d, g)
}

/// Whether an object stands in the stream `id`.
fn has_tenants(homes: &Vec<(u32, Option<u32>)>, id: u64) -> (r: bool)
    ensures
        r == houses(homes@, id),
{
    let mut k: usize = 0;
    while k < homes.len()
        invariant
            k <= homes@.len(),
            forall|i: int|
                0 <= i < k ==> !((#[trigger] homes@[i]).1 matches Some(c) && c == id),
        decreases homes@.len() - k,
    {
        if let Some(c) = homes[k].1 {
            if c as u64 == id {
                assert(homes@[k as int].1 == Some(c));
                return true;
            }
        }
        k += 1;
    }
    false
}

/// Whether the decoder of a stream works with numbers that are in range.
fn plain_stream(b: &[u8], d: usize, g: usize) -> (r: bool)
    requires
        d <= g <= b@.len(),
        bytes::occurs_at(b@, "stream".spec_bytes(), gap_end(b@, g as int)),
    ensures
        r == stream_plain(b@, d as int, g as int),
{
    short_rows(b, d, g) && small_base85(b, d, g)
}

/// Whether the reader can decode the streams that it decodes while it loads.
fn plain_streams(
    b: &[u8],
    homes: &Vec<(u32, Option<u32>)>,
    heads: &Vec<(u64, usize, usize)>,
) -> (r: bool)
    requires
        heads_upto(b@, heads@, b@.len() as int),
    ensures
        r == streams_plain(b@, homes@),
{
    let locked: bool = holds_name(b, 0, b.len(), "Encrypt".as_bytes());
    let mut k: usize = 0;
    while k < heads.len()
        invariant
            k <= heads@.len(),
            heads_upto(b@, heads@, b@.len() as int),
            locked == is_locked(b@),
            forall|i: int|
                0 <= i < k ==> container_plain(
                    b@,
                    homes@,
                    (#[trigger] heads@[i]).0,
                    heads@[i].1 as int,
                    heads@[i].2 as int,
                ),
        decreases heads@.len() - k,
    {
        let (id, d, g) = heads[k];
        assert(is_head(b@, heads@[k as int].0, d as int, g as int));
        let full: bool = has_tenants(homes, id);
        if full && locked && holds_name(b, d, g, "ASCII85Decode".as_bytes()) {
            assert(!container_plain(b@, homes@, id, d as int, g as int));
            return false;
        }
        if (full || holds_name(b, d, g, "ObjStm".as_bytes())) && !plain_stream(b, d, g) {
            assert(!container_plain(b@, homes@, id, d as int, g as int));
            return false;
        }
        k += 1;
    }
    proof {
        assert forall|id: u64, d: int, g: int| #[trigger] is_head(b@, id, d, g) implies
            container_plain(b@, homes@, id, d, g) by {
            let q = choose|q: int|
                0 <= q < b@.len() && #[trigger] stream_head(b@, q) == Some((id, d, g));
            let i = choose|i: int|
                0 <= i < heads@.len() && (#[trigger] heads@[i]).0 == id && heads@[i].1 == d
                    && heads@[i].2 == g;
            assert(container_plain(
                b@,
                homes@,
                heads@[i].0,
                heads@[i].1 as int,
                heads@[i].2 as int,
            ));
        }
    }
    true
}

/// Collect which objects need which.
fn collect_needs(
    b: &[u8],
    homes: &Vec<(u32, Option<u32>)>,
    heads: &Vec<(u64, usize, usize)>,
) -> (r: Vec<(u64, u64)>)
    requires
        heads_upto(b@, heads@, b@.len() as int),
    ensures
        forall|u: u64, v: u64| #[trigger] needs(b@, homes@, u, v) <==> r@.contains((u, v)),
{
    let mut pairs = collect_pairs(b, heads);
    let mut k: usize = 0;
    assert(homes@.take(0) =~= Seq::<(u32, Option<u32>)>::empty());
    while k < homes.len()
        invariant
            k <= homes@.len(),
            forall|u: u64, v: u64| #[trigger]
                needs(b@, homes@.take(k as int), u, v) <==> pairs@.contains((u, v)),
        decreases homes@.len() - k,
    {
        let ghost before = pairs@;
        let ghost old_homes = homes@.take(k as int);
        let ghost new_homes = homes@.take(k + 1);
        let (num, home) = homes[k];
        if let Some(c) = home {
            pairs.push((num as u64, c as u64));
        }
        proof {
            assert forall|u: u64, v: u64| #[trigger]
                needs(b@, new_homes, u, v) <==> pairs@.contains((u, v)) by {
                assert(needs(b@, old_homes, u, v) <==> before.contains((u, v)));
                if housed(new_homes, u, v) {
                    let i = choose|i: int|
                        0 <= i < new_homes.len() && (#[trigger] new_homes[i]).0 == u && (
                        new_homes[i].1 matches Some(c) && c == v);
                    if i < k {
                        assert(old_homes[i] == new_homes[i]);
                        assert(housed(old_homes, u, v));
                    } else {
                        assert(pairs@[before.len() as int] == (u, v));
                    }
                }
                if housed(old_homes, u, v) {
                    let i = choose|i: int|
                        0 <= i < old_homes.len() && (#[trigger] old_homes[i]).0 == u && (
                        old_homes[i].1 matches Some(c) && c == v);
                    assert(new_homes[i] == old_homes[i]);
                }
                if before.contains((u, v)) {
                    let m = choose|m: int| 0 <= m < before.len() && before[m] == (u, v);
                    assert(pairs@[m] == (u, v));
                }
                if pairs@.contains((u, v)) && !before.contains((u, v)) {
                    let m = choose|m: int| 0 <= m < pairs@.len() && pairs@[m] == (u, v);
                    assert(m == before.len()) by {
                        if m < before.len() {
                            assert(before[m] == (u, v));
                        }
                    }
                    assert(new_homes[k as int] == homes@[k as int]);
                    assert(housed(new_homes, u, v));
                }
            }
        }
        k += 1;
    }
    assert(homes@.take(k as int) =~= homes@);
    pairs
}

/// A chain is one step and a shorter chain.
proof fn lemma_chain(b: Seq<u8>, homes: Seq<(u32, Option<u32>)>, u: u64, n: nat)
    ensures
        chain(b, homes, u, n + 1) <==> exists|v: u64| needs(b, homes, u, v) && #[trigger] chain(b, homes, v, n),
{
    let m = (n + 1) as nat;
    let rest = chained(b, homes, n);
    assert((m - 1) as nat == n);
    if chain(b, homes, u, m) {
        let v = choose|v: u64| needs(b, homes, u, v) && #[trigger] rest.contains(v);
        assert(chain(b, homes, v, n));
    }
    if exists|v: u64| needs(b, homes, u, v) && #[trigger] chain(b, homes, v, n) {
        let v = choose|v: u64| needs(b, homes, u, v) && #[trigger] chain(b, homes, v, n);
        assert(needs(b, homes, u, v) && rest.contains(v));
    }
}

/// The first members of some pairs.
fn collect_sources(pairs: &Vec<(u64, u64)>) -> (alive: HashSet<u64>)
    ensures
        forall|u: u64|
            #[trigger] alive@.contains(u) <==> exists|j: int|
                0 <= j < pairs@.len() && (#[trigger] pairs@[j]).0 == u,
{
    broadcast use vstd::std_specs::hash::group_hash_axioms;

    let mut alive: HashSet<u64> = HashSet::new();
    let mut i: usize = 0;
    while i < pairs.len()
        invariant
            i <= pairs@.len(),
            forall|u: u64|
                #[trigger] alive@.contains(u) <==> exists|j: int|
                    0 <= j < i && (#[trigger] pairs@[j]).0 == u,
        decreases pairs@.len() - i,
    {
        broadcast use vstd::std_specs::hash::group_hash_axioms;

        let ghost before = alive@;
        alive.insert(pairs[i].0);
        proof {
            assert forall|u: u64|
                #[trigger] alive@.contains(u) <==> exists|j: int|
                    0 <= j < i + 1 && (#[trigger] pairs@[j]).0 == u by {
                if u == pairs@[i as int].0 {
                } else if before.contains(u) {
                    let j = choose|j: int| 0 <= j < i && (#[trigger] pairs@[j]).0 == u;
                    assert(pairs@[j].0 == u);
                }
            }
        }
        i += 1;
    }
    alive
}

/// Whether the chains of objects that need one another are short.
fn short_chains(
    b: &[u8],
    homes: &Vec<(u32, Option<u32>)>,
    heads: &Vec<(u64, usize, usize)>,
) -> (r: bool)
    requires
        heads_upto(b@, heads@, b@.len() as int),
    ensures
        r == chains_end(b@, homes@),
{
    broadcast use vstd::std_specs::hash::group_hash_axioms;

    let pairs = collect_needs(b, homes, heads);
    let mut alive = collect_sources(&pairs);
    let mut n: usize = 1;
    proof {
        assert forall|u: u64| #[trigger] alive@.contains(u) <==> chain(b@, homes@, u, 1) by {
            lemma_chain(b@, homes@, u, 0);
            if alive@.contains(u) {
                let j = choose|j: int| 0 <= j < pairs@.len() && (#[trigger] pairs@[j]).0 == u;
                assert(pairs@.contains((u, pairs@[j].1)));
                assert(needs(b@, homes@, u, pairs@[j].1) && chain(b@, homes@, pairs@[j].1, 0));
            }
            if chain(b@, homes@, u, 1) {
                let v = choose|v: u64| needs(b@, homes@, u, v) && #[trigger] chain(b@, homes@, v, 0);
                assert(pairs@.contains((u, v)));
                let j = choose|j: int| 0 <= j < pairs@.len() && pairs@[j] == (u, v);
                assert(pairs@[j].0 == u);
            }
        }
    }
    while n < MAX_CHAIN
        invariant
            1 <= n <= MAX_CHAIN,
            forall|u: u64, v: u64| #[trigger] needs(b@, homes@, u, v) <==> pairs@.contains((u, v)),
            forall|u: u64| #[trigger] alive@.contains(u) <==> chain(b@, homes@, u, n as nat),
        decreases MAX_CHAIN - n,
    {
        broadcast use vstd::std_specs::hash::group_hash_axioms;

        let mut next: HashSet<u64> = HashSet::new();
        let mut i: usize = 0;
        while i < pairs.len()
            invariant
                i <= pairs@.len(),
                forall|u: u64|
                    #[trigger] next@.contains(u) <==> exists|j: int|
                        0 <= j < i && (#[trigger] pairs@[j]).0 == u && alive@.contains(pairs@[j].1),
            decreases pairs@.len() - i,
        {
            broadcast use vstd::std_specs::hash::group_hash_axioms;

            let ghost before = next@;
            let (u, v) = pairs[i];
            if alive.contains(&v) {
                next.insert(u);
            }
            proof {
                assert forall|w: u64|
                    #[trigger] next@.contains(w) <==> exists|j: int|
                        0 <= j < i + 1 && (#[trigger] pairs@[j]).0 == w && alive@.contains(
                            pairs@[j].1,
                        ) by {
                    if before.contains(w) {
                        let j = choose|j: int|
                            0 <= j < i && (#[trigger] pairs@[j]).0 == w && alive@.contains(
                                pairs@[j].1,
                            );
                        assert(pairs@[j].0 == w);
                    }
                    if next@.contains(w) && !before.contains(w) {
                        assert(pairs@[i as int].0 == w);
                    }
                }
            }
            i += 1;
        }
        proof {
            assert forall|u: u64| #[trigger] next@.contains(u) <==> chain(b@, homes@, u, (n + 1) as nat) by {
                lemma_chain(b@, homes@, u, n as nat);
                if next@.contains(u) {
                    let j = choose|j: int|
                        0 <= j < pairs@.len() && (#[trigger] pairs@[j]).0 == u && alive@.contains(
                            pairs@[j].1,
                        );
                    assert(pairs@.contains((u, pairs@[j].1)));
                    assert(needs(b@, homes@, u, pairs@[j].1) && chain(b@, homes@, pairs@[j].1, n as nat));
                }
                if chain(b@, homes@, u, (n + 1) as nat) {
                    let v = choose|v: u64|
                        needs(b@, homes@, u, v) && #[trigger] chain(b@, homes@, v, n as nat);
                    assert(pairs@.contains((u, v)));
                    let j = choose|j: int| 0 <= j < pairs@.len() && pairs@[j] == (u, v);
                    assert(pairs@[j].0 == u && alive@.contains(pairs@[j].1));
                }
            }
        }
        alive = next;
        n += 1;
    }
    let mut i: usize = 0;
    while i < pairs.len()
        invariant
            i <= pairs@.len(),
            forall|u: u64, v: u64| #[trigger] needs(b@, homes@, u, v) <==> pairs@.contains((u, v)),
            forall|u: u64| #[trigger] alive@.contains(u) <==> chain(b@, homes@, u, MAX_CHAIN as nat),
            forall|j: int| 0 <= j < i ==> !alive@.contains((#[trigger] pairs@[j]).0),
        decreases pairs@.len() - i,
    {
        broadcast use vstd::std_specs::hash::group_hash_axioms;

        if alive.contains(&pairs[i].0) {
            assert(chain(b@, homes@, pairs@[i as int].0, MAX_CHAIN as nat));
            return false;
        }
        i += 1;
    }
    proof {
        assert forall|u: u64| !#[trigger] chain(b@, homes@, u, MAX_CHAIN as nat) by {
            lemma_chain(b@, homes@, u, (MAX_CHAIN - 1) as nat);
            if chain(b@, homes@, u, MAX_CHAIN as nat) {
                let v = choose|v: u64|
                    needs(b@, homes@, u, v) && #[trigger] chain(b@, homes@, v, (MAX_CHAIN - 1) as nat);
                assert(pairs@.contains((u, v)));
                let j = choose|j: int| 0 <= j < pairs@.len() && pairs@[j] == (u, v);
                assert(pairs@[j].0 == u);
                assert(alive@.contains(u));
            }
        }
    }
    true
}

/// The objects that stand in an object stream.
fn collect_housed(homes: &Vec<(u32, Option<u32>)>) -> (r: HashSet<u64>)
    ensures
        forall|u: u64|
            #![trigger r@.contains(u)]
            r@.contains(u) <==> exists|c: u64| housed(homes@, u, c),
{
    broadcast use vstd::std_specs::hash::group_hash_axioms;

    let mut r: HashSet<u64> = HashSet::new();
    let mut k: usize = 0;
    while k < homes.len()
        invariant
            k <= homes@.len(),
            forall|u: u64|
                #![trigger r@.contains(u)]
                r@.contains(u) <==> exists|i: int|
                    0 <= i < k && (#[trigger] homes@[i]).0 == u && homes@[i].1 is Some,
        decreases homes@.len() - k,
    {
        broadcast use vstd::std_specs::hash::group_hash_axioms;

        let ghost before = r@;
        let (num, home) = homes[k];
        if home.is_some() {
            r.insert(num as u64);
        }
        proof {
            assert forall|u: u64|
                #![trigger r@.contains(u)]
                r@.contains(u) <==> exists|i: int|
                    0 <= i < k + 1 && (#[trigger] homes@[i]).0 == u && homes@[i].1 is Some by {
                if before.contains(u) {
                    let i = choose|i: int|
                        0 <= i < k && (#[trigger] homes@[i]).0 == u && homes@[i].1 is Some;
                    assert(homes@[i].0 == u);
                }
                if r@.contains(u) && !before.contains(u) {
                    assert(homes@[k as int].0 == u);
                }
            }
        }
        k += 1;
    }
    proof {
        assert forall|u: u64|
            #![trigger r@.contains(u)]
            r@.contains(u) <==> exists|c: u64| housed(homes@, u, c) by {
            if r@.contains(u) {
                let i = choose|i: int|
                    0 <= i < homes@.len() && (#[trigger] homes@[i]).0 == u && homes@[i].1 is Some;
                assert(housed(homes@, u, homes@[i].1->Some_0 as u64));
            }
            if exists|c: u64| housed(homes@, u, c) {
                let c = choose|c: u64| housed(homes@, u, c);
                let i = choose|i: int|
                    0 <= i < homes@.len() && (#[trigger] homes@[i]).0 == u && (homes@[i].1 matches Some(
                        x,
                    ) && x == c);
                assert(homes@[i].1 is Some);
            }
        }
    }
    r
}

/// Whether no length stands in an object stream, and lengths lead through few
/// objects.
fn few_lengths(
    b: &[u8],
    homes: &Vec<(u32, Option<u32>)>,
    heads: &Vec<(u64, usize, usize)>,
) -> (r: bool)
    requires
        heads_upto(b@, heads@, b@.len() as int),
    ensures
        r == lengths_end(b@, homes@),
{
    broadcast use vstd::std_specs::hash::group_hash_axioms;

    let pairs = collect_pairs(b, heads);
    let inside = collect_housed(homes);
    let mut p: usize = 0;
    while p < b.len()
        invariant
            p <= b@.len(),
            forall|u: u64|
                #![trigger inside@.contains(u)]
                inside@.contains(u) <==> exists|c: u64| housed(homes@, u, c),
            forall|q: int| 0 <= q < p ==> #[trigger] length_outside(b@, homes@, q),
        decreases b@.len() - p,
    {
        broadcast use vstd::std_specs::hash::group_hash_axioms;

        if let Some(v) = find_length_ref(b, p) {
            if inside.contains(&v) {
                assert(!length_outside(b@, homes@, p as int));
                return false;
            }
        }
        p += 1;
    }
    let sources = collect_sources(&pairs);
    let mut through: HashSet<u64> = HashSet::new();
    let mut i: usize = 0;
    while i < pairs.len()
        invariant
            i <= pairs@.len(),
            forall|u: u64, v: u64| #[trigger] leads_to(b@, u, v) <==> pairs@.contains((u, v)),
            through@.finite(),
            forall|v: u64|
                #[trigger] through@.contains(v) <==> sources@.contains(v) && exists|j: int|
                    0 <= j < i && (#[trigger] pairs@[j]).1 == v,
        decreases pairs@.len() - i,
    {
        broadcast use vstd::std_specs::hash::group_hash_axioms;

        let v: u64 = pairs[i].1;
        let ghost before = through@;
        if sources.contains(&v) {
            through.insert(v);
        }
        proof {
            assert forall|w: u64|
                #[trigger] through@.contains(w) <==> sources@.contains(w) && exists|j: int|
                    0 <= j < i + 1 && (#[trigger] pairs@[j]).1 == w by {
                if before.contains(w) {
                    let j = choose|j: int| 0 <= j < i && (#[trigger] pairs@[j]).1 == w;
                    assert(pairs@[j].1 == w);
                }
                if through@.contains(w) && !before.contains(w) {
                    assert(pairs@[i as int].1 == w);
                }
            }
        }
        i += 1;
    }
    proof {
        assert forall|v: u64| #[trigger] through@.contains(v) <==> is_middle(b@, v) by {
            if through@.contains(v) {
                let j = choose|j: int| 0 <= j < pairs@.len() && (#[trigger] pairs@[j]).1 == v;
                assert(pairs@.contains((pairs@[j].0, v)));
                assert(leads_to(b@, pairs@[j].0, v));
                let k = choose|k: int| 0 <= k < pairs@.len() && (#[trigger] pairs@[k]).0 == v;
                assert(pairs@.contains((v, pairs@[k].1)));
                assert(leads_to(b@, v, pairs@[k].1));
            }
            if is_middle(b@, v) {
                let u = choose|u: u64| #[trigger] leads_to(b@, u, v);
                let w = choose|w: u64| #[trigger] leads_to(b@, v, w);
                assert(pairs@.contains((u, v)) && pairs@.contains((v, w)));
                let j = choose|j: int| 0 <= j < pairs@.len() && pairs@[j] == (u, v);
                let k = choose|k: int| 0 <= k < pairs@.len() && pairs@[k] == (v, w);
                assert(pairs@[j].1 == v && pairs@[k].0 == v);
            }
        }
        assert(through@ =~= middles(b@));
    }
    through.len() <= MAX_CHAIN - 2
}

/// Whether the name at `p` has the reader look an object up.
fn calls(b: &[u8], p: usize) -> (r: bool)
    ensures
        r == is_call(b@, p as int),
{
    find_length_ref(b, p).is_some() || find_value_at(b, p, "Encrypt".as_bytes()).is_some()
}

/// Whether the reader looks no object up while it loads.
fn quiet(b: &[u8]) -> (r: bool)
    ensures
        r == is_quiet(b@),
{
    let mut p: usize = 0;
    while p < b.len()
        invariant
            p <= b@.len(),
            forall|q: int| 0 <= q < p ==> !#[trigger] is_call(b@, q),
        decreases b@.len() - p,
    {
        if calls(b, p) {
            return false;
        }
        p += 1;
    }
    true
}

/// Change the names that have the reader look an object up.
fn quieten(b: &[u8]) -> (r: Vec<u8>)
    ensures
        r@ == quieted(b@),
{
    let mut r: Vec<u8> = Vec::new();
    let mut i: usize = 0;
    while i < b.len()
        invariant
            i <= b@.len(),
            r@ == quieted(b@).take(i as int),
        decreases b@.len() - i,
    {
        let c: u8 = if i > 0 && calls(b, i - 1) {
            0x58
        } else {
            b[i]
        };
        r.push(c);
        assert(quieted(b@).take(i + 1) =~= quieted(b@).take(i as int).push(c));
        i += 1;
    }
    assert(quieted(b@).take(i as int) =~= quieted(b@));
    r
}

/// Where the data of a stream has ended, or the file has.
fn find_data_limit(b: &[u8], g: usize, v: usize) -> (r: usize)
    requires
        g <= b@.len(),
        v <= b@.len(),
        bytes::occurs_at(b@, "stream".spec_bytes(), gap_end(b@, g as int)),
    ensures
        r == if data_limit(b@, g as int, v as int) < b@.len() {
            data_limit(b@, g as int, v as int)
        } else {
            b@.len() as int
        },
{
    proof {
        reveal_strlit("stream");
        vstd::string::is_ascii_spec_bytes("stream");
    }
    let len: usize = b.len();
    let s: usize = skip_gap(b, g);
    assert(s + 6 <= len);
    let i: usize = skip_blanks(b, s + 6);
    let w: usize = skip_sign(b, v);
    let room: usize = len - i;
    match read_digits(b, w, room) {
        Some((n, _)) => if room >= 2 && n <= room - 2 {
            i + 2 + n
        } else {
            len
        },
        None => {
            if count_digits(b, w) == 0 {
                proof {
                    bytes::lemma_digit_run(b@.skip(w as int));
                    assert(b@.subrange(w as int, w as int) =~= Seq::<u8>::empty());
                }
                if room >= 2 {
                    i + 2
                } else {
                    len
                }
            } else {
                len
            }
        },
    }
}

/// Whether no name in the data of a stream is to be changed.
fn keeps_data(b: &[u8], d: usize, g: usize) -> (r: bool)
    requires
        d <= g <= b@.len(),
        bytes::occurs_at(b@, "stream".spec_bytes(), gap_end(b@, g as int)),
    ensures
        r == data_kept(b@, d as int, g as int),
{
    let mut l: usize = d;
    while l < g
        invariant
            d <= l <= g <= b@.len(),
            bytes::occurs_at(b@, "stream".spec_bytes(), gap_end(b@, g as int)),
            data_kept(b@, d as int, g as int) <==> data_kept(b@, l as int, g as int),
        decreases g - l,
    {
        if let Some(v) = find_value_at(b, l, "Length".as_bytes()) {
            let limit: usize = find_data_limit(b, g, v);
            let mut p: usize = g;
            while p < limit
                invariant
                    d <= l < g <= p <= b@.len(),
                    limit <= b@.len(),
                    value_at(b@, l as int, "Length".spec_bytes()) == Some(v as int),
                    limit <= data_limit(b@, g as int, v as int),
                    data_kept(b@, d as int, g as int) <==> data_kept(b@, l as int, g as int),
                    forall|q: int| g <= q < p ==> !#[trigger] is_call(b@, q),
                decreases limit - p,
            {
                if calls(b, p) {
                    assert(!data_kept(b@, l as int, g as int)) by {
                        assert(is_call(b@, p as int));
                        assert(value_at(b@, l as int, "Length".spec_bytes()) is Some);
                    }
                    return false;
                }
                p += 1;
            }
        }
        assert(data_kept(b@, l as int, g as int) <==> data_kept(b@, l + 1, g as int));
        l += 1;
    }
    assert(data_kept(b@, l as int, g as int));
    true
}

/// A stream that may be read as cross-references is a stream.
proof fn lemma_table(b: Seq<u8>, id: u64, d: int, g: int)
    requires
        tables::is_table(b, id, d, g),
    ensures
        bytes::occurs_at(b, "stream".spec_bytes(), gap_end(b, g)),
{
}

/// Whether the data of cross-reference streams stays as it is.
fn keeps_tables(b: &[u8], tables: &Vec<(u64, usize, usize)>) -> (r: bool)
    requires
        tables::tables_upto(b@, tables@, b@.len() as int),
    ensures
        r == tables_kept(b@),
{
    let mut k: usize = 0;
    while k < tables.len()
        invariant
            k <= tables@.len(),
            tables::tables_upto(b@, tables@, b@.len() as int),
            forall|i: int|
                0 <= i < k ==> data_kept(
                    b@,
                    (#[trigger] tables@[i]).1 as int,
                    tables@[i].2 as int,
                ),
        decreases tables@.len() - k,
    {
        let (id, d, g) = tables[k];
        assert(tables::is_table(b@, tables@[k as int].0, d as int, g as int));
        proof {
            lemma_table(b@, id, d as int, g as int);
        }
        if !keeps_data(b, d, g) {
            return false;
        }
        k += 1;
    }
    proof {
        assert forall|id: u64, d: int, g: int| #[trigger]
            tables::is_table(b@, id, d, g) implies data_kept(b@, d, g) by {
            let q = choose|q: int|
                0 <= q < b@.len() && #[trigger] tables::table_head(b@, q) == Some((id, d, g));
            let i = choose|i: int|
                0 <= i < tables@.len() && (#[trigger] tables@[i]).0 == id && tables@[i].1 == d
                    && tables@[i].2 == g;
            assert(data_kept(b@, tables@[i].1 as int, tables@[i].2 as int));
        }
    }
    true
}

/// Whether the cross-reference streams are in range.
fn plain_tables(b: &[u8], tables: &Vec<(u64, usize, usize)>) -> (r: bool)
    requires
        tables::tables_upto(b@, tables@, b@.len() as int),
    ensures
        r == (forall|id: u64, d: int, g: int| #[trigger]
            tables::is_table(b@, id, d, g) ==> tables::table_fits(b@, d, g) && stream_plain(
                b@,
                d,
                g,
            )),
{
    let mut k: usize = 0;
    while k < tables.len()
        invariant
            k <= tables@.len(),
            tables::tables_upto(b@, tables@, b@.len() as int),
            forall|i: int|
                0 <= i < k ==> tables::table_fits(
                    b@,
                    (#[trigger] tables@[i]).1 as int,
                    tables@[i].2 as int,
                ) && stream_plain(b@, tables@[i].1 as int, tables@[i].2 as int),
        decreases tables@.len() - k,
    {
        let (id, d, g) = tables[k];
        assert(tables::is_table(b@, tables@[k as int].0, d as int, g as int));
        proof {
            lemma_table(b@, id, d as int, g as int);
        }
        if !small_table(b, d, g) || !plain_stream(b, d, g) {
            return false;
        }
        k += 1;
    }
    proof {
        assert forall|id: u64, d: int, g: int| #[trigger]
            tables::is_table(b@, id, d, g) implies tables::table_fits(b@, d, g) && stream_plain(
            b@,
            d,
            g,
        ) by {
            let q = choose|q: int|
                0 <= q < b@.len() && #[trigger] tables::table_head(b@, q) == Some((id, d, g));
            let i = choose|i: int|
                0 <= i < tables@.len() && (#[trigger] tables@[i]).0 == id && tables@[i].1 == d
                    && tables@[i].2 == g;
            assert(tables::table_fits(b@, tables@[i].1 as int, tables@[i].2 as int));
        }
    }
    true
}

/// Whether the cross-references of a file are in range, and what is decoded of it.
fn plain(
    b: &[u8],
    heads: &Vec<(u64, usize, usize)>,
    tables: &Vec<(u64, usize, usize)>,
) -> (r: bool)
    requires
        heads_upto(b@, heads@, b@.len() as int),
        tables::tables_upto(b@, tables@, b@.len() as int),
    ensures
        r == is_plain(b@),
{
    let mut p: usize = 0;
    while p < b.len()
        invariant
            p <= b@.len(),
            forall|q: int| 0 <= q < p ==> #[trigger] tables::subsection_fits(b@, q),
        decreases b@.len() - p,
    {
        if !small_subsection(b, p) {
            assert(!tables::subsection_fits(b@, p as int));
            return false;
        }
        p += 1;
    }
    let none: Vec<(u32, Option<u32>)> = Vec::new();
    assert(none@ =~= Seq::<(u32, Option<u32>)>::empty());
    plain_tables(b, tables) && plain_streams(b, &none, heads)
}

/// Whether a file is handed to the reader. The cross-references of a file in which
/// the reader looks objects up are read from its quieted form.
pub fn load_safe(b: &[u8]) -> (r: bool)
    ensures
        r == loadable(b@),
{
    proof {
        reveal(loadable);
    }
    let heads = collect_heads(b);
    let tables = collect_tables(b);
    if !plain(b, &heads, &tables) {
        return false;
    }
    if quiet(b) {
        return true;
    }
    let still = quieten(b);
    let still_heads = collect_heads(still.as_slice());
    let still_tables = collect_tables(still.as_slice());
    if !plain(still.as_slice(), &still_heads, &still_tables) || !quiet(still.as_slice())
        || !keeps_tables(b, &tables) {
        return false;
    }
    let homes = match load_mem(still.as_slice()) {
        Ok(doc) => homes_of(&doc),
        Err(_) => Vec::new(),
    };
    assert(homes@ =~= homes_in(b@));
    plain_streams(b, &homes, &heads) && (short_chains(b, &homes, &heads) || few_lengths(
        b,
        &homes,
        &heads,
    ))
}

} // verus!
