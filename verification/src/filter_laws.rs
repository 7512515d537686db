//! What the filters of a stream do, and which streams, content and files are ordinary.

use crate::bytes;
use crate::filters;
use crate::images;
use crate::loading;
use crate::number::Number;
use crate::object::ObjModel;
use crate::pdf;
use crate::reference_laws;
use crate::tables;
use vstd::prelude::*;
use vstd::string::StringSliceAdditionalSpecFns;

verus! {

/// Names as they stand in an array.
pub open spec fn names_list(fs: Seq<Seq<u8>>) -> Seq<ObjModel> {
    Seq::new(fs.len(), |i: int| ObjModel::Name(fs[i]))
}

/// The data of a stream goes through its filters: one that stands by its name, or those
/// of an array in their order. Without filters it is taken as it is.
pub proof fn law_streams_go_through_their_filters(
    d: Seq<(Seq<u8>, ObjModel)>,
    data: Seq<u8>,
    f: Seq<u8>,
    fs: Seq<Seq<u8>>,
)
    ensures
        reference_laws::lacks(d, "Filter".spec_bytes()) ==> filters::decoded(d, data) == Some(data),
        reference_laws::has(d, "Filter".spec_bytes(), ObjModel::Name(f)) ==> filters::decoded(
            d,
            data,
        ) == filters::step(f, filters::parameters(d), data),
        reference_laws::has(d, "Filter".spec_bytes(), ObjModel::Array(names_list(fs))) && fs.len()
            > 0 ==> filters::decoded(d, data) == filters::passed(
            fs,
            filters::parameters(d),
            data,
            fs.len() as int,
        ),
{
    reference_laws::law_keys_are_looked_up(d, "Filter".spec_bytes(), ObjModel::Name(f));
    reference_laws::law_keys_are_looked_up(
        d,
        "Filter".spec_bytes(),
        ObjModel::Array(names_list(fs)),
    );
    let a = names_list(fs);
    assert(Seq::new(a.len(), |i: int| a[i]->Name_0) =~= fs);
    reveal_with_fuel(filters::passed, 3);
}

/// Filters work one after the other, each on what the one before gave.
pub proof fn law_filters_work_in_order(
    f: Seq<u8>,
    fs: Seq<Seq<u8>>,
    params: Seq<(Seq<u8>, i64)>,
    data: Seq<u8>,
)
    ensures
        filters::passed(seq![f] + fs, params, data, 1 + fs.len() as int) == match filters::step(
            f,
            params,
            data,
        ) {
            Some(s) => filters::passed(fs, params, s, fs.len() as int),
            None => None,
        },
        filters::passed(fs, params, data, 0) == Some(data),
{
    lemma_passed(f, fs, params, data, fs.len() as int);
}

proof fn lemma_passed(
    f: Seq<u8>,
    fs: Seq<Seq<u8>>,
    params: Seq<(Seq<u8>, i64)>,
    data: Seq<u8>,
    n: int,
)
    requires
        0 <= n <= fs.len(),
    ensures
        filters::passed(seq![f] + fs, params, data, 1 + n) == match filters::step(f, params, data) {
            Some(s) => filters::passed(fs, params, s, n),
            None => None,
        },
    decreases n,
{
    let all = seq![f] + fs;
    if n == 0 {
        reveal_with_fuel(filters::passed, 2);
        assert(all[0] == f);
    } else {
        lemma_passed(f, fs, params, data, n - 1);
        assert(all[n] == fs[n - 1]);
    }
}

/// The parameters of the filters are the integers of `/DecodeParms`, of which the last
/// under a name counts.
pub proof fn law_parameters_are_the_integers(
    d: Seq<(Seq<u8>, ObjModel)>,
    p: Seq<(Seq<u8>, ObjModel)>,
    a: Seq<(Seq<u8>, ObjModel)>,
    b: Seq<(Seq<u8>, ObjModel)>,
    key: Seq<u8>,
    v: i64,
    o: ObjModel,
    default: i64,
)
    ensures
        reference_laws::has(d, "DecodeParms".spec_bytes(), ObjModel::Dict(p))
            ==> filters::parameters(d) == filters::integers_in(p),
        reference_laws::lacks(d, "DecodeParms".spec_bytes()) ==> filters::parameters(d).len() == 0,
        filters::integers_in(a + b) == filters::integers_in(a) + filters::integers_in(b),
        filters::integers_in(seq![(key, ObjModel::Num(Number::Int(v)))]) == seq![(key, v)],
        !(o matches ObjModel::Num(Number::Int(_))) ==> filters::integers_in(seq![(key, o)]).len()
            == 0,
        ({
            let x = filters::integers_in(a);
            let y = x + seq![(key, v)];
            &&& filters::parameter(y, key, default) == v
            &&& forall|other: Seq<u8>|
                other != key ==> #[trigger] filters::parameter(y, other, default)
                    == filters::parameter(x, other, default)
        }),
        filters::parameter(Seq::empty(), key, default) == default,
{
    reference_laws::law_keys_are_looked_up(d, "DecodeParms".spec_bytes(), ObjModel::Dict(p));
    lemma_integers(a, b);
    let s = seq![(key, ObjModel::Num(Number::Int(v)))];
    let t = seq![(key, o)];
    let e = Seq::<(Seq<u8>, ObjModel)>::empty();
    assert(s.drop_last() =~= e);
    assert(t.drop_last() =~= e);
    assert(filters::integers_in(e).len() == 0);
    assert(filters::integers_in(s) == filters::integers_in(e).push((key, v)));
    assert(filters::integers_in(s) =~= seq![(key, v)]);
    let x = filters::integers_in(a);
    let y = x + seq![(key, v)];
    assert(y.drop_last() =~= x);
}

proof fn lemma_integers(a: Seq<(Seq<u8>, ObjModel)>, b: Seq<(Seq<u8>, ObjModel)>)
    ensures
        filters::integers_in(a + b) == filters::integers_in(a) + filters::integers_in(b),
    decreases b.len(),
{
    if b.len() == 0 {
        assert(a + b =~= a);
        assert(filters::integers_in(a) + filters::integers_in(b) =~= filters::integers_in(a));
    } else {
        assert((a + b).drop_last() =~= a + b.drop_last());
        lemma_integers(a, b.drop_last());
        assert(filters::integers_in(a + b) =~= filters::integers_in(a) + filters::integers_in(b));
    }
}

/// A filter is run on every data, but for data in base 85 and for predictors of 10 to
/// 15, whose rows may be too long; with up to 32 colors of up to 32 bits in up to a
/// million columns they are not.
pub proof fn law_ordinary_filters_are_run(
    filter: Seq<u8>,
    params: Seq<(Seq<u8>, i64)>,
    data: Seq<u8>,
)
    requires
        filter != "ASCII85Decode".spec_bytes(),
        ({
            let predictor = filters::parameter(params, "Predictor".spec_bytes(), 1);
            ||| predictor < 10
            ||| predictor > 15
            ||| filters::parameter(params, "Colors".spec_bytes(), 1) <= 32 && filters::parameter(
                params,
                "BitsPerComponent".spec_bytes(),
                8,
            ) <= 32 && filters::parameter(params, "Columns".spec_bytes(), 1) <= 0x10_0000
        }),
    ensures
        filters::step(filter, params, data) == pdf::filtered(filter, params, data),
{
    let colors = filters::at_least(1, filters::parameter(params, "Colors".spec_bytes(), 1));
    let bits = filters::at_least(
        8,
        filters::parameter(params, "BitsPerComponent".spec_bytes(), 8),
    );
    let columns = filters::at_least(1, filters::parameter(params, "Columns".spec_bytes(), 1));
    if 10 <= filters::parameter(params, "Predictor".spec_bytes(), 1) <= 15 {
        assert(0 <= colors * bits <= 1024) by (nonlinear_arith)
            requires
                1 <= colors <= 32,
                8 <= bits <= 32,
        ;
        let row = (colors * bits / 8) as int;
        assert(0 <= row <= 128);
        assert(row * columns <= 128 * 0x10_0000) by (nonlinear_arith)
            requires
                0 <= row <= 128,
                1 <= columns <= 0x10_0000,
        ;
    }
}

/// The five digits of a number in base 85.
pub open spec fn base85(v: int) -> Seq<u8> {
    seq![
        (0x21 + v / 52200625) as u8,
        (0x21 + v / 614125 % 85) as u8,
        (0x21 + v / 7225 % 85) as u8,
        (0x21 + v / 85 % 85) as u8,
        (0x21 + v % 85) as u8,
    ]
}

/// What fits depends on the bytes that are left only.
proof fn lemma_groups_alike(a: Seq<u8>, i: int, b: Seq<u8>, j: int, value: int, count: int)
    requires
        0 <= i <= a.len(),
        0 <= j <= b.len(),
        a.skip(i) == b.skip(j),
    ensures
        filters::groups_fit(a, i, value, count) == filters::groups_fit(b, j, value, count),
    decreases a.len() - i,
{
    assert(a.skip(i).len() == a.len() - i && b.skip(j).len() == b.len() - j);
    if i < a.len() {
        assert(a[i] == a.skip(i)[0] && b[j] == b.skip(j)[0]);
        assert(a.skip(i + 1) =~= a.skip(i).skip(1));
        assert(b.skip(j + 1) =~= b.skip(j).skip(1));
        lemma_groups_alike(a, i + 1, b, j + 1, value, count);
        lemma_groups_alike(a, i + 1, b, j + 1, 0, 0);
        lemma_groups_alike(a, i + 1, b, j + 1, value * 85 + (a[i] - 0x21), count + 1);
    }
}

/// Data in base 85 is decoded where it is written out of numbers of 32 bits: five digits
/// for each, or `z` for 0, and blanks between them.
pub proof fn law_written_base_85_is_decoded(v: u32, blank: u8, rest: Seq<u8>)
    requires
        blank == 0x20 || blank == 0x09 || blank == 0x0A || blank == 0x0D || blank == 0x0C,
    ensures
        filters::groups_fit(Seq::empty(), 0, 0, 0),
        filters::groups_fit(base85(v as int) + rest, 0, 0, 0) == filters::groups_fit(rest, 0, 0, 0),
        filters::groups_fit(seq![0x7Au8] + rest, 0, 0, 0) == filters::groups_fit(rest, 0, 0, 0),
        filters::groups_fit(seq![blank] + rest, 0, 0, 0) == filters::groups_fit(rest, 0, 0, 0),
{
    let n = v as int;
    let s = base85(n) + rest;
    let a = n / 52200625;
    let b = n / 614125;
    let c = n / 7225;
    let d = n / 85;
    assert(0 <= a <= 82);
    assert(b == a * 85 + b % 85);
    assert(c == b * 85 + c % 85);
    assert(d == c * 85 + d % 85);
    assert(n == d * 85 + n % 85);
    assert(s[0] == 0x21 + a && s[1] == 0x21 + b % 85 && s[2] == 0x21 + c % 85 && s[3] == 0x21 + d
        % 85 && s[4] == 0x21 + n % 85);
    assert(filters::groups_fit(s, 0, 0, 0) == filters::groups_fit(s, 1, a, 1));
    assert(filters::groups_fit(s, 1, a, 1) == filters::groups_fit(s, 2, b, 2));
    assert(filters::groups_fit(s, 2, b, 2) == filters::groups_fit(s, 3, c, 3));
    assert(filters::groups_fit(s, 3, c, 3) == filters::groups_fit(s, 4, d, 4));
    assert(filters::groups_fit(s, 4, d, 4) == filters::groups_fit(s, 5, 0, 0));
    assert(s.skip(5) =~= rest.skip(0));
    lemma_groups_alike(s, 5, rest, 0, 0, 0);
    let z = seq![0x7Au8] + rest;
    assert(z.skip(1) =~= rest.skip(0));
    lemma_groups_alike(z, 1, rest, 0, 0, 0);
    let w = seq![blank] + rest;
    assert(w.skip(1) =~= rest.skip(0));
    lemma_groups_alike(w, 1, rest, 0, 0, 0);
}

/// Without a `BI` from some place on, nothing there is an image.
proof fn lemma_no_images(b: Seq<u8>, i: int)
    requires
        forall|p: int| !(#[trigger] bytes::occurs_at(b, "BI".spec_bytes(), p)),
    ensures
        images::safe_from(b, i),
        images::first_image(b, i) is None,
    decreases b.len() - i,
{
    if 0 <= i < b.len() {
        assert(!bytes::occurs_at(b, "BI".spec_bytes(), i));
        match images::token_end(b, i) {
            Some(e) => {
                if i < e <= b.len() {
                    lemma_no_images(b, e);
                }
            },
            None => {},
        }
    }
}

/// Content without inline images is decoded, whatever else it holds.
pub proof fn law_content_without_images_is_decoded(b: Seq<u8>)
    requires
        forall|p: int| !(#[trigger] bytes::occurs_at(b, "BI".spec_bytes(), p)),
    ensures
        pdf::operations_in(b) == pdf::content_operations(b),
{
    lemma_no_images(b, 0);
}

/// An inline image of less than 65536 by 1024 points with up to 16 bits for a color, that
/// says that it is a mask or in which colors it is, is passed; under short keys or long
/// ones.
pub proof fn law_ordinary_images_are_passed(
    d: Seq<(Seq<u8>, Seq<u8>)>,
    width: nat,
    height: nat,
    bits: nat,
)
    requires
        width < 0x1_0000,
        height < 0x400,
        bits <= 16,
        images::last_value(d, "W".spec_bytes()) == Some(bytes::decimal(width)) || (
        images::last_value(d, "W".spec_bytes()) is None && images::last_value(
            d,
            "Width".spec_bytes(),
        ) == Some(bytes::decimal(width))),
        images::last_value(d, "H".spec_bytes()) == Some(bytes::decimal(height)) || (
        images::last_value(d, "H".spec_bytes()) is None && images::last_value(
            d,
            "Height".spec_bytes(),
        ) == Some(bytes::decimal(height))),
        images::last_value(d, "BPC".spec_bytes()) == Some(bytes::decimal(bits)) || (
        images::last_value(d, "BPC".spec_bytes()) is None && images::last_value(
            d,
            "BitsPerComponent".spec_bytes(),
        ) == Some(bytes::decimal(bits))),
        images::last_value(d, "CS".spec_bytes()) is Some || images::last_value(
            d,
            "ColorSpace".spec_bytes(),
        ) is Some || images::last_value(d, "IM".spec_bytes()) == Some("true".spec_bytes()) || (
        images::last_value(d, "IM".spec_bytes()) is None && images::last_value(
            d,
            "ImageMask".spec_bytes(),
        ) == Some("true".spec_bytes())),
    ensures
        images::dict_safe(d),
{
    bytes::law_decimal_reads_back(width);
    bytes::law_decimal_reads_back(height);
    bytes::law_decimal_reads_back(bits);
    assert(bytes::decimal(width)[0] != 0x2B && bytes::decimal(width)[0] != 0x2D) by {
        assert(bytes::is_digit(bytes::decimal(width)[0]));
    }
    let w4 = (width * (4 * bits)) as int;
    assert(0 <= w4 <= 0x40_0000) by (nonlinear_arith)
        requires
            w4 == width * (4 * bits),
            width < 0x1_0000,
            bits <= 16,
    ;
    let row = w4 / 8 + 1;
    assert(0 <= height * row <= 0x400 * 0x8_0001) by (nonlinear_arith)
        requires
            0 <= height < 0x400,
            0 <= row <= 0x8_0001,
    ;
}

/// A file of up to two gigabytes whose numbers have up to nine digits, with no length
/// that is a reference, no key to an encryption, no object stream and no cross-reference
/// stream, is handed to the reader, and its outcome is what the reader makes of it.
pub proof fn law_ordinary_files_are_read(b: Seq<u8>)
    requires
        b.len() < 0x8000_0000,
        forall|p: int| 0 <= p < b.len() ==> #[trigger] loading::digits_at(b, p) <= 9,
        forall|p: int| (#[trigger] loading::length_ref(b, p)) is None,
        forall|p: int| (#[trigger] loading::value_at(b, p, "Encrypt".spec_bytes())) is None,
        forall|p: int| (#[trigger] loading::value_at(b, p, "ObjStm".spec_bytes())) is None,
        forall|p: int| (#[trigger] tables::table_head(b, p)) is None,
    ensures
        pdf::outcome(b) == pdf::load_outcome(b),
{
    reveal(loading::loadable);
    assert forall|p: int| 0 <= p < b.len() implies #[trigger] tables::subsection_fits(b, p) by {
        let n = loading::digits_at(b, p);
        bytes::lemma_digit_run(b.skip(p));
        assert(b.subrange(p, p + n) =~= b.skip(p).take(n as int));
        lemma_nine_digits(b.subrange(p, p + n));
    }
    assert forall|id: u64, d: int, g: int| #[trigger] tables::is_table(b, id, d, g) implies
        tables::table_fits(b, d, g) && loading::stream_plain(b, d, g) by {
        let p = choose|p: int|
            0 <= p < b.len() && #[trigger] tables::table_head(b, p) == Some((id, d, g));
        assert(tables::table_head(b, p) is None);
    }
    assert forall|id: u64, d: int, g: int| #[trigger] loading::is_head(b, id, d, g) implies
        loading::container_plain(b, Seq::empty(), id, d, g) by {
        assert(!loading::has_name(b, d, g, "ObjStm".spec_bytes()));
        assert(!loading::houses(Seq::empty(), id));
    }
    assert forall|p: int| 0 <= p < b.len() implies !(#[trigger] loading::is_call(b, p)) by {}
}

/// Nine digits are worth less than 1000000000.
proof fn lemma_nine_digits(s: Seq<u8>)
    requires
        s.len() <= 9,
        bytes::all_digits(s),
    ensures
        bytes::decimal_value(s) < 1_000_000_000,
{
    lemma_digits_below(s);
    reveal_with_fuel(tens, 10);
    lemma_tens(s.len(), 9);
}

/// 10 to a power.
spec fn tens(n: nat) -> nat
    decreases n,
{
    if n == 0 {
        1
    } else {
        10 * tens((n - 1) as nat)
    }
}

proof fn lemma_tens(a: nat, b: nat)
    requires
        a <= b,
    ensures
        tens(a) <= tens(b),
    decreases b,
{
    if a < b {
        lemma_tens(a, (b - 1) as nat);
    }
}

proof fn lemma_digits_below(s: Seq<u8>)
    requires
        bytes::all_digits(s),
    ensures
        bytes::decimal_value(s) < tens(s.len()),
    decreases s.len(),
{
    if s.len() > 0 {
        assert(bytes::all_digits(s.drop_last())) by {
            assert forall|i: int| 0 <= i < s.drop_last().len() implies bytes::is_digit(
                #[trigger] s.drop_last()[i],
            ) by {
                assert(bytes::is_digit(s[i]));
            }
        }
        lemma_digits_below(s.drop_last());
        assert(bytes::is_digit(s[s.len() - 1]));
    }
}

} // verus!
