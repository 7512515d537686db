//! Decoding the data of a stream: its filters in order, each on what the one
//! before it gave.

use crate::bytes::{copy_bytes, same_bytes};
use crate::number::Number;
use crate::object::{self, get, Entry, Obj, ObjModel};
use crate::pdf::{self, run_filter};
use vstd::prelude::*;
use vstd::string::StringSliceAdditionalSpecFns;

verus! {

/// The names of the filters that a `/Filter` value lists: one name, or an array
/// of names.
pub open spec fn filter_names(filter: Option<ObjModel>) -> Option<Seq<Seq<u8>>> {
    match filter {
        Some(ObjModel::Name(n)) => Some(seq![n]),
        Some(ObjModel::Array(a)) => if forall|i: int|
            0 <= i < a.len() ==> #[trigger] a[i] is Name {
            Some(Seq::new(a.len(), |i: int| a[i]->Name_0))
        } else {
            None
        },
        _ => None,
    }
}

/// The integers among the entries of a dictionary.
pub open spec fn integers_in(d: Seq<(Seq<u8>, ObjModel)>) -> Seq<(Seq<u8>, i64)>
    decreases d.len(),
{
    if d.len() == 0 {
        Seq::empty()
    } else {
        match d.last().1 {
            ObjModel::Num(Number::Int(i)) => integers_in(d.drop_last()).push((d.last().0, i)),
            _ => integers_in(d.drop_last()),
        }
    }
}

/// The integer parameters of a stream's filters.
pub open spec fn parameters(d: Seq<(Seq<u8>, ObjModel)>) -> Seq<(Seq<u8>, i64)> {
    match object::value_of(d, "DecodeParms".spec_bytes()) {
        Some(ObjModel::Dict(p)) => integers_in(p),
        _ => Seq::empty(),
    }
}

/// The last parameter under a name, or a default.
pub open spec fn parameter(params: Seq<(Seq<u8>, i64)>, name: Seq<u8>, default: i64) -> i64
    decreases params.len(),
{
    if params.len() == 0 {
        default
    } else if params.last().0 == name {
        params.last().1
    } else {
        parameter(params.drop_last(), name, default)
    }
}

/// The longest row of a predictor that is taken, in bytes: the reader sets aside two
/// rows before it looks at the data, and must not run out of memory over them.
pub const MAX_ROW: i64 = 0x4000_0000;

/// At least `low`.
pub open spec fn at_least(low: i64, v: i64) -> i64 {
    if v < low {
        low
    } else {
        v
    }
}

/// The rows of the predictor, where there is one, are not too long.
pub open spec fn rows_fit(params: Seq<(Seq<u8>, i64)>) -> bool {
    let colors = at_least(1, parameter(params, "Colors".spec_bytes(), 1));
    let bits = at_least(8, parameter(params, "BitsPerComponent".spec_bytes(), 8));
    let columns = at_least(1, parameter(params, "Columns".spec_bytes(), 1));
    10 <= parameter(params, "Predictor".spec_bytes(), 1) <= 15 ==> colors * bits <= MAX_ROW
        && colors * bits / 8 * columns <= MAX_ROW
}

/// A group that is cut short, filled up with its largest digit, fits in 32 bits
/// unless a multiplication already does not.
pub open spec fn tail_fits(value: int, count: int) -> bool
    decreases 5 - count,
{
    if count >= 5 || value * 85 > u32::MAX {
        true
    } else {
        value * 85 + 84 <= u32::MAX && tail_fits(value * 85 + 84, count + 1)
    }
}

/// White space in ASCII.
pub open spec fn is_blank(c: u8) -> bool {
    c == 0x20 || c == 0x09 || c == 0x0A || c == 0x0C || c == 0x0D
}

/// The base-85 groups from index `i` on fit in 32 bits each, where `count`
/// digits of a group with the value `value` were read before; a multiplication
/// that does not fit ends the decoding.
pub open spec fn groups_fit(s: Seq<u8>, i: int, value: int, count: int) -> bool
    decreases s.len() - i,
{
    if i >= s.len() {
        count == 0 || tail_fits(value, count)
    } else if s[i] == 0x7A {
        count != 0 || groups_fit(s, i + 1, value, count)
    } else if is_blank(s[i]) {
        groups_fit(s, i + 1, value, count)
    } else if s[i] < 0x21 || s[i] > 0x75 {
        count == 0 || tail_fits(value, count)
    } else if value * 85 > u32::MAX {
        true
    } else if value * 85 + (s[i] - 0x21) > u32::MAX {
        false
    } else if count == 4 {
        groups_fit(s, i + 1, 0, 0)
    } else {
        groups_fit(s, i + 1, value * 85 + (s[i] - 0x21), count + 1)
    }
}

/// Base-85 data without its end mark.
pub open spec fn before_mark(s: Seq<u8>) -> Seq<u8> {
    if s.len() >= 2 && s[s.len() - 2] == 0x7E && s[s.len() - 1] == 0x3E {
        s.take(s.len() - 2)
    } else {
        s
    }
}

/// Data that a filter can be run on: the numbers that its decoder works with
/// stay in range.
pub open spec fn decodable(
    filter: Seq<u8>,
    params: Seq<(Seq<u8>, i64)>,
    data: Seq<u8>,
) -> bool {
    &&& rows_fit(params)
    &&& filter == "ASCII85Decode".spec_bytes() ==> groups_fit(before_mark(data), 0, 0, 0)
}

/// What one filter makes of data; nothing where it cannot be run or fails.
pub open spec fn step(filter: Seq<u8>, params: Seq<(Seq<u8>, i64)>, data: Seq<u8>) -> Option<
    Seq<u8>,
> {
    if decodable(filter, params, data) {
        pdf::filtered(filter, params, data)
    } else {
        None
    }
}

/// What the first `n` filters make of data.
pub open spec fn passed(
    filters: Seq<Seq<u8>>,
    params: Seq<(Seq<u8>, i64)>,
    data: Seq<u8>,
    n: int,
) -> Option<Seq<u8>>
    decreases n,
{
    if n <= 0 {
        Some(data)
    } else {
        match passed(filters, params, data, n - 1) {
            Some(s) => step(filters[n - 1], params, s),
            None => None,
        }
    }
}

/// The decoded data of a stream with a dictionary: its data as it is where the
/// dictionary lists no filters, else what they make of it.
pub open spec fn decoded(d: Seq<(Seq<u8>, ObjModel)>, data: Seq<u8>) -> Option<Seq<u8>> {
    match filter_names(object::value_of(d, "Filter".spec_bytes())) {
        Some(filters) => if filters.len() == 0 {
            Some(Seq::empty())
        } else {
            passed(filters, parameters(d), data, filters.len() as int)
        },
        None => Some(data),
    }
}

/// Every filter of a stream with a dictionary can be run on what the one before it
/// gives.
pub open spec fn chain_safe(d: Seq<(Seq<u8>, ObjModel)>, data: Seq<u8>) -> bool {
    filter_names(object::value_of(d, "Filter".spec_bytes())) matches Some(filters) ==> forall|n: int|
        0 <= n < filters.len() ==> #[trigger] step_safe(filters, parameters(d), data, n)
}

/// The filter `n` can be run on what those before it make of data.
pub open spec fn step_safe(
    filters: Seq<Seq<u8>>,
    params: Seq<(Seq<u8>, i64)>,
    data: Seq<u8>,
    n: int,
) -> bool {
    passed(filters, params, data, n) matches Some(s) ==> decodable(filters[n], params, s)
}

/// What some parameters are.
pub open spec fn params_model(p: Seq<(Vec<u8>, i64)>) -> Seq<(Seq<u8>, i64)> {
    Seq::new(p.len(), |i: int| (p[i].0@, p[i].1))
}

/// Read the integer parameters of a stream's filters.
fn read_parameters(d: &Vec<Entry>) -> (r: Vec<(Vec<u8>, i64)>)
    ensures
        params_model(r@) == parameters(object::entries_model(d@)),
{
    let mut r: Vec<(Vec<u8>, i64)> = Vec::new();
    if let Some(o) = get(d, "DecodeParms".as_bytes()) {
        proof {
            object::lemma_dict_view(*o);
        }
        if let Obj::Dict(p) = o {
            let ghost model = object::entries_model(p@);
            let mut i: usize = 0;
            while i < p.len()
                invariant
                    i <= p@.len(),
                    model == object::entries_model(p@),
                    params_model(r@) == integers_in(model.take(i as int)),
                decreases p@.len() - i,
            {
                let ghost upto = model.take(i + 1);
                assert(upto.drop_last() =~= model.take(i as int));
                assert(upto.last() == (p@[i as int].key@, p@[i as int].value.view()));
                if let Obj::Num(Number::Int(v)) = &p[i].value {
                    let ghost before = params_model(r@);
                    r.push((copy_bytes(p[i].key.as_slice()), *v));
                    assert(params_model(r@) =~= before.push((p@[i as int].key@, *v)));
                }
                i += 1;
            }
            assert(model.take(i as int) =~= model);
            return r;
        }
    }
    assert(params_model(r@) =~= Seq::<(Seq<u8>, i64)>::empty());
    r
}

/// Find the last parameter under a name.
fn find_parameter(params: &Vec<(Vec<u8>, i64)>, name: &[u8], default: i64) -> (r: i64)
    ensures
        r == parameter(params_model(params@), name@, default),
{
    let ghost model = params_model(params@);
    let mut i: usize = params.len();
    assert(model.take(i as int) =~= model);
    while i > 0
        invariant
            i <= params@.len(),
            model == params_model(params@),
            parameter(model, name@, default) == parameter(model.take(i as int), name@, default),
        decreases i,
    {
        i -= 1;
        assert(model.take(i + 1).last() == (params@[i as int].0@, params@[i as int].1));
        assert(model.take(i + 1).drop_last() =~= model.take(i as int));
        if same_bytes(params[i].0.as_slice(), name) {
            return params[i].1;
        }
    }
    default
}

/// Whether the rows of the predictor are not too long.
fn short_rows(params: &Vec<(Vec<u8>, i64)>) -> (r: bool)
    ensures
        r == rows_fit(params_model(params@)),
{
    let predictor: i64 = find_parameter(params, "Predictor".as_bytes(), 1);
    if predictor < 10 || predictor > 15 {
        return true;
    }
    let colors: i64 = find_parameter(params, "Colors".as_bytes(), 1);
    let bits: i64 = find_parameter(params, "BitsPerComponent".as_bytes(), 8);
    let columns: i64 = find_parameter(params, "Columns".as_bytes(), 1);
    let colors: i64 = if colors < 1 {
        1
    } else {
        colors
    };
    let bits: i64 = if bits < 8 {
        8
    } else {
        bits
    };
    let columns: i64 = if columns < 1 {
        1
    } else {
        columns
    };
    proof {
        assert(colors * bits >= colors && colors * bits >= bits && colors * bits >= 8)
            by (nonlinear_arith)
            requires
                colors >= 1,
                bits >= 8,
        ;
        assert(colors * bits / 8 * columns >= columns) by (nonlinear_arith)
            requires
                colors * bits >= 8,
                columns >= 1,
        ;
        assert(colors <= MAX_ROW && bits <= MAX_ROW ==> colors * bits <= MAX_ROW * MAX_ROW)
            by (nonlinear_arith)
            requires
                colors >= 1,
                bits >= 8,
        ;
        assert(colors * bits <= MAX_ROW && columns <= MAX_ROW ==> colors * bits / 8 * columns
            <= MAX_ROW * MAX_ROW) by (nonlinear_arith)
            requires
                colors * bits >= 8,
                columns >= 1,
        ;
    }
    if colors > MAX_ROW || bits > MAX_ROW || columns > MAX_ROW {
        return false;
    }
    let across: i64 = colors * bits;
    if across > MAX_ROW {
        return false;
    }
    across / 8 * columns <= MAX_ROW
}

/// Whether the rest of a group fits.
fn short_tail(value: u64, count: usize) -> (r: bool)
    requires
        value <= u32::MAX,
    ensures
        r == tail_fits(value as int, count as int),
    decreases 5 - count,
{
    if count >= 5 || value * 85 > 0xFFFF_FFFF {
        true
    } else {
        value * 85 + 84 <= 0xFFFF_FFFF && short_tail(value * 85 + 84, count + 1)
    }
}

/// Whether base-85 data decodes without a group that is too large.
pub fn short_groups(data: &[u8]) -> (r: bool)
    ensures
        r == groups_fit(before_mark(data@), 0, 0, 0),
{
    let n: usize = if data.len() >= 2 && data[data.len() - 2] == 0x7E && data[data.len() - 1]
        == 0x3E {
        data.len() - 2
    } else {
        data.len()
    };
    let ghost s = before_mark(data@);
    assert(s =~= data@.take(n as int));
    let mut value: u64 = 0;
    let mut count: usize = 0;
    let mut i: usize = 0;
    while i < n
        invariant
            i <= n <= data@.len(),
            s == before_mark(data@),
            s == data@.take(n as int),
            count < 5,
            value <= u32::MAX,
            groups_fit(s, 0, 0, 0) == groups_fit(s, i as int, value as int, count as int),
        decreases n - i,
    {
        let c: u8 = data[i];
        assert(s[i as int] == c);
        if c == 0x7A {
            if count != 0 {
                return true;
            }
        } else if c == 0x20 || c == 0x09 || c == 0x0A || c == 0x0C || c == 0x0D {
        } else if c < 0x21 || c > 0x75 {
            return count == 0 || short_tail(value, count);
        } else {
            if value * 85 > 0xFFFF_FFFF {
                return true;
            }
            value = value * 85 + (c - 0x21) as u64;
            if value > 0xFFFF_FFFF {
                return false;
            }
            if count == 4 {
                value = 0;
                count = 0;
            } else {
                count += 1;
            }
        }
        i += 1;
    }
    count == 0 || short_tail(value, count)
}

/// Run one filter, where it can be run.
fn run_step(filter: &[u8], params: &Vec<(Vec<u8>, i64)>, data: Vec<u8>) -> (r: Option<Vec<u8>>)
    ensures
        match r {
            Some(v) => step(filter@, params_model(params@), data@) == Some(v@),
            None => step(filter@, params_model(params@), data@) is None,
        },
{
    if !short_rows(params) {
        return None;
    }
    if same_bytes(filter, "ASCII85Decode".as_bytes()) && !short_groups(data.as_slice()) {
        return None;
    }
    run_filter(filter, params, data)
}

/// What some names are.
pub open spec fn names_model(v: Seq<Vec<u8>>) -> Seq<Seq<u8>> {
    Seq::new(v.len(), |i: int| v[i]@)
}

/// The names of the filters of a stream.
fn read_filters(d: &Vec<Entry>) -> (r: Option<Vec<Vec<u8>>>)
    ensures
        match r {
            Some(v) => filter_names(
                object::value_of(object::entries_model(d@), "Filter".spec_bytes()),
            ) == Some(names_model(v@)),
            None => filter_names(
                object::value_of(object::entries_model(d@), "Filter".spec_bytes()),
            ) is None,
        },
{
    let mut r: Vec<Vec<u8>> = Vec::new();
    match get(d, "Filter".as_bytes()) {
        Some(Obj::Name(n)) => {
            r.push(copy_bytes(n.as_slice()));
            assert(names_model(r@) =~= seq![n@]);
            Some(r)
        },
        Some(o) => {
            proof {
                object::lemma_array_view(*o);
            }
            if let Obj::Array(a) = o {
                let ghost model = object::array_model(a@);
                let mut i: usize = 0;
                while i < a.len()
                    invariant
                        i <= a@.len(),
                        model == object::array_model(a@),
                        r@.len() == i,
                        object::value_of(object::entries_model(d@), "Filter".spec_bytes()) == Some(
                            ObjModel::Array(model),
                        ),
                        forall|j: int|
                            0 <= j < i ==> #[trigger] model[j] is Name && r@[j]@
                                == model[j]->Name_0,
                    decreases a@.len() - i,
                {
                    assert(model[i as int] == a@[i as int].view());
                    if let Obj::Name(n) = &a[i] {
                        assert(model[i as int] is Name);
                        r.push(copy_bytes(n.as_slice()));
                    } else {
                        assert(!(model[i as int] is Name));
                        return None;
                    }
                    i += 1;
                }
                assert(names_model(r@) =~= Seq::new(model.len(), |i: int| model[i]->Name_0));
                Some(r)
            } else {
                None
            }
        },
        None => None,
    }
}

/// Decode the data of a stream with a dictionary.
pub fn decode(d: &Vec<Entry>, data: &[u8]) -> (r: Option<Vec<u8>>)
    ensures
        match r {
            Some(v) => decoded(object::entries_model(d@), data@) == Some(v@),
            None => decoded(object::entries_model(d@), data@) is None,
        },
{
    let ghost dm = object::entries_model(d@);
    let names = match read_filters(d) {
        Some(v) => v,
        None => {
            return Some(copy_bytes(data));
        },
    };
    let ghost filters = names_model(names@);
    if names.len() == 0 {
        let none: Vec<u8> = Vec::new();
        assert(none@ =~= Seq::<u8>::empty());
        return Some(none);
    }
    let params = read_parameters(d);
    let ghost pm = params_model(params@);
    let mut out = copy_bytes(data);
    let mut i: usize = 0;
    while i < names.len()
        invariant
            i <= names@.len(),
            dm == object::entries_model(d@),
            filters == names_model(names@),
            filters.len() == names@.len(),
            pm == params_model(params@),
            decoded(dm, data@) == passed(filters, pm, data@, filters.len() as int),
            passed(filters, pm, data@, i as int) == Some(out@),
        decreases names@.len() - i,
    {
        assert(filters[i as int] == names@[i as int]@);
        match run_step(names[i].as_slice(), &params, out) {
            Some(v) => {
                out = v;
            },
            None => {
                proof {
                    lemma_passed_stops(filters, pm, data@, i + 1, filters.len() as int);
                }
                return None;
            },
        }
        i += 1;
    }
    Some(out)
}

/// Whether every filter of a stream can be run.
pub fn safe_chain(d: &Vec<Entry>, data: &[u8]) -> (r: bool)
    ensures
        r == chain_safe(object::entries_model(d@), data@),
{
    let ghost dm = object::entries_model(d@);
    let names = match read_filters(d) {
        Some(v) => v,
        None => {
            return true;
        },
    };
    let ghost filters = names_model(names@);
    let params = read_parameters(d);
    let ghost pm = params_model(params@);
    let rows: bool = short_rows(&params);
    let mut out = copy_bytes(data);
    let mut i: usize = 0;
    while i < names.len()
        invariant
            i <= names@.len(),
            filters == names_model(names@),
            pm == params_model(params@),
            pm == parameters(dm),
            dm == object::entries_model(d@),
            rows == rows_fit(pm),
            filter_names(object::value_of(dm, "Filter".spec_bytes())) == Some(filters),
            i < names@.len() ==> passed(filters, pm, data@, i as int) == Some(out@),
            forall|n: int| 0 <= n < i ==> #[trigger] step_safe(filters, pm, data@, n),
        decreases names@.len() - i,
    {
        assert(filters[i as int] == names@[i as int]@);
        if !rows || (same_bytes(names[i].as_slice(), "ASCII85Decode".as_bytes()) && !short_groups(
            out.as_slice(),
        )) {
            assert(filters.len() == names@.len());
            assert(!step_safe(filters, parameters(dm), data@, i as int));
            assert(filter_names(object::value_of(dm, "Filter".spec_bytes()))->Some_0 == filters);
            assert(chain_safe(dm, data@) ==> step_safe(filters, parameters(dm), data@, i as int));
            return false;
        }
        assert(step_safe(filters, pm, data@, i as int));
        if i + 1 < names.len() {
            match run_step(names[i].as_slice(), &params, out) {
                Some(v) => {
                    out = v;
                },
                None => {
                    proof {
                        assert(passed(filters, pm, data@, i + 1) is None);
                        assert forall|n: int| 0 <= n < filters.len() implies #[trigger] step_safe(
                            filters,
                            pm,
                            data@,
                            n,
                        ) by {
                            if n > i {
                                lemma_passed_stops(filters, pm, data@, i + 1, n);
                            }
                        }
                    }
                    return true;
                },
            }
        }
        i += 1;
    }
    true
}

/// Where a filter fails, nothing comes out of those after it.
proof fn lemma_passed_stops(
    filters: Seq<Seq<u8>>,
    params: Seq<(Seq<u8>, i64)>,
    data: Seq<u8>,
    n: int,
    m: int,
)
    requires
        n <= m,
        passed(filters, params, data, n) is None,
    ensures
        passed(filters, params, data, m) is None,
    decreases m - n,
{
    if n < m {
        lemma_passed_stops(filters, params, data, n, m - 1);
        assert(m > 0);
    }
}

} // verus!
