use vstd::prelude::*;
use crate::hex::Coord;
use crate::regions::RegionCell;

verus! {

// ---------------------------------------------------------------------------------------------
// Decoding: coordinate records `{"q": <int>, "r": <int>}` found anywhere in the text
pub open spec fn is_digit(c: u8) -> bool {
    48 <= c <= 57
}

/// `:`, space or tab: what may stand between a key and its number.
pub open spec fn is_sep(c: u8) -> bool {
    c == 58 || c == 32 || c == 9
}

/// The first index at or after `k` that does not hold a separator.
pub open spec fn skip_sep(b: Seq<u8>, k: int) -> int
    decreases b.len() - k,
{
    if 0 <= k < b.len() && is_sep(b[k]) {
        skip_sep(b, k + 1)
    } else {
        k
    }
}

/// The first index at or after `k` that does not hold a digit.
pub open spec fn digits_end(b: Seq<u8>, k: int) -> int
    decreases b.len() - k,
{
    if 0 <= k < b.len() && is_digit(b[k]) {
        digits_end(b, k + 1)
    } else {
        k
    }
}

/// The value of a run of decimal digits.
pub open spec fn digits_value(s: Seq<u8>) -> int
    decreases s.len(),
{
    if s.len() == 0 {
        0
    } else {
        digits_value(s.drop_last()) * 10 + (s.last() - 48)
    }
}

/// The number written in `b[k..e]` (an optional `-` and at least one digit), when it fits in
/// `i32`.
pub open spec fn number_value(b: Seq<u8>, k: int, e: int) -> Option<i32> {
    let neg = b[k] == 45;
    let ds = if neg {
        b.subrange(k + 1, e)
    } else {
        b.subrange(k, e)
    };
    let v = if neg {
        -digits_value(ds)
    } else {
        digits_value(ds)
    };
    if ds.len() > 0 && i32::MIN <= v <= i32::MAX {
        Some(v as i32)
    } else {
        None
    }
}

/// The number starting at `k`: where it ends and its value; `(k, None)` when no number starts
/// there.
pub open spec fn number_at(b: Seq<u8>, k: int) -> (int, Option<i32>) {
    if 0 <= k < b.len() && (is_digit(b[k]) || b[k] == 45) {
        let e = digits_end(b, k + 1);
        (e, number_value(b, k, e))
    } else {
        (k, None)
    }
}

/// The quoted one-letter key `"key"` starts at `j`, with more text after it.
pub open spec fn key_at(b: Seq<u8>, j: int, key: u8) -> bool {
    0 <= j && j + 3 < b.len() && b[j] == 34 && b[j + 1] == key && b[j + 2] == 34
}

/// Scans a record body from `j` with the values found so far, up to its `}` or the end of the
/// text: where it stopped and the last readable `q` and `r` values.
pub open spec fn scan_object(b: Seq<u8>, j: int, q: Option<i32>, r: Option<i32>) -> (
    int,
    Option<i32>,
    Option<i32>,
)
    decreases b.len() - j,
    via scan_object_decreases
{
    if j < 0 || j >= b.len() || b[j] == 125 {
        (j, q, r)
    } else if key_at(b, j, 113) {
        let (e, v) = number_at(b, skip_sep(b, j + 3));
        scan_object(
            b,
            e,
            if v is Some {
                v
            } else {
                q
            },
            r,
        )
    } else if key_at(b, j, 114) {
        let (e, v) = number_at(b, skip_sep(b, j + 3));
        scan_object(
            b,
            e,
            q,
            if v is Some {
                v
            } else {
                r
            },
        )
    } else {
        scan_object(b, j + 1, q, r)
    }
}

proof fn lemma_skip_sep_bounds(b: Seq<u8>, k: int)
    requires
        0 <= k <= b.len(),
    ensures
        k <= skip_sep(b, k) <= b.len(),
    decreases b.len() - k,
{
    if k < b.len() && is_sep(b[k]) {
        lemma_skip_sep_bounds(b, k + 1);
    }
}

proof fn lemma_digits_end_bounds(b: Seq<u8>, k: int)
    requires
        0 <= k <= b.len(),
    ensures
        k <= digits_end(b, k) <= b.len(),
        forall|i: int| k <= i < digits_end(b, k) ==> is_digit(#[trigger] b[i]),
    decreases b.len() - k,
{
    if k < b.len() && is_digit(b[k]) {
        lemma_digits_end_bounds(b, k + 1);
    }
}

proof fn lemma_number_at_bounds(b: Seq<u8>, k: int)
    requires
        0 <= k <= b.len(),
    ensures
        k <= number_at(b, k).0 <= b.len(),
{
    if k < b.len() && (is_digit(b[k]) || b[k] == 45) {
        lemma_digits_end_bounds(b, k + 1);
    }
}

#[via_fn]
proof fn scan_object_decreases(b: Seq<u8>, j: int, q: Option<i32>, r: Option<i32>) {
    if j < 0 || j >= b.len() || b[j] == 125 {
    } else if key_at(b, j, 113) || key_at(b, j, 114) {
        lemma_skip_sep_bounds(b, j + 3);
        lemma_number_at_bounds(b, skip_sep(b, j + 3));
    }
}

proof fn lemma_scan_object_bounds(b: Seq<u8>, j: int, q: Option<i32>, r: Option<i32>)
    requires
        0 <= j <= b.len(),
    ensures
        j <= scan_object(b, j, q, r).0 <= b.len(),
    decreases b.len() - j,
{
    if j >= b.len() || b[j] == 125 {
    } else if key_at(b, j, 113) {
        lemma_skip_sep_bounds(b, j + 3);
        let k = skip_sep(b, j + 3);
        lemma_number_at_bounds(b, k);
        let (e, v) = number_at(b, k);
        lemma_scan_object_bounds(b, e, if v is Some { v } else { q }, r);
    } else if key_at(b, j, 114) {
        lemma_skip_sep_bounds(b, j + 3);
        let k = skip_sep(b, j + 3);
        lemma_number_at_bounds(b, k);
        let (e, v) = number_at(b, k);
        lemma_scan_object_bounds(b, e, q, if v is Some { v } else { r });
    } else {
        lemma_scan_object_bounds(b, j + 1, q, r);
    }
}

/// The coordinates of the records from index `i` on: each `{` opens a record that runs to the
/// next `}`; a record without both a readable `q` and `r` is dropped.
pub open spec fn records_from(b: Seq<u8>, i: int) -> Seq<Coord>
    decreases b.len() - i,
    via records_from_decreases
{
    if i < 0 || i >= b.len() {
        seq![]
    } else if b[i] == 123 {
        let (end, q, r) = scan_object(b, i + 1, None, None);
        let rest = if end < b.len() {
            records_from(b, end + 1)
        } else {
            seq![]
        };
        if q is Some && r is Some {
            seq![(q->0, r->0)] + rest
        } else {
            rest
        }
    } else {
        records_from(b, i + 1)
    }
}

#[via_fn]
proof fn records_from_decreases(b: Seq<u8>, i: int) {
    if 0 <= i < b.len() && b[i] == 123 {
        lemma_scan_object_bounds(b, i + 1, None, None);
    }
}

fn skip_sep_exec(b: &[u8], k: usize) -> (e: usize)
    requires
        k <= b@.len(),
    ensures
        e == skip_sep(b@, k as int),
        k <= e <= b@.len(),
{
    let mut i = k;
    while i < b.len() && (b[i] == 58 || b[i] == 32 || b[i] == 9)
        invariant
            k <= i <= b@.len(),
            skip_sep(b@, k as int) == skip_sep(b@, i as int),
        decreases b@.len() - i,
    {
        i = i + 1;
    }
    i
}

fn digits_end_exec(b: &[u8], k: usize) -> (e: usize)
    requires
        k <= b@.len(),
    ensures
        e == digits_end(b@, k as int),
        k <= e <= b@.len(),
{
    let mut i = k;
    while i < b.len() && 48 <= b[i] && b[i] <= 57
        invariant
            k <= i <= b@.len(),
            digits_end(b@, k as int) == digits_end(b@, i as int),
        decreases b@.len() - i,
    {
        i = i + 1;
    }
    i
}

proof fn lemma_digits_value_nonneg(s: Seq<u8>)
    requires
        forall|i: int| 0 <= i < s.len() ==> is_digit(#[trigger] s[i]),
    ensures
        digits_value(s) >= 0,
    decreases s.len(),
{
    if s.len() > 0 {
        lemma_digits_value_nonneg(s.drop_last());
    }
}

/// The value of the digits `b[from..to]`, when it is at most `2^31`.
fn digits_value_exec(b: &[u8], from: usize, to: usize) -> (r: Option<i64>)
    requires
        from <= to <= b@.len(),
        forall|i: int| from <= i < to ==> is_digit(#[trigger] b@[i]),
    ensures
        match r {
            Some(v) => v == digits_value(b@.subrange(from as int, to as int)) && 0 <= v <= 0x8000_0000,
            None => digits_value(b@.subrange(from as int, to as int)) > 0x8000_0000,
        },
{
    let mut acc: i64 = 0;
    let mut big = false;
    let mut i = from;
    while i < to
        invariant
            from <= i <= to <= b@.len(),
            forall|j: int| from <= j < to ==> is_digit(#[trigger] b@[j]),
            !big ==> acc == digits_value(b@.subrange(from as int, i as int)) && 0 <= acc <= 0x8000_0000,
            big ==> digits_value(b@.subrange(from as int, i as int)) > 0x8000_0000,
        decreases to - i,
    {
        let ghost prev = b@.subrange(from as int, i as int);
        let ghost next = b@.subrange(from as int, i + 1);
        proof {
            assert(next.drop_last() =~= prev);
            assert(next.last() == b@[i as int]);
            assert(is_digit(b@[i as int]));
            assert forall|j: int| 0 <= j < prev.len() implies is_digit(#[trigger] prev[j]) by {
                assert(prev[j] == b@[from + j]);
            }
            lemma_digits_value_nonneg(prev);
        }
        if !big {
            let d = (b[i] - 48) as i64;
            let next_acc = acc * 10 + d;
            if next_acc > 0x8000_0000 {
                big = true;
            } else {
                acc = next_acc;
            }
        } else {
            proof {
                assert(digits_value(prev) * 10 + (b@[i as int] - 48) >= digits_value(prev)) by (nonlinear_arith)
                    requires
                        digits_value(prev) >= 0,
                        b@[i as int] >= 48,
                ;
            }
        }
        i = i + 1;
    }
    if big {
        None
    } else {
        Some(acc)
    }
}

fn number_at_exec(b: &[u8], k: usize) -> (r: (usize, Option<i32>))
    requires
        k <= b@.len(),
    ensures
        r.0 == number_at(b@, k as int).0,
        r.1 == number_at(b@, k as int).1,
        k <= r.0 <= b@.len(),
{
    if k < b.len() && ((48 <= b[k] && b[k] <= 57) || b[k] == 45) {
        let e = digits_end_exec(b, k + 1);
        proof {
            lemma_digits_end_bounds(b@, k + 1);
        }
        let neg = b[k] == 45;
        let ds_start = if neg {
            k + 1
        } else {
            k
        };
        if ds_start == e {
            return (e, None);
        }
        let value = match digits_value_exec(b, ds_start, e) {
            Some(m) => {
                let v: i64 = if neg {
                    -m
                } else {
                    m
                };
                if i32::MIN as i64 <= v && v <= i32::MAX as i64 {
                    Some(v as i32)
                } else {
                    None
                }
            },
            None => None,
        };
        (e, value)
    } else {
        (k, None)
    }
}

fn scan_object_exec(b: &[u8], j: usize) -> (r: (usize, Option<i32>, Option<i32>))
    requires
        j <= b@.len(),
    ensures
        r.0 == scan_object(b@, j as int, None, None).0,
        r.1 == scan_object(b@, j as int, None, None).1,
        r.2 == scan_object(b@, j as int, None, None).2,
        r.0 <= b@.len(),
{
    let mut i = j;
    let mut q: Option<i32> = None;
    let mut r: Option<i32> = None;
    while i < b.len() && b[i] != 125
        invariant
            j <= i <= b@.len(),
            scan_object(b@, j as int, None, None) == scan_object(b@, i as int, q, r),
        decreases b@.len() - i,
    {
        if b.len() - i > 3 && b[i] == 34 && b[i + 1] == 113 && b[i + 2] == 34 {
            let k = skip_sep_exec(b, i + 3);
            let (e, v) = number_at_exec(b, k);
            if v.is_some() {
                q = v;
            }
            i = e;
        } else if b.len() - i > 3 && b[i] == 34 && b[i + 1] == 114 && b[i + 2] == 34 {
            let k = skip_sep_exec(b, i + 3);
            let (e, v) = number_at_exec(b, k);
            if v.is_some() {
                r = v;
            }
            i = e;
        } else {
            i = i + 1;
        }
    }
    (i, q, r)
}

/// The coordinate records in the text `b`, in order. Records missing a readable `q` or `r`
/// are skipped; text with no records gives an empty list.
pub fn parse_valid_terrain_json(b: &[u8]) -> (cells: Vec<Coord>)
    ensures
        cells@ == records_from(b@, 0),
{
    let mut cells: Vec<Coord> = Vec::new();
    let mut i: usize = 0;
    while i < b.len()
        invariant
            0 <= i <= b@.len(),
            records_from(b@, 0) == cells@ + records_from(b@, i as int),
        decreases b@.len() - i,
    {
        if b[i] == 123 {
            let (end, q, r) = scan_object_exec(b, i + 1);
            proof {
                lemma_scan_object_bounds(b@, i + 1, None, None);
            }
            let ghost before = cells@;
            match (q, r) {
                (Some(qv), Some(rv)) => {
                    cells.push((qv, rv));
                    proof {
                        if end < b@.len() {
                            assert(cells@ + records_from(b@, end + 1) =~= before + (seq![(qv, rv)]
                                + records_from(b@, end + 1)));
                        } else {
                            assert(cells@ + records_from(b@, b@.len() as int) =~= before + seq![(qv, rv)]);
                        }
                    }
                },
                _ => {},
            }
            if end >= b.len() {
                i = b.len();
            } else {
                i = end + 1;
            }
        } else {
            i = i + 1;
        }
    }
    proof {
        assert(cells@ + records_from(b@, i as int) =~= cells@);
    }
    cells
}

// ---------------------------------------------------------------------------------------------
// Encoding
/// Decimal digits of a natural number.
pub open spec fn digits_of(n: nat) -> Seq<u8>
    decreases n,
{
    if n < 10 {
        seq![(48 + n) as u8]
    } else {
        digits_of(n / 10) + seq![(48 + n % 10) as u8]
    }
}

/// Decimal form of an integer, with a leading `-` when negative.
pub open spec fn decimal(n: int) -> Seq<u8> {
    if n < 0 {
        seq![45u8] + digits_of((-n) as nat)
    } else {
        digits_of(n as nat)
    }
}

/// `{"q":Q,"r":R}`
pub open spec fn coord_bytes(c: Coord) -> Seq<u8> {
    seq![123u8, 34u8, 113u8, 34u8, 58u8] + decimal(c.0 as int) + seq![44u8, 34u8, 114u8, 34u8, 58u8]
        + decimal(c.1 as int) + seq![125u8]
}

/// `{"q":Q,"r":R,"tileType":T}`
pub open spec fn region_bytes(c: RegionCell) -> Seq<u8> {
    seq![123u8, 34u8, 113u8, 34u8, 58u8] + decimal(c.q as int) + seq![44u8, 34u8, 114u8, 34u8, 58u8]
        + decimal(c.r as int) + seq![
        44u8,
        34u8,
        116u8,
        105u8,
        108u8,
        101u8,
        84u8,
        121u8,
        112u8,
        101u8,
        34u8,
        58u8,
    ] + decimal(c.tile_type.code_spec()) + seq![125u8]
}

/// The items joined with commas.
pub open spec fn join_items(items: Seq<Seq<u8>>) -> Seq<u8>
    decreases items.len(),
{
    if items.len() == 0 {
        seq![]
    } else if items.len() == 1 {
        items[0]
    } else {
        join_items(items.drop_last()) + seq![44u8] + items.last()
    }
}

/// A JSON array of coordinate records.
pub open spec fn coord_list_bytes(cells: Seq<Coord>) -> Seq<u8> {
    seq![91u8] + join_items(cells.map_values(|c: Coord| coord_bytes(c))) + seq![93u8]
}

/// A JSON array of classified-cell records.
pub open spec fn region_list_bytes(cells: Seq<RegionCell>) -> Seq<u8> {
    seq![91u8] + join_items(cells.map_values(|c: RegionCell| region_bytes(c))) + seq![93u8]
}

fn push_digits(out: &mut Vec<u8>, n: u64)
    ensures
        final(out)@ == old(out)@ + digits_of(n as nat),
    decreases n,
{
    if n >= 10 {
        push_digits(out, n / 10);
    }
    out.push((48 + n % 10) as u8);
    proof {
        if n < 10 {
            assert(final(out)@ =~= old(out)@ + digits_of(n as nat));
        } else {
            assert(final(out)@ =~= old(out)@ + digits_of(n as nat));
        }
    }
}

fn push_decimal(out: &mut Vec<u8>, v: i64)
    requires
        v > i64::MIN,
    ensures
        final(out)@ == old(out)@ + decimal(v as int),
{
    if v < 0 {
        out.push(45);
        push_digits(out, (-v) as u64);
        proof {
            assert(final(out)@ =~= old(out)@ + decimal(v as int));
        }
    } else {
        push_digits(out, v as u64);
    }
}

fn push_bytes(out: &mut Vec<u8>, s: &[u8])
    ensures
        final(out)@ == old(out)@ + s@,
{
    let mut i: usize = 0;
    while i < s.len()
        invariant
            0 <= i <= s@.len(),
            out@ == old(out)@ + s@.subrange(0, i as int),
        decreases s@.len() - i,
    {
        out.push(s[i]);
        proof {
            assert(out@ =~= old(out)@ + s@.subrange(0, i + 1));
        }
        i = i + 1;
    }
    proof {
        assert(s@.subrange(0, i as int) =~= s@);
    }
}

/// Writes `{"q":Q,"r":R}`.
fn push_coord(out: &mut Vec<u8>, c: Coord)
    ensures
        final(out)@ == old(out)@ + coord_bytes(c),
{
    let ghost start = out@;
    push_bytes(out, &[123u8, 34u8, 113u8, 34u8, 58u8]);
    push_decimal(out, c.0 as i64);
    push_bytes(out, &[44u8, 34u8, 114u8, 34u8, 58u8]);
    push_decimal(out, c.1 as i64);
    out.push(125);
    proof {
        assert(out@ =~= start + coord_bytes(c));
    }
}

/// Writes `{"q":Q,"r":R,"tileType":T}`.
fn push_region(out: &mut Vec<u8>, c: RegionCell)
    ensures
        final(out)@ == old(out)@ + region_bytes(c),
{
    let ghost start = out@;
    push_bytes(out, &[123u8, 34u8, 113u8, 34u8, 58u8]);
    push_decimal(out, c.q as i64);
    push_bytes(out, &[44u8, 34u8, 114u8, 34u8, 58u8]);
    push_decimal(out, c.r as i64);
    push_bytes(out, &[44u8, 34u8, 116u8, 105u8, 108u8, 101u8, 84u8, 121u8, 112u8, 101u8, 34u8, 58u8]);
    push_decimal(out, c.tile_type.code() as i64);
    out.push(125);
    proof {
        assert(out@ =~= start + region_bytes(c));
    }
}

/// The JSON text of a coordinate list: `[{"q":Q,"r":R},...]`.
pub fn encode_coord_list(cells: &Vec<Coord>) -> (out: Vec<u8>)
    ensures
        out@ == coord_list_bytes(cells@),
{
    let ghost items = cells@.map_values(|c: Coord| coord_bytes(c));
    let mut out: Vec<u8> = Vec::new();
    out.push(91);
    let mut i: usize = 0;
    while i < cells.len()
        invariant
            0 <= i <= cells@.len(),
            items == cells@.map_values(|c: Coord| coord_bytes(c)),
            out@ == seq![91u8] + join_items(items.subrange(0, i as int)),
        decreases cells@.len() - i,
    {
        let ghost before = out@;
        if i > 0 {
            out.push(44);
        }
        push_coord(&mut out, cells[i]);
        proof {
            let next = items.subrange(0, i + 1);
            assert(next.drop_last() =~= items.subrange(0, i as int));
            assert(next.last() == coord_bytes(cells@[i as int]));
            if i == 0 {
                assert(out@ =~= seq![91u8] + join_items(next));
            } else {
                assert(out@ =~= seq![91u8] + join_items(next));
            }
        }
        i = i + 1;
    }
    out.push(93);
    proof {
        assert(items.subrange(0, i as int) =~= items);
    }
    out
}

/// The JSON text of a list of classified cells: `[{"q":Q,"r":R,"tileType":T},...]`.
pub fn encode_region_list(cells: &Vec<RegionCell>) -> (out: Vec<u8>)
    ensures
        out@ == region_list_bytes(cells@),
{
    let ghost items = cells@.map_values(|c: RegionCell| region_bytes(c));
    let mut out: Vec<u8> = Vec::new();
    out.push(91);
    let mut i: usize = 0;
    while i < cells.len()
        invariant
            0 <= i <= cells@.len(),
            items == cells@.map_values(|c: RegionCell| region_bytes(c)),
            out@ == seq![91u8] + join_items(items.subrange(0, i as int)),
        decreases cells@.len() - i,
    {
        if i > 0 {
            out.push(44);
        }
        push_region(&mut out, cells[i]);
        proof {
            let next = items.subrange(0, i + 1);
            assert(next.drop_last() =~= items.subrange(0, i as int));
            assert(next.last() == region_bytes(cells@[i as int]));
            assert(out@ =~= seq![91u8] + join_items(next));
        }
        i = i + 1;
    }
    out.push(93);
    proof {
        assert(items.subrange(0, i as int) =~= items);
    }
    out
}

// ---------------------------------------------------------------------------------------------
// Decoding what was encoded
proof fn lemma_digits_of(n: nat)
    ensures
        digits_of(n).len() >= 1,
        forall|i: int| 0 <= i < digits_of(n).len() ==> is_digit(#[trigger] digits_of(n)[i]),
        digits_value(digits_of(n)) == n,
    decreases n,
{
    let d = digits_of(n);
    if n < 10 {
        assert(d.drop_last() =~= Seq::<u8>::empty());
        assert(digits_value(d.drop_last()) == 0);
    } else {
        lemma_digits_of(n / 10);
        assert(d.drop_last() =~= digits_of(n / 10));
        assert(d.last() - 48 == n % 10);
        vstd::arithmetic::div_mod::lemma_fundamental_div_mod(n as int, 10);
        assert forall|i: int| 0 <= i < d.len() implies is_digit(#[trigger] d[i]) by {
            if i < d.len() - 1 {
                assert(d[i] == digits_of(n / 10)[i]);
            }
        }
    }
}

/// `digits_end` stops at the first byte that is not a digit.
proof fn lemma_digits_end_at(b: Seq<u8>, k: int, e: int)
    requires
        0 <= k <= e < b.len(),
        forall|i: int| k <= i < e ==> is_digit(#[trigger] b[i]),
        !is_digit(b[e]),
    ensures
        digits_end(b, k) == e,
    decreases e - k,
{
    if k < e {
        lemma_digits_end_at(b, k + 1, e);
    }
}

/// A decimal number written at `k` and followed by a non-digit reads back as itself.
proof fn lemma_read_decimal(b: Seq<u8>, k: int, n: int)
    requires
        i32::MIN <= n <= i32::MAX,
        0 <= k,
        k + decimal(n).len() < b.len(),
        b.subrange(k, k + decimal(n).len()) == decimal(n),
        !is_digit(b[k + decimal(n).len()]),
    ensures
        number_at(b, k) == (k + decimal(n).len(), Some(n as i32)),
{
    let d = decimal(n);
    let e = k + d.len();
    if n < 0 {
        lemma_digits_of((-n) as nat);
        let ds = digits_of((-n) as nat);
        assert(b[k] == d[0]);
        assert forall|i: int| k + 1 <= i < e implies is_digit(#[trigger] b[i]) by {
            assert(b[i] == d[i - k]);
            assert(d[i - k] == ds[i - k - 1]);
        }
        lemma_digits_end_at(b, k + 1, e);
        assert(b.subrange(k + 1, e) =~= ds) by {
            assert forall|i: int| 0 <= i < ds.len() implies b.subrange(k + 1, e)[i] == ds[i] by {
                assert(b[k + 1 + i] == d[i + 1]);
            }
        }
    } else {
        lemma_digits_of(n as nat);
        assert(b[k] == d[0]);
        assert forall|i: int| k + 1 <= i < e implies is_digit(#[trigger] b[i]) by {
            assert(b[i] == d[i - k]);
        }
        lemma_digits_end_at(b, k + 1, e);
        assert(b.subrange(k, e) =~= d);
    }
}

proof fn lemma_decimal_len(n: int)
    ensures
        decimal(n).len() >= 1,
{
    if n < 0 {
        lemma_digits_of((-n) as nat);
    } else {
        lemma_digits_of(n as nat);
    }
}

/// Scanning an encoded record from just after its `{` finds its `}` and both values.
proof fn lemma_scan_record(b: Seq<u8>, i: int, c: Coord)
    requires
        0 <= i,
        i + coord_bytes(c).len() <= b.len(),
        b.subrange(i, i + coord_bytes(c).len()) == coord_bytes(c),
    ensures
        scan_object(b, i + 1, None, None) == (i + coord_bytes(c).len() - 1, Some(c.0), Some(c.1)),
{
    let dq = decimal(c.0 as int);
    let dr = decimal(c.1 as int);
    let lq = dq.len() as int;
    let lr = dr.len() as int;
    let rec = coord_bytes(c);
    lemma_decimal_len(c.0 as int);
    lemma_decimal_len(c.1 as int);
    assert(rec.len() == 11 + lq + lr);
    assert forall|t: int| 0 <= t < rec.len() implies b[i + t] == #[trigger] rec[t] by {
        assert(b.subrange(i, i + rec.len())[t] == rec[t]);
    }
    assert(b[i + 1] == 34 && b[i + 2] == 113 && b[i + 3] == 34 && b[i + 4] == 58) by {
        assert(b[i + 1] == rec[1] && b[i + 2] == rec[2] && b[i + 3] == rec[3] && b[i + 4] == rec[4]);
    }
    assert(b[i + 5] == dq[0]) by {
        assert(b[i + 5] == rec[5]);
    }
    assert(skip_sep(b, i + 5) == i + 5) by {
        if c.0 < 0 {
        } else {
            lemma_digits_of(c.0 as nat);
        }
    }
    assert(skip_sep(b, i + 4) == i + 5);
    assert(b.subrange(i + 5, i + 5 + lq) =~= dq) by {
        assert forall|t: int| 0 <= t < lq implies b.subrange(i + 5, i + 5 + lq)[t] == dq[t] by {
            assert(b[i + 5 + t] == rec[5 + t]);
        }
    }
    let e1 = i + 5 + lq;
    assert(b[e1] == 44 && b[e1 + 1] == 34 && b[e1 + 2] == 114 && b[e1 + 3] == 34 && b[e1 + 4] == 58) by {
        assert(b[e1] == rec[5 + lq]);
        assert(b[e1 + 1] == rec[6 + lq]);
        assert(b[e1 + 2] == rec[7 + lq]);
        assert(b[e1 + 3] == rec[8 + lq]);
        assert(b[e1 + 4] == rec[9 + lq]);
    }
    lemma_read_decimal(b, i + 5, c.0 as int);
    assert(b[e1 + 5] == dr[0]) by {
        assert(b[e1 + 5] == rec[10 + lq]);
    }
    assert(skip_sep(b, e1 + 5) == e1 + 5) by {
        if c.1 < 0 {
        } else {
            lemma_digits_of(c.1 as nat);
        }
    }
    assert(skip_sep(b, e1 + 4) == e1 + 5);
    assert(b.subrange(e1 + 5, e1 + 5 + lr) =~= dr) by {
        assert forall|t: int| 0 <= t < lr implies b.subrange(e1 + 5, e1 + 5 + lr)[t] == dr[t] by {
            assert(b[e1 + 5 + t] == rec[10 + lq + t]);
        }
    }
    let e2 = e1 + 5 + lr;
    assert(b[e2] == 125) by {
        assert(b[e2] == rec[10 + lq + lr]);
    }
    lemma_read_decimal(b, e1 + 5, c.1 as int);
    assert(scan_object(b, e2, Some(c.0), Some(c.1)) == (e2, Some(c.0), Some(c.1)));
    assert(scan_object(b, e1 + 1, Some(c.0), None) == (e2, Some(c.0), Some(c.1)));
    assert(scan_object(b, e1, Some(c.0), None) == (e2, Some(c.0), Some(c.1)));
    assert(number_at(b, skip_sep(b, i + 1 + 3)) == (e1, Some(c.0)));
}

/// Joining a non-empty list: the first item, then a comma and the rest when there is more.
proof fn lemma_join_front(items: Seq<Seq<u8>>)
    requires
        items.len() >= 2,
    ensures
        join_items(items) == items[0] + seq![44u8] + join_items(items.drop_first()),
    decreases items.len(),
{
    if items.len() > 2 {
        let front = items.drop_last();
        let back = items.drop_first();
        lemma_join_front(front);
        assert(front.drop_first() =~= back.drop_last());
        assert(back.last() == items.last());
        assert(front[0] == items[0]);
        assert(join_items(back) == join_items(back.drop_last()) + seq![44u8] + back.last());
        assert(join_items(items) == join_items(front) + seq![44u8] + items.last());
        assert(join_items(items) =~= items[0] + seq![44u8] + join_items(back));
    } else {
        assert(items.drop_last() =~= seq![items[0]]);
        assert(items.drop_first() =~= seq![items[1]]);
        assert(join_items(items.drop_last()) == items[0]);
        assert(join_items(items.drop_first()) == items[1]);
        assert(join_items(items) == join_items(items.drop_last()) + seq![44u8] + items.last());
    }
}

/// The records of an encoded list, read from the start of its first record.
proof fn lemma_read_records(b: Seq<u8>, p: int, cells: Seq<Coord>)
    requires
        cells.len() >= 1,
        0 <= p <= b.len(),
        b.subrange(p, b.len() as int) == join_items(cells.map_values(|c: Coord| coord_bytes(c))) + seq![93u8],
    ensures
        records_from(b, p) == cells,
    decreases cells.len(),
{
    let items = cells.map_values(|c: Coord| coord_bytes(c));
    let c0 = cells[0];
    let r0 = coord_bytes(c0);
    let l0 = r0.len() as int;
    let tail = b.subrange(p, b.len() as int);
    lemma_decimal_len(c0.0 as int);
    lemma_decimal_len(c0.1 as int);
    let rest_items = items.drop_first();
    let joined_rest = if cells.len() == 1 {
        seq![93u8]
    } else {
        seq![44u8] + join_items(rest_items) + seq![93u8]
    };
    if cells.len() == 1 {
        assert(join_items(items) == r0);
    } else {
        lemma_join_front(items);
    }
    assert(tail =~= r0 + joined_rest);
    assert(tail.len() == l0 + joined_rest.len());
    assert(b.subrange(p, p + l0) =~= r0) by {
        assert forall|t: int| 0 <= t < l0 implies b.subrange(p, p + l0)[t] == r0[t] by {
            assert(b[p + t] == tail[t]);
        }
    }
    assert(b[p] == r0[0]) by {
        assert(b[p] == tail[0]);
    }
    lemma_scan_record(b, p, c0);
    let end = p + l0 - 1;
    assert(b[end + 1] == joined_rest[0]) by {
        assert(b[end + 1] == tail[l0]);
    }
    if cells.len() == 1 {
        assert(b.len() == end + 2);
        assert(records_from(b, end + 2) == Seq::<Coord>::empty());
        assert(records_from(b, end + 1) == Seq::<Coord>::empty());
        assert(cells =~= seq![c0]);
    } else {
        let rest = cells.drop_first();
        assert(rest.map_values(|c: Coord| coord_bytes(c)) =~= rest_items);
        assert(b.subrange(end + 2, b.len() as int) =~= join_items(rest_items) + seq![93u8]) by {
            assert forall|t: int| 0 <= t < b.len() - (end + 2) implies b.subrange(end + 2, b.len() as int)[t]
                == (join_items(rest_items) + seq![93u8])[t] by {
                assert(b[end + 2 + t] == tail[l0 + 1 + t]);
            }
        }
        lemma_read_records(b, end + 2, rest);
        assert(records_from(b, end + 1) == rest);
        assert(cells =~= seq![c0] + rest);
    }
}

/// Reading an encoded coordinate list gives back the list.
pub proof fn lemma_coord_list_round_trip(cells: Seq<Coord>)
    ensures
        records_from(coord_list_bytes(cells), 0) == cells,
{
    let b = coord_list_bytes(cells);
    let items = cells.map_values(|c: Coord| coord_bytes(c));
    if cells.len() == 0 {
        assert(join_items(items) == Seq::<u8>::empty());
        assert(b =~= seq![91u8, 93u8]);
        assert(records_from(b, 2) == Seq::<Coord>::empty());
        assert(records_from(b, 1) == Seq::<Coord>::empty());
        assert(cells =~= Seq::<Coord>::empty());
    } else {
        assert(b.subrange(1, b.len() as int) =~= join_items(items) + seq![93u8]);
        lemma_read_records(b, 1, cells);
    }
}

} // verus!
