//! Stable least-significant-digit radix argsort over unsigned keys, and the
//! bit transform that makes IEEE-754 patterns sort in numeric order.
use vstd::arithmetic::div_mod::{lemma_breakdown, lemma_mod_pos_bound, lemma_small_mod};
use vstd::prelude::*;
use vstd::set_lib::{lemma_int_range, lemma_map_size, lemma_subset_equality, set_int_range};

verus! {

pub const SIGN64: u64 = 0x8000_0000_0000_0000;

pub const SIGN32: u32 = 0x8000_0000;

/// Bit pattern of the float `-0.0`.
pub const NEG_ZERO64: u64 = 0x8000_0000_0000_0000;

/// Where a 64-bit float pattern stands in numeric order: its sign-magnitude
/// value. Non-NaN floats compare as these ranks do, with `-0.0` and `+0.0`
/// both at rank zero.
pub open spec fn real_rank64(b: u64) -> int {
    let magnitude = (b & 0x7fff_ffff_ffff_ffff) as int;
    if b >> 63 == 1 {
        -magnitude
    } else {
        magnitude
    }
}

pub open spec fn flip_spec64(b: u64) -> u64 {
    if b >> 63 == 1 {
        !b
    } else {
        b | SIGN64
    }
}

pub open spec fn unflip_spec64(k: u64) -> u64 {
    if k >> 63 == 1 {
        k & !SIGN64
    } else {
        !k
    }
}

pub open spec fn flip_spec32(b: u32) -> u32 {
    if b >> 31 == 1 {
        !b
    } else {
        b | SIGN32
    }
}

pub open spec fn unflip_spec32(k: u32) -> u32 {
    if k >> 31 == 1 {
        k & !SIGN32
    } else {
        !k
    }
}

/// Maps a 64-bit float pattern to an unsigned key: non-negative patterns get
/// the sign bit set, negative ones have every bit inverted.
pub fn flip64(bits: u64) -> (r: u64)
    ensures
        r == flip_spec64(bits),
{
    if bits >> 63 == 1 {
        !bits
    } else {
        bits | SIGN64
    }
}

/// Inverse of `flip64`.
pub fn unflip64(key: u64) -> (r: u64)
    ensures
        r == unflip_spec64(key),
{
    if key >> 63 == 1 {
        key & !SIGN64
    } else {
        !key
    }
}

/// Maps a 32-bit float pattern to an unsigned key, as `flip64` does.
pub fn flip32(bits: u32) -> (r: u32)
    ensures
        r == flip_spec32(bits),
{
    if bits >> 31 == 1 {
        !bits
    } else {
        bits | SIGN32
    }
}

/// Inverse of `flip32`.
pub fn unflip32(key: u32) -> (r: u32)
    ensures
        r == unflip_spec32(key),
{
    if key >> 31 == 1 {
        key & !SIGN32
    } else {
        !key
    }
}

/// `flip64` orders float patterns as their numeric values are ordered, apart
/// from `+0.0` against `-0.0` (which it puts after `-0.0`), and `unflip64`
/// undoes it.
pub proof fn lemma_flip64_order(a: u64, b: u64)
    requires
        !(a == 0 && b == NEG_ZERO64),
    ensures
        real_rank64(a) <= real_rank64(b) <==> flip_spec64(a) <= flip_spec64(b),
        unflip_spec64(flip_spec64(a)) == a,
{
    assert(a >> 63 == 1 ==> !a == 0x7fff_ffff_ffff_ffff - (a & 0x7fff_ffff_ffff_ffff)) by (bit_vector);
    assert(a >> 63 != 1 ==> a | 0x8000_0000_0000_0000 == 0x8000_0000_0000_0000 + (a & 0x7fff_ffff_ffff_ffff) && a == (a & 0x7fff_ffff_ffff_ffff))
        by (bit_vector);
    assert(b >> 63 == 1 ==> !b == 0x7fff_ffff_ffff_ffff - (b & 0x7fff_ffff_ffff_ffff)) by (bit_vector);
    assert(b >> 63 != 1 ==> b | 0x8000_0000_0000_0000 == 0x8000_0000_0000_0000 + (b & 0x7fff_ffff_ffff_ffff) && b == (b & 0x7fff_ffff_ffff_ffff))
        by (bit_vector);
    assert(b >> 63 == 1 && (b & 0x7fff_ffff_ffff_ffff) == 0 ==> b == 0x8000_0000_0000_0000) by (bit_vector);
    assert(a >> 63 == 1 ==> (!a) >> 63 != 1 && !(!a) == a) by (bit_vector);
    assert(a >> 63 != 1 ==> (a | 0x8000_0000_0000_0000) >> 63 == 1 && (a
        | 0x8000_0000_0000_0000) & !0x8000_0000_0000_0000u64 == a) by (bit_vector);
    assert((a & 0x7fff_ffff_ffff_ffff) <= 0x7fff_ffff_ffff_ffff && (b & 0x7fff_ffff_ffff_ffff) <= 0x7fff_ffff_ffff_ffff) by (bit_vector);
}

/// Where a 32-bit float pattern stands in numeric order, as `real_rank64`.
pub open spec fn real_rank32(b: u32) -> int {
    let magnitude = (b & 0x7fff_ffff) as int;
    if b >> 31 == 1 {
        -magnitude
    } else {
        magnitude
    }
}

/// `flip32` orders float patterns as their numeric values are ordered, apart
/// from `+0.0` against `-0.0`.
pub proof fn lemma_flip32_order(a: u32, b: u32)
    requires
        !(a == 0 && b == SIGN32),
    ensures
        real_rank32(a) <= real_rank32(b) <==> flip_spec32(a) <= flip_spec32(b),
{
    assert(a >> 31 == 1 ==> !a == 0x7fff_ffff - (a & 0x7fff_ffff)) by (bit_vector);
    assert(a >> 31 != 1 ==> a | 0x8000_0000 == 0x8000_0000 + (a & 0x7fff_ffff) && a == (a
        & 0x7fff_ffff)) by (bit_vector);
    assert(b >> 31 == 1 ==> !b == 0x7fff_ffff - (b & 0x7fff_ffff)) by (bit_vector);
    assert(b >> 31 != 1 ==> b | 0x8000_0000 == 0x8000_0000 + (b & 0x7fff_ffff) && b == (b
        & 0x7fff_ffff)) by (bit_vector);
    assert(b >> 31 == 1 && (b & 0x7fff_ffff) == 0 ==> b == 0x8000_0000) by (bit_vector);
    assert((a & 0x7fff_ffff) <= 0x7fff_ffff && (b & 0x7fff_ffff) <= 0x7fff_ffff) by (bit_vector);
}

/// `flip32` and `unflip32` are inverse to each other.
pub proof fn lemma_flip32_round_trip(a: u32)
    ensures
        unflip_spec32(flip_spec32(a)) == a,
{
    assert(a >> 31 == 1 ==> (!a) >> 31 != 1 && !(!a) == a) by (bit_vector);
    assert(a >> 31 != 1 ==> (a | 0x8000_0000) >> 31 == 1 && (a | 0x8000_0000) & !0x8000_0000u32
        == a) by (bit_vector);
}

/// `256` to the power `p`: the weight of the `p`-th 8-bit digit.
pub open spec fn radix_pow(p: nat) -> nat
    decreases p,
{
    if p == 0 {
        1
    } else {
        256 * radix_pow((p - 1) as nat)
    }
}

/// The key restricted to its lowest `p` digits.
pub open spec fn low_part(k: u64, p: nat) -> int {
    k as int % radix_pow(p) as int
}

/// The `p`-th 8-bit digit of the key.
pub open spec fn digit_of(k: u64, p: nat) -> int {
    (k as int / radix_pow(p) as int) % 256
}

/// Index `a` comes before index `b` when ordered by the lowest `p` digits of
/// their keys, ties broken by the index itself.
pub open spec fn precedes(keys: Seq<u64>, p: nat, a: usize, b: usize) -> bool {
    low_part(keys[a as int], p) < low_part(keys[b as int], p) || (low_part(keys[a as int], p)
        == low_part(keys[b as int], p) && a < b)
}

pub open spec fn ordered_by_low(keys: Seq<u64>, p: nat, idx: Seq<usize>) -> bool {
    &&& forall|i: int| 0 <= i < idx.len() ==> idx[i] < keys.len()
    &&& forall|i: int, j: int|
        #![trigger idx[i], idx[j]]
        0 <= i < j < idx.len() ==> precedes(keys, p, idx[i], idx[j])
}

/// `r` lists the positions of `keys` in ascending order of key, equal keys in
/// their input order.
pub open spec fn is_argsort(keys: Seq<int>, r: Seq<usize>) -> bool {
    &&& r.len() == keys.len()
    &&& forall|i: int| 0 <= i < r.len() ==> r[i] < keys.len()
    &&& forall|i: int, j: int|
        #![trigger r[i], r[j]]
        0 <= i < j < r.len() ==> keys[r[i] as int] < keys[r[j] as int] || (keys[r[i] as int]
            == keys[r[j] as int] && r[i] < r[j])
}

pub open spec fn keys_as_int(keys: Seq<u64>) -> Seq<int> {
    keys.map_values(|k: u64| k as int)
}

pub open spec fn keys32_as_int(keys: Seq<u32>) -> Seq<int> {
    keys.map_values(|k: u32| k as int)
}

/// How many of the first `k` digits equal `d`.
pub open spec fn count_eq(ds: Seq<int>, d: int, k: int) -> nat
    decreases k,
{
    if k <= 0 {
        0
    } else {
        count_eq(ds, d, k - 1) + if ds[k - 1] == d {
            1nat
        } else {
            0nat
        }
    }
}

/// How many of the first `k` digits are below `d`.
pub open spec fn count_below(ds: Seq<int>, d: int, k: int) -> nat
    decreases k,
{
    if k <= 0 {
        0
    } else {
        count_below(ds, d, k - 1) + if ds[k - 1] < d {
            1nat
        } else {
            0nat
        }
    }
}

/// The slot that a stable counting pass gives to the element at position `k`.
pub open spec fn dest(ds: Seq<int>, k: int) -> int {
    (count_below(ds, ds[k], ds.len() as int) + count_eq(ds, ds[k], k)) as int
}

proof fn lemma_count_step(ds: Seq<int>, d: int, k: int)
    requires
        0 <= k <= ds.len(),
    ensures
        count_below(ds, d + 1, k) == count_below(ds, d, k) + count_eq(ds, d, k),
        count_below(ds, d, k) <= k,
        count_eq(ds, d, k) <= k,
    decreases k,
{
    if k > 0 {
        lemma_count_step(ds, d, k - 1);
    }
}

proof fn lemma_count_eq_mono(ds: Seq<int>, d: int, j: int, k: int)
    requires
        0 <= j <= k <= ds.len(),
    ensures
        count_eq(ds, d, j) <= count_eq(ds, d, k),
        j < k && ds[j] == d ==> count_eq(ds, d, j) < count_eq(ds, d, k),
    decreases k - j,
{
    if j < k {
        lemma_count_eq_mono(ds, d, j, k - 1);
        if j < k - 1 {
            lemma_count_eq_mono(ds, d, j + 1, k - 1);
        }
    }
}

proof fn lemma_count_below_mono(ds: Seq<int>, d1: int, d2: int, k: int)
    requires
        0 <= k <= ds.len(),
        d1 <= d2,
    ensures
        count_below(ds, d1, k) <= count_below(ds, d2, k),
    decreases k,
{
    if k > 0 {
        lemma_count_below_mono(ds, d1, d2, k - 1);
    }
}

proof fn lemma_count_below_all(ds: Seq<int>, k: int)
    requires
        0 <= k <= ds.len(),
        forall|i: int| 0 <= i < ds.len() ==> 0 <= #[trigger] ds[i] < 256,
    ensures
        count_below(ds, 256, k) == k,
        count_below(ds, 0, k) == 0,
    decreases k,
{
    if k > 0 {
        lemma_count_below_all(ds, k - 1);
    }
}

/// Slots follow the order by digit, then by position; so they are distinct
/// and below the length.
proof fn lemma_dest_order(ds: Seq<int>, j1: int, j2: int)
    requires
        0 <= j1 < ds.len(),
        0 <= j2 < ds.len(),
        forall|i: int| 0 <= i < ds.len() ==> 0 <= #[trigger] ds[i] < 256,
        ds[j1] < ds[j2] || (ds[j1] == ds[j2] && j1 < j2),
    ensures
        dest(ds, j1) < dest(ds, j2),
{
    let n = ds.len() as int;
    if ds[j1] < ds[j2] {
        lemma_count_eq_mono(ds, ds[j1], j1, n);
        lemma_count_step(ds, ds[j1], n);
        lemma_count_below_mono(ds, ds[j1] + 1, ds[j2], n);
    } else {
        lemma_count_eq_mono(ds, ds[j1], j1, j2);
    }
}

proof fn lemma_dest_bound(ds: Seq<int>, j: int)
    requires
        0 <= j < ds.len(),
        forall|i: int| 0 <= i < ds.len() ==> 0 <= #[trigger] ds[i] < 256,
    ensures
        0 <= dest(ds, j) < ds.len(),
{
    let n = ds.len() as int;
    lemma_count_eq_mono(ds, ds[j], j, n);
    lemma_count_step(ds, ds[j], n);
    lemma_count_below_mono(ds, ds[j] + 1, 256, n);
    lemma_count_below_all(ds, n);
}

pub open spec fn slot_taken(ds: Seq<int>, m: int) -> bool {
    exists|j: int| 0 <= j < ds.len() && dest(ds, j) == m
}

/// Every slot below the length is given to some position.
proof fn lemma_dest_onto(ds: Seq<int>)
    requires
        forall|i: int| 0 <= i < ds.len() ==> 0 <= #[trigger] ds[i] < 256,
    ensures
        forall|m: int| 0 <= m < ds.len() ==> #[trigger] slot_taken(ds, m),
{
    let n = ds.len() as int;
    let f = |j: int| dest(ds, j);
    let dom = set_int_range(0, n);
    let img = dom.map(f);
    lemma_int_range(0, n);
    assert forall|a: int, b: int| dom.contains(a) && dom.contains(b) && f(a) == f(b) implies a
        == b by {
        if a != b {
            if ds[a] < ds[b] || (ds[a] == ds[b] && a < b) {
                lemma_dest_order(ds, a, b);
            } else {
                lemma_dest_order(ds, b, a);
            }
        }
    }
    lemma_map_size(dom, img, f);
    assert forall|m: int| img.contains(m) implies dom.contains(m) by {
        let j = choose|j: int| dom.contains(j) && f(j) == m;
        lemma_dest_bound(ds, j);
    }
    lemma_subset_equality(img, dom);
    assert forall|m: int| 0 <= m < n implies #[trigger] slot_taken(ds, m) by {
        assert(dom.contains(m));
        assert(img.contains(m));
    }
}

proof fn lemma_radix_pow_pos(p: nat)
    ensures
        radix_pow(p) >= 1,
    decreases p,
{
    if p > 0 {
        lemma_radix_pow_pos((p - 1) as nat);
    }
}

/// The lowest `p + 1` digits are digit `p` above the lowest `p`.
proof fn lemma_low_step(k: u64, p: nat)
    ensures
        low_part(k, p + 1) == digit_of(k, p) * radix_pow(p) + low_part(k, p),
        0 <= low_part(k, p) < radix_pow(p),
        0 <= digit_of(k, p) < 256,
{
    lemma_radix_pow_pos(p);
    let r = radix_pow(p) as int;
    assert(radix_pow(p + 1) == r * 256) by (nonlinear_arith)
        requires
            radix_pow(p + 1) == 256 * r,
    ;
    lemma_breakdown(k as int, r, 256);
    let d = (k as int / r) % 256;
    assert(r * d == d * r) by (nonlinear_arith);
    lemma_mod_pos_bound(k as int, r);
    lemma_mod_pos_bound(k as int / r, 256);
}

proof fn lemma_precedes_step(keys: Seq<u64>, p: nat, a: usize, b: usize)
    requires
        a < keys.len(),
        b < keys.len(),
        digit_of(keys[a as int], p) < digit_of(keys[b as int], p) || (digit_of(keys[a as int], p)
            == digit_of(keys[b as int], p) && precedes(keys, p, a, b)),
    ensures
        precedes(keys, p + 1, a, b),
{
    let ka = keys[a as int];
    let kb = keys[b as int];
    lemma_low_step(ka, p);
    lemma_low_step(kb, p);
    let r = radix_pow(p) as int;
    let da = digit_of(ka, p);
    let db = digit_of(kb, p);
    if da < db {
        assert(da * r + r <= db * r) by (nonlinear_arith)
            requires
                da < db,
                r >= 1,
        ;
    }
}


proof fn lemma_radix_pow_mono(a: nat, b: nat)
    requires
        a <= b,
    ensures
        radix_pow(a) <= radix_pow(b),
    decreases b,
{
    if a < b {
        lemma_radix_pow_mono(a, (b - 1) as nat);
    }
}

proof fn lemma_radix_pow_seven()
    ensures
        radix_pow(7) == 0x0100_0000_0000_0000,
{
    reveal_with_fuel(radix_pow, 8);
}

/// One stable counting pass on digit `p`: an order by the lowest `p` digits
/// becomes an order by the lowest `p + 1`.
fn counting_pass(keys: &[u64], idx: &Vec<usize>, p: usize, div: u64) -> (out: Vec<usize>)
    requires
        div as nat == radix_pow(p as nat),
        idx@.len() == keys@.len(),
        ordered_by_low(keys@, p as nat, idx@),
    ensures
        out@.len() == keys@.len(),
        ordered_by_low(keys@, (p + 1) as nat, out@),
{
    let n = idx.len();
    let ghost ds = idx@.map_values(|i: usize| digit_of(keys@[i as int], p as nat));
    proof {
        lemma_radix_pow_pos(p as nat);
        assert forall|i: int| 0 <= i < ds.len() implies 0 <= #[trigger] ds[i] < 256 by {
            lemma_low_step(keys@[idx@[i] as int], p as nat);
        }
    }
    let mut counts: Vec<usize> = vec![0usize; 256];
    let mut k: usize = 0;
    while k < n
        invariant
            k <= n,
            n == idx@.len(),
            n == keys@.len(),
            ds.len() == n,
            div as nat == radix_pow(p as nat),
            ds == idx@.map_values(|i: usize| digit_of(keys@[i as int], p as nat)),
            ordered_by_low(keys@, p as nat, idx@),
            div >= 1,
            counts@.len() == 256,
            forall|d: int| 0 <= d < 256 ==> counts@[d] == count_eq(ds, d, k as int),
        decreases n - k,
    {
        let d = ((keys[idx[k]] / div) % 256) as usize;
        assert(d as int == ds[k as int]);
        proof {
            lemma_count_step(ds, d as int, k as int);
        }
        counts.set(d, counts[d] + 1);
        k = k + 1;
    }
    let mut pos: Vec<usize> = Vec::new();
    let mut running: usize = 0;
    let mut d: usize = 0;
    proof {
        lemma_count_below_all(ds, n as int);
    }
    while d < 256
        invariant
            d <= 256,
            n == ds.len(),
            pos@.len() == d,
            counts@.len() == 256,
            forall|e: int| 0 <= e < 256 ==> counts@[e] == count_eq(ds, e, n as int),
            forall|i: int| 0 <= i < ds.len() ==> 0 <= #[trigger] ds[i] < 256,
            running == count_below(ds, d as int, n as int),
            forall|e: int| 0 <= e < d ==> pos@[e] == count_below(ds, e, n as int),
        decreases 256 - d,
    {
        pos.push(running);
        proof {
            lemma_count_step(ds, d as int, n as int);
            lemma_count_below_mono(ds, d as int + 1, 256, n as int);
            lemma_count_below_all(ds, n as int);
        }
        running = running + counts[d];
        d = d + 1;
    }
    let mut out: Vec<usize> = vec![0usize; n];
    let mut k: usize = 0;
    while k < n
        invariant
            k <= n,
            n == idx@.len(),
            n == keys@.len(),
            ds.len() == n,
            div as nat == radix_pow(p as nat),
            ds == idx@.map_values(|i: usize| digit_of(keys@[i as int], p as nat)),
            forall|i: int| 0 <= i < ds.len() ==> 0 <= #[trigger] ds[i] < 256,
            forall|i: int| 0 <= i < n ==> idx@[i] < keys@.len(),
            div >= 1,
            out@.len() == n,
            pos@.len() == 256,
            forall|e: int|
                0 <= e < 256 ==> pos@[e] == count_below(ds, e, n as int) + count_eq(ds, e, k as int),
            forall|j: int| 0 <= j < k ==> out@[#[trigger] dest(ds, j)] == idx@[j],
        decreases n - k,
    {
        let i = idx[k];
        let d = ((keys[i] / div) % 256) as usize;
        assert(d as int == ds[k as int]);
        proof {
            lemma_dest_bound(ds, k as int);
            assert forall|j: int| 0 <= j < k implies dest(ds, j) != dest(ds, k as int) && 0 <= dest(
                ds,
                j,
            ) < n by {
                lemma_dest_bound(ds, j);
                if ds[j] <= ds[k as int] {
                    lemma_dest_order(ds, j, k as int);
                } else {
                    lemma_dest_order(ds, k as int, j);
                }
            }
        }
        let slot = pos[d];
        assert(slot as int == dest(ds, k as int));
        out.set(slot, i);
        pos.set(d, slot + 1);
        k = k + 1;
    }
    proof {
        lemma_dest_onto(ds);
        assert forall|m: int| 0 <= m < n implies out@[m] < keys@.len() by {
            assert(slot_taken(ds, m));
            let j = choose|j: int| 0 <= j < n && dest(ds, j) == m;
        }
        assert forall|m1: int, m2: int| 0 <= m1 < m2 < n implies precedes(
            keys@,
            (p + 1) as nat,
            #[trigger] out@[m1],
            #[trigger] out@[m2],
        ) by {
            assert(slot_taken(ds, m1));
            assert(slot_taken(ds, m2));
            let j1 = choose|j: int| 0 <= j < n && dest(ds, j) == m1;
            let j2 = choose|j: int| 0 <= j < n && dest(ds, j) == m2;
            if ds[j2] < ds[j1] || (ds[j1] == ds[j2] && j2 < j1) {
                lemma_dest_order(ds, j2, j1);
            }
            if ds[j1] == ds[j2] {
                assert(precedes(keys@, p as nat, idx@[j1], idx@[j2]));
            }
            lemma_precedes_step(keys@, p as nat, idx@[j1], idx@[j2]);
        }
    }
    out
}

/// Indirect stable sort of unsigned keys of `size` bits: the positions of
/// `keys` in ascending key order, equal keys kept in their input order.
pub fn argsort(keys: &[u64], size: usize) -> (r: Vec<usize>)
    requires
        size <= 64,
        size % 8 == 0,
        forall|i: int| 0 <= i < keys@.len() ==> keys@[i] < radix_pow((size / 8) as nat),
    ensures
        is_argsort(keys_as_int(keys@), r@),
{
    let n = keys.len();
    let mut indexes: Vec<usize> = Vec::new();
    let mut i: usize = 0;
    while i < n
        invariant
            i <= n,
            n == keys@.len(),
            indexes@.len() == i,
            forall|j: int| 0 <= j < i ==> indexes@[j] == j,
        decreases n - i,
    {
        indexes.push(i);
        i = i + 1;
    }
    let passes = size / 8;
    let mut place: usize = 0;
    let mut div: u64 = 1;
    while place < passes
        invariant
            passes <= 8,
            place <= passes,
            indexes@.len() == n,
            n == keys@.len(),
            place < passes ==> div as nat == radix_pow(place as nat),
            ordered_by_low(keys@, place as nat, indexes@),
        decreases passes - place,
    {
        indexes = counting_pass(keys, &indexes, place, div);
        if place + 1 < passes {
            proof {
                lemma_radix_pow_mono((place + 1) as nat, 7);
                lemma_radix_pow_seven();
            }
            div = div * 256;
        }
        place = place + 1;
    }
    proof {
        assert forall|j: int| 0 <= j < n implies low_part(keys@[j], passes as nat) == keys@[j] by {
            lemma_small_mod(keys@[j] as nat, radix_pow(passes as nat));
        }
        let ks = keys_as_int(keys@);
        assert forall|a: int, b: int| 0 <= a < b < n implies ks[indexes@[a] as int]
            < ks[indexes@[b] as int] || (ks[indexes@[a] as int] == ks[indexes@[b] as int]
            && indexes@[a] < indexes@[b]) by {
            assert(precedes(keys@, passes as nat, indexes@[a], indexes@[b]));
        }
    }
    indexes
}

pub open spec fn occurs(r: Seq<usize>, i: int) -> bool {
    exists|k: int| 0 <= k < r.len() && r[k] == i
}

/// An argsort is a permutation: each position of the keys is listed exactly
/// once.
pub proof fn lemma_argsort_is_permutation(keys: Seq<int>, r: Seq<usize>)
    requires
        is_argsort(keys, r),
    ensures
        forall|i: int| 0 <= i < keys.len() ==> #[trigger] occurs(r, i),
        forall|a: int, b: int| 0 <= a < r.len() && 0 <= b < r.len() && r[a] == r[b] ==> a == b,
{
    let n = r.len() as int;
    assert forall|a: int, b: int| 0 <= a < n && 0 <= b < n && r[a] == r[b] implies a == b by {
        if a < b {
            assert(keys[r[a] as int] < keys[r[b] as int] || r[a] < r[b]);
        } else if b < a {
            assert(keys[r[b] as int] < keys[r[a] as int] || r[b] < r[a]);
        }
    }
    let f = |k: int| r[k] as int;
    let dom = set_int_range(0, n);
    let img = dom.map(f);
    lemma_int_range(0, n);
    lemma_map_size(dom, img, f);
    assert forall|m: int| img.contains(m) implies dom.contains(m) by {
        let k = choose|k: int| dom.contains(k) && f(k) == m;
    }
    lemma_subset_equality(img, dom);
    assert forall|i: int| 0 <= i < keys.len() implies #[trigger] occurs(r, i) by {
        assert(dom.contains(i));
        assert(img.contains(i));
    }
}

/// Key sequences that can be argsorted by radix.
pub trait RadixSort {
    /// The keys, as integers.
    spec fn radix_keys(&self) -> Seq<int>;

    /// The positions in ascending key order, equal keys kept in their order.
    fn argsort(&self) -> (r: Vec<usize>)
        ensures
            is_argsort(self.radix_keys(), r@),
    ;
}

impl RadixSort for Vec<u64> {
    open spec fn radix_keys(&self) -> Seq<int> {
        keys_as_int(self@)
    }

    fn argsort(&self) -> (r: Vec<usize>) {
        proof {
            assert(radix_pow(8) == 0x1_0000_0000_0000_0000) by {
                reveal_with_fuel(radix_pow, 9);
            }
        }
        argsort(self.as_slice(), 64)
    }
}

impl RadixSort for Vec<u32> {
    open spec fn radix_keys(&self) -> Seq<int> {
        keys32_as_int(self@)
    }

    fn argsort(&self) -> (r: Vec<usize>) {
        let mut wide: Vec<u64> = Vec::new();
        let mut i: usize = 0;
        while i < self.len()
            invariant
                i <= self@.len(),
                wide@.len() == i,
                forall|j: int| 0 <= j < i ==> wide@[j] == self@[j] as u64,
            decreases self@.len() - i,
        {
            wide.push(self[i] as u64);
            i = i + 1;
        }
        proof {
            assert(radix_pow(4) == 0x1_0000_0000) by {
                reveal_with_fuel(radix_pow, 5);
            }
            assert(keys_as_int(wide@) =~= keys32_as_int(self@));
        }
        argsort(wide.as_slice(), 32)
    }
}

pub open spec fn coordinate_key_spec(bits: u64) -> u64 {
    flip_spec64(
        if bits == NEG_ZERO64 {
            0
        } else {
            bits
        },
    )
}

/// An order-preserving key for a 64-bit float pattern: `-0.0` is read as
/// `+0.0`, then the pattern is flipped.
pub fn coordinate_key(bits: u64) -> (r: u64)
    ensures
        r == coordinate_key_spec(bits),
{
    if bits == NEG_ZERO64 {
        flip64(0)
    } else {
        flip64(bits)
    }
}

/// Coordinate keys compare as the floats' numeric values do, `-0.0` and
/// `+0.0` included.
pub proof fn lemma_coordinate_key_order(a: u64, b: u64)
    ensures
        real_rank64(a) <= real_rank64(b) <==> coordinate_key_spec(a) <= coordinate_key_spec(b),
{
    assert(real_rank64(NEG_ZERO64) == 0) by {
        assert(0x8000_0000_0000_0000u64 & 0x7fff_ffff_ffff_ffff == 0) by (bit_vector);
        assert(0x8000_0000_0000_0000u64 >> 63 == 1) by (bit_vector);
    }
    assert(real_rank64(0) == 0) by {
        assert(0u64 & 0x7fff_ffff_ffff_ffff == 0) by (bit_vector);
        assert(0u64 >> 63 == 0) by (bit_vector);
    }
    let a2 = if a == NEG_ZERO64 {
        0u64
    } else {
        a
    };
    let b2 = if b == NEG_ZERO64 {
        0u64
    } else {
        b
    };
    lemma_flip64_order(a2, b2);
}

/// Sorts unsigned keys ascending by radix: the result lists the input in
/// the order of its argsort.
pub fn sort_in_place(arr: &mut Vec<u64>)
    ensures
        final(arr)@.len() == old(arr)@.len(),
        forall|i: int, j: int|
            0 <= i < j < final(arr)@.len() ==> #[trigger] final(arr)@[i] <= #[trigger] final(arr)@[j],
        exists|r: Seq<usize>|
            is_argsort(keys_as_int(old(arr)@), r) && final(arr)@ == r.map_values(
                |i: usize| old(arr)@[i as int],
            ),
{
    proof {
        assert(radix_pow(8) == 0x1_0000_0000_0000_0000) by {
            reveal_with_fuel(radix_pow, 9);
        }
    }
    let order = argsort(arr.as_slice(), 64);
    let ghost keys = keys_as_int(arr@);
    let n = order.len();
    let mut sorted: Vec<u64> = Vec::new();
    let mut k: usize = 0;
    while k < n
        invariant
            n == order@.len(),
            is_argsort(keys, order@),
            keys == keys_as_int(arr@),
            k <= n,
            sorted@ == order@.take(k as int).map_values(|i: usize| arr@[i as int]),
        decreases n - k,
    {
        sorted.push(arr[order[k]]);
        proof {
            assert(order@.take(k + 1) =~= order@.take(k as int).push(order@[k as int]));
            assert(order@.take(k + 1).map_values(|i: usize| arr@[i as int]) =~= order@.take(
                k as int,
            ).map_values(|i: usize| arr@[i as int]).push(arr@[order@[k as int] as int]));
        }
        k = k + 1;
    }
    let ghost old_arr = arr@;
    proof {
        assert(order@.take(n as int) =~= order@);
        assert forall|i: int, j: int| 0 <= i < j < sorted@.len() implies #[trigger] sorted@[i]
            <= #[trigger] sorted@[j] by {
            assert(keys[order@[i] as int] <= keys[order@[j] as int]);
        }
    }
    *arr = sorted;
}

} // verus!
