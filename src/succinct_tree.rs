//! A succinct ordered set over a bounded universe: a stack of bit levels,
//! where level `k + 1` holds one bit per word of level `k`, set exactly when
//! that word is non-zero.
use crate::bits::{has_bit, lemma_clear_absent_bit, lemma_clear_bit, lemma_set_bit, lemma_zero_iff_no_bits, lowest_bit, next_sibling};
use vstd::arithmetic::div_mod::{
    lemma_div_denominator, lemma_div_is_ordered, lemma_fundamental_div_mod,
    lemma_fundamental_div_mod_converse, lemma_multiply_divide_lt,
};
use vstd::prelude::*;

verus! {

/// `64` to the power `k`.
pub open spec fn pow64(k: nat) -> nat
    decreases k,
{
    if k == 0 {
        1
    } else {
        64 * pow64((k - 1) as nat)
    }
}

/// Bit `j` of a level, its words read as one long bit string.
pub open spec fn word_bit(words: Seq<u64>, j: int) -> bool {
    has_bit(words[j / 64], (j % 64) as u64)
}

/// The levels' words as sequences.
pub open spec fn words_of(levels: Seq<Vec<u64>>) -> Seq<Seq<u64>> {
    levels.map_values(|v: Vec<u64>| v@)
}

/// Level `k` of `height` levels has `64^(height - 1 - k)` words, so the top
/// level is one word and level zero has a bit per element of the universe.
pub open spec fn shape_ok(lv: Seq<Seq<u64>>) -> bool {
    &&& 1 <= lv.len() <= 5
    &&& forall|k: int| 0 <= k < lv.len() ==> #[trigger] lv[k].len() == pow64((lv.len() - 1 - k) as nat)
}

/// Bit `j` of level `m` is set exactly when word `j` of level `m - 1` is non-zero.
pub open spec fn link(lv: Seq<Seq<u64>>, m: int, j: int) -> bool {
    word_bit(lv[m], j) <==> lv[m - 1][j] != 0
}

pub open spec fn links_ok(lv: Seq<Seq<u64>>) -> bool {
    forall|m: int, j: int|
        1 <= m < lv.len() && 0 <= j < pow64((lv.len() - m) as nat) ==> #[trigger] link(lv, m, j)
}

pub open spec fn tree_ok(lv: Seq<Seq<u64>>) -> bool {
    shape_ok(lv) && links_ok(lv)
}

pub open spec fn member(lv: Seq<Seq<u64>>, i: int) -> bool {
    0 <= i < pow64(lv.len()) && word_bit(lv[0], i)
}

proof fn lemma_pow64_pos(k: nat)
    ensures
        pow64(k) >= 1,
    decreases k,
{
    if k > 0 {
        lemma_pow64_pos((k - 1) as nat);
    }
}

proof fn lemma_pow64_mono(a: nat, b: nat)
    requires
        a <= b,
    ensures
        pow64(a) <= pow64(b),
    decreases b,
{
    lemma_pow64_pos(b);
    if a < b {
        lemma_pow64_mono(a, (b - 1) as nat);
    }
}

proof fn lemma_pow64_add(a: nat, b: nat)
    ensures
        pow64(a + b) == pow64(a) * pow64(b),
    decreases b,
{
    if b > 0 {
        lemma_pow64_add(a, (b - 1) as nat);
        let x = pow64(a);
        let y = pow64((b - 1) as nat);
        assert(pow64(a + b) == 64 * pow64((a + b - 1) as nat));
        assert(pow64(b) == 64 * y);
        assert((a + b - 1) as nat == a + (b - 1) as nat);
        assert(pow64((a + b - 1) as nat) == x * y);
        assert(64 * (x * y) == x * (64 * y)) by (nonlinear_arith);
    } else {
        assert(pow64(0) == 1);
        assert(pow64(a) * 1 == pow64(a));
    }
}

/// Dividing by `64^(k+1)` is dividing by `64^k`, then by `64`.
proof fn lemma_div_step(i: int, k: nat)
    requires
        i >= 0,
    ensures
        i / pow64(k + 1) as int == (i / pow64(k) as int) / 64,
        i / pow64(k) as int >= 0,
{
    lemma_pow64_pos(k);
    lemma_div_denominator(i, pow64(k) as int, 64);
    assert(pow64(k + 1) == pow64(k) * 64) by (nonlinear_arith)
        requires
            pow64(k + 1) == 64 * pow64(k),
    ;
}

/// Position `j` of a level splits into word `j / 64` and bit `j % 64`.
proof fn lemma_split(w: int, c: int)
    requires
        w >= 0,
        0 <= c < 64,
    ensures
        (64 * w + c) / 64 == w,
        (64 * w + c) % 64 == c,
{
    lemma_fundamental_div_mod_converse(64 * w + c, 64, w, c);
}

/// A position below `64^(n+1)` lies in a word below `64^n`.
proof fn lemma_word_in_range(j: int, n: nat)
    requires
        0 <= j < pow64(n + 1),
    ensures
        0 <= j / 64 < pow64(n),
{
    lemma_multiply_divide_lt(j, 64, pow64(n) as int);
}

/// A set bit at level `k` stands for some member in its block.
proof fn lemma_bit_has_member(lv: Seq<Seq<u64>>, k: int, j: int)
    requires
        tree_ok(lv),
        0 <= k < lv.len(),
        0 <= j < pow64((lv.len() - k) as nat),
        word_bit(lv[k], j),
    ensures
        exists|i: int| #[trigger] member(lv, i) && i / pow64(k as nat) as int == j,
    decreases k,
{
    let n = lv.len() as int;
    if k == 0 {
        assert(pow64(0) == 1);
        assert(j / 1 == j) by (nonlinear_arith);
        assert(member(lv, j));
    } else {
        assert(link(lv, k, j));
        lemma_zero_iff_no_bits(lv[k - 1][j]);
        let c = choose|c: u64| c < 64 && #[trigger] has_bit(lv[k - 1][j], c);
        let j2 = 64 * j + c;
        lemma_split(j, c as int);
        assert(pow64((n - (k - 1)) as nat) == 64 * pow64((n - k) as nat));
        assert(j2 < pow64((n - (k - 1)) as nat)) by (nonlinear_arith)
            requires
                j2 == 64 * j + c,
                c < 64,
                j < pow64((n - k) as nat),
                pow64((n - (k - 1)) as nat) == 64 * pow64((n - k) as nat),
        ;
        assert(word_bit(lv[k - 1], j2));
        lemma_bit_has_member(lv, k - 1, j2);
        let i = choose|i: int| #[trigger] member(lv, i) && i / pow64((k - 1) as nat) as int == j2;
        lemma_div_step(i, (k - 1) as nat);
    }
}

/// Each member sets the bit of its block at every level.
proof fn lemma_member_sets_bit(lv: Seq<Seq<u64>>, k: int, i: int)
    requires
        tree_ok(lv),
        0 <= k < lv.len(),
        member(lv, i),
    ensures
        word_bit(lv[k], i / pow64(k as nat) as int),
        0 <= (i / pow64(k as nat) as int) < pow64((lv.len() - k) as nat),
    decreases k,
{
    let n = lv.len() as int;
    if k == 0 {
        assert(pow64(0) == 1);
        assert(i / 1 == i) by (nonlinear_arith);
    } else {
        lemma_member_sets_bit(lv, k - 1, i);
        let j = i / pow64((k - 1) as nat) as int;
        lemma_div_step(i, (k - 1) as nat);
        assert(pow64((n - (k - 1)) as nat) == pow64(((n - k) + 1) as nat));
        lemma_word_in_range(j, (n - k) as nat);
        lemma_zero_iff_no_bits(lv[k - 1][j / 64]);
        assert(link(lv, k, j / 64));
    }
}

/// Words zero everywhere make a well-formed empty tree.
proof fn lemma_zero_tree(lv: Seq<Seq<u64>>)
    requires
        shape_ok(lv),
        forall|k: int, w: int| 0 <= k < lv.len() && 0 <= w < lv[k].len() ==> lv[k][w] == 0,
    ensures
        tree_ok(lv),
        forall|i: int| !member(lv, i),
{
    assert forall|c: u64| #[trigger] has_bit(0, c) == false by {
        assert((0u64 >> c) & 1u64 != 1u64) by (bit_vector);
    }
    assert forall|m: int, j: int|
        1 <= m < lv.len() && 0 <= j < pow64((lv.len() - m) as nat) implies #[trigger] link(
        lv,
        m,
        j,
    ) by {
        let n = lv.len() as int;
        assert(pow64((n - m) as nat) == pow64(((n - m - 1) + 1) as nat));
        lemma_word_in_range(j, (n - m - 1) as nat);
    }
    assert forall|i: int| !member(lv, i) by {
        if 0 <= i < pow64(lv.len()) {
            assert(pow64(lv.len()) == pow64(((lv.len() - 1) + 1) as nat));
            lemma_word_in_range(i, (lv.len() - 1) as nat);
        }
    }
}

/// Index bounds at one level: the block of `index` at level `k` is below
/// `64^(n - k)`, and its word is below `64^(n - k - 1)`.
proof fn lemma_level_index_range(index: int, n: nat, k: nat)
    requires
        0 <= index < pow64(n),
        k < n,
    ensures
        0 <= (index / pow64(k) as int) < pow64((n - k) as nat),
        0 <= (index / pow64(k) as int) / 64 < pow64((n - k - 1) as nat),
{
    lemma_pow64_pos(k);
    lemma_pow64_add(k, (n - k) as nat);
    assert(k + (n - k) as nat == n);
    lemma_multiply_divide_lt(index, pow64(k) as int, pow64((n - k) as nat) as int);
    assert(pow64((n - k) as nat) == pow64(((n - k - 1) + 1) as nat));
    lemma_word_in_range(index / pow64(k) as int, (n - k - 1) as nat);
}

/// Bit `j` of a level after one bit of one word changed by `op`.
proof fn lemma_word_update_bit(row: Seq<u64>, li: int, nw: u64, j: int)
    requires
        0 <= li,
        0 <= j < 64 * row.len(),
        li / 64 < row.len(),
    ensures
        j / 64 != li / 64 ==> word_bit(row.update(li / 64, nw), j) == word_bit(row, j),
        j / 64 == li / 64 ==> word_bit(row.update(li / 64, nw), j) == has_bit(nw, (j % 64) as u64),
        j / 64 == li / 64 && j % 64 == li % 64 ==> j == li,
{
    lemma_fundamental_div_mod(j, 64);
    lemma_fundamental_div_mod(li, 64);
    lemma_multiply_divide_lt(j, 64, row.len() as int);
}

proof fn lemma_insert_step(lv: Seq<Seq<u64>>, lv2: Seq<Seq<u64>>, level: int, index: int)
    requires
        shape_ok(lv),
        0 <= level < lv.len(),
        0 <= index < pow64(lv.len()),
        lv2 == lv.update(
            level,
            lv[level].update(
                (index / pow64(level as nat) as int) / 64,
                lv[level][(index / pow64(level as nat) as int) / 64] | (1u64 << ((index / pow64(
                    level as nat,
                ) as int) % 64) as u64),
            ),
        ),
        forall|m: int, j: int|
            1 <= m < lv.len() && 0 <= j < pow64((lv.len() - m) as nat) && !(m == level && j
                == index / pow64(m as nat) as int) ==> #[trigger] link(lv, m, j),
        level >= 1 ==> lv[level - 1][index / pow64(level as nat) as int] != 0,
    ensures
        shape_ok(lv2),
        forall|m: int, j: int|
            1 <= m < lv.len() && 0 <= j < pow64((lv.len() - m) as nat) && !(m == level + 1 && j
                == index / pow64((level + 1) as nat) as int) ==> #[trigger] link(lv2, m, j),
        lv2[level][index / pow64((level + 1) as nat) as int] != 0,
        forall|j: int|
            0 <= j < pow64((lv.len() - level) as nat) ==> word_bit(lv2[level], j) == (word_bit(
                lv[level],
                j,
            ) || j == index / pow64(level as nat) as int),
{
    let n = lv.len() as int;
    let li = index / pow64(level as nat) as int;
    let b = (li % 64) as u64;
    let w = li / 64;
    let ow = lv[level][w];
    let nw = ow | (1u64 << b);
    lemma_level_index_range(index, n as nat, level as nat);
    lemma_div_step(index, level as nat);
    assert(lv[level].len() == pow64((n - 1 - level) as nat));
    assert(pow64((n - level) as nat) == 64 * pow64((n - level - 1) as nat));
    assert(shape_ok(lv2)) by {
        assert forall|k: int| 0 <= k < lv2.len() implies #[trigger] lv2[k].len() == pow64(
            (lv2.len() - 1 - k) as nat,
        ) by {
            assert(lv[k].len() == pow64((lv.len() - 1 - k) as nat));
        }
    }
    assert forall|j: int| 0 <= j < pow64((n - level) as nat) implies word_bit(lv2[level], j) == (
    word_bit(lv[level], j) || j == li) by {
        lemma_word_update_bit(lv[level], li, nw, j);
        lemma_set_bit(ow, b, (j % 64) as u64);
    }
    lemma_set_bit(ow, b, b);
    lemma_zero_iff_no_bits(nw);
    assert forall|m: int, j: int|
        1 <= m < n && 0 <= j < pow64((n - m) as nat) && !(m == level + 1 && j == index / pow64(
            (level + 1) as nat,
        ) as int) implies #[trigger] link(lv2, m, j) by {
        if m == level {
            assert(link(lv2, m, j) == (word_bit(lv2[level], j) <==> lv[m - 1][j] != 0));
            if j != li {
                assert(link(lv, m, j));
            }
        } else if m == level + 1 {
            assert(j != w);
            assert(link(lv, m, j));
        } else {
            assert(link(lv, m, j));
        }
    }
}

proof fn lemma_remove_step(lv: Seq<Seq<u64>>, lv2: Seq<Seq<u64>>, level: int, index: int)
    requires
        shape_ok(lv),
        0 <= level < lv.len(),
        0 <= index < pow64(lv.len()),
        lv2 == lv.update(
            level,
            lv[level].update(
                (index / pow64(level as nat) as int) / 64,
                lv[level][(index / pow64(level as nat) as int) / 64] & !(1u64 << ((index / pow64(
                    level as nat,
                ) as int) % 64) as u64),
            ),
        ),
        forall|m: int, j: int|
            1 <= m < lv.len() && 0 <= j < pow64((lv.len() - m) as nat) && !(m == level && j
                == index / pow64(m as nat) as int) ==> #[trigger] link(lv, m, j),
        level >= 1 ==> lv[level - 1][index / pow64(level as nat) as int] == 0,
    ensures
        shape_ok(lv2),
        forall|m: int, j: int|
            1 <= m < lv.len() && 0 <= j < pow64((lv.len() - m) as nat) && !(m == level + 1 && j
                == index / pow64((level + 1) as nat) as int) ==> #[trigger] link(lv2, m, j),
        lv2[level][index / pow64((level + 1) as nat) as int] != 0 ==> links_ok(lv2),
        forall|j: int|
            0 <= j < pow64((lv.len() - level) as nat) ==> word_bit(lv2[level], j) == (word_bit(
                lv[level],
                j,
            ) && j != index / pow64(level as nat) as int),
{
    let n = lv.len() as int;
    let li = index / pow64(level as nat) as int;
    let b = (li % 64) as u64;
    let w = li / 64;
    let ow = lv[level][w];
    let nw = ow & !(1u64 << b);
    lemma_level_index_range(index, n as nat, level as nat);
    lemma_div_step(index, level as nat);
    assert(lv[level].len() == pow64((n - 1 - level) as nat));
    assert(pow64((n - level) as nat) == 64 * pow64((n - level - 1) as nat));
    assert(shape_ok(lv2)) by {
        assert forall|k: int| 0 <= k < lv2.len() implies #[trigger] lv2[k].len() == pow64(
            (lv2.len() - 1 - k) as nat,
        ) by {
            assert(lv[k].len() == pow64((lv.len() - 1 - k) as nat));
        }
    }
    assert forall|j: int| 0 <= j < pow64((n - level) as nat) implies word_bit(lv2[level], j) == (
    word_bit(lv[level], j) && j != li) by {
        lemma_word_update_bit(lv[level], li, nw, j);
        lemma_clear_bit(ow, b, (j % 64) as u64);
    }
    assert forall|m: int, j: int|
        1 <= m < n && 0 <= j < pow64((n - m) as nat) && !(m == level + 1 && j == index / pow64(
            (level + 1) as nat,
        ) as int) implies #[trigger] link(lv2, m, j) by {
        if m == level {
            assert(link(lv2, m, j) == (word_bit(lv2[level], j) <==> lv[m - 1][j] != 0));
            if j != li {
                assert(link(lv, m, j));
            }
        } else if m == level + 1 {
            assert(j != w);
            assert(link(lv, m, j));
        } else {
            assert(link(lv, m, j));
        }
    }
    if nw != 0 && level + 1 < n {
        lemma_zero_iff_no_bits(nw);
        lemma_zero_iff_no_bits(ow);
        let c = choose|c: u64| c < 64 && #[trigger] has_bit(nw, c);
        lemma_clear_bit(ow, b, c);
        assert(link(lv, level + 1, w));
        assert(link(lv2, level + 1, w));
    }
}

/// The levels after setting, at every level, the bit of the block holding
/// `index`.
pub open spec fn set_path(lv: Seq<Seq<u64>>, index: int) -> Seq<Seq<u64>> {
    Seq::new(
        lv.len(),
        |k: int|
            lv[k].update(
                (index / pow64(k as nat) as int) / 64,
                lv[k][(index / pow64(k as nat) as int) / 64] | (1u64 << ((index / pow64(
                    k as nat,
                ) as int) % 64) as u64),
            ),
    )
}

/// `s` is the least element of `set` above `x`, or there is none.
pub open spec fn is_successor(set: Set<int>, x: int, s: Option<usize>) -> bool {
    match s {
        None => forall|i: int| #[trigger] set.contains(i) ==> i <= x,
        Some(v) => set.contains(v as int) && x < v && forall|i: int|
            #[trigger] set.contains(i) && x < i ==> v <= i,
    }
}

/// A set of integers over a bounded universe, laid out as a bit-tree.
pub trait SuccintTree: Sized {
    /// The structure's invariant.
    spec fn wf(&self) -> bool;

    /// The number of levels; the universe is `64^height`.
    spec fn height(&self) -> nat;

    /// The elements of the set.
    spec fn members(&self) -> Set<int>;

    /// The words of each level, level zero first.
    spec fn level_words(&self) -> Seq<Seq<u64>>;

    /// The levels. Level `k` has `64^(height - 1 - k)` words, and the
    /// members are the set bits of level zero.
    fn get_levels(&self) -> (r: &Vec<Vec<u64>>)
        ensures
            r@.len() == self.height(),
            words_of(r@) == self.level_words(),
            self.wf() ==> forall|k: int|
                0 <= k < self.height() ==> #[trigger] self.level_words()[k].len() == pow64(
                    (self.height() - 1 - k) as nat,
                ),
            self.wf() ==> forall|i: int|
                #[trigger] self.members().contains(i) <==> 0 <= i < pow64(self.height()) && word_bit(
                    self.level_words()[0],
                    i,
                ),
    ;

    /// An empty set whose universe is the least power of 64 (at least 64)
    /// that reaches `capacity`; level `k` of `height` levels holds
    /// `64^(height - 1 - k)` zero words. The capacity is at most `2^30`, so
    /// the universe stays within a 32-bit `usize`.
    fn new(capacity: u32) -> (r: Self)
        requires
            capacity <= 0x4000_0000,
        ensures
            r.wf(),
            r.members() == Set::<int>::empty(),
            r.height() >= 1,
            capacity <= pow64(r.height()),
            r.height() == 1 || pow64((r.height() - 1) as nat) < capacity,
            r.level_words() == Seq::new(
                r.height(),
                |k: int| Seq::new(pow64((r.height() - 1 - k) as nat), |w: int| 0u64),
            ),
    ;

    fn insert(&mut self, index: usize)
        requires
            old(self).wf(),
            index < pow64(old(self).height()),
        ensures
            final(self).wf(),
            final(self).height() == old(self).height(),
            final(self).members() == old(self).members().insert(index as int),
            final(self).level_words() == set_path(old(self).level_words(), index as int),
    ;

    fn remove(&mut self, index: usize)
        requires
            old(self).wf(),
            index < pow64(old(self).height()),
        ensures
            final(self).wf(),
            final(self).height() == old(self).height(),
            final(self).members() == old(self).members().remove(index as int),
            !old(self).members().contains(index as int) ==> final(self).level_words() == old(
                self,
            ).level_words(),
    ;

    /// The members in `[lower, upper)`, ascending.
    fn range(&self, lower: usize, upper: usize) -> (r: Vec<usize>)
        requires
            self.wf(),
        ensures
            forall|a: int, b: int| 0 <= a < b < r@.len() ==> r@[a] < r@[b],
            forall|k: int|
                0 <= k < r@.len() ==> self.members().contains(#[trigger] r@[k] as int) && lower
                    <= r@[k] < upper,
            forall|i: int|
                #[trigger] self.members().contains(i) && lower <= i < upper ==> r@.contains(
                    i as usize,
                ),
    ;

    /// The least member, if any.
    fn min(&self) -> (r: Option<usize>)
        requires
            self.wf(),
        ensures
            is_successor(self.members(), -1, r),
    ;
}

/// A bit-tree set.
pub struct SuccinctSet {
    levels: Vec<Vec<u64>>,
}

/// `index / 64^level`: the position standing for `index` at that level.
fn calc_level_index(level: u32, index: usize) -> (r: usize)
    ensures
        r == index as int / pow64(level as nat) as int,
{
    let mut r = index;
    let mut k: u32 = 0;
    proof {
        assert(pow64(0) == 1);
        assert(index as int / 1 == index) by (nonlinear_arith);
    }
    while k < level
        invariant
            k <= level,
            r == index as int / pow64(k as nat) as int,
        decreases level - k,
    {
        proof {
            lemma_div_step(index as int, k as nat);
        }
        r = r / 64;
        k = k + 1;
    }
    r
}

fn set(levels: &mut Vec<Vec<u64>>, level: usize, index: usize)
    requires
        level < old(levels)@.len(),
        index / 64 < old(levels)@[level as int]@.len(),
    ensures
        words_of(final(levels)@) == words_of(old(levels)@).update(
            level as int,
            old(levels)@[level as int]@.update(
                index as int / 64,
                old(levels)@[level as int]@[index as int / 64] | (1u64 << (index % 64) as u64),
            ),
        ),
{
    let word_index = index / 64;
    let bit_index = (index % 64) as u64;
    let word = levels[level][word_index];
    levels[level].set(word_index, word | (1u64 << bit_index));
    assert(words_of(levels@) =~= words_of(old(levels)@).update(
        level as int,
        old(levels)@[level as int]@.update(index as int / 64, word | (1u64 << bit_index)),
    ));
}

fn unset(levels: &mut Vec<Vec<u64>>, level: usize, index: usize) -> (r: u64)
    requires
        level < old(levels)@.len(),
        index / 64 < old(levels)@[level as int]@.len(),
    ensures
        r == old(levels)@[level as int]@[index as int / 64] & !(1u64 << (index % 64) as u64),
        words_of(final(levels)@) == words_of(old(levels)@).update(
            level as int,
            old(levels)@[level as int]@.update(index as int / 64, r),
        ),
{
    let word_index = index / 64;
    let bit_index = (index % 64) as u64;
    let word = levels[level][word_index] & !(1u64 << bit_index);
    levels[level].set(word_index, word);
    assert(words_of(levels@) =~= words_of(old(levels)@).update(
        level as int,
        old(levels)@[level as int]@.update(index as int / 64, word),
    ));
    word
}

/// The lowest level at which some set bit lies above `x` in the word of
/// `x`'s own block, with that bit's position; every member above `x` lies in
/// a block at or after it.
fn find_ancestor_sibling(levels: &Vec<Vec<u64>>, x: usize) -> (r: Option<(usize, usize)>)
    requires
        tree_ok(words_of(levels@)),
        x < pow64(levels@.len()),
    ensures
        match r {
            None => forall|i: int| #[trigger] member(words_of(levels@), i) ==> i <= x,
            Some((k, jj)) => {
                &&& k < levels@.len()
                &&& jj < pow64((levels@.len() - k) as nat)
                &&& word_bit(words_of(levels@)[k as int], jj as int)
                &&& jj > x as int / pow64(k as nat) as int
                &&& jj as int / 64 == (x as int / pow64(k as nat) as int) / 64
                &&& forall|i: int| #[trigger]
                    member(words_of(levels@), i) && i > x ==> i / pow64(k as nat) as int >= jj
            },
        },
{
    let ghost lv = words_of(levels@);
    let n = levels.len();
    let mut level: usize = 0;
    proof {
        assert(pow64(0) == 1);
        assert forall|i: int| #[trigger] member(lv, i) && i > x implies i / pow64(0) as int > x
            as int / pow64(0) as int by {
            assert(i / 1 == i) by (nonlinear_arith);
            assert(x as int / 1 == x) by (nonlinear_arith);
        }
    }
    while level < n
        invariant
            lv == words_of(levels@),
            n == lv.len(),
            tree_ok(lv),
            x < pow64(n as nat),
            level <= n,
            forall|i: int| #[trigger]
                member(lv, i) && i > x ==> i / pow64(level as nat) as int > x as int / pow64(
                    level as nat,
                ) as int,
        decreases n - level,
    {
        let level_index = calc_level_index(level as u32, x);
        let word_index = level_index / 64;
        proof {
            lemma_level_index_range(x as int, n as nat, level as nat);
            assert(lv[level as int].len() == pow64((n - 1 - level) as nat));
        }
        let word = levels[level][word_index];
        assert(word == lv[level as int][word_index as int]);
        let found = next_sibling(word, (level_index % 64) as u32);
        proof {
            lemma_fundamental_div_mod(level_index as int, 64);
        }
        match found {
            Some(sibling) => {
                let sibling_index = sibling + 64 * word_index;
                proof {
                    lemma_split(word_index as int, sibling as int);
                    assert(sibling_index == 64 * word_index + sibling);
                    assert(pow64((n - level) as nat) == 64 * pow64((n - level - 1) as nat));
                    assert(sibling_index < pow64((n - level) as nat)) by (nonlinear_arith)
                        requires
                            sibling_index == 64 * word_index + sibling,
                            sibling < 64,
                            word_index < pow64((n - level - 1) as nat),
                            pow64((n - level) as nat) == 64 * pow64((n - level - 1) as nat),
                    ;
                    assert forall|i: int| #[trigger]
                        member(lv, i) && i > x implies i / pow64(level as nat) as int
                        >= sibling_index by {
                        let il = i / pow64(level as nat) as int;
                        lemma_member_sets_bit(lv, level as int, i);
                        lemma_fundamental_div_mod(il, 64);
                        lemma_div_is_ordered(level_index as int, il, 64);
                        if il / 64 == word_index {
                            assert(has_bit(word, (il % 64) as u64));
                        }
                    }
                }
                return Some((level, sibling_index));
            },
            None => {
                proof {
                    assert forall|i: int| #[trigger] member(lv, i) && i > x implies i / pow64(
                        (level + 1) as nat,
                    ) as int > x as int / pow64((level + 1) as nat) as int by {
                        let il = i / pow64(level as nat) as int;
                        lemma_member_sets_bit(lv, level as int, i);
                        lemma_div_step(i, level as nat);
                        lemma_div_step(x as int, level as nat);
                        lemma_fundamental_div_mod(il, 64);
                        lemma_div_is_ordered(level_index as int, il, 64);
                        if il / 64 == word_index {
                            assert(has_bit(word, (il % 64) as u64));
                        }
                    }
                }
            },
        }
        level = level + 1;
    }
    proof {
        assert forall|i: int| #[trigger] member(lv, i) implies i <= x by {
            lemma_pow64_pos(n as nat);
            lemma_multiply_divide_lt(i, pow64(n as nat) as int, 1);
            lemma_div_is_ordered(0, x as int, pow64(n as nat) as int);
            assert(0int / pow64(n as nat) as int == 0);
        }
    }
    None
}

/// The least member in the block `level_index` of level `level`, which is
/// non-empty.
fn get_least_descendant(levels: &Vec<Vec<u64>>, level: usize, level_index: usize) -> (r: usize)
    requires
        tree_ok(words_of(levels@)),
        level < levels@.len(),
        level_index < pow64((levels@.len() - level) as nat),
        word_bit(words_of(levels@)[level as int], level_index as int),
    ensures
        member(words_of(levels@), r as int),
        r as int / pow64(level as nat) as int == level_index,
        forall|i: int| #[trigger]
            member(words_of(levels@), i) && i / pow64(level as nat) as int >= level_index ==> r
                <= i,
{
    let ghost lv = words_of(levels@);
    let n = levels.len();
    let mut k: usize = level;
    let mut j: usize = level_index;
    proof {
        assert(pow64(0) == 1);
        assert(level_index as int / 1 == level_index) by (nonlinear_arith);
    }
    while k > 0
        invariant
            lv == words_of(levels@),
            n == lv.len(),
            tree_ok(lv),
            k <= level < n,
            j < pow64((n - k) as nat),
            word_bit(lv[k as int], j as int),
            j as int / pow64((level - k) as nat) as int == level_index,
            forall|i: int| #[trigger]
                member(lv, i) && i / pow64(level as nat) as int >= level_index ==> i / pow64(
                    k as nat,
                ) as int >= j,
        decreases k,
    {
        proof {
            assert(link(lv, k as int, j as int));
            assert(lv[k - 1].len() == pow64((n - k) as nat));
        }
        let word = levels[k - 1][j];
        assert(word == lv[k - 1][j as int]);
        let t = lowest_bit(word);
        let ghost old_j = j;
        proof {
            lemma_pow64_mono((n - (k - 1)) as nat, 5);
            reveal_with_fuel(pow64, 6);
            assert(pow64((n - (k - 1)) as nat) == 64 * pow64((n - k) as nat));
            assert(64 * j + t < pow64((n - (k - 1)) as nat)) by (nonlinear_arith)
                requires
                    t < 64,
                    j < pow64((n - k) as nat),
                    pow64((n - (k - 1)) as nat) == 64 * pow64((n - k) as nat),
            ;
        }
        j = j * 64 + t;
        proof {
            lemma_split(old_j as int, t as int);
            let m = (level - k) as nat;
            lemma_pow64_pos(m);
            lemma_div_denominator(j as int, 64, pow64(m) as int);
            assert(pow64(m + 1) == 64 * pow64(m));
            assert((level - (k - 1)) as nat == m + 1);
            assert forall|i: int| #[trigger]
                member(lv, i) && i / pow64(level as nat) as int >= level_index implies i / pow64(
                (k - 1) as nat,
            ) as int >= j by {
                let il = i / pow64((k - 1) as nat) as int;
                lemma_div_step(i, (k - 1) as nat);
                lemma_fundamental_div_mod(il, 64);
                lemma_member_sets_bit(lv, k - 1, i);
                if il / 64 == old_j {
                    assert(has_bit(word, (il % 64) as u64));
                }
            }
        }
        k = k - 1;
    }
    proof {
        assert forall|i: int| #[trigger]
            member(lv, i) && i / pow64(level as nat) as int >= level_index implies j <= i by {
            assert(i / 1 == i) by (nonlinear_arith);
        }
    }
    j
}

/// The least member strictly above `x`, if any.
pub fn find_successor(tree: &SuccinctSet, x: usize) -> (r: Option<usize>)
    requires
        tree.wf(),
        x < pow64(tree.height()),
    ensures
        is_successor(tree.members(), x as int, r),
{
    let ghost lv = words_of(tree.levels@);
    match find_ancestor_sibling(&tree.levels, x) {
        None => {
            assert forall|i: int| #[trigger] tree.members().contains(i) implies i <= x by {
                assert(member(lv, i));
            }
            None
        },
        Some((level, index)) => {
            let r = get_least_descendant(&tree.levels, level, index);
            proof {
                lemma_pow64_pos(level as nat);
                if r <= x {
                    lemma_div_is_ordered(r as int, x as int, pow64(level as nat) as int);
                }
                assert forall|i: int| #[trigger]
                    tree.members().contains(i) && x < i implies r <= i by {
                    assert(member(lv, i));
                }
            }
            Some(r)
        },
    }
}

impl SuccintTree for SuccinctSet {
    closed spec fn wf(&self) -> bool {
        tree_ok(words_of(self.levels@))
    }

    closed spec fn height(&self) -> nat {
        self.levels@.len()
    }

    closed spec fn members(&self) -> Set<int> {
        Set::new(|i: int| member(words_of(self.levels@), i))
    }

    closed spec fn level_words(&self) -> Seq<Seq<u64>> {
        words_of(self.levels@)
    }

    fn get_levels(&self) -> (r: &Vec<Vec<u64>>) {
        &self.levels
    }

    fn new(capacity: u32) -> (r: Self) {
        let cap = capacity as usize;
        let mut height: usize = 1;
        let mut universe: usize = 64;
        proof {
            reveal_with_fuel(pow64, 6);
        }
        while universe < cap
            invariant
                1 <= height <= 5,
                universe == pow64(height as nat),
                cap == capacity,
                cap <= 0x4000_0000,
                height == 1 || pow64((height - 1) as nat) < cap,
                pow64(4) == 0x100_0000,
                pow64(5) == 0x4000_0000,
            decreases 5 - height,
        {
            proof {
                lemma_pow64_mono(height as nat, 4);
            }
            universe = universe * 64;
            height = height + 1;
        }
        let mut levels: Vec<Vec<u64>> = Vec::new();
        let mut words: usize = universe / 64;
        proof {
            assert(pow64(height as nat) == 64 * pow64((height - 1) as nat));
            lemma_split(pow64((height - 1) as nat) as int, 0);
        }
        let mut d: usize = 0;
        while d < height
            invariant
                d <= height <= 5,
                levels@.len() == d,
                d < height ==> words == pow64((height - 1 - d) as nat),
                forall|k: int|
                    0 <= k < d ==> #[trigger] levels@[k]@.len() == pow64((height - 1 - k) as nat),
                forall|k: int, w: int|
                    0 <= k < d && 0 <= w < levels@[k]@.len() ==> levels@[k]@[w] == 0,
            decreases height - d,
        {
            levels.push(vec![0u64; words]);
            if d + 1 < height {
                proof {
                    assert(pow64((height - 1 - d) as nat) == 64 * pow64((height - 2 - d) as nat));
                    lemma_split(pow64((height - 2 - d) as nat) as int, 0);
                }
                words = words / 64;
            }
            d = d + 1;
        }
        let r = SuccinctSet { levels };
        proof {
            let lv = words_of(r.levels@);
            assert(shape_ok(lv)) by {
                assert forall|k: int| 0 <= k < lv.len() implies #[trigger] lv[k].len() == pow64(
                    (lv.len() - 1 - k) as nat,
                ) by {
                    assert(levels@[k]@.len() == pow64((height - 1 - k) as nat));
                }
            }
            lemma_zero_tree(lv);
            assert(r.members() =~= Set::<int>::empty());
            let zeros = Seq::new(
                height as nat,
                |k: int| Seq::new(pow64((height - 1 - k) as nat), |w: int| 0u64),
            );
            assert forall|k: int| 0 <= k < height implies #[trigger] lv[k] =~= zeros[k] by {
                assert(levels@[k]@.len() == pow64((height - 1 - k) as nat));
            }
            assert(lv =~= zeros);
        }
        r
    }

    fn insert(&mut self, index: usize) {
        let ghost old_lv = words_of(self.levels@);
        let n = self.levels.len();
        let mut level: usize = 0;
        while level < n
            invariant
                old_lv.len() == n,
                self.levels@.len() == n,
                shape_ok(words_of(self.levels@)),
                tree_ok(old_lv),
                index < pow64(n as nat),
                level <= n,
                level == 0 ==> words_of(self.levels@) == old_lv,
                forall|m: int, j: int|
                    1 <= m < n && 0 <= j < pow64((n - m) as nat) && !(m == level && j == index as int
                        / pow64(m as nat) as int) ==> #[trigger] link(words_of(self.levels@), m, j),
                1 <= level < n ==> words_of(self.levels@)[level - 1][index as int / pow64(level as nat) as int]
                    != 0,
                forall|j: int|
                    0 <= j < pow64(n as nat) ==> word_bit(words_of(self.levels@)[0], j) == (word_bit(
                        old_lv[0],
                        j,
                    ) || (level >= 1 && j == index)),
                old(self).levels@.len() == n,
                words_of(old(self).levels@) == old_lv,
                forall|k: int|
                    0 <= k < n ==> #[trigger] words_of(self.levels@)[k] == if k < level {
                        set_path(old_lv, index as int)[k]
                    } else {
                        old_lv[k]
                    },
            decreases n - level,
        {
            let level_index = calc_level_index(level as u32, index);
            proof {
                lemma_level_index_range(index as int, n as nat, level as nat);
                assert(words_of(self.levels@)[level as int].len() == pow64(
                    (n - 1 - level) as nat,
                ));
            }
            let ghost before = words_of(self.levels@);
            set(&mut self.levels, level, level_index);
            proof {
                assert(before[level as int] == old_lv[level as int]);
                assert(words_of(self.levels@)[level as int] == set_path(old_lv, index as int)[level as int]);
                lemma_insert_step(before, words_of(self.levels@), level as int, index as int);
                if level == 0 {
                    assert(pow64(0) == 1);
                    assert(index as int / 1 == index) by (nonlinear_arith);
                    assert((n - 0) as nat == n as nat);
                }
            }
            level = level + 1;
        }
        proof {
            let lv = words_of(self.levels@);
            assert(lv.len() == n);
            assert forall|i: int| member(lv, i) == (member(old_lv, i) || i == index) by {}
            assert(self.members() =~= old(self).members().insert(index as int));
            assert(lv =~= set_path(old_lv, index as int));
        }
    }

    fn remove(&mut self, index: usize) {
        let ghost old_lv = words_of(self.levels@);
        let n = self.levels.len();
        let mut level: usize = 0;
        while level < n
            invariant
                old_lv.len() == n,
                self.levels@.len() == n,
                shape_ok(words_of(self.levels@)),
                tree_ok(old_lv),
                index < pow64(n as nat),
                level <= n,
                level == 0 ==> words_of(self.levels@) == old_lv,
                forall|m: int, j: int|
                    1 <= m < n && 0 <= j < pow64((n - m) as nat) && !(m == level && j == index as int
                        / pow64(m as nat) as int) ==> #[trigger] link(words_of(self.levels@), m, j),
                1 <= level < n ==> words_of(self.levels@)[level - 1][index as int / pow64(level as nat) as int]
                    == 0,
                forall|j: int|
                    0 <= j < pow64(n as nat) ==> word_bit(words_of(self.levels@)[0], j) == (word_bit(
                        old_lv[0],
                        j,
                    ) && !(level >= 1 && j == index)),
                old(self).levels@.len() == n,
                words_of(old(self).levels@) == old_lv,
                !member(old_lv, index as int) ==> words_of(self.levels@) == old_lv,
            decreases n - level,
        {
            let level_index = calc_level_index(level as u32, index);
            proof {
                lemma_level_index_range(index as int, n as nat, level as nat);
                assert(words_of(self.levels@)[level as int].len() == pow64(
                    (n - 1 - level) as nat,
                ));
            }
            let ghost before = words_of(self.levels@);
            proof {
                if !member(old_lv, index as int) {
                    let li = level_index as int;
                    if level == 0 {
                        assert(pow64(0) == 1);
                        assert(index as int / 1 == index) by (nonlinear_arith);
                    } else {
                        assert(link(old_lv, level as int, li));
                    }
                    assert(!word_bit(before[level as int], li));
                    lemma_clear_absent_bit(before[level as int][li / 64], (li % 64) as u64);
                }
            }
            let word = unset(&mut self.levels, level, level_index);
            proof {
                if !member(old_lv, index as int) {
                    let li = level_index as int;
                    assert(before[level as int].update(li / 64, word) =~= before[level as int]);
                    assert(before.update(level as int, before[level as int]) =~= before);
                }
                lemma_remove_step(before, words_of(self.levels@), level as int, index as int);
                lemma_div_step(index as int, level as nat);
                if level == 0 {
                    assert(pow64(0) == 1);
                    assert(index as int / 1 == index) by (nonlinear_arith);
                    assert((n - 0) as nat == n as nat);
                }
            }
            if word != 0 {
                proof {
                    assert(self.members() =~= old(self).members().remove(index as int));
                }
                return;
            }
            level = level + 1;
        }
        proof {
            assert(self.members() =~= old(self).members().remove(index as int));
        }
    }

    fn range(&self, lower: usize, upper: usize) -> (r: Vec<usize>) {
        let ghost lv = words_of(self.levels@);
        let mut elements: Vec<usize> = Vec::new();
        proof {
            assert(lv[0].len() == pow64((lv.len() - 1) as nat));
            assert(pow64(lv.len()) == 64 * pow64((lv.len() - 1) as nat));
            reveal_with_fuel(pow64, 6);
            lemma_pow64_mono((lv.len() - 1) as nat, 4);
        }
        let universe = self.levels[0].len() * 64;
        if lower >= universe || lower >= upper {
            proof {
                assert forall|i: int| #[trigger]
                    self.members().contains(i) && lower <= i < upper implies elements@.contains(
                    i as usize,
                ) by {
                    assert(member(lv, i));
                }
            }
            return elements;
        }
        let word = self.levels[0][lower / 64];
        let shift = (lower % 64) as u64;
        if (word >> shift) & 1u64 == 1u64 {
            elements.push(lower);
            assert(elements@[0] == lower);
        }
        proof {
            assert(word_bit(lv[0], lower as int) == ((word >> shift) & 1u64 == 1u64));
            assert forall|i: int| #[trigger]
                self.members().contains(i) && lower <= i <= lower implies elements@.contains(
                i as usize,
            ) by {
                assert(member(lv, i));
                assert(elements@[0] == lower);
            }
        }
        let mut x = lower;
        let mut going = true;
        while going
            invariant
                lv == words_of(self.levels@),
                self.wf(),
                universe == pow64(lv.len()),
                lower <= x < universe,
                lower < upper,
                x < upper,
                forall|a: int, b: int| 0 <= a < b < elements@.len() ==> elements@[a] < elements@[b],
                forall|k: int|
                    0 <= k < elements@.len() ==> self.members().contains(#[trigger] elements@[k] as int)
                        && lower <= elements@[k] <= x,
                forall|i: int| #[trigger]
                    self.members().contains(i) && lower <= i <= x ==> elements@.contains(i as usize),
                !going ==> forall|i: int| #[trigger]
                    self.members().contains(i) && lower <= i < upper ==> elements@.contains(
                        i as usize,
                    ),
            decreases universe - x + if going {
                1int
            } else {
                0int
            },
        {
            match find_successor(self, x) {
                None => {
                    going = false;
                },
                Some(s) => {
                    if s >= upper {
                        going = false;
                    } else {
                        let ghost before = elements@;
                        elements.push(s);
                        proof {
                            assert(member(lv, s as int));
                            assert(elements@[elements@.len() - 1] == s);
                            assert forall|i: int| #[trigger]
                                self.members().contains(i) && lower <= i <= s implies elements@.contains(
                                i as usize,
                            ) by {
                                if i <= x {
                                    assert(before.contains(i as usize));
                                    let k = choose|k: int| 0 <= k < before.len() && before[k] == i as usize;
                                    assert(elements@[k] == i as usize);
                                } else {
                                    assert(i == s);
                                }
                            }
                        }
                        x = s;
                    }
                },
            }
        }
        elements
    }

    fn min(&self) -> (r: Option<usize>) {
        let ghost lv = words_of(self.levels@);
        proof {
            assert(lv[0].len() == pow64((lv.len() - 1) as nat));
            lemma_pow64_pos((lv.len() - 1) as nat);
            lemma_pow64_pos(lv.len());
            assert(0int / 64 == 0 && 0int % 64 == 0);
        }
        let word = self.levels[0][0];
        if word & 1u64 == 1u64 {
            proof {
                assert((word >> 0u64) & 1u64 == word & 1u64) by (bit_vector);
                assert(member(lv, 0));
                assert forall|i: int| #[trigger] self.members().contains(i) && -1 < i implies 0
                    <= i by {}
            }
            Some(0)
        } else {
            proof {
                assert((word >> 0u64) & 1u64 == word & 1u64) by (bit_vector);
                assert(!member(lv, 0));
            }
            let r = find_successor(self, 0);
            proof {
                assert forall|i: int| #[trigger] self.members().contains(i) implies i != 0 && i >= 0 by {}
            }
            r
        }
    }
}

} // verus!
