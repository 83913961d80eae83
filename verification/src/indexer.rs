use vstd::prelude::*;

verus! {

// ============================================================================
// Bit-level specification functions.
//
// A basis index of an n-qubit register is an integer in [0, 2^n); bit q of
// the index is the classical value of qubit q.  The functions below describe
// how a compacted index over the untouched qubits is widened into a full
// basis index (zeros inserted at the target positions) and how target-bit
// combinations are written into those positions.
// ============================================================================

/// The mask of all bits strictly below position `q`.
pub open spec fn low_mask(q: u64) -> u64 {
    !(u64::MAX << q)
}

/// The value of bit `q` of `x`, as 0 or 1.
pub open spec fn bit_of(x: u64, q: u64) -> u64 {
    (x >> q) & 1
}

/// Insert a zero bit at position `q`: bits of `i` at positions >= q move up
/// one place, bits below stay.
pub open spec fn insert_zero(i: u64, q: u64) -> u64 {
    ((i >> q) << (q + 1) as u64) | (i & low_mask(q))
}

/// Remove bit `q` of `g`: bits above position q move down one place, bits
/// below stay; bit q itself is discarded.
pub open spec fn remove_bit(g: u64, q: u64) -> u64 {
    ((g >> (q + 1) as u64) << q) | (g & low_mask(q))
}

/// Widen a compacted index `i` over the untouched qubits into a full basis
/// index with zero bits at every position of `qs` (`qs` strictly increasing).
pub open spec fn expand(i: u64, qs: Seq<u64>) -> u64
    decreases qs.len(),
{
    if qs.len() == 0 {
        i
    } else {
        expand(insert_zero(i, qs[0]), qs.drop_first())
    }
}

/// Inverse of `expand`: drop the bits of `g` at the positions of `qs`
/// (strictly increasing) and close the gaps.
pub open spec fn compress(g: u64, qs: Seq<u64>) -> u64
    decreases qs.len(),
{
    if qs.len() == 0 {
        g
    } else {
        compress(remove_bit(g, qs.last()), qs.drop_last())
    }
}

/// Scatter the low `qs.len()` bits of `t` to the positions of `qs`:
/// bit (k-1-j) of `t` goes to position qs[j], so the first listed qubit
/// receives the most significant of the `k` combination bits.
pub open spec fn spread(t: u64, qs: Seq<u64>) -> u64
    decreases qs.len(),
{
    if qs.len() == 0 {
        0u64
    } else {
        spread(t >> 1, qs.drop_last()) | ((t & 1) << qs.last())
    }
}

/// Gather the bits of `g` at the positions of `qs` into a `qs.len()`-bit
/// number; inverse of `spread` on the target positions.
pub open spec fn extract(g: u64, qs: Seq<u64>) -> u64
    decreases qs.len(),
{
    if qs.len() == 0 {
        0u64
    } else {
        (extract(g, qs.drop_last()) << 1) | bit_of(g, qs.last())
    }
}

/// The mask holding a one bit at each position of `qs`.
pub open spec fn targets_mask(qs: Seq<u64>) -> u64
    decreases qs.len(),
{
    if qs.len() == 0 {
        0u64
    } else {
        targets_mask(qs.drop_last()) | (1u64 << qs.last())
    }
}

/// All positions are legal bit positions of a 63-bit index space.
pub open spec fn all_below(qs: Seq<u64>, n: u64) -> bool {
    forall|j: int| 0 <= j < qs.len() ==> qs[j] < n
}

/// Strictly increasing (hence sorted and duplicate-free).
pub open spec fn strictly_inc(qs: Seq<u64>) -> bool {
    forall|a: int, b: int| 0 <= a < b < qs.len() ==> qs[a] < qs[b]
}

// ============================================================================
// Single-qubit mask pair and index pair.
// ============================================================================

/// Bit masks isolating the index bits strictly above and strictly below
/// position `qubit` of a 64-bit basis index.
pub fn masks(qubit: u64) -> (r: (u64, u64))
    requires
        qubit < 63,
    ensures
        r.0 == u64::MAX << (qubit + 1) as u64,
        r.1 == !(u64::MAX << qubit),
{
    let upper_mask: u64 = 0xFFFF_FFFF_FFFF_FFFFu64 << (qubit + 1);
    let lower_mask: u64 = !(0xFFFF_FFFF_FFFF_FFFFu64 << qubit);
    (upper_mask, lower_mask)
}

/// The pair of full basis indices that agree with the compacted index
/// `index` on every qubit other than `qubit`, and hold 0 respectively 1
/// at `qubit`.
pub fn indices(index: u64, qubit: u64, upper_mask: u64, lower_mask: u64) -> (r: (u64, u64))
    requires
        qubit < 63,
        upper_mask == u64::MAX << (qubit + 1) as u64,
        lower_mask == !(u64::MAX << qubit),
    ensures
        r.0 == insert_zero(index, qubit),
        r.1 == r.0 | (1u64 << qubit),
{
    let index_zero = ((index << 1) & upper_mask) | (index & lower_mask);
    let index_one = index_zero | (1u64 << qubit);
    proof {
        assert(((index << 1) & (u64::MAX << (qubit + 1) as u64)) | (index & !(u64::MAX << qubit))
            == ((index >> qubit) << (qubit + 1) as u64) | (index & !(u64::MAX << qubit)))
            by (bit_vector)
            requires
                qubit < 63,
        ;
    }
    (index_zero, index_one)
}

// ============================================================================
// Facts about inserting and removing one bit.
// ============================================================================

/// Inserting a zero at `q` leaves bit `q` clear.
pub proof fn lemma_insert_zero_clear(i: u64, q: u64)
    by (bit_vector)
    requires
        q < 63,
    ensures
        insert_zero(i, q) & (1u64 << q) == 0,
{
}

/// Inserting a zero at `q` keeps the index inside a 2^n index space when the
/// compacted index was inside a 2^(n-1) space.
pub proof fn lemma_insert_zero_range(i: u64, q: u64, n: u64)
    by (bit_vector)
    requires
        q < n,
        n <= 63,
        i < (1u64 << (n - 1) as u64),
    ensures
        insert_zero(i, q) < (1u64 << n),
{
}

/// Removing the inserted zero gives the compacted index back.
pub proof fn lemma_remove_insert(i: u64, q: u64)
    by (bit_vector)
    requires
        q < 63,
        i < (1u64 << 63),
    ensures
        remove_bit(insert_zero(i, q), q) == i,
{
}

/// Re-inserting a removed bit restores everything but bit `q` itself.
pub proof fn lemma_insert_remove(g: u64, q: u64)
    by (bit_vector)
    requires
        q < 63,
    ensures
        insert_zero(remove_bit(g, q), q) == g & !(1u64 << q),
{
}

/// Removing a bit keeps the index inside the halved index space.
pub proof fn lemma_remove_bit_range(g: u64, q: u64, n: u64)
    by (bit_vector)
    requires
        q < n,
        n <= 63,
        g < (1u64 << n),
    ensures
        remove_bit(g, q) < (1u64 << (n - 1) as u64),
{
}

/// `remove_bit` distributes over bitwise or.
pub proof fn lemma_remove_bit_or(x: u64, y: u64, q: u64)
    by (bit_vector)
    requires
        q < 63,
    ensures
        remove_bit(x | y, q) == remove_bit(x, q) | remove_bit(y, q),
{
}


// ============================================================================
// Sorting the target list.
//
// `mask_vec` partitions the bit positions by the *sorted* target list; the
// caller-supplied order only decides which combination bit lands on which
// qubit.  The canonical sorted form of a list is `sorted_of`.
// ============================================================================

/// The non-strict order on positions used for sorting.
pub open spec fn le_ord() -> spec_fn(u64, u64) -> bool {
    |a: u64, b: u64| a <= b
}

/// The sorted form of a target list.
pub open spec fn sorted_of(qs: Seq<u64>) -> Seq<u64> {
    qs.sort_by(le_ord())
}

/// `le_ord` is a total ordering, so `sort_by` behaves as a sort.
pub proof fn lemma_le_total_ordering()
    ensures
        vstd::relations::total_ordering(le_ord()),
{
}

/// What `sorted_of` guarantees: same multiset, sorted; with distinct
/// entries it is strictly increasing and stays below any common bound.
pub proof fn lemma_sorted_of_props(qs: Seq<u64>, n: u64)
    requires
        qs.no_duplicates(),
        all_below(qs, n),
    ensures
        sorted_of(qs).to_multiset() =~= qs.to_multiset(),
        sorted_of(qs).len() == qs.len(),
        strictly_inc(sorted_of(qs)),
        all_below(sorted_of(qs), n),
        sorted_of(qs).no_duplicates(),
{
    lemma_le_total_ordering();
    qs.lemma_sort_by_ensures(le_ord());
    let sq = sorted_of(qs);
    broadcast use vstd::seq_lib::group_to_multiset_ensures;
    assert(sq.to_multiset().len() == sq.len());
    assert(qs.to_multiset().len() == qs.len());
    qs.lemma_multiset_has_no_duplicates();
    assert forall|x: u64| sq.to_multiset().contains(x) implies sq.to_multiset().count(x) == 1 by {
        assert(qs.to_multiset().count(x) == sq.to_multiset().count(x));
    }
    sq.lemma_multiset_has_no_duplicates_conv();
    assert forall|a: int, b: int| 0 <= a < b < sq.len() implies sq[a] < sq[b] by {
        assert(vstd::relations::sorted_by(sq, le_ord()));
        assert(le_ord()(sq[a], sq[b]));
        assert(sq[a] != sq[b]);
    }
    assert forall|j: int| 0 <= j < sq.len() implies sq[j] < n by {
        assert(sq.to_multiset().contains(sq[j]));
        assert(qs.to_multiset().contains(sq[j]));
        assert(qs.contains(sq[j]));
    }
}

/// Sorted copy of a target list (insertion sort).
fn sort_qubits(qs: &[u64]) -> (r: Vec<u64>)
    ensures
        r@.to_multiset() =~= qs@.to_multiset(),
        vstd::relations::sorted_by(r@, le_ord()),
        r@ == sorted_of(qs@),
{
    let mut v: Vec<u64> = Vec::new();
    let ghost full = qs@;
    proof {
        assert(qs@.take(0) =~= Seq::<u64>::empty());
        broadcast use vstd::seq_lib::group_to_multiset_ensures;
    }
    for idx in 0..qs.len()
        invariant
            v@.to_multiset() =~= qs@.take(idx as int).to_multiset(),
            vstd::relations::sorted_by(v@, le_ord()),
    {
        let x = qs[idx];
        let mut j: usize = 0;
        while j < v.len() && v[j] <= x
            invariant
                0 <= j <= v@.len(),
                forall|m: int| 0 <= m < j ==> v@[m] <= x,
            decreases v@.len() - j,
        {
            j += 1;
        }
        let ghost old_v = v@;
        v.insert(j, x);
        proof {
            broadcast use vstd::seq_lib::group_to_multiset_ensures;
            vstd::seq_lib::to_multiset_insert(old_v, j as int, x);
            assert(qs@.take(idx + 1) =~= qs@.take(idx as int).push(x));
            assert(qs@.take(idx + 1).to_multiset() =~= qs@.take(idx as int).to_multiset().insert(x));
            old_v.insert_ensures(j as int, x);
            assert forall|a: int, b: int| 0 <= a < b < v@.len() implies le_ord()(v@[a], v@[b]) by {
                let jj = j as int;
                if b < jj {
                    assert(v@[a] == old_v[a] && v@[b] == old_v[b]);
                    assert(le_ord()(old_v[a], old_v[b]));
                } else if a < jj && b == jj {
                    assert(v@[a] == old_v[a] && v@[b] == x);
                } else if a < jj && b > jj {
                    assert(v@[a] == old_v[a] && v@[b] == old_v[b - 1]);
                    assert(le_ord()(old_v[a], old_v[b - 1]));
                } else if a == jj && b > jj {
                    assert(v@[a] == x && v@[b] == old_v[b - 1]);
                    assert(!(old_v[jj] <= x));
                    if jj < b - 1 {
                        assert(le_ord()(old_v[jj], old_v[b - 1]));
                    }
                } else {
                    assert(v@[a] == old_v[a - 1] && v@[b] == old_v[b - 1]);
                    assert(le_ord()(old_v[a - 1], old_v[b - 1]));
                }
            }
        }
    }
    proof {
        assert(qs@.take(qs@.len() as int) =~= qs@);
        lemma_le_total_ordering();
        qs@.lemma_sort_by_ensures(le_ord());
        vstd::seq_lib::lemma_sorted_unique(v@, sorted_of(qs@), le_ord());
    }
    v
}


// ============================================================================
// Small bit-vector facts used by the inductive lemmas below.
// ============================================================================

proof fn lemma_or_below(a: u64, b: u64, p: u64)
    by (bit_vector)
    requires
        p <= 63,
        a < (1u64 << p),
        b < (1u64 << p),
    ensures
        (a | b) < (1u64 << p),
{
}

proof fn lemma_bit_basics(x: u64, p: u64)
    by (bit_vector)
    requires
        p <= 63,
    ensures
        x & 0 == 0,
        x & !0u64 == x,
        x | 0 == x,
        0u64 | x == x,
        x >> 0u64 == x,
        0u64 < (1u64 << p),
        0u64 & (1u64 << p) == 0,
        x & !0u64 == 0 ==> x == 0,
{
}

proof fn lemma_and_zero_or(a: u64, m1: u64, m2: u64)
    by (bit_vector)
    ensures
        a & (m1 | m2) == 0 <==> (a & m1 == 0 && a & m2 == 0),
{
}

proof fn lemma_insert_keep_zero(x: u64, m: u64, q: u64)
    by (bit_vector)
    requires
        q < 63,
        x & m == 0,
        m < (1u64 << q),
    ensures
        insert_zero(x, q) & m == 0,
{
}

proof fn lemma_insert_zero_and_not(x: u64, m: u64, q: u64)
    by (bit_vector)
    requires
        q < 63,
        m < (1u64 << q),
    ensures
        insert_zero(x & !m, q) == insert_zero(x, q) & !m,
{
}

proof fn lemma_remove_low_in(s: u64, m: u64, p: u64)
    by (bit_vector)
    requires
        p < 63,
        s & !(m | (1u64 << p)) == 0,
        m < (1u64 << p),
    ensures
        remove_bit(s, p) & !m == 0,
{
}

// ============================================================================
// Inserting several zeros: `expand` and its inverse.
// ============================================================================

/// Unrolling `expand` from the other end: the highest position is
/// inserted last.
pub proof fn lemma_expand_snoc(i: u64, qs: Seq<u64>, p: u64)
    ensures
        expand(i, qs.push(p)) == insert_zero(expand(i, qs), p),
    decreases qs.len(),
{
    let qsp = qs.push(p);
    if qs.len() == 0 {
        assert(qsp[0] == p);
        assert(qsp.drop_first() =~= Seq::<u64>::empty());
        assert(expand(i, qsp) == expand(insert_zero(i, p), qsp.drop_first()));
        assert(expand(insert_zero(i, p), qsp.drop_first()) == insert_zero(i, p));
        assert(expand(i, qs) == i);
    } else {
        let i1 = insert_zero(i, qs[0]);
        assert(qsp[0] == qs[0]);
        assert(qsp.drop_first() =~= qs.drop_first().push(p));
        lemma_expand_snoc(i1, qs.drop_first(), p);
        assert(expand(i, qsp) == expand(i1, qsp.drop_first()));
        assert(expand(i1, qsp.drop_first()) == insert_zero(expand(i1, qs.drop_first()), p));
        assert(expand(i, qs) == expand(i1, qs.drop_first()));
    }
}

/// The targets mask stays below any bound above every listed position.
pub proof fn lemma_targets_mask_below(qs: Seq<u64>, p: u64)
    requires
        p <= 63,
        all_below(qs, p),
    ensures
        targets_mask(qs) < (1u64 << p),
    decreases qs.len(),
{
    if qs.len() == 0 {
        lemma_bit_basics(0u64, p);
    } else {
        let q = qs.last();
        lemma_targets_mask_below(qs.drop_last(), p);
        assert((1u64 << q) < (1u64 << p)) by (bit_vector)
            requires q < p, p <= 63,
        ;
        lemma_or_below(targets_mask(qs.drop_last()), 1u64 << q, p);
    }
}

/// Widening a compacted index: range, inverse, and clear target bits.
pub proof fn lemma_expand_props(i: u64, qs: Seq<u64>, n: u64)
    requires
        strictly_inc(qs),
        all_below(qs, n),
        qs.len() <= n,
        n <= 63,
        i < (1u64 << ((n - qs.len() as u64) as u64)),
    ensures
        expand(i, qs) < (1u64 << n),
        compress(expand(i, qs), qs) == i,
        expand(i, qs) & targets_mask(qs) == 0,
    decreases qs.len(),
{
    if qs.len() == 0 {
        assert(expand(i, qs) == i);
        assert(compress(i, qs) == i);
        lemma_bit_basics(i, 0);
    } else {
        let p = qs.last();
        let qs2 = qs.drop_last();
        assert(qs2.push(p) =~= qs);
        let e2 = expand(i, qs2);
        assert(forall|a: int, b: int| 0 <= a < b < qs2.len() ==> qs2[a] < qs2[b]);
        assert forall|j: int| 0 <= j < qs2.len() implies qs2[j] < (n - 1) as u64 by {
            assert(qs[j] < qs[qs.len() - 1]);
        }
        assert(p < n);
        lemma_expand_props(i, qs2, (n - 1) as u64);
        lemma_expand_snoc(i, qs2, p);
        assert(expand(i, qs) == insert_zero(e2, p));
        // range
        lemma_insert_zero_range(e2, p, n);
        // inverse
        assert((1u64 << ((n - 1) as u64)) <= (1u64 << 63)) by (bit_vector)
            requires n <= 63u64,
        ;
        lemma_remove_insert(e2, p);
        assert(compress(expand(i, qs), qs) == compress(remove_bit(insert_zero(e2, p), p), qs2));
        // clear target bits
        lemma_targets_mask_below(qs2, p);
        lemma_insert_keep_zero(e2, targets_mask(qs2), p);
        lemma_insert_zero_clear(e2, p);
        lemma_and_zero_or(insert_zero(e2, p), targets_mask(qs2), 1u64 << p);
        assert(targets_mask(qs) == targets_mask(qs2) | (1u64 << p));
    }
}

/// Dropping the target bits of a full index: range and inverse direction.
pub proof fn lemma_expand_compress(g: u64, qs: Seq<u64>, n: u64)
    requires
        strictly_inc(qs),
        all_below(qs, n),
        qs.len() <= n,
        n <= 63,
        g < (1u64 << n),
    ensures
        compress(g, qs) < (1u64 << ((n - qs.len() as u64) as u64)),
        expand(compress(g, qs), qs) == g & !targets_mask(qs),
    decreases qs.len(),
{
    if qs.len() == 0 {
        lemma_bit_basics(g, 0);
    } else {
        let p = qs.last();
        let qs2 = qs.drop_last();
        assert(qs2.push(p) =~= qs);
        let g1 = remove_bit(g, p);
        assert(forall|a: int, b: int| 0 <= a < b < qs2.len() ==> qs2[a] < qs2[b]);
        assert forall|j: int| 0 <= j < qs2.len() implies qs2[j] < (n - 1) as u64 by {
            assert(qs[j] < qs[qs.len() - 1]);
        }
        lemma_remove_bit_range(g, p, n);
        lemma_expand_compress(g1, qs2, (n - 1) as u64);
        assert(compress(g, qs) == compress(g1, qs2));
        let c = compress(g, qs);
        lemma_expand_snoc(c, qs2, p);
        assert(expand(c, qs) == insert_zero(expand(c, qs2), p));
        assert(expand(c, qs2) == g1 & !targets_mask(qs2));
        lemma_targets_mask_below(qs2, p);
        let m2 = targets_mask(qs2);
        lemma_insert_zero_and_not(g1, m2, p);
        lemma_insert_remove(g, p);
        assert(insert_zero(g1 & !m2, p) == (g & !(1u64 << p)) & !m2);
        assert((g & !(1u64 << p)) & !m2 == g & !(m2 | (1u64 << p))) by (bit_vector);
        assert(targets_mask(qs) == m2 | (1u64 << p));
    }
}

// ============================================================================
// Facts about `spread`, `extract` and the targets mask.
// ============================================================================

/// Scattered combination bits land only on target positions.
pub proof fn lemma_spread_in_targets(t: u64, qs: Seq<u64>)
    requires
        all_below(qs, 64),
    ensures
        spread(t, qs) & !targets_mask(qs) == 0,
    decreases qs.len(),
{
    if qs.len() == 0 {
        lemma_bit_basics(0u64, 0);
    } else {
        let p = qs.last();
        let qs2 = qs.drop_last();
        lemma_spread_in_targets(t >> 1, qs2);
        let s2 = spread(t >> 1, qs2);
        let m2 = targets_mask(qs2);
        assert((s2 | ((t & 1) << p)) & !(m2 | (1u64 << p)) == 0) by (bit_vector)
            requires
                s2 & !m2 == 0,
                p < 64u64,
        ;
    }
}


/// A position carries a one bit of the targets mask exactly when it is
/// listed.
pub proof fn lemma_tm_has_bit(qs: Seq<u64>, p: u64)
    requires
        all_below(qs, 64),
        p < 64,
    ensures
        (targets_mask(qs) & (1u64 << p) != 0) <==> qs.contains(p),
    decreases qs.len(),
{
    if qs.len() == 0 {
        lemma_bit_basics(0u64, p);
    } else {
        let q = qs.last();
        let qs2 = qs.drop_last();
        lemma_tm_has_bit(qs2, p);
        let m2 = targets_mask(qs2);
        assert(((m2 | (1u64 << q)) & (1u64 << p) != 0) <==> (m2 & (1u64 << p) != 0 || q == p))
            by (bit_vector)
            requires
                q < 64u64,
                p < 64u64,
        ;
        if targets_mask(qs) & (1u64 << p) != 0 {
            if m2 & (1u64 << p) != 0 {
                let j = choose|j: int| 0 <= j < qs2.len() && qs2[j] == p;
                assert(qs[j] == p);
            }
            assert(qs.contains(p));
        }
        if qs.contains(p) {
            let j = choose|j: int| 0 <= j < qs.len() && qs[j] == p;
            if j < qs.len() - 1 {
                assert(qs2[j] == p);
                assert(qs2.contains(p));
            } else {
                assert(q == p);
            }
        }
    }
}

/// Removing one listed position removes exactly its bit from the mask.
proof fn lemma_tm_remove(qs: Seq<u64>, j: int)
    requires
        0 <= j < qs.len(),
    ensures
        targets_mask(qs) == targets_mask(qs.remove(j)) | (1u64 << qs[j]),
    decreases qs.len(),
{
    if j == qs.len() - 1 {
        assert(qs.remove(j) =~= qs.drop_last());
    } else {
        let p = qs.last();
        lemma_tm_remove(qs.drop_last(), j);
        assert(qs.remove(j).drop_last() =~= qs.drop_last().remove(j));
        assert(qs.remove(j).last() == p);
        let a = targets_mask(qs.drop_last().remove(j));
        let b = qs[j];
        assert((a | (1u64 << b)) | (1u64 << p) == (a | (1u64 << p)) | (1u64 << b)) by (bit_vector);
    }
}

/// Reordering the target list does not change the targets mask.
pub proof fn lemma_tm_multiset(x: Seq<u64>, y: Seq<u64>)
    requires
        x.to_multiset() == y.to_multiset(),
    ensures
        targets_mask(x) == targets_mask(y),
    decreases x.len(),
{
    broadcast use vstd::seq_lib::group_to_multiset_ensures;
    assert(x.to_multiset().len() == x.len());
    assert(y.to_multiset().len() == y.len());
    if x.len() == 0 {
        assert(y.len() == 0);
    } else {
        let p = x.last();
        assert(x[x.len() - 1] == p);
        assert(x.contains(p));
        assert(x.to_multiset().count(p) > 0);
        assert(y.contains(p));
        let j = choose|j: int| 0 <= j < y.len() && y[j] == p;
        lemma_tm_remove(y, j);
        lemma_tm_remove(x, x.len() - 1);
        assert(x.remove(x.len() - 1) =~= x.drop_last());
        assert(x.drop_last().to_multiset() =~= x.to_multiset().remove(p));
        assert(y.remove(j).to_multiset() =~= y.to_multiset().remove(p));
        lemma_tm_multiset(x.drop_last(), y.remove(j));
    }
}

/// The gathered combination bits fit in `qs.len()` bits.
pub proof fn lemma_extract_range(g: u64, qs: Seq<u64>)
    requires
        qs.len() <= 63,
    ensures
        extract(g, qs) < (1u64 << qs.len() as u64),
    decreases qs.len(),
{
    if qs.len() == 0 {
        lemma_bit_basics(0u64, 0);
    } else {
        let p = qs.last();
        lemma_extract_range(g, qs.drop_last());
        let e2 = extract(g, qs.drop_last());
        let m = (qs.len() - 1) as u64;
        assert(((e2 << 1) | ((g >> p) & 1)) < (1u64 << ((m + 1) as u64))) by (bit_vector)
            requires
                e2 < (1u64 << m),
                m <= 62u64,
        ;
    }
}

/// Gathering after scattering gives the combination back, provided the
/// untouched part carries no target bit.
pub proof fn lemma_extract_spread(x: u64, t: u64, qs: Seq<u64>)
    requires
        qs.no_duplicates(),
        all_below(qs, 64),
        1 <= qs.len() <= 63,
        t < (1u64 << qs.len() as u64),
        x & targets_mask(qs) == 0,
    ensures
        extract(x | spread(t, qs), qs) == t,
    decreases qs.len(),
{
    let p = qs.last();
    let qs2 = qs.drop_last();
    let s2 = spread(t >> 1, qs2);
    let b = (t & 1) << p;
    let m2 = targets_mask(qs2);
    let kk = qs.len() as u64;
    assert(forall|a: int, b2: int| 0 <= a < b2 < qs2.len() ==> qs2[a] != qs2[b2]);
    assert(!qs2.contains(p)) by {
        if qs2.contains(p) {
            let j = choose|j: int| 0 <= j < qs2.len() && qs2[j] == p;
            assert(qs[j] == qs[qs.len() - 1]);
        }
    }
    lemma_tm_has_bit(qs2, p);
    assert(m2 & (1u64 << p) == 0);
    lemma_and_zero_or(x, m2, 1u64 << p);
    assert(x & m2 == 0 && x & (1u64 << p) == 0);
    lemma_spread_in_targets(t >> 1, qs2);
    assert(s2 & (1u64 << p) == 0) by (bit_vector)
        requires
            s2 & !m2 == 0,
            m2 & (1u64 << p) == 0,
    ;
    if qs.len() == 1 {
        assert(qs2.len() == 0);
        assert(s2 == 0);
        assert(t < 2u64) by (bit_vector)
            requires
                t < (1u64 << kk),
                kk == 1u64,
        ;
        assert(extract(x | (s2 | b), qs2) == 0);
        assert(((0u64 << 1) | (((x | (0u64 | b)) >> p) & 1)) == t) by (bit_vector)
            requires
                b == (t & 1) << p,
                x & (1u64 << p) == 0,
                p < 64u64,
                t < 2u64,
        ;
    } else {
        let x2 = x | b;
        assert(x2 & m2 == 0) by (bit_vector)
            requires
                x & m2 == 0,
                b == (t & 1) << p,
                m2 & (1u64 << p) == 0,
                p < 64u64,
                x2 == x | b,
        ;
        assert((t >> 1) < (1u64 << ((kk - 1) as u64))) by (bit_vector)
            requires
                t < (1u64 << kk),
                1 <= kk <= 63u64,
        ;
        lemma_extract_spread(x2, t >> 1, qs2);
        assert(x | (s2 | b) == x2 | s2) by (bit_vector)
            requires
                x2 == x | b,
        ;
        assert(extract(x2 | s2, qs2) == t >> 1);
        let g = x | spread(t, qs);
        assert(g == x2 | s2);
        assert(extract(g, qs) == (extract(g, qs2) << 1) | bit_of(g, p));
        assert(bit_of(x2 | s2, p) == t & 1) by (bit_vector)
            requires
                x2 == x | ((t & 1) << p),
                x & (1u64 << p) == 0,
                s2 & (1u64 << p) == 0,
                p < 64u64,
        ;
        assert((((t >> 1) << 1) | (t & 1)) == t) by (bit_vector);
    }
}

/// Scattering the gathered bits reproduces the index on the target
/// positions.
pub proof fn lemma_spread_extract(g: u64, qs: Seq<u64>)
    requires
        qs.no_duplicates(),
        all_below(qs, 64),
        qs.len() <= 63,
    ensures
        spread(extract(g, qs), qs) == g & targets_mask(qs),
    decreases qs.len(),
{
    if qs.len() == 0 {
        lemma_bit_basics(g, 0);
    } else {
        let p = qs.last();
        let qs2 = qs.drop_last();
        assert(forall|a: int, b2: int| 0 <= a < b2 < qs2.len() ==> qs2[a] != qs2[b2]);
        let t2 = extract(g, qs2);
        let t = extract(g, qs);
        lemma_extract_range(g, qs2);
        let m = (qs.len() - 1) as u64;
        assert(t == (t2 << 1) | bit_of(g, p));
        assert((((t2 << 1) | ((g >> p) & 1)) >> 1) == t2) by (bit_vector)
            requires
                t2 < (1u64 << m),
                m <= 62u64,
        ;
        assert(((t2 << 1) | ((g >> p) & 1)) & 1 == (g >> p) & 1) by (bit_vector);
        lemma_spread_extract(g, qs2);
        let m2 = targets_mask(qs2);
        assert((g & m2) | ((((g >> p) & 1)) << p) == g & (m2 | (1u64 << p))) by (bit_vector)
            requires
                p < 64u64,
        ;
    }
}

/// `compress` ignores bits on target positions.
pub proof fn lemma_compress_or_targets(g: u64, s: u64, qs: Seq<u64>)
    requires
        strictly_inc(qs),
        all_below(qs, 63),
        s & !targets_mask(qs) == 0,
    ensures
        compress(g | s, qs) == compress(g, qs),
    decreases qs.len(),
{
    if qs.len() == 0 {
        lemma_bit_basics(s, 0);
        lemma_bit_basics(g, 0);
    } else {
        let p = qs.last();
        let qs2 = qs.drop_last();
        assert(forall|a: int, b: int| 0 <= a < b < qs2.len() ==> qs2[a] < qs2[b]);
        assert forall|j: int| 0 <= j < qs2.len() implies qs2[j] < p by {
            assert(qs[j] < qs[qs.len() - 1]);
        }
        let m2 = targets_mask(qs2);
        lemma_targets_mask_below(qs2, p);
        lemma_remove_bit_or(g, s, p);
        lemma_remove_low_in(s, m2, p);
        lemma_compress_or_targets(remove_bit(g, p), remove_bit(s, p), qs2);
        assert(compress(g | s, qs) == compress(remove_bit(g, p) | remove_bit(s, p), qs2));
    }
}



// ============================================================================
// The mask runs of a sorted target list, and the shifted-or fold that
// rebuilds an expanded index from them.
// ============================================================================

/// Mask `s` of the partition: run `0` is everything above the highest
/// target, run `k` everything below the lowest, and run `s` in between is
/// the stretch of positions strictly between two neighbouring targets.
pub open spec fn run_mask_at(sq: Seq<u64>, s: int) -> u64 {
    let k = sq.len() as int;
    if s == 0 {
        u64::MAX << (sq[k - 1] + 1) as u64
    } else if s == k {
        low_mask(sq[0])
    } else {
        (u64::MAX << (sq[k - 1 - s] + 1) as u64) & !(u64::MAX << sq[k - s])
    }
}

/// All `k + 1` run masks of a sorted target list.
pub open spec fn run_masks(sq: Seq<u64>) -> Seq<u64> {
    Seq::new(sq.len() + 1, |s: int| run_mask_at(sq, s))
}

/// The tail of the fold: or of the shifted-and-masked terms from `s` up.
pub open spec fn imask_from(i: u64, sq: Seq<u64>, s: nat) -> u64
    decreases sq.len() + 1 - s,
{
    if s > sq.len() {
        0u64
    } else {
        ((i << (sq.len() - s) as u64) & run_mask_at(sq, s as int)) | imask_from(i, sq, s + 1)
    }
}

/// Every fold tail from `s >= 1` on stays below the target that bounds
/// run `s` from above.
proof fn lemma_imask_range(i: u64, sq: Seq<u64>, s: nat)
    requires
        strictly_inc(sq),
        all_below(sq, 63),
        1 <= s <= sq.len(),
        sq.len() <= 63,
    ensures
        imask_from(i, sq, s) < (1u64 << sq[sq.len() - s]),
    decreases sq.len() + 1 - s,
{
    let k = sq.len() as int;
    let q = sq[k - s];
    if s == sq.len() {
        assert(imask_from(i, sq, s + 1) == 0);
        let y = i << (sq.len() - s) as u64;
        assert((y & !(u64::MAX << q)) | 0u64 < (1u64 << q)) by (bit_vector)
            requires
                q < 63u64,
        ;
    } else {
        lemma_imask_range(i, sq, s + 1);
        let a = sq[k - 1 - s];
        let rest = imask_from(i, sq, s + 1);
        assert(rest < (1u64 << a));
        let y = i << (sq.len() - s) as u64;
        assert(((y & ((u64::MAX << (a + 1) as u64) & !(u64::MAX << q))) | rest) < (1u64 << q))
            by (bit_vector)
            requires
                a < q,
                q < 63u64,
                rest < (1u64 << a),
        ;
    }
}

/// Fold tails from `s >= 2` do not look at the highest target.
proof fn lemma_imask_shift(i: u64, sq: Seq<u64>, s: nat)
    requires
        2 <= s <= sq.len(),
        2 <= sq.len() <= 63,
    ensures
        imask_from(i, sq, s) == imask_from(i, sq.drop_last(), (s - 1) as nat),
    decreases sq.len() + 1 - s,
{
    let k = sq.len() as int;
    let sq2 = sq.drop_last();
    assert(run_mask_at(sq, s as int) == run_mask_at(sq2, s - 1)) by {
        if s < sq.len() {
            assert(sq2[k - 1 - s] == sq[k - 1 - s]);
            assert(sq2[k - s] == sq[k - s]);
        } else {
            assert(sq2[0] == sq[0]);
        }
    }
    if s == sq.len() {
        assert(imask_from(i, sq, s + 1) == 0);
        assert(imask_from(i, sq2, s) == 0);
    } else {
        lemma_imask_shift(i, sq, s + 1);
    }
}

/// The fold over the run masks is exactly the widened compacted index.
#[verifier::rlimit(100)]
proof fn lemma_imask_expand(i: u64, sq: Seq<u64>, n: u64)
    requires
        strictly_inc(sq),
        all_below(sq, n),
        1 <= sq.len() <= n,
        n <= 63,
        i < (1u64 << ((n - sq.len() as u64) as u64)),
    ensures
        imask_from(i, sq, 0) == expand(i, sq),
    decreases sq.len(),
{
    let k = sq.len() as int;
    if sq.len() == 1 {
        let q = sq[0];
        assert(imask_from(i, sq, 2) == 0);
        assert(imask_from(i, sq, 1) == ((i << 0u64) & low_mask(q)) | 0u64);
        assert(imask_from(i, sq, 0) == ((i << 1u64) & (u64::MAX << (q + 1) as u64))
            | (((i << 0u64) & !(u64::MAX << q)) | 0u64));
        assert(((i << 1u64) & (u64::MAX << (q + 1) as u64)) | (((i << 0u64) & !(u64::MAX << q))
            | 0u64) == ((i >> q) << (q + 1) as u64) | (i & !(u64::MAX << q))) by (bit_vector)
            requires
                q < 63u64,
        ;
        assert(sq.drop_first() =~= Seq::<u64>::empty());
        assert(expand(i, sq) == expand(insert_zero(i, q), sq.drop_first()));
        assert(expand(insert_zero(i, q), sq.drop_first()) == insert_zero(i, q));
    } else {
        let p = sq.last();
        let sq2 = sq.drop_last();
        assert(sq2.push(p) =~= sq);
        assert(forall|a: int, b: int| 0 <= a < b < sq2.len() ==> sq2[a] < sq2[b]);
        assert forall|j: int| 0 <= j < sq2.len() implies sq2[j] < n by {
            assert(sq[j] < sq[k - 1]);
        }
        let a = sq[k - 2];
        assert(a < p);
        lemma_imask_shift(i, sq, 2);
        lemma_imask_range(i, sq2, 1);
        assert(sq2[sq2.len() - 1] == a);
        let r = imask_from(i, sq2, 1);
        assert(imask_from(i, sq, 2) == r);
        let m = sq.len() as u64;
        assert(imask_from(i, sq, 1) == ((i << (m - 1) as u64) & ((u64::MAX << (a + 1) as u64)
            & !(u64::MAX << p))) | r);
        assert(imask_from(i, sq, 0) == ((i << m) & (u64::MAX << (p + 1) as u64))
            | imask_from(i, sq, 1));
        assert(imask_from(i, sq2, 0) == ((i << (m - 1) as u64) & (u64::MAX << (a + 1) as u64))
            | r);
        let x = imask_from(i, sq2, 0);
        assert(((i << m) & (u64::MAX << (p + 1) as u64)) | (((i << (m - 1) as u64)
            & ((u64::MAX << (a + 1) as u64) & !(u64::MAX << p))) | r)
            == ((x >> p) << (p + 1) as u64) | (x & low_mask(p))) by (bit_vector)
            requires
                a < p,
                p < 63u64,
                2 <= m <= 63u64,
                r < (1u64 << a),
                x == ((i << (m - 1) as u64) & (u64::MAX << (a + 1) as u64)) | r,
        ;
        assert(imask_from(i, sq, 0) == insert_zero(x, p));
        assert(sq2.len() as u64 == m - 1);
        assert((1u64 << ((n - m) as u64)) <= (1u64 << ((n - (m - 1) as u64) as u64)))
            by (bit_vector)
            requires
                n <= 63u64,
                2 <= m <= n,
        ;
        lemma_imask_expand(i, sq2, n);
        lemma_expand_snoc(i, sq2, p);
    }
}

// ============================================================================
// The mask list and index list.
// ============================================================================

/// The run masks of the (sorted) target list, highest run first, as the
/// in-place gate application consumes them.
pub fn mask_vec(qubits: &[u64]) -> (r: Vec<u64>)
    requires
        1 <= qubits@.len() <= 63,
        qubits@.no_duplicates(),
        all_below(qubits@, 63),
    ensures
        r@ == run_masks(sorted_of(qubits@)),
        r@.len() == qubits@.len() + 1,
{
    proof {
        lemma_sorted_of_props(qubits@, 63);
    }
    let sorted = sort_qubits(qubits);
    let k = sorted.len();
    let mut m: Vec<u64> = Vec::new();
    m.push(0xFFFF_FFFF_FFFF_FFFFu64 << (sorted[k - 1] + 1));
    let mut s: usize = 1;
    while s < k
        invariant
            1 <= s <= k,
            k == sorted@.len(),
            1 <= k <= 63,
            sorted@ == sorted_of(qubits@),
            strictly_inc(sorted@),
            all_below(sorted@, 63),
            m@.len() == s,
            forall|j: int| 0 <= j < s ==> m@[j] == run_mask_at(sorted@, j),
        decreases k - s,
    {
        m.push((0xFFFF_FFFF_FFFF_FFFFu64 << (sorted[k - 1 - s] + 1))
            & !(0xFFFF_FFFF_FFFF_FFFFu64 << sorted[k - s]));
        s += 1;
    }
    m.push(!(0xFFFF_FFFF_FFFF_FFFFu64 << sorted[0]));
    proof {
        let sq = sorted_of(qubits@);
        assert(m@.len() == run_masks(sq).len());
        assert forall|j: int| 0 <= j < m@.len() implies m@[j] == run_masks(sq)[j] by {
            if j < sq.len() {
            } else {
                assert(m@[j] == !(u64::MAX << sq[0]));
            }
        }
        assert(m@ =~= run_masks(sq));
    }
    m
}

/// The list of the `2^dim` basis indices obtained from the compacted index
/// `index` by writing every combination of target-bit values into the
/// target positions; entry `t` places bit `dim-1-j` of `t` on `qubits[j]`.
pub fn index_vec(index: u64, qubits: &[u64], mask: &[u64], dim: usize) -> (r: Vec<u64>)
    requires
        dim == qubits@.len(),
        1 <= dim <= 62,
        qubits@.no_duplicates(),
        all_below(qubits@, 63),
        mask@ == run_masks(sorted_of(qubits@)),
        index < (1u64 << ((63 - dim as u64) as u64)),
    ensures
        r@.len() == (1u64 << dim as u64) as int,
        forall|t: int| 0 <= t < r@.len() ==> r@[t] == (expand(index, sorted_of(qubits@))
            | spread(t as u64, qubits@)),
{
    proof {
        lemma_sorted_of_props(qubits@, 63);
        lemma_imask_expand(index, sorted_of(qubits@), 63);
    }
    let ghost sq = sorted_of(qubits@);
    let mut s: usize = dim + 1;
    let mut imask: u64 = 0;
    while s > 0
        invariant
            s <= dim + 1,
            dim == qubits@.len(),
            dim <= 62,
            mask@ == run_masks(sq),
            sq.len() == dim,
            imask == imask_from(index, sq, s as nat),
        decreases s,
    {
        s -= 1;
        imask = ((index << (dim - s) as u64) & mask[s]) | imask;
    }
    assert(imask == expand(index, sq));
    let count: u64 = 1u64 << (dim as u64);
    let mut r: Vec<u64> = Vec::new();
    let mut t: u64 = 0;
    while t < count
        invariant
            t <= count,
            count == 1u64 << (dim as u64),
            dim == qubits@.len(),
            1 <= dim <= 62,
            all_below(qubits@, 63),
            imask == expand(index, sq),
            r@.len() == t as int,
            forall|tt: int| 0 <= tt < t as int ==> r@[tt] == (expand(index, sq)
                | spread(tt as u64, qubits@)),
        decreases count - t,
    {
        let mut g: u64 = imask;
        let mut j: usize = 0;
        proof {
            assert(qubits@.take(0) =~= Seq::<u64>::empty());
            assert(spread(t >> (dim as u64), qubits@.take(0)) == 0);
            lemma_bit_basics(imask, 0);
        }
        while j < dim
            invariant
                j <= dim,
                dim == qubits@.len(),
                1 <= dim <= 62,
                all_below(qubits@, 63),
                g == (imask | spread(t >> ((dim - j) as u64), qubits@.take(j as int))),
            decreases dim - j,
        {
            let ghost g_old = g;
            let ghost part = spread(t >> ((dim - j) as u64), qubits@.take(j as int));
            g = g | (((t >> (dim - 1 - j) as u64) & 1) << qubits[j]);
            proof {
                let q = qubits@[j as int];
                assert(qubits@.take(j + 1).drop_last() =~= qubits@.take(j as int));
                assert(qubits@.take(j + 1).last() == q);
                let sh = (dim - 1 - j) as u64;
                assert(spread(t >> sh, qubits@.take(j + 1)) == (spread((t >> sh) >> 1,
                    qubits@.take(j as int)) | (((t >> sh) & 1) << q)));
                assert((t >> sh) >> 1 == t >> ((sh + 1) as u64)) by (bit_vector)
                    requires
                        sh <= 62u64,
                ;
                assert((imask | part) | (((t >> sh) & 1) << q) == imask | (part | (((t >> sh) & 1)
                    << q))) by (bit_vector);
            }
            j += 1;
        }
        proof {
            assert(qubits@.take(dim as int) =~= qubits@);
            lemma_bit_basics(t, 0);
        }
        r.push(g);
        t += 1;
        assert(t <= count);
    }
    r
}

// ============================================================================
// The partition property: across the sweep of compacted indices, the index
// lists are pairwise disjoint and together cover the whole index space.
// ============================================================================

/// The index pair of a single qubit is exactly the two-entry index list of
/// the one-element target list, for every register size, qubit and sweep
/// position.
pub proof fn lemma_single_qubit_pair(i: u64, q: u64)
    requires
        q < 63,
    ensures
        expand(i, sorted_of(seq![q])) | spread(0, seq![q]) == insert_zero(i, q),
        expand(i, sorted_of(seq![q])) | spread(1, seq![q]) == insert_zero(i, q) | (1u64 << q),
{
    broadcast use vstd::seq_lib::group_to_multiset_ensures;
    lemma_sorted_of_props(seq![q], 63);
    let sq = sorted_of(seq![q]);
    assert(sq.to_multiset() =~= seq![q].to_multiset());
    assert(sq.len() == 1);
    assert(sq.contains(sq[0]));
    assert(sq.to_multiset().count(sq[0]) > 0);
    assert(seq![q].to_multiset().count(sq[0]) > 0);
    assert(seq![q].contains(sq[0]));
    assert(seq![q][0] == q);
    assert(sq[0] == q);
    assert(sq =~= seq![q]);
    assert(sq.drop_first() =~= Seq::<u64>::empty());
    assert(expand(i, sq) == expand(insert_zero(i, q), sq.drop_first()));
    assert(expand(i, sq) == insert_zero(i, q));
    assert(seq![q].drop_last() =~= Seq::<u64>::empty());
    let e = insert_zero(i, q);
    assert(seq![q].last() == q);
    assert(spread(0u64, seq![q]) == spread(0u64 >> 1, seq![q].drop_last()) | ((0u64 & 1) << q));
    assert(spread(0u64 >> 1, seq![q].drop_last()) == 0u64);
    assert(spread(1u64, seq![q]) == spread(1u64 >> 1, seq![q].drop_last()) | ((1u64 & 1) << q));
    assert(spread(1u64 >> 1, seq![q].drop_last()) == 0u64);
    assert(spread(0, seq![q]) == 0u64 | ((0u64 & 1) << q));
    assert(spread(1, seq![q]) == 0u64 | ((1u64 & 1) << q));
    assert(e | (0u64 | ((0u64 & 1) << q)) == e && e | (0u64 | ((1u64 & 1) << q)) == e | (1u64
        << q)) by (bit_vector);
}

/// Coverage: every basis index below 2^n is produced, at the sweep position
/// given by `compress` and the list entry given by `extract`.
pub proof fn lemma_index_cover(qs: Seq<u64>, n: u64, g: u64)
    requires
        qs.no_duplicates(),
        all_below(qs, n),
        1 <= qs.len() <= n,
        n <= 63,
        g < (1u64 << n),
    ensures
        compress(g, sorted_of(qs)) < (1u64 << ((n - qs.len() as u64) as u64)),
        extract(g, qs) < (1u64 << qs.len() as u64),
        g == expand(compress(g, sorted_of(qs)), sorted_of(qs)) | spread(extract(g, qs), qs),
{
    let sq = sorted_of(qs);
    lemma_sorted_of_props(qs, n);
    lemma_expand_compress(g, sq, n);
    lemma_spread_extract(g, qs);
    lemma_extract_range(g, qs);
    lemma_tm_multiset(sq, qs);
    let m = targets_mask(qs);
    assert((g & !m) | (g & m) == g) by (bit_vector);
}

/// Disjointness: two equal produced indices can only come from the same
/// sweep position and the same list entry.
pub proof fn lemma_index_disjoint(qs: Seq<u64>, n: u64, i1: u64, t1: u64, i2: u64, t2: u64)
    requires
        qs.no_duplicates(),
        all_below(qs, n),
        1 <= qs.len() <= n,
        n <= 63,
        i1 < (1u64 << ((n - qs.len() as u64) as u64)),
        i2 < (1u64 << ((n - qs.len() as u64) as u64)),
        t1 < (1u64 << qs.len() as u64),
        t2 < (1u64 << qs.len() as u64),
        expand(i1, sorted_of(qs)) | spread(t1, qs) == expand(i2, sorted_of(qs)) | spread(t2, qs),
    ensures
        i1 == i2,
        t1 == t2,
{
    let sq = sorted_of(qs);
    lemma_sorted_of_props(qs, n);
    lemma_tm_multiset(sq, qs);
    lemma_expand_props(i1, sq, n);
    lemma_expand_props(i2, sq, n);
    lemma_spread_in_targets(t1, qs);
    lemma_spread_in_targets(t2, qs);
    let m = targets_mask(qs);
    assert(spread(t1, qs) & !m == 0 && spread(t2, qs) & !m == 0);
    lemma_compress_or_targets(expand(i1, sq), spread(t1, qs), sq);
    lemma_compress_or_targets(expand(i2, sq), spread(t2, qs), sq);
    lemma_extract_spread(expand(i1, sq), t1, qs);
    lemma_extract_spread(expand(i2, sq), t2, qs);
}

} // verus!
