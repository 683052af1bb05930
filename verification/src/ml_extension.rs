//! Dense and sparse multilinear-extension tables: functions on the Boolean
//! hypercube `{0,1}^n`, stored as a full table of `2^n` values or as a list
//! of `(index, value)` entries with absent indices meaning zero.
//!
//! A point's flat index is built most-significant-bit first: coordinate `i`
//! of the point lands in bit `num_vars - 1 - i` of the index. Evaluation and
//! variable-fixing are multilinear: they fold the table one variable at a
//! time (`fold_all`), which on Boolean points agrees with the plain table
//! lookup.

use vstd::prelude::*;
use vstd::arithmetic::power2::{lemma2_to64, lemma_pow2_strictly_increases, lemma_pow2_unfold, pow2};

use crate::field::{bool_val, fmul, fr_order, reduced, vals, Fe};
use crate::protocol::{
    copy_elements, fold_all, fold_table, lemma_fold_all_append, lemma_fold_all_boolean,
    lemma_fold_all_shape,
};

verus! {

// ---------------------------------------------------------------------------
// Indexing the hypercube.
// ---------------------------------------------------------------------------

/// The flat index a Boolean point selects, most-significant-bit first; a
/// non-zero coordinate counts as a one bit.
pub open spec fn bool_index(p: Seq<int>) -> int
    decreases p.len(),
{
    if p.len() == 0 {
        0
    } else {
        2 * bool_index(p.drop_last()) + bool_val(p.last())
    }
}

pub proof fn lemma_pow2_le(a: nat, b: nat)
    requires
        a <= b,
    ensures
        pow2(a) <= pow2(b),
{
    if a < b {
        lemma_pow2_strictly_increases(a, b);
    }
}

pub proof fn lemma_bool_index_bound(p: Seq<int>)
    ensures
        0 <= bool_index(p) < pow2(p.len()),
    decreases p.len(),
{
    lemma2_to64();
    if p.len() > 0 {
        lemma_bool_index_bound(p.drop_last());
        lemma_pow2_unfold(p.len());
    }
}

/// Computes `2^e`.
pub fn pow2_exec(e: usize) -> (r: usize)
    requires
        pow2(e as nat) <= usize::MAX as nat,
    ensures
        r as nat == pow2(e as nat),
{
    let mut r: usize = 1;
    let mut i: usize = 0;
    proof {
        lemma2_to64();
    }
    while i < e
        invariant
            i <= e,
            r as nat == pow2(i as nat),
            pow2(e as nat) <= usize::MAX as nat,
        decreases e - i,
    {
        proof {
            lemma_pow2_unfold((i + 1) as nat);
            lemma_pow2_le((i + 1) as nat, e as nat);
        }
        r = r * 2;
        i = i + 1;
    }
    r
}

// ---------------------------------------------------------------------------
// Dense representation.
// ---------------------------------------------------------------------------

/// A function on `{0,1}^num_vars` stored as its full table of values.
pub struct DenseMLE {
    pub num_vars: usize,
    /// The value at every point of the hypercube; length `2^num_vars`.
    pub evaluations: Vec<Fe>,
}

impl DenseMLE {
    /// The table has exactly `2^num_vars` reduced entries.
    pub open spec fn wf(&self) -> bool {
        &&& self.evaluations@.len() == pow2(self.num_vars as nat)
        &&& self.evaluations@.len() <= usize::MAX
        &&& reduced(vals(self.evaluations@))
    }

    pub fn from_evaluations_vec(num_vars: usize, evaluations: Vec<Fe>) -> (r: DenseMLE)
        requires
            evaluations@.len() == pow2(num_vars as nat),
            reduced(vals(evaluations@)),
        ensures
            r.num_vars == num_vars,
            r.evaluations == evaluations,
            r.wf(),
    {
        let n = evaluations.len();
        DenseMLE { num_vars, evaluations }
    }

    /// Evaluates the multilinear extension of the table at the point: the
    /// unique polynomial of degree at most one in each variable that agrees
    /// with the table on the hypercube, computed by folding out one leading
    /// variable per coordinate. On Boolean points this is the plain table
    /// lookup.
    pub fn evaluate(&self, point: &Vec<Fe>) -> (r: Fe)
        requires
            self.wf(),
            point@.len() == self.num_vars,
        ensures
            r@ == fold_all(vals(self.evaluations@), vals(point@))[0],
            0 <= r@ < fr_order(),
    {
        let n = self.num_vars;
        let mut table = copy_elements(&self.evaluations);
        let mut i: usize = 0;
        proof {
            assert(vals(point@).take(0) =~= Seq::<int>::empty());
            assert(fold_all(vals(self.evaluations@), vals(point@).take(0)) == vals(
                self.evaluations@,
            ));
        }
        while i < n
            invariant
                i <= n,
                self.wf(),
                n == self.num_vars,
                point@.len() == n,
                table@.len() == pow2((n - i) as nat),
                vals(table@) == fold_all(vals(self.evaluations@), vals(point@).take(i as int)),
                reduced(vals(table@)),
            decreases n - i,
        {
            proof {
                lemma_pow2_unfold((n - i) as nat);
                assert(vals(point@).take(i + 1).drop_last() =~= vals(point@).take(i as int));
                assert(vals(point@).take(i + 1).last() == vals(point@)[i as int]);
            }
            table = fold_table(&table, &point[i]);
            i = i + 1;
        }
        proof {
            vstd::arithmetic::power2::lemma_pow2_pos(0);
            assert(vals(point@).take(n as int) =~= vals(point@));
            assert(0 <= vals(table@)[0] < fr_order());
        }
        table[0].clone()
    }

    /// Multiplies every stored value by the scalar, in place.
    pub fn scale(&mut self, scalar: &Fe)
        requires
            old(self).wf(),
        ensures
            final(self).num_vars == old(self).num_vars,
            final(self).wf(),
            final(self).evaluations@.len() == old(self).evaluations@.len(),
            forall|j: int|
                0 <= j < old(self).evaluations@.len() ==> vals(final(self).evaluations@)[j]
                    == fmul(vals(old(self).evaluations@)[j], scalar@),
    {
        let n = self.evaluations.len();
        let mut i: usize = 0;
        while i < n
            invariant
                i <= n,
                n == self.evaluations@.len(),
                self.num_vars == old(self).num_vars,
                self.evaluations@.len() == old(self).evaluations@.len(),
                forall|j: int|
                    i <= j < n ==> vals(self.evaluations@)[j] == vals(
                        old(self).evaluations@,
                    )[j],
                forall|j: int|
                    0 <= j < i ==> vals(self.evaluations@)[j] == fmul(
                        vals(old(self).evaluations@)[j],
                        scalar@,
                    ),
                forall|j: int|
                    0 <= j < n ==> 0 <= #[trigger] vals(self.evaluations@)[j] < fr_order(),
            decreases n - i,
        {
            let ghost pre = self.evaluations@;
            let v = self.evaluations[i].times(scalar);
            self.evaluations[i] = v;
            proof {
                assert(vals(self.evaluations@) =~= vals(pre).update(i as int, v@));
            }
            i = i + 1;
        }
        proof {
            assert(self.evaluations@.len() == pow2(self.num_vars as nat));
        }
    }
}

// ---------------------------------------------------------------------------
// Sparse representation.
// ---------------------------------------------------------------------------

/// The value a sparse entry list assigns to an index: the last entry with
/// that index, or zero when no entry has it.
pub open spec fn sparse_at(entries: Seq<(usize, Fe)>, i: int) -> int
    decreases entries.len(),
{
    if entries.len() == 0 {
        0
    } else if entries.last().0 == i {
        entries.last().1@
    } else {
        sparse_at(entries.drop_last(), i)
    }
}

/// Some entry carries this index.
pub open spec fn has_index(entries: Seq<(usize, Fe)>, i: int) -> bool {
    exists|k: int| 0 <= k < entries.len() && (#[trigger] entries[k]).0 == i
}

/// The full table a sparse function denotes: the entry value at each index,
/// zero where absent.
pub open spec fn sparse_table(s: SparseMLE) -> Seq<int> {
    Seq::new(pow2(s.num_vars as nat), |i: int| sparse_at(s.evaluations@, i))
}

/// Every sparse value read is reduced: an entry value or zero.
pub proof fn lemma_sparse_at_reduced(entries: Seq<(usize, Fe)>, i: int)
    requires
        forall|k: int| 0 <= k < entries.len() ==> 0 <= (#[trigger] entries[k]).1@ < fr_order(),
    ensures
        0 <= sparse_at(entries, i) < fr_order(),
    decreases entries.len(),
{
    if entries.len() > 0 {
        assert(entries[entries.len() - 1] == entries.last());
        assert forall|k: int| 0 <= k < entries.drop_last().len() implies 0 <= (
        #[trigger] entries.drop_last()[k]).1@ < fr_order() by {
            assert(entries.drop_last()[k] == entries[k]);
        }
        lemma_sparse_at_reduced(entries.drop_last(), i);
    }
}

/// A function on `{0,1}^num_vars` stored as a list of `(index, value)`
/// entries; absent indices denote the value zero.
pub struct SparseMLE {
    pub num_vars: usize,
    pub evaluations: Vec<(usize, Fe)>,
}

impl SparseMLE {
    /// Indices are distinct, in range, and the values are reduced.
    pub open spec fn wf(&self) -> bool {
        &&& pow2(self.num_vars as nat) <= usize::MAX as nat
        &&& forall|k: int|
            0 <= k < self.evaluations@.len() ==> ((#[trigger] self.evaluations@[k]).0 as int) < pow2(
                self.num_vars as nat,
            )
        &&& forall|k: int|
            0 <= k < self.evaluations@.len() ==> 0 <= (#[trigger] self.evaluations@[k]).1@
                < fr_order()
        &&& forall|k1: int, k2: int|
            0 <= k1 < self.evaluations@.len() && 0 <= k2 < self.evaluations@.len() && k1 != k2
                ==> (#[trigger] self.evaluations@[k1]).0 != (#[trigger] self.evaluations@[k2]).0
    }
}

impl SparseMLE {
    /// Fixes the leading `fixed.len()` variables of the multilinear
    /// extension to the given field values, folding the function one leading
    /// variable at a time, and keeps the non-zero entries of the remaining
    /// function over the reduced variable set. On Boolean values this keeps
    /// exactly the entries whose leading index bits match.
    pub fn fix_variables(&self, fixed: &Vec<Fe>) -> (r: SparseMLE)
        requires
            self.wf(),
            fixed@.len() <= self.num_vars,
        ensures
            r.num_vars == self.num_vars - fixed@.len(),
            r.wf(),
            forall|j: int|
                0 <= j < pow2(r.num_vars as nat) ==> sparse_at(r.evaluations@, j) == fold_all(
                    sparse_table(*self),
                    vals(fixed@),
                )[j],
    {
        let m = self.num_vars - fixed.len();
        let p = fixed.len();
        let dense = self.to_dense_multilinear_extension();
        let mut table = dense.evaluations;
        let ghost orig = sparse_table(*self);
        proof {
            assert(vals(table@) =~= orig);
            assert(vals(fixed@).take(0) =~= Seq::<int>::empty());
            assert(fold_all(orig, vals(fixed@).take(0)) == orig);
        }
        let mut i: usize = 0;
        while i < p
            invariant
                i <= p,
                p == fixed@.len(),
                p <= self.num_vars,
                orig == sparse_table(*self),
                table@.len() == pow2((self.num_vars - i) as nat),
                vals(table@) == fold_all(orig, vals(fixed@).take(i as int)),
                reduced(vals(table@)),
            decreases p - i,
        {
            proof {
                lemma_pow2_unfold((self.num_vars - i) as nat);
                assert(vals(fixed@).take(i + 1).drop_last() =~= vals(fixed@).take(i as int));
                assert(vals(fixed@).take(i + 1).last() == vals(fixed@)[i as int]);
            }
            table = fold_table(&table, &fixed[i]);
            i = i + 1;
        }
        proof {
            assert(vals(fixed@).take(p as int) =~= vals(fixed@));
        }
        let size_m = table.len();
        let mut out: Vec<(usize, Fe)> = Vec::new();
        let mut k: usize = 0;
        while k < size_m
            invariant
                k <= size_m,
                size_m == table@.len(),
                reduced(vals(table@)),
                forall|t: int| 0 <= t < out@.len() ==> ((#[trigger] out@[t]).0 as int) < k,
                forall|t: int| 0 <= t < out@.len() ==> 0 <= (#[trigger] out@[t]).1@ < fr_order(),
                forall|t1: int, t2: int|
                    0 <= t1 < out@.len() && 0 <= t2 < out@.len() && t1 < t2 ==> (
                    #[trigger] out@[t1]).0 < (#[trigger] out@[t2]).0,
                forall|j: int| 0 <= j < k ==> sparse_at(out@, j) == vals(table@)[j],
            decreases size_m - k,
        {
            if !table[k].is_zero() {
                let v = table[k].clone();
                let ghost pre = out@;
                out.push((k, v));
                proof {
                    assert(out@.drop_last() =~= pre);
                    assert(out@.last() == (k, v));
                    assert(0 <= vals(table@)[k as int] < fr_order());
                    assert forall|j: int| 0 <= j < k + 1 implies sparse_at(out@, j) == vals(
                        table@,
                    )[j] by {
                        if j < k {
                            assert(sparse_at(out@, j) == sparse_at(pre, j));
                        }
                    }
                }
            } else {
                proof {
                    assert(!has_index(out@, k as int)) by {
                        if has_index(out@, k as int) {
                            let w = choose|w: int|
                                0 <= w < out@.len() && (#[trigger] out@[w]).0 == k as int;
                        }
                    }
                    lemma_sparse_at_absent(out@, k as int);
                }
            }
            k = k + 1;
        }
        proof {
            assert(size_m as nat == pow2(m as nat));
            lemma_pow2_le(m as nat, self.num_vars as nat);
        }
        SparseMLE { num_vars: m, evaluations: out }
    }

    /// Materialises the sparse function as a zero-filled dense table with the
    /// present entries written over it.
    pub fn to_dense_multilinear_extension(&self) -> (r: DenseMLE)
        requires
            self.wf(),
        ensures
            r.num_vars == self.num_vars,
            r.wf(),
            forall|j: int|
                0 <= j < pow2(self.num_vars as nat) ==> vals(r.evaluations@)[j] == sparse_at(
                    self.evaluations@,
                    j,
                ),
    {
        let size = pow2_exec(self.num_vars);
        let mut table: Vec<Fe> = Vec::new();
        let mut i: usize = 0;
        while i < size
            invariant
                i <= size,
                table@.len() == i,
                forall|j: int| 0 <= j < i ==> vals(table@)[j] == 0,
            decreases size - i,
        {
            let ghost pre = table@;
            table.push(Fe::zero());
            proof {
                assert(vals(table@) =~= vals(pre).push(0));
            }
            i = i + 1;
        }
        proof {
            assert(self.evaluations@.take(0) =~= Seq::<(usize, Fe)>::empty());
            assert forall|j: int| 0 <= j < size implies sparse_at(
                self.evaluations@.take(0),
                j,
            ) == 0 by {}
        }
        let n = self.evaluations.len();
        let mut k: usize = 0;
        while k < n
            invariant
                k <= n,
                n == self.evaluations@.len(),
                self.wf(),
                size as nat == pow2(self.num_vars as nat),
                table@.len() == size,
                forall|j: int|
                    0 <= j < size ==> vals(table@)[j] == sparse_at(
                        self.evaluations@.take(k as int),
                        j,
                    ),
                forall|j: int|
                    0 <= j < size ==> 0 <= #[trigger] vals(table@)[j] < fr_order(),
            decreases n - k,
        {
            let idx = self.evaluations[k].0;
            let v = self.evaluations[k].1.clone();
            let ghost entries = self.evaluations@;
            let ghost pre = table@;
            table[idx] = v;
            proof {
                assert(vals(table@) =~= vals(pre).update(idx as int, v@));
                assert(entries.take(k + 1).drop_last() =~= entries.take(k as int));
                assert(entries.take(k + 1).last() == entries[k as int]);
            }
            k = k + 1;
        }
        proof {
            assert(self.evaluations@.take(n as int) =~= self.evaluations@);
        }
        DenseMLE { num_vars: self.num_vars, evaluations: table }
    }
}


/// An index carried by no entry reads as zero.
pub proof fn lemma_sparse_at_absent(entries: Seq<(usize, Fe)>, i: int)
    requires
        !has_index(entries, i),
    ensures
        sparse_at(entries, i) == 0,
    decreases entries.len(),
{
    if entries.len() > 0 {
        if entries.last().0 == i {
            assert((entries[entries.len() - 1]).0 == i);
        }
        assert(!has_index(entries.drop_last(), i)) by {
            if has_index(entries.drop_last(), i) {
                let k = choose|k: int|
                    0 <= k < entries.drop_last().len() && (#[trigger] entries.drop_last()[k]).0
                        == i;
                assert((entries[k]).0 == i);
            }
        }
        lemma_sparse_at_absent(entries.drop_last(), i);
    }
}

/// Fix-then-evaluate law: fixing a prefix of the variables to any field
/// values and then evaluating the remaining multilinear extension at any
/// suffix gives the same value as evaluating the original extension at the
/// concatenated point. `g` is any function related to `f` as
/// `fix_variables` ensures; the value is the one `evaluate` returns on the
/// dense form.
pub proof fn lemma_fix_then_evaluate(f: SparseMLE, g: SparseMLE, p: Seq<int>, s: Seq<int>)
    requires
        f.wf(),
        p.len() <= f.num_vars,
        g.num_vars == f.num_vars - p.len(),
        forall|j: int|
            0 <= j < pow2(g.num_vars as nat) ==> sparse_at(g.evaluations@, j) == fold_all(
                sparse_table(f),
                p,
            )[j],
        s.len() == g.num_vars,
    ensures
        fold_all(sparse_table(g), s)[0] == fold_all(sparse_table(f), p + s)[0],
{
    lemma_sparse_table_reduced(f);
    lemma_fold_all_shape(sparse_table(f), p, f.num_vars as nat);
    assert(sparse_table(g) =~= fold_all(sparse_table(f), p));
    lemma_fold_all_append(sparse_table(f), p, s);
}

/// The table a well-formed sparse function denotes is reduced.
pub proof fn lemma_sparse_table_reduced(s: SparseMLE)
    requires
        s.wf(),
    ensures
        reduced(sparse_table(s)),
{
    assert forall|i: int|
        0 <= i < sparse_table(s).len() implies 0 <= #[trigger] sparse_table(s)[i]
        < fr_order() by {
        lemma_sparse_at_reduced(s.evaluations@, i);
    }
}

/// Sparse/dense equivalence law: on every Boolean point, evaluating the
/// dense table a sparse function materialises to reads exactly the sparse
/// value at the point's index.
pub proof fn lemma_sparse_dense_equivalence(s: SparseMLE, d: DenseMLE, point: Seq<int>)
    requires
        d.num_vars == s.num_vars,
        d.wf(),
        forall|j: int|
            0 <= j < pow2(s.num_vars as nat) ==> vals(d.evaluations@)[j] == sparse_at(
                s.evaluations@,
                j,
            ),
        point.len() == s.num_vars,
        forall|i: int| 0 <= i < point.len() ==> point[i] == 0 || point[i] == 1,
    ensures
        fold_all(vals(d.evaluations@), point)[0] == sparse_at(s.evaluations@, bool_index(point)),
{
    lemma_fold_all_boolean(vals(d.evaluations@), point, d.num_vars as nat);
    lemma_bool_index_bound(point);
    lemma2_to64();
    assert(fold_all(vals(d.evaluations@), point)[0] == vals(d.evaluations@)[bool_index(point)
        * pow2(0) + 0]);
}

} // verus!
