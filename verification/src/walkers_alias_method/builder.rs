//! Builds an alias table out of a vector of weights.

use vstd::prelude::*;

use crate::walkers_alias_method::table::WalkerTable;

verus! {

/// Builder of a [`WalkerTable`], holding the weights of the output indexes.
pub struct WalkerTableBuilder {
    index_weights: Vec<u32>,
}

/// The sum of a sequence of weights.
pub open spec fn weight_sum(s: Seq<u32>) -> int
    decreases s.len(),
{
    if s.len() == 0 {
        0
    } else {
        weight_sum(s.drop_last()) + s.last()
    }
}

/// The weight that the worklist entries of `s` assign to index `k`.
spec fn entry_weight(s: Seq<(usize, u32)>, k: int) -> int
    decreases s.len(),
{
    if s.len() == 0 {
        0
    } else {
        entry_weight(s.drop_last(), k) + (if s.last().0 == k {
            s.last().1 as int
        } else {
            0int
        })
    }
}

/// The total weight held by the worklist entries of `s`.
spec fn entries_total(s: Seq<(usize, u32)>) -> int
    decreases s.len(),
{
    if s.len() == 0 {
        0
    } else {
        entries_total(s.drop_last()) + s.last().1
    }
}

/// The draw weight that the first `j` slots alias over to index `k`.
spec fn alias_inflow(al: Seq<u32>, th: Seq<u32>, k: int, j: int) -> int
    decreases j,
{
    if j <= 0 {
        0
    } else {
        alias_inflow(al, th, k, j - 1) + (if al[j - 1] == k {
            th[j - 1] as int
        } else {
            0int
        })
    }
}

/// The weights after the builder's rescale: each multiplied by the sum of
/// all weights and by their number.
pub open spec fn rescaled_weights(w: Seq<u32>) -> Seq<u32> {
    Seq::new(w.len(), |i: int| (w[i] * weight_sum(w) * w.len()) as u32)
}

/// The below-mean worklist: every index whose weight is at most the mean,
/// with its weight, in index order.
pub open spec fn below_entries(w: Seq<u32>, mean: int) -> Seq<(usize, u32)>
    decreases w.len(),
{
    if w.len() == 0 {
        Seq::empty()
    } else {
        below_entries(w.drop_last(), mean) + (if w.last() <= mean {
            seq![(((w.len() - 1) as usize), w.last())]
        } else {
            Seq::empty()
        })
    }
}

/// The above-mean worklist: every index whose weight exceeds the mean,
/// with its weight, in index order.
pub open spec fn above_entries(w: Seq<u32>, mean: int) -> Seq<(usize, u32)>
    decreases w.len(),
{
    if w.len() == 0 {
        Seq::empty()
    } else {
        above_entries(w.drop_last(), mean) + (if w.last() > mean {
            seq![(((w.len() - 1) as usize), w.last())]
        } else {
            Seq::empty()
        })
    }
}

/// One table column of zeroes, one slot per weight.
pub open spec fn zero_columns(n: nat) -> Seq<u32> {
    Seq::new(n, |i: int| 0u32)
}

/// The walk of Walker's method over the two worklists: while below-mean
/// entries remain, the last one is taken out and its slot filled — from
/// the last above-mean entry where one exists, whose remainder rejoins
/// the fitting worklist, and from the entry's own weight otherwise.
pub open spec fn walk(
    below: Seq<(usize, u32)>,
    above: Seq<(usize, u32)>,
    aliases: Seq<u32>,
    tholds: Seq<u32>,
    mean: u32,
) -> (Seq<u32>, Seq<u32>)
    decreases below.len() + above.len(),
{
    if below.len() == 0 {
        (aliases, tholds)
    } else {
        let b = below.last();
        let below1 = below.drop_last();
        if above.len() == 0 {
            walk(
                below1,
                above,
                aliases.update(b.0 as int, b.0 as u32),
                tholds.update(b.0 as int, b.1),
                mean,
            )
        } else {
            let a = above.last();
            let above1 = above.drop_last();
            let diff = (mean - b.1) as u32;
            let rem = (a.1 - diff) as u32;
            let aliases2 = aliases.update(b.0 as int, a.0 as u32);
            let tholds2 = tholds.update(b.0 as int, diff);
            if rem <= mean {
                walk(below1.push((a.0, rem)), above1, aliases2, tholds2, mean)
            } else {
                walk(below1, above1.push((a.0, rem)), aliases2, tholds2, mean)
            }
        }
    }
}

/// The two columns of the alias table that the builder computes for the
/// held weights: the walk of Walker's method over the rescaled weights,
/// split at their mean, starting from zeroed columns.
pub open spec fn table_columns(w: Seq<u32>) -> (Seq<u32>, Seq<u32>) {
    let rescaled = rescaled_weights(w);
    let mean = weight_sum(rescaled) / (w.len() as int);
    walk(
        below_entries(rescaled, mean),
        above_entries(rescaled, mean),
        zero_columns(w.len()),
        zero_columns(w.len()),
        mean as u32,
    )
}

pub proof fn lemma_weight_sum_take_step(s: Seq<u32>, i: int)
    requires
        0 <= i < s.len(),
    ensures
        weight_sum(s.take(i + 1)) == weight_sum(s.take(i)) + s[i],
{
    assert(s.take(i + 1).drop_last() =~= s.take(i));
    assert(s.take(i + 1).last() == s[i]);
}

pub proof fn lemma_weight_sum_take_le(s: Seq<u32>, i: int)
    requires
        0 <= i <= s.len(),
    ensures
        weight_sum(s.take(i)) <= weight_sum(s),
    decreases s.len() - i,
{
    if i == s.len() {
        assert(s.take(i) =~= s);
    } else {
        lemma_weight_sum_take_step(s, i);
        lemma_weight_sum_take_le(s, i + 1);
    }
}

proof fn lemma_entry_weight_push(s: Seq<(usize, u32)>, p: (usize, u32))
    ensures
        forall|k: int|
            #[trigger] entry_weight(s.push(p), k) == entry_weight(s, k) + (if p.0 == k {
                p.1 as int
            } else {
                0int
            }),
        entries_total(s.push(p)) == entries_total(s) + p.1,
{
    assert(s.push(p).drop_last() =~= s);
    assert(s.push(p).last() == p);
}

proof fn lemma_alias_inflow_zero(al: Seq<u32>, th: Seq<u32>, k: int, j: int)
    requires
        j <= th.len(),
        forall|m: int| 0 <= m < th.len() ==> th[m] == 0,
    ensures
        alias_inflow(al, th, k, j) == 0,
    decreases j,
{
    if j > 0 {
        lemma_alias_inflow_zero(al, th, k, j - 1);
    }
}

proof fn lemma_alias_inflow_update(
    al: Seq<u32>,
    th: Seq<u32>,
    b: int,
    na: u32,
    nt: u32,
    k: int,
    j: int,
)
    requires
        al.len() == th.len(),
        0 <= b < al.len(),
        j <= al.len(),
    ensures
        alias_inflow(al.update(b, na), th.update(b, nt), k, j) == alias_inflow(al, th, k, j) + (
        if b < j {
            (if na == k {
                nt as int
            } else {
                0int
            }) - (if al[b] == k {
                th[b] as int
            } else {
                0int
            })
        } else {
            0int
        }),
    decreases j,
{
    if j > 0 {
        lemma_alias_inflow_update(al, th, b, na, nt, k, j - 1);
    }
}

proof fn lemma_entries_total_le(s: Seq<(usize, u32)>, m: int)
    requires
        forall|j: int| 0 <= j < s.len() ==> s[j].1 <= m,
    ensures
        entries_total(s) <= s.len() * m,
    decreases s.len(),
{
    if s.len() > 0 {
        lemma_entries_total_le(s.drop_last(), m);
        assert(s.len() * m == (s.len() - 1) * m + m) by (nonlinear_arith);
    }
}

proof fn lemma_entries_total_ge(s: Seq<(usize, u32)>, m: int)
    requires
        forall|j: int| 0 <= j < s.len() ==> s[j].1 > m,
    ensures
        entries_total(s) >= s.len() * (m + 1),
    decreases s.len(),
{
    if s.len() > 0 {
        lemma_entries_total_ge(s.drop_last(), m);
        assert(s.len() * (m + 1) == (s.len() - 1) * (m + 1) + (m + 1)) by (nonlinear_arith);
    }
}

/// Relates the draw chances of a table to the alias inflow of its columns.
proof fn lemma_chances_from_inflow(t: WalkerTable, k: int, j: int)
    requires
        t.aliases@.len() == t.tholds@.len(),
        0 <= k < t.tholds@.len(),
        j <= t.tholds@.len(),
    ensures
        t.chances_upto(k, j) == alias_inflow(t.aliases@, t.tholds@, k, j) + (if k < j {
            t.max_weight - t.tholds@[k]
        } else {
            0int
        }),
    decreases j,
{
    if j > 0 {
        lemma_chances_from_inflow(t, k, j - 1);
    }
}

impl WalkerTableBuilder {
    /// The weights the builder currently holds.
    pub closed spec fn weights(self) -> Seq<u32> {
        self.index_weights@
    }

    /// Creates a new instance of `WalkerTableBuilder`.
    pub fn new(index_weights: Vec<u32>) -> (b: WalkerTableBuilder)
        ensures
            b.weights() == index_weights@,
    {
        WalkerTableBuilder { index_weights }
    }

    /// Builds an alias table for the held weights.
    ///
    /// The weights are first rescaled by `sum * len` to retain fractional
    /// precision in integer arithmetic; the builder keeps the rescaled
    /// weights. The table's columns are exactly the walk of Walker's
    /// method over the rescaled weights ([`table_columns`]), and the table
    /// draws each index `k` with `weights[k] * sum * len` of the
    /// `len * mean` equally likely draw pairs, that is with probability
    /// `weights[k] / sum`.
    ///
    /// All-zero weights build a degenerate table with mean zero, which
    /// offers no draws; rejecting it is left to the drawing side.
    #[verifier::loop_isolation(false)]
    pub fn build(&mut self) -> (t: WalkerTable)
        requires
            old(self).weights().len() > 0,
            old(self).weights().len() <= u32::MAX,
            weight_sum(old(self).weights()) * weight_sum(old(self).weights()) * old(
                self,
            ).weights().len() <= u32::MAX,
        ensures
            t.wf(),
            t.spec_len() == old(self).weights().len(),
            t.max_weight == weight_sum(old(self).weights()) * weight_sum(old(self).weights()),
            t.aliases@ == table_columns(old(self).weights()).0,
            t.tholds@ == table_columns(old(self).weights()).1,
            final(self).weights() == rescaled_weights(old(self).weights()),
            forall|k: int|
                0 <= k < old(self).weights().len() ==> #[trigger] final(self).weights()[k]
                    == old(self).weights()[k] * weight_sum(old(self).weights()) * old(
                    self,
                ).weights().len(),
            forall|k: int|
                0 <= k < old(self).weights().len() ==> #[trigger] t.chances(k) == old(
                    self,
                ).weights()[k] * weight_sum(old(self).weights()) * old(self).weights().len(),
    {
        let ghost w0 = self.index_weights@;
        let ghost s0 = weight_sum(w0);
        let ghost n = w0.len() as int;
        proof {
            lemma_weight_sum_nonneg(w0);
            if s0 > 0 {
                assert(s0 <= s0 * s0 * n) by (nonlinear_arith)
                    requires
                        s0 > 0,
                        n > 0,
                ;
            }
            assert(forall|i: int|
                0 <= i < n ==> #[trigger] w0[i] * s0 * n <= s0 * s0 * n) by {
                assert forall|i: int| 0 <= i < n implies #[trigger] w0[i] * s0 * n <= s0 * s0
                    * n by {
                    lemma_weight_at_most_sum(w0, i);
                    assert(w0[i] * s0 * n <= s0 * s0 * n) by (nonlinear_arith)
                        requires
                            0 <= w0[i] <= s0,
                            n > 0,
                    ;
                }
            }
        }
        let table_len = self.index_weights.len();
        let s = self.sum();

        let mut rescaled: Vec<u32> = Vec::new();
        let mut i: usize = 0;
        while i < table_len
            invariant
                table_len == n,
                i <= n,
                self.index_weights@ == w0,
                s == s0,
                s0 * s0 * n <= u32::MAX,
                forall|j: int| 0 <= j < n ==> #[trigger] w0[j] * s0 * n <= s0 * s0 * n,
                0 <= s0,
                rescaled@.len() == i,
                forall|j: int| 0 <= j < i ==> rescaled@[j] == w0[j] * s0 * n,
                n <= u32::MAX,
            decreases n - i,
        {
            proof {
                lemma_weight_at_most_sum(w0, i as int);
                assert(w0[i as int] * s0 <= s0 * s0) by (nonlinear_arith)
                    requires
                        0 <= w0[i as int] <= s0,
                ;
                assert(s0 * s0 <= s0 * s0 * n) by (nonlinear_arith)
                    requires
                        0 <= s0,
                        n > 0,
                ;
            }
            let v = self.index_weights[i] * s * (table_len as u32);
            proof {
                assert(w0[i as int] * s0 * n >= 0) by (nonlinear_arith)
                    requires
                        0 <= w0[i as int],
                        0 <= s0,
                        0 <= n,
                ;
            }
            rescaled.push(v);
            i = i + 1;
        }
        proof {
            assert(rescaled@ =~= rescaled_weights(w0));
            assert forall|j: int| 0 <= j < n implies #[trigger] rescaled@[j] == w0[j] * (s0
                * n) by {
                assert(w0[j] * s0 * n == w0[j] * (s0 * n)) by (nonlinear_arith);
            }
            lemma_weight_sum_scaled(w0, rescaled@, s0 * n, n);
            assert(s0 * (s0 * n) == (s0 * s0) * n) by (nonlinear_arith);
            assert(s0 * s0 >= 0) by (nonlinear_arith);
            vstd::arithmetic::div_mod::lemma_div_by_multiple(s0 * s0, n);
        }
        self.index_weights = rescaled;
        assert(weight_sum(self.weights()) == (s0 * s0) * n);
        assert(weight_sum(self.weights()) / (self.weights().len() as int) == s0 * s0);

        let (aliases, tholds) = self.calc_table();
        let mean = self.mean();

        let t = WalkerTable::new(aliases, tholds, mean);
        proof {
            assert forall|k: int| 0 <= k < n implies #[trigger] t.chances(k) == w0[k] * s0
                * n by {
                lemma_chances_from_inflow(t, k, n);
                assert(w0[k] * s0 * n == w0[k] * (s0 * n)) by (nonlinear_arith);
            }
            assert(t.aliases@ == table_columns(w0).0 && t.tholds@ == table_columns(w0).1) by {
                assert(rescaled_weights(w0) == self.weights());
            }
        }
        t
    }

    /// The sum of the held weights.
    #[verifier::loop_isolation(false)]
    fn sum(&self) -> (s: u32)
        requires
            weight_sum(self.weights()) <= u32::MAX,
        ensures
            s as int == weight_sum(self.weights()),
    {
        let w = &self.index_weights;
        let mut acc: u32 = 0;
        let mut i: usize = 0;
        while i < w.len()
            invariant
                i <= w@.len(),
                w@ == self.weights(),
                weight_sum(w@) <= u32::MAX,
                acc as int == weight_sum(w@.take(i as int)),
            decreases w@.len() - i,
        {
            proof {
                lemma_weight_sum_take_step(w@, i as int);
                lemma_weight_sum_take_le(w@, i as int + 1);
                lemma_weight_sum_nonneg(w@.take(i as int + 1));
            }
            acc = acc + w[i];
            i = i + 1;
        }
        proof {
            assert(w@.take(w@.len() as int) =~= w@);
        }
        acc
    }

    /// The mean of the held weights, rounded down.
    fn mean(&self) -> (m: u32)
        requires
            self.weights().len() > 0,
            self.weights().len() <= u32::MAX,
            weight_sum(self.weights()) <= u32::MAX,
        ensures
            m as int == weight_sum(self.weights()) / (self.weights().len() as int),
    {
        let s = self.sum();
        s / (self.index_weights.len() as u32)
    }

    /// Splits the indexes with their weights into those at most the mean
    /// (`below`) and those above it (`above`), in index order.
    #[verifier::loop_isolation(false)]
    fn separate_weights(&self) -> (r: (Vec<(usize, u32)>, Vec<(usize, u32)>))
        requires
            self.weights().len() > 0,
            self.weights().len() <= u32::MAX,
            weight_sum(self.weights()) <= u32::MAX,
        ensures
            ({
                let below = r.0@;
                let above = r.1@;
                let w = self.weights();
                let m = weight_sum(w) / (w.len() as int);
                &&& forall|j: int|
                    0 <= j < below.len() ==> (#[trigger] below[j]).1 <= m && below[j].0 < w.len()
                &&& forall|j: int|
                    0 <= j < above.len() ==> (#[trigger] above[j]).1 > m && above[j].0 < w.len()
                &&& forall|j1: int, j2: int|
                    0 <= j1 < below.len() && 0 <= j2 < below.len() && j1 != j2
                        ==> (#[trigger] below[j1]).0 != (#[trigger] below[j2]).0
                &&& forall|j1: int, j2: int|
                    0 <= j1 < above.len() && 0 <= j2 < above.len() && j1 != j2
                        ==> (#[trigger] above[j1]).0 != (#[trigger] above[j2]).0
                &&& forall|j1: int, j2: int|
                    0 <= j1 < below.len() && 0 <= j2 < above.len()
                        ==> (#[trigger] below[j1]).0 != (#[trigger] above[j2]).0
                &&& forall|k: int|
                    0 <= k < w.len() ==> #[trigger] entry_weight(below, k) + entry_weight(above, k)
                        == w[k]
                &&& entries_total(below) + entries_total(above) == weight_sum(w)
                &&& below.len() + above.len() == w.len()
                &&& below == below_entries(w, m)
                &&& above == above_entries(w, m)
            }),
    {
        let ghost w = self.index_weights@;
        let ghost m = weight_sum(w) / (w.len() as int);
        let mean = self.mean();
        let mut below_vec: Vec<(usize, u32)> = Vec::new();
        let mut above_vec: Vec<(usize, u32)> = Vec::new();
        let mut i: usize = 0;
        while i < self.index_weights.len()
            invariant
                i <= w.len(),
                self.weights() == w,
                w.len() > 0,
                weight_sum(w) <= u32::MAX,
                mean as int == m,
                forall|j: int|
                    0 <= j < below_vec@.len() ==> (#[trigger] below_vec@[j]).1 <= m
                        && below_vec@[j].0 < i,
                forall|j: int|
                    0 <= j < above_vec@.len() ==> (#[trigger] above_vec@[j]).1 > m
                        && above_vec@[j].0 < i,
                forall|j1: int, j2: int|
                    0 <= j1 < below_vec@.len() && 0 <= j2 < below_vec@.len() && j1 != j2
                        ==> (#[trigger] below_vec@[j1]).0 != (#[trigger] below_vec@[j2]).0,
                forall|j1: int, j2: int|
                    0 <= j1 < above_vec@.len() && 0 <= j2 < above_vec@.len() && j1 != j2
                        ==> (#[trigger] above_vec@[j1]).0 != (#[trigger] above_vec@[j2]).0,
                forall|j1: int, j2: int|
                    0 <= j1 < below_vec@.len() && 0 <= j2 < above_vec@.len()
                        ==> (#[trigger] below_vec@[j1]).0 != (#[trigger] above_vec@[j2]).0,
                forall|k: int|
                    0 <= k < i ==> #[trigger] entry_weight(below_vec@, k) + entry_weight(
                        above_vec@,
                        k,
                    ) == w[k],
                forall|k: int|
                    i <= k < w.len() ==> #[trigger] entry_weight(below_vec@, k) == 0 && entry_weight(
                        above_vec@,
                        k,
                    ) == 0,
                entries_total(below_vec@) + entries_total(above_vec@) == weight_sum(
                    w.take(i as int),
                ),
                below_vec@.len() + above_vec@.len() == i,
                below_vec@ == below_entries(w.take(i as int), m),
                above_vec@ == above_entries(w.take(i as int), m),
            decreases w.len() - i,
        {
            let wi = self.index_weights[i];
            let ghost below0 = below_vec@;
            let ghost above0 = above_vec@;
            proof {
                lemma_weight_sum_take_step(w, i as int);
                assert(w.take(i as int + 1).drop_last() =~= w.take(i as int));
                assert(w.take(i as int + 1).last() == w[i as int]);
                assert(w.take(i as int + 1).len() - 1 == i);
            }
            if wi <= mean {
                below_vec.push((i, wi));
            } else {
                above_vec.push((i, wi));
            }
            proof {
                lemma_entry_weight_push(below0, (i, wi));
                lemma_entry_weight_push(above0, (i, wi));
                assert forall|k: int| i + 1 <= k < w.len() implies #[trigger] entry_weight(
                    below_vec@,
                    k,
                ) == 0 && entry_weight(above_vec@, k) == 0 by {
                    assert(entry_weight(below0, k) == 0);
                    assert(entry_weight(above0, k) == 0);
                }
                assert forall|k: int| 0 <= k < i + 1 implies #[trigger] entry_weight(
                    below_vec@,
                    k,
                ) + entry_weight(above_vec@, k) == w[k] by {
                    if k < i {
                        assert(entry_weight(below0, k) + entry_weight(above0, k) == w[k]);
                    } else {
                        assert(entry_weight(below0, k) == 0);
                        assert(entry_weight(above0, k) == 0);
                    }
                }
                if wi <= mean {
                    assert(below_vec@ =~= below0 + seq![(i, wi)]);
                    assert(above_vec@ =~= above0 + Seq::<(usize, u32)>::empty());
                } else {
                    assert(above_vec@ =~= above0 + seq![(i, wi)]);
                    assert(below_vec@ =~= below0 + Seq::<(usize, u32)>::empty());
                }
                assert(below_vec@ == below_entries(w.take(i as int + 1), m));
                assert(above_vec@ == above_entries(w.take(i as int + 1), m));
            }
            i = i + 1;
        }
        proof {
            assert(w.take(w.len() as int) =~= w);
        }
        (below_vec, above_vec)
    }

    /// Computes the alias and threshold columns for the held weights.
    ///
    /// Walker's method repeatedly moves one below-mean index out of the
    /// worklist, filling the remainder of its slot from an above-mean
    /// index, until every slot carries exactly mean draw weight.
    #[verifier::loop_isolation(false)]
    fn calc_table(&self) -> (r: (Vec<u32>, Vec<u32>))
        requires
            self.weights().len() > 0,
            self.weights().len() <= u32::MAX,
            weight_sum(self.weights()) <= u32::MAX,
            weight_sum(self.weights()) == (weight_sum(self.weights()) / (
            self.weights().len() as int)) * self.weights().len(),
        ensures
            ({
                let aliases = r.0@;
                let tholds = r.1@;
                let w = self.weights();
                let m = weight_sum(w) / (w.len() as int);
                &&& aliases.len() == w.len()
                &&& tholds.len() == w.len()
                &&& forall|k: int| 0 <= k < w.len() ==> #[trigger] tholds[k] <= m
                &&& forall|k: int| 0 <= k < w.len() ==> ((#[trigger] aliases[k]) as int) < w.len()
                &&& forall|k: int|
                    0 <= k < w.len() ==> alias_inflow(aliases, tholds, k, w.len() as int) + (m
                        - #[trigger] tholds[k]) == w[k]
                &&& (aliases, tholds) == walk(
                    below_entries(w, m),
                    above_entries(w, m),
                    zero_columns(w.len()),
                    zero_columns(w.len()),
                    m as u32,
                )
            }),
    {
        let ghost w = self.index_weights@;
        let ghost n = w.len() as int;
        let ghost m = weight_sum(w) / n;
        let table_len = self.index_weights.len();
        let (mut below_vec, mut above_vec) = self.separate_weights();
        let mean = self.mean();
        proof {
            lemma_weight_sum_nonneg(w);
            vstd::arithmetic::div_mod::lemma_div_pos_is_pos(weight_sum(w), n);
        }

        let ghost below_start = below_vec@;
        let ghost above_start = above_vec@;

        let mut aliases: Vec<u32> = Vec::new();
        let mut tholds: Vec<u32> = Vec::new();
        let mut j: usize = 0;
        while j < table_len
            invariant
                j <= n,
                table_len == n,
                aliases@.len() == j,
                tholds@.len() == j,
                forall|k: int| 0 <= k < j ==> aliases@[k] == 0 && tholds@[k] == 0,
            decreases n - j,
        {
            aliases.push(0);
            tholds.push(0);
            j = j + 1;
        }
        proof {
            assert(aliases@ =~= zero_columns(w.len()));
            assert(tholds@ =~= zero_columns(w.len()));
            assert(mean as int == m);
            assert(mean == m as u32);
        }

        let ghost mut done: Set<int> = Set::empty();
        proof {
            assert forall|k: int| 0 <= k < n implies alias_inflow(aliases@, tholds@, k, n)
                + entry_weight(below_vec@, k) + entry_weight(above_vec@, k) + (
            if done.contains(k) {
                m - tholds@[k]
            } else {
                0int
            }) == w[k] by {
                lemma_alias_inflow_zero(aliases@, tholds@, k, n);
            }
            assert((below_vec@.len() + above_vec@.len()) * m == weight_sum(w)) by {
                assert(below_vec@.len() + above_vec@.len() == n);
                assert(weight_sum(w) == m * n);
                assert(n * m == m * n) by (nonlinear_arith);
            }
        }

        while below_vec.len() > 0
            invariant
                self.weights() == w,
                n == w.len(),
                n <= u32::MAX,
                m == weight_sum(w) / n,
                0 <= m,
                mean as int == m,
                aliases@.len() == n,
                tholds@.len() == n,
                forall|jb: int|
                    0 <= jb < below_vec@.len() ==> (#[trigger] below_vec@[jb]).1 <= m
                        && below_vec@[jb].0 < n && !done.contains(below_vec@[jb].0 as int),
                forall|ja: int|
                    0 <= ja < above_vec@.len() ==> (#[trigger] above_vec@[ja]).1 > m
                        && above_vec@[ja].0 < n && !done.contains(above_vec@[ja].0 as int),
                forall|j1: int, j2: int|
                    0 <= j1 < below_vec@.len() && 0 <= j2 < below_vec@.len() && j1 != j2
                        ==> (#[trigger] below_vec@[j1]).0 != (#[trigger] below_vec@[j2]).0,
                forall|j1: int, j2: int|
                    0 <= j1 < above_vec@.len() && 0 <= j2 < above_vec@.len() && j1 != j2
                        ==> (#[trigger] above_vec@[j1]).0 != (#[trigger] above_vec@[j2]).0,
                forall|j1: int, j2: int|
                    0 <= j1 < below_vec@.len() && 0 <= j2 < above_vec@.len()
                        ==> (#[trigger] below_vec@[j1]).0 != (#[trigger] above_vec@[j2]).0,
                forall|k: int|
                    0 <= k < n && done.contains(k) ==> #[trigger] tholds@[k] <= m && (
                    aliases@[k] as int) < n,
                forall|k: int| 0 <= k < n && !done.contains(k) ==> #[trigger] tholds@[k] == 0,
                forall|k: int|
                    0 <= k < n ==> alias_inflow(aliases@, tholds@, k, n) + #[trigger] entry_weight(
                        below_vec@,
                        k,
                    ) + entry_weight(above_vec@, k) + (if done.contains(k) {
                        m - tholds@[k]
                    } else {
                        0int
                    }) == w[k],
                done.finite(),
                forall|k: int| done.contains(k) ==> 0 <= k < n,
                below_vec@.len() + above_vec@.len() + done.len() == n,
                entries_total(below_vec@) + entries_total(above_vec@) == (below_vec@.len()
                    + above_vec@.len()) * m,
                walk(below_vec@, above_vec@, aliases@, tholds@, mean) == walk(
                    below_start,
                    above_start,
                    zero_columns(w.len()),
                    zero_columns(w.len()),
                    mean,
                ),
            decreases below_vec@.len() + above_vec@.len(),
        {
            let ghost below_pre = below_vec@;
            let ghost count_pre = below_vec@.len() + above_vec@.len();
            let ghost done_pre = done;
            let below = below_vec.pop().unwrap();
            let ghost b = below.0 as int;
            let ghost al_pre = aliases@;
            let ghost th_pre = tholds@;
            let ghost above_pre = above_vec@;
            proof {
                assert(below_vec@ =~= below_pre.drop_last());
                assert(entries_total(below_pre) == entries_total(below_vec@) + below.1);
                assert(b < n && below.1 <= m && !done_pre.contains(b));
            }
            match above_vec.pop() {
                Some(above) => {
                    let ghost above_rem = above_vec@;
                    let ghost a = above.0 as int;
                    proof {
                        assert(above_rem =~= above_pre.drop_last());
                        assert(entries_total(above_pre) == entries_total(above_rem) + above.1);
                        assert(a != b);
                        assert(a < n && above.1 > m && !done_pre.contains(a));
                    }
                    let diff = mean - below.1;
                    aliases[below.0] = above.0 as u32;
                    tholds[below.0] = diff;
                    let npair = (above.0, above.1 - diff);
                    if above.1 - diff <= mean {
                        below_vec.push(npair);
                    } else {
                        above_vec.push(npair);
                    }
                    proof {
                        done = done.insert(b);
                        lemma_entry_weight_push(below_pre.drop_last(), npair);
                        lemma_entry_weight_push(above_rem, npair);
                        assert forall|k: int| 0 <= k < n implies alias_inflow(
                            aliases@,
                            tholds@,
                            k,
                            n,
                        ) + #[trigger] entry_weight(below_vec@, k) + entry_weight(above_vec@, k) + (
                        if done.contains(k) {
                            m - tholds@[k]
                        } else {
                            0int
                        }) == w[k] by {
                            assert(alias_inflow(al_pre, th_pre, k, n) + entry_weight(below_pre, k)
                                + entry_weight(above_pre, k) + (if done_pre.contains(k) {
                                m - th_pre[k]
                            } else {
                                0int
                            }) == w[k]);
                            lemma_alias_inflow_update(
                                al_pre,
                                th_pre,
                                b,
                                above.0 as u32,
                                diff,
                                k,
                                n,
                            );
                        }
                        assert forall|k: int| 0 <= k < n && done.contains(k) implies #[trigger] tholds@[k]
                            <= m && (aliases@[k] as int) < n by {
                            if k != b {
                                assert(done_pre.contains(k));
                                assert(th_pre[k] <= m);
                                assert((al_pre[k] as int) < n);
                            }
                        }
                        assert((count_pre - 1) * m == count_pre * m - m) by (nonlinear_arith);
                        assert(walk(below_vec@, above_vec@, aliases@, tholds@, mean) == walk(
                            below_pre,
                            above_pre,
                            al_pre,
                            th_pre,
                            mean,
                        )) by {
                            assert(below_pre.last() == below);
                            assert(above_pre.last() == above);
                            assert((mean - below.1) as u32 == diff);
                            assert((above.1 - diff) as u32 == npair.1);
                            assert(aliases@ == al_pre.update(b, above.0 as u32));
                            assert(tholds@ == th_pre.update(b, diff));
                            if npair.1 <= mean {
                                assert(below_vec@ == below_pre.drop_last().push(npair));
                                assert(above_vec@ == above_pre.drop_last());
                            } else {
                                assert(below_vec@ == below_pre.drop_last());
                                assert(above_vec@ == above_pre.drop_last().push(npair));
                            }
                        }
                    }
                }
                None => {
                    // With no above-mean weight left, every remaining weight
                    // equals the mean exactly: the slot keeps all of it.
                    proof {
                        lemma_entries_total_le(below_vec@, m);
                        assert((below_pre.len() - 1) * m == below_pre.len() * m - m)
                            by (nonlinear_arith);
                        assert(below.1 == m);
                    }
                    aliases[below.0] = below.0 as u32;
                    tholds[below.0] = below.1;
                    proof {
                        done = done.insert(b);
                        assert forall|k: int| 0 <= k < n implies alias_inflow(
                            aliases@,
                            tholds@,
                            k,
                            n,
                        ) + #[trigger] entry_weight(below_vec@, k) + entry_weight(above_vec@, k) + (
                        if done.contains(k) {
                            m - tholds@[k]
                        } else {
                            0int
                        }) == w[k] by {
                            assert(alias_inflow(al_pre, th_pre, k, n) + entry_weight(below_pre, k)
                                + entry_weight(above_pre, k) + (if done_pre.contains(k) {
                                m - th_pre[k]
                            } else {
                                0int
                            }) == w[k]);
                            lemma_alias_inflow_update(
                                al_pre,
                                th_pre,
                                b,
                                below.0 as u32,
                                below.1,
                                k,
                                n,
                            );
                        }
                        assert forall|k: int| 0 <= k < n && done.contains(k) implies #[trigger] tholds@[k]
                            <= m && (aliases@[k] as int) < n by {
                            if k != b {
                                assert(done_pre.contains(k));
                                assert(th_pre[k] <= m);
                                assert((al_pre[k] as int) < n);
                            }
                        }
                        assert((count_pre - 1) * m == count_pre * m - m) by (nonlinear_arith);
                        assert(walk(below_vec@, above_vec@, aliases@, tholds@, mean) == walk(
                            below_pre,
                            above_pre,
                            al_pre,
                            th_pre,
                            mean,
                        )) by {
                            assert(below_pre.last() == below);
                            assert(above_pre.len() == 0);
                            assert(below_vec@ == below_pre.drop_last());
                            assert(aliases@ == al_pre.update(b, below.0 as u32));
                            assert(tholds@ == th_pre.update(b, below.1));
                        }
                    }
                }
            }
        }
        proof {
            if above_vec@.len() > 0 {
                lemma_entries_total_ge(above_vec@, m);
                assert(above_vec@.len() * (m + 1) == above_vec@.len() * m + above_vec@.len())
                    by (nonlinear_arith);
            }
            assert(above_vec@.len() == 0);
            assert(done.len() == n);
            vstd::set_lib::lemma_int_range(0, n);
            assert forall|k: int| 0 <= k < n implies done.contains(k) by {
                if !done.contains(k) {
                    let range_k = vstd::set_lib::set_int_range(0, n).remove(k);
                    assert(done.subset_of(range_k));
                    vstd::set_lib::lemma_len_subset(done, range_k);
                }
            }
            assert forall|k: int| 0 <= k < n implies alias_inflow(aliases@, tholds@, k, n) + (m
                - tholds@[k]) == w[k] by {
                assert(alias_inflow(aliases@, tholds@, k, n) + entry_weight(below_vec@, k)
                    + entry_weight(above_vec@, k) + (if done.contains(k) {
                    m - tholds@[k]
                } else {
                    0int
                }) == w[k]);
                assert(entry_weight(below_vec@, k) == 0);
                assert(entry_weight(above_vec@, k) == 0);
            }
            assert forall|k: int| 0 <= k < n implies ((aliases@[k]) as int) < n by {
                assert(done.contains(k));
                assert(tholds@[k] <= m);
            }
            assert(walk(below_vec@, above_vec@, aliases@, tholds@, mean) == (aliases@, tholds@));
            assert((aliases@, tholds@) == walk(
                below_entries(w, m),
                above_entries(w, m),
                zero_columns(w.len()),
                zero_columns(w.len()),
                m as u32,
            ));
        }
        (aliases, tholds)
    }
}

pub proof fn lemma_weight_sum_nonneg(s: Seq<u32>)
    ensures
        weight_sum(s) >= 0,
    decreases s.len(),
{
    if s.len() > 0 {
        lemma_weight_sum_nonneg(s.drop_last());
    }
}

proof fn lemma_weight_at_most_sum(s: Seq<u32>, i: int)
    requires
        0 <= i < s.len(),
    ensures
        s[i] <= weight_sum(s),
    decreases s.len(),
{
    lemma_weight_sum_nonneg(s.drop_last());
    if i < s.len() - 1 {
        lemma_weight_at_most_sum(s.drop_last(), i);
    }
}

/// Multiplying every weight by `c` multiplies the sum by `c`.
proof fn lemma_weight_sum_scaled(w: Seq<u32>, scaled: Seq<u32>, c: int, len: int)
    requires
        w.len() == len,
        scaled.len() == len,
        forall|j: int| 0 <= j < len ==> #[trigger] scaled[j] == w[j] * c,
    ensures
        weight_sum(scaled) == weight_sum(w) * c,
    decreases len,
{
    if len == 0 {
        assert(weight_sum(w) * c == 0) by (nonlinear_arith)
            requires
                weight_sum(w) == 0,
        ;
    } else {
        lemma_weight_sum_scaled(w.drop_last(), scaled.drop_last(), c, len - 1);
        assert(scaled.last() == w.last() * c);
        assert((weight_sum(w.drop_last()) + w.last()) * c == weight_sum(w.drop_last()) * c
            + w.last() * c) by (nonlinear_arith);
    }
}

} // verus!
