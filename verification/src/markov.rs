//! The first-order transition model over tokens.

use vstd::prelude::*;

use crate::morphological_analysis::LyrianToken;
use crate::random::random_below;
use crate::walkers_alias_method::builder::{lemma_weight_sum_nonneg, lemma_weight_sum_take_le, lemma_weight_sum_take_step, weight_sum};

verus! {

/// Two tokens stand for the same chain state when all their fields agree.
pub open spec fn tok_eq(a: LyrianToken, b: LyrianToken) -> bool {
    a@ == b@
}

/// Whether some token of `s` stands for the same state as `t`.
pub open spec fn contains_tok(s: Seq<LyrianToken>, t: LyrianToken) -> bool {
    exists|i: int| 0 <= i < s.len() && tok_eq(s[i], t)
}

/// The position of the first token of `s` that stands for the same state
/// as `t`.
pub open spec fn first_occ(s: Seq<LyrianToken>, t: LyrianToken) -> int
    decreases s.len(),
{
    if s.len() == 0 {
        0
    } else if tok_eq(s[0], t) {
        0
    } else {
        1 + first_occ(s.drop_first(), t)
    }
}

/// How often a token equal to `b` immediately follows a token equal to `a`
/// in the sequence `s`.
pub open spec fn pair_count(s: Seq<LyrianToken>, a: LyrianToken, b: LyrianToken) -> nat
    decreases s.len(),
{
    if s.len() < 2 {
        0
    } else {
        pair_count(s.drop_last(), a, b) + (if tok_eq(s[s.len() - 2], a) && tok_eq(s.last(), b) {
            1nat
        } else {
            0nat
        })
    }
}

/// A position that is the first match of `t` in `s` is where `first_occ`
/// points.
proof fn lemma_first_occ_is(s: Seq<LyrianToken>, t: LyrianToken, p: int)
    requires
        0 <= p < s.len(),
        tok_eq(s[p], t),
        forall|k: int| 0 <= k < p ==> !tok_eq(s[k], t),
    ensures
        first_occ(s, t) == p,
    decreases s.len(),
{
    if p > 0 {
        assert(!tok_eq(s[0], t));
        assert forall|k: int| 0 <= k < p - 1 implies !tok_eq(s.drop_first()[k], t) by {
            assert(s.drop_first()[k] == s[k + 1]);
        }
        assert(s.drop_first()[p - 1] == s[p]);
        lemma_first_occ_is(s.drop_first(), t, p - 1);
    }
}

/// Counting pairs in one more element of `s`: the pair ending at position
/// `i` is counted when both its tokens match.
proof fn lemma_pair_count_step(s: Seq<LyrianToken>, i: int, a: LyrianToken, b: LyrianToken)
    requires
        1 <= i < s.len(),
    ensures
        pair_count(s.take(i + 1), a, b) == pair_count(s.take(i), a, b) + (if tok_eq(s[i - 1], a)
            && tok_eq(s[i], b) {
            1int
        } else {
            0int
        }),
{
    assert(s.take(i + 1).drop_last() =~= s.take(i));
    assert(s.take(i + 1).last() == s[i]);
    assert(s.take(i + 1)[i - 1] == s[i - 1]);
}

/// A sequence holds fewer adjacent pairs than elements.
proof fn lemma_pair_count_bound(s: Seq<LyrianToken>, a: LyrianToken, b: LyrianToken)
    ensures
        pair_count(s, a, b) <= s.len(),
    decreases s.len(),
{
    if s.len() >= 2 {
        lemma_pair_count_bound(s.drop_last(), a, b);
    }
}

/// A first-order Markov transition model: the distinct tokens of the
/// training sequence, in order of first appearance, and for every ordered
/// pair of them the count of their adjacent occurrences.
///
/// The model is immutable after construction; the walk cursor lives with
/// each caller, so concurrent readers never interfere.
#[derive(Debug)]
pub struct MarkovModel {
    elements: Vec<LyrianToken>,
    rows: Vec<Vec<u32>>,
}

impl MarkovModel {
    /// The distinct tokens the model was trained on.
    pub closed spec fn tokens(self) -> Seq<LyrianToken> {
        self.elements@
    }

    /// The successor counts of the state `i`.
    pub closed spec fn row(self, i: int) -> Seq<u32> {
        self.rows@[i]@
    }

    /// The number of states.
    pub open spec fn size(self) -> int {
        self.tokens().len() as int
    }

    /// Shape of the model: one square count matrix row per distinct token.
    spec fn wf(self) -> bool {
        &&& self.rows@.len() == self.size()
        &&& forall|i: int| 0 <= i < self.size() ==> (#[trigger] self.row(i)).len() == self.size()
        &&& self.size() <= u32::MAX
        &&& forall|p: int, q: int|
            0 <= p < q < self.size() ==> !tok_eq(self.tokens()[p], self.tokens()[q])
    }

    #[verifier::type_invariant]
    spec fn type_wf(self) -> bool {
        self.wf()
    }

    /// A state from which no successor was ever observed: its row is all
    /// zero. Such a state plays the part of the sentinel: a walk standing
    /// on it restarts from a random seeded state.
    pub open spec fn row_blocked(self, i: int) -> bool {
        weight_sum(self.row(i)) == 0
    }

    /// Whether some state has an observed transition to state `j`.
    pub open spec fn some_row_hits(self, j: int) -> bool {
        exists|i: int| 0 <= i < self.size() && #[trigger] self.row(i)[j] > 0
    }

    /// The count matrix of the model, row by row.
    pub open spec fn rows_view(self) -> Seq<Seq<u32>> {
        Seq::new(self.tokens().len(), |i: int| self.row(i))
    }

    /// A model in which no state has a successor: nothing can be drawn.
    pub open spec fn exhausted(self) -> bool {
        forall|i: int| 0 <= i < self.size() ==> #[trigger] self.row_blocked(i)
    }

    /// The number of states.
    pub fn size_exec(&self) -> (n: usize)
        ensures
            n == self.size(),
    {
        proof {
            use_type_invariant(self);
        }
        self.elements.len()
    }

    /// The token of state `i`.
    pub fn token_at(&self, i: usize) -> (t: &LyrianToken)
        requires
            i < self.size(),
        ensures
            *t == self.tokens()[i as int],
    {
        proof {
            use_type_invariant(self);
        }
        &self.elements[i]
    }

    /// The count of observed transitions from state `i` to state `j`.
    pub fn count_at(&self, i: usize, j: usize) -> (c: u32)
        requires
            i < self.size(),
            j < self.size(),
        ensures
            c == self.row(i as int)[j as int],
    {
        proof {
            use_type_invariant(self);
            assert(self.row(i as int).len() == self.size());
        }
        self.rows[i][j]
    }

    /// The length of the successor-count row of state `i`: one count per
    /// state.
    pub fn row_len(&self, i: usize) -> (l: usize)
        requires
            i < self.size(),
        ensures
            l == self.row(i as int).len(),
            l == self.size(),
    {
        proof {
            use_type_invariant(self);
            assert(self.row(i as int).len() == self.size());
        }
        self.rows[i].len()
    }

    /// Builds the transition model from a training sequence.
    ///
    /// Every training token gets a state, keyed by its identity; states
    /// stand in order of first appearance, each exactly once; and the
    /// count matrix holds, for every ordered state pair, how often the
    /// second token immediately followed the first in the training
    /// sequence.
    #[verifier::loop_isolation(false)]
    pub fn from(elements: Vec<LyrianToken>) -> (m: MarkovModel)
        requires
            elements@.len() <= u32::MAX,
        ensures
            forall|i: int| 0 <= i < m.size() ==> (#[trigger] m.row(i)).len() == m.size(),
            m.size() <= u32::MAX,
            forall|p: int, q: int|
                0 <= p < q < m.size() ==> !tok_eq(
                    #[trigger] m.tokens()[p],
                    #[trigger] m.tokens()[q],
                ),
            forall|k: int|
                0 <= k < elements@.len() ==> contains_tok(m.tokens(), #[trigger] elements@[k]),
            forall|p: int|
                0 <= p < m.size() ==> contains_tok(elements@, #[trigger] m.tokens()[p]),
            forall|p: int, q: int|
                0 <= p < q < m.size() ==> first_occ(elements@, #[trigger] m.tokens()[p])
                    < first_occ(elements@, #[trigger] m.tokens()[q]),
            forall|p: int, q: int|
                0 <= p < m.size() && 0 <= q < m.size() ==> #[trigger] m.row(p)[q] == pair_count(
                    elements@,
                    m.tokens()[p],
                    m.tokens()[q],
                ),
    {
        let input = elements;
        let ghost iv = input@;

        let mut toks: Vec<LyrianToken> = Vec::new();
        let mut i: usize = 0;
        while i < input.len()
            invariant
                i <= iv.len(),
                input@ == iv,
                toks@.len() <= i,
                forall|k: int| 0 <= k < i ==> contains_tok(toks@, #[trigger] iv[k]),
                forall|p: int| 0 <= p < toks@.len() ==> contains_tok(iv, #[trigger] toks@[p]),
                forall|p: int, q: int|
                    0 <= p < q < toks@.len() ==> !tok_eq(
                        #[trigger] toks@[p],
                        #[trigger] toks@[q],
                    ),
                forall|p: int|
                    0 <= p < toks@.len() ==> 0 <= first_occ(iv, #[trigger] toks@[p]) < i,
                forall|p: int, q: int|
                    0 <= p < q < toks@.len() ==> first_occ(iv, #[trigger] toks@[p]) < first_occ(
                        iv,
                        #[trigger] toks@[q],
                    ),
            decreases iv.len() - i,
        {
            let cur = &input[i];
            let ghost toks0 = toks@;
            let found = index_of(&toks, cur);
            match found {
                Some(_) => {},
                None => {
                    proof {
                        assert forall|k: int| 0 <= k < i implies !tok_eq(iv[k], iv[i as int]) by {
                            if tok_eq(iv[k], iv[i as int]) {
                                let p = choose|p: int|
                                    0 <= p < toks@.len() && tok_eq(toks@[p], iv[k]);
                                assert(tok_eq(toks@[p], iv[i as int]));
                            }
                        }
                        lemma_first_occ_is(iv, iv[i as int], i as int);
                    }
                    toks.push(cur.clone());
                }
            }
            proof {
                assert forall|k: int| 0 <= k < i + 1 implies contains_tok(
                    toks@,
                    #[trigger] iv[k],
                ) by {
                    if k < i {
                        let pp = choose|pp: int|
                            0 <= pp < toks0.len() && tok_eq(toks0[pp], iv[k]);
                        assert(toks@[pp] == toks0[pp]);
                        assert(tok_eq(toks@[pp], iv[k]));
                    } else {
                        if found is Some {
                            let pf = found->0;
                            assert(tok_eq(toks@[pf as int], iv[k]));
                        } else {
                            assert(tok_eq(toks@[toks@.len() - 1], iv[k]));
                        }
                    }
                }
            }
            i = i + 1;
        }

        let n = toks.len();
        let mut rows: Vec<Vec<u32>> = Vec::new();
        let mut p: usize = 0;
        while p < n
            invariant
                p <= n,
                n == toks@.len(),
                n <= u32::MAX,
                input@ == iv,
                forall|p2: int, q2: int|
                    0 <= p2 < q2 < toks@.len() ==> !tok_eq(
                        #[trigger] toks@[p2],
                        #[trigger] toks@[q2],
                    ),
                rows@.len() == p,
                forall|a: int| 0 <= a < p ==> (#[trigger] rows@[a])@.len() == n,
                forall|a: int, b: int|
                    0 <= a < p && 0 <= b < n ==> (#[trigger] rows@[a]@[b]) as int == pair_count(
                        iv,
                        toks@[a],
                        toks@[b],
                    ),
            decreases n - p,
        {
            let row = successor_counts(&input, &toks, p);
            rows.push(row);
            p = p + 1;
        }

        let m = MarkovModel { elements: toks, rows };
        proof {
            assert forall|pp: int, qq: int|
                0 <= pp < m.size() && 0 <= qq < m.size() implies #[trigger] m.row(pp)[qq]
                == pair_count(iv, m.tokens()[pp], m.tokens()[qq]) by {
                assert(m.row(pp) == m.rows@[pp]@);
            }
        }
        m
    }

    /// Rebuilds a model out of its parts, as read from a persisted
    /// snapshot: the distinct tokens and the square count matrix. Parts
    /// that do not form a model are refused: a duplicate token, a matrix
    /// that is not square with one row per token, or too many tokens.
    #[verifier::loop_isolation(false)]
    pub fn from_parts(elements: Vec<LyrianToken>, rows: Vec<Vec<u32>>) -> (r: Option<MarkovModel>)
        ensures
            r matches Some(m) ==> m.tokens() == elements@ && m.rows_view() == vecs_view(rows@),
            r is Some <==> parts_shape_ok(elements@, vecs_view(rows@)),
    {
        let ghost rv = vecs_view(rows@);
        let n = elements.len();
        if n as u64 > u32::MAX as u64 {
            return None;
        }
        if rows.len() != n {
            return None;
        }
        let mut i: usize = 0;
        while i < n
            invariant
                i <= n,
                rows@.len() == n,
                forall|a: int| 0 <= a < i ==> (#[trigger] rv[a]).len() == n,
            decreases n - i,
        {
            if rows[i].len() != n {
                proof {
                    assert(rv[i as int].len() != n);
                }
                return None;
            }
            i = i + 1;
        }
        let mut p: usize = 1;
        while p < n
            invariant
                1 <= p || n == 0,
                p <= n || p == 1,
                elements@.len() == n,
                forall|a: int, b: int|
                    0 <= a < b < p ==> !tok_eq(#[trigger] elements@[a], #[trigger] elements@[b]),
            decreases n - p,
        {
            let mut q: usize = 0;
            while q < p
                invariant
                    q <= p < n,
                    elements@.len() == n,
                    forall|b: int| 0 <= b < q ==> !tok_eq(elements@[b], elements@[p as int]),
                decreases p - q,
            {
                if &elements[q] == &elements[p] {
                    return None;
                }
                q = q + 1;
            }
            p = p + 1;
        }
        proof {
            assert forall|a: int| 0 <= a < n implies (#[trigger] rows@[a])@.len() == n by {
                assert(rv[a].len() == n);
            }
        }
        let m = MarkovModel { elements, rows };
        proof {
            assert forall|a: int| 0 <= a < n implies (#[trigger] m.row(a)).len() == n by {
                assert(m.row(a) == m.rows@[a]@);
            }
            assert(m.rows_view() =~= rv);
        }
        Some(m)
    }

    /// One sampling step of the chain.
    ///
    /// With a cursor standing on a state that has observed successors, a
    /// successor of that state is drawn in proportion to its count.
    /// Without a cursor, or standing on a blocked state, the walk is
    /// seeded anew: a state with successors is picked uniformly at random
    /// and a successor of it is drawn. Only an exhausted model has no next
    /// token.
    #[verifier::loop_isolation(false)]
    pub fn next(&self, cursor: Option<usize>) -> (r: Option<(usize, LyrianToken)>)
        requires
            cursor matches Some(i) ==> i < self.size(),
        ensures
            r is None <==> self.exhausted(),
            r matches Some((j, t)) ==> j < self.size(),
            r matches Some((j, t)) ==> t == self.tokens()[j as int],
            r matches Some((j, t)) ==> self.some_row_hits(j as int),
            r matches Some((j, t)) ==> (cursor matches Some(i) ==> self.row_blocked(i as int)
                || self.row(i as int)[j as int] > 0),
    {
        proof {
            use_type_invariant(self);
        }
        let n = self.elements.len();

        let mut start: Option<usize> = None;
        match cursor {
            Some(i) => {
                proof {
                    assert(self.row(i as int).len() == self.size());
                }
                if row_sum(&self.rows[i]) > 0 {
                    start = Some(i);
                }
            },
            None => {},
        }

        let row_idx: usize;
        match start {
            Some(i) => {
                row_idx = i;
            },
            None => {
                let mut nonzero: Vec<usize> = Vec::new();
                let mut i: usize = 0;
                while i < n
                    invariant
                        i <= n,
                        forall|a: int|
                            0 <= a < nonzero@.len() ==> (#[trigger] nonzero@[a]) < n
                                && !self.row_blocked(nonzero@[a] as int),
                        forall|b: int| 0 <= b < i ==> self.row_blocked(b) || exists|a: int|
                            0 <= a < nonzero@.len() && #[trigger] nonzero@[a] == b,
                    decreases n - i,
                {
                    let ghost nz0 = nonzero@;
                    proof {
                        assert(self.row(i as int).len() == self.size());
                    }
                    if row_sum(&self.rows[i]) > 0 {
                        nonzero.push(i);
                    }
                    proof {
                        assert forall|b: int| 0 <= b < i + 1 implies self.row_blocked(b) || exists|
                            a: int,
                        |
                            0 <= a < nonzero@.len() && #[trigger] nonzero@[a] == b by {
                            if b < i {
                                if !self.row_blocked(b) {
                                    let a0 = choose|a0: int|
                                        0 <= a0 < nz0.len() && nz0[a0] == b;
                                    assert(nonzero@[a0] == b);
                                }
                            } else {
                                if !self.row_blocked(b) {
                                    assert(nonzero@[nonzero@.len() - 1] == b);
                                }
                            }
                        }
                    }
                    i = i + 1;
                }
                if nonzero.len() == 0 {
                    proof {
                        assert forall|b: int| 0 <= b < n implies #[trigger] self.row_blocked(
                            b,
                        ) by {
                            if !self.row_blocked(b) {
                                let a = choose|a: int|
                                    0 <= a < nonzero@.len() && nonzero@[a] == b;
                            }
                        }
                    }
                    return None;
                }
                let pickn = random_below(nonzero.len() as u64) as usize;
                row_idx = nonzero[pickn];
            },
        }
        proof {
            assert(row_idx < n);
            assert(self.row(row_idx as int).len() == self.size());
            lemma_weight_sum_nonneg(self.row(row_idx as int));
            assert(!self.row_blocked(row_idx as int));
        }

        let total = row_sum(&self.rows[row_idx]);
        let rdraw = random_below(total);
        let j = pick_from_row(&self.rows[row_idx], rdraw);
        let t = self.elements[j].clone();
        proof {
            assert(self.row(row_idx as int)[j as int] > 0);
            assert(self.some_row_hits(j as int));
            assert(!self.exhausted());
        }
        Some((j, t))
    }
}

/// The views of a sequence of count vectors.
pub open spec fn vecs_view(rs: Seq<Vec<u32>>) -> Seq<Seq<u32>> {
    Seq::new(rs.len(), |i: int| rs[i]@)
}

/// What one chain walk leaves behind: each output token is the model
/// token of its state, and each step either follows an observed
/// transition or reseeds at a state without successors.
pub open spec fn linked_walk(m: MarkovModel, idxs: Seq<int>, toks: Seq<LyrianToken>) -> bool {
    &&& idxs.len() == toks.len()
    &&& forall|k: int| 0 <= k < idxs.len() ==> 0 <= #[trigger] idxs[k] < m.size()
    &&& forall|k: int| 0 <= k < idxs.len() ==> toks[k] == m.tokens()[#[trigger] idxs[k]]
    &&& forall|k: int|
        0 <= k < idxs.len() - 1 ==> m.row_blocked(#[trigger] idxs[k]) || m.row(
            idxs[k],
        )[idxs[k + 1]] > 0
}

/// Whether the token sequence is the output of some chain walk over the
/// model.
pub open spec fn some_linked_walk(m: MarkovModel, toks: Seq<LyrianToken>) -> bool {
    exists|idxs: Seq<int>| linked_walk(m, idxs, toks)
}

/// The shape that persisted parts must have to form a model: one matrix
/// row per token, each as long as the token list, no token twice, and a
/// token count within range.
pub open spec fn parts_shape_ok(toks: Seq<LyrianToken>, rows: Seq<Seq<u32>>) -> bool {
    &&& rows.len() == toks.len()
    &&& forall|i: int| 0 <= i < rows.len() ==> (#[trigger] rows[i]).len() == toks.len()
    &&& toks.len() <= u32::MAX
    &&& forall|p: int, q: int|
        0 <= p < q < toks.len() ==> !tok_eq(#[trigger] toks[p], #[trigger] toks[q])
}

/// Counts, for the state `p`, how often each distinct token immediately
/// followed the state's token in the training sequence.
#[verifier::loop_isolation(false)]
fn successor_counts(input: &Vec<LyrianToken>, toks: &Vec<LyrianToken>, p: usize) -> (row: Vec<
    u32,
>)
    requires
        input@.len() <= u32::MAX,
        p < toks@.len(),
        forall|kk: int| 0 <= kk < input@.len() ==> contains_tok(toks@, #[trigger] input@[kk]),
        forall|p2: int, q2: int|
            0 <= p2 < q2 < toks@.len() ==> !tok_eq(#[trigger] toks@[p2], #[trigger] toks@[q2]),
    ensures
        row@.len() == toks@.len(),
        forall|b: int|
            0 <= b < toks@.len() ==> (#[trigger] row@[b]) as int == pair_count(
                input@,
                toks@[p as int],
                toks@[b],
            ),
{
    let ghost iv = input@;
    let n = toks.len();
    let mut row: Vec<u32> = Vec::new();
    let mut q: usize = 0;
    while q < n
        invariant
            q <= n,
            row@.len() == q,
            forall|b: int| 0 <= b < q ==> row@[b] == 0,
        decreases n - q,
    {
        row.push(0);
        q = q + 1;
    }

    let ghost limit0: int = if iv.len() == 0 {
        0int
    } else {
        1int
    };
    proof {
        assert(iv.take(limit0).len() < 2);
        assert forall|b: int| 0 <= b < n implies (#[trigger] row@[b]) as int == pair_count(
            iv.take(limit0),
            toks@[p as int],
            toks@[b],
        ) by {}
    }

    let mut k: usize = 1;
    while k < input.len()
        invariant
            input@ == iv,
            toks@.len() == n,
            p < n,
            iv.len() <= u32::MAX,
            1 <= k,
            k <= iv.len() || k == 1,
            forall|kk: int| 0 <= kk < iv.len() ==> contains_tok(toks@, #[trigger] iv[kk]),
            forall|p2: int, q2: int|
                0 <= p2 < q2 < toks@.len() ==> !tok_eq(toks@[p2], toks@[q2]),
            row@.len() == n,
            forall|b: int|
                0 <= b < n ==> (#[trigger] row@[b]) as int == pair_count(
                    iv.take(if k <= iv.len() {
                        k as int
                    } else {
                        limit0
                    }),
                    toks@[p as int],
                    toks@[b],
                ),
        decreases iv.len() - k,
    {
        let ghost row0 = row@;
        if &input[k - 1] == &toks[p] {
            let j = index_of(toks, &input[k]).unwrap();
            let c = row[j];
            proof {
                lemma_pair_count_bound(iv.take(k as int), toks@[p as int], toks@[j as int]);
            }
            row[j] = c + 1;
            proof {
                assert forall|b: int| 0 <= b < n implies (#[trigger] row@[b]) as int == pair_count(
                    iv.take(k + 1),
                    toks@[p as int],
                    toks@[b],
                ) by {
                    lemma_pair_count_step(iv, k as int, toks@[p as int], toks@[b]);
                    if b == j as int {
                        assert(tok_eq(iv[k - 1], toks@[p as int]));
                        assert(tok_eq(iv[k as int], toks@[b]));
                    } else {
                        assert(row@[b] == row0[b]);
                        if tok_eq(iv[k as int], toks@[b]) {
                            assert(tok_eq(toks@[j as int], toks@[b]));
                            assert(false);
                        }
                    }
                }
            }
        } else {
            proof {
                assert forall|b: int| 0 <= b < n implies (#[trigger] row@[b]) as int == pair_count(
                    iv.take(k + 1),
                    toks@[p as int],
                    toks@[b],
                ) by {
                    lemma_pair_count_step(iv, k as int, toks@[p as int], toks@[b]);
                }
            }
        }
        k = k + 1;
    }
    proof {
        if iv.len() >= 1 {
            if iv.len() == 1 {
                assert(iv.take(1int) =~= iv);
            } else {
                assert(iv.take(iv.len() as int) =~= iv);
            }
        } else {
            assert(iv.take(0int) =~= iv);
        }
    }
    row
}

/// Finds the first token of `toks` that stands for the same state as `t`.
#[verifier::loop_isolation(false)]
fn index_of(toks: &Vec<LyrianToken>, t: &LyrianToken) -> (r: Option<usize>)
    ensures
        r matches Some(p) ==> p < toks@.len() && tok_eq(toks@[p as int], *t),
        r is None ==> !contains_tok(toks@, *t),
{
    let mut p: usize = 0;
    while p < toks.len()
        invariant
            p <= toks@.len(),
            forall|q: int| 0 <= q < p ==> !tok_eq(toks@[q], *t),
        decreases toks@.len() - p,
    {
        if &toks[p] == t {
            return Some(p);
        }
        p = p + 1;
    }
    None
}

/// The sum of the counts of one matrix row.
#[verifier::loop_isolation(false)]
fn row_sum(row: &Vec<u32>) -> (s: u64)
    requires
        row@.len() <= u32::MAX,
    ensures
        s as int == weight_sum(row@),
{
    let ghost rv = row@;
    let mut acc: u64 = 0;
    let mut i: usize = 0;
    while i < row.len()
        invariant
            i <= rv.len(),
            row@ == rv,
            rv.len() <= u32::MAX,
            acc as int == weight_sum(rv.take(i as int)),
            acc <= i * (u32::MAX as int),
        decreases rv.len() - i,
    {
        proof {
            lemma_weight_sum_take_step(rv, i as int);
            assert((i + 1) * (u32::MAX as int) == i * (u32::MAX as int) + u32::MAX)
                by (nonlinear_arith);
            vstd::arithmetic::mul::lemma_mul_inequality(
                i + 1 as int,
                rv.len() as int,
                u32::MAX as int,
            );
            assert(rv.len() * (u32::MAX as int) < u64::MAX) by (nonlinear_arith)
                requires
                    rv.len() <= u32::MAX,
            ;
        }
        acc = acc + (row[i] as u64);
        i = i + 1;
    }
    proof {
        assert(rv.take(rv.len() as int) =~= rv);
    }
    acc
}


/// Draws the state index that the value `r` selects from the cumulative
/// counts of `row`: index `j` owns the draw values from the total of the
/// counts before it up to that total plus its own count.
#[verifier::loop_isolation(false)]
fn pick_from_row(row: &Vec<u32>, r: u64) -> (j: usize)
    requires
        r < weight_sum(row@),
        weight_sum(row@) <= u64::MAX,
    ensures
        j < row@.len(),
        weight_sum(row@.take(j as int)) <= r < weight_sum(row@.take(j as int + 1)),
        row@[j as int] > 0,
{
    let ghost rv = row@;
    let rlen = row.len();
    let mut acc: u64 = 0;
    let mut j: usize = 0;
    proof {
        lemma_weight_sum_nonneg(rv);
    }
    loop
        invariant
            j <= rv.len(),
            rv.len() == rlen,
            row@ == rv,
            r < weight_sum(rv),
            acc as int == weight_sum(rv.take(j as int)),
            acc <= r,
        decreases rv.len() - j,
    {
        proof {
            if j == rv.len() {
                assert(rv.take(rv.len() as int) =~= rv);
                assert(false);
            }
            lemma_weight_sum_take_step(rv, j as int);
            lemma_weight_sum_take_le(rv, j as int + 1);
        }
        let w = row[j];
        if r < acc + (w as u64) {
            proof {
                assert(weight_sum(rv.take(j as int + 1)) == acc + w);
            }
            return j;
        }
        acc = acc + (w as u64);
        j = j + 1;
    }
}



} // verus!
