//! The alias table itself: O(1) weighted random draws.

use vstd::prelude::*;

use crate::random::random_below;

verus! {

/// An alias sampling table over the indices `0..aliases.len()`.
///
/// A draw picks a slot `i` uniformly and a value `r` uniformly below
/// `max_weight` (the mean of the rescaled weights); it lands on
/// `aliases[i]` when `r < tholds[i]` and on `i` itself otherwise.
#[derive(Debug)]
pub struct WalkerTable {
    pub aliases: Vec<u32>,
    pub tholds: Vec<u32>,
    pub max_weight: u32,
}

impl WalkerTable {
    /// A well-formed table: both columns have one slot per index, every
    /// alias points at a slot, and no threshold exceeds the mean.
    pub open spec fn wf(self) -> bool {
        &&& self.aliases@.len() == self.tholds@.len()
        &&& forall|i: int|
            0 <= i < self.aliases@.len() ==> (self.aliases@[i] as int) < self.tholds@.len()
        &&& forall|i: int| 0 <= i < self.tholds@.len() ==> self.tholds@[i] <= self.max_weight
    }

    /// The number of slots.
    pub open spec fn spec_len(self) -> int {
        self.tholds@.len() as int
    }

    /// Where a draw of slot `i` with value `r` lands.
    pub open spec fn spec_select(self, i: int, r: u32) -> int {
        if r < self.tholds@[i] {
            self.aliases@[i] as int
        } else {
            i
        }
    }

    /// How many of the `max_weight` draw values of slot `i` land on `k`.
    pub open spec fn chance(self, i: int, k: int) -> int {
        if i == k {
            if self.aliases@[i] == k {
                self.max_weight as int
            } else {
                self.max_weight - self.tholds@[i]
            }
        } else {
            if self.aliases@[i] == k {
                self.tholds@[i] as int
            } else {
                0
            }
        }
    }

    /// How many of the `spec_len() * max_weight` draw pairs land on `k`,
    /// counting the slots below `n`.
    pub open spec fn chances_upto(self, k: int, n: int) -> int
        decreases n,
    {
        if n <= 0 {
            0
        } else {
            self.chances_upto(k, n - 1) + self.chance(n - 1, k)
        }
    }

    /// How many of all draw pairs land on `k`.
    pub open spec fn chances(self, k: int) -> int {
        self.chances_upto(k, self.spec_len())
    }

    /// Creates a new instance of `WalkerTable`.
    pub fn new(aliases: Vec<u32>, tholds: Vec<u32>, max_weight: u32) -> (t: WalkerTable)
        ensures
            t.aliases@ == aliases@,
            t.tholds@ == tholds@,
            t.max_weight == max_weight,
    {
        WalkerTable { aliases, tholds, max_weight }
    }

    /// Where the draw `(i, r)` lands: `aliases[i]` when `r` falls below the
    /// threshold of slot `i`, else `i` itself.
    pub fn select(&self, i: usize, r: u32) -> (k: usize)
        requires
            self.wf(),
            i < self.tholds@.len(),
        ensures
            k == self.spec_select(i as int, r),
            k < self.tholds@.len(),
    {
        if r < self.tholds[i] {
            self.aliases[i] as usize
        } else {
            i
        }
    }

    /// Returns an index drawn at random, in proportion to the weights the
    /// table was built from. Which of the two random draws came back is not
    /// fixed, so the result can be any index that some draw pair selects —
    /// an index with positive draw mass — and no other.
    ///
    /// A table with mean zero (built from all-zero weights) offers no
    /// draw values, so it cannot be drawn from.
    pub fn next(&self) -> (k: usize)
        requires
            self.wf(),
            self.tholds@.len() > 0,
            self.max_weight > 0,
        ensures
            k < self.tholds@.len(),
            exists|i: int, r: u32|
                0 <= i < self.spec_len() && r < self.max_weight && k == #[trigger] self.spec_select(
                    i,
                    r,
                ),
            self.chances(k as int) > 0,
    {
        let i = random_below(self.tholds.len() as u64) as usize;
        let r = random_below(self.max_weight as u64) as u32;
        let k = self.select(i, r);
        proof {
            assert(k == self.spec_select(i as int, r));
            lemma_chance_of_selection(*self, i as int, r);
            lemma_chances_cover_slot(*self, i as int, k as int, self.spec_len());
        }
        k
    }
}

/// A draw pair gives its selected index a positive share of the draw
/// values of its slot.
proof fn lemma_chance_of_selection(t: WalkerTable, i: int, r: u32)
    requires
        t.wf(),
        0 <= i < t.spec_len(),
        r < t.max_weight,
    ensures
        t.chance(i, t.spec_select(i, r)) > 0,
{
}

/// No slot contributes negative draw mass.
proof fn lemma_chances_nonneg(t: WalkerTable, k: int, j: int)
    requires
        t.wf(),
        j <= t.spec_len(),
    ensures
        t.chances_upto(k, j) >= 0,
    decreases j,
{
    if j > 0 {
        lemma_chances_nonneg(t, k, j - 1);
    }
}

/// The chances of an index over all slots are at least its chance at any
/// one slot, every slot's share being non-negative.
proof fn lemma_chances_cover_slot(t: WalkerTable, i: int, k: int, j: int)
    requires
        t.wf(),
        0 <= i < j <= t.spec_len(),
        0 <= k,
    ensures
        t.chances_upto(k, j) >= t.chance(i, k),
    decreases j,
{
    if i < j - 1 {
        lemma_chances_cover_slot(t, i, k, j - 1);
    } else {
        lemma_chances_nonneg(t, k, j - 1);
    }
}

impl PartialEq for WalkerTable {
    fn eq(&self, other: &Self) -> (res: bool) {
        let r = self.aliases == other.aliases && self.tholds == other.tholds && self.max_weight
            == other.max_weight;
        proof {
            if self.aliases@.len() == other.aliases@.len() && self.tholds@.len()
                == other.tholds@.len() {
                assert((self.aliases@ =~= other.aliases@) == (forall|i: int|
                    #![auto]
                    0 <= i < self.aliases@.len() ==> self.aliases@[i] == other.aliases@[i]));
                assert((self.tholds@ =~= other.tholds@) == (forall|i: int|
                    #![auto]
                    0 <= i < self.tholds@.len() ==> self.tholds@[i] == other.tholds@[i]));
            }
        }
        r
    }
}

impl vstd::std_specs::cmp::PartialEqSpecImpl for WalkerTable {
    open spec fn obeys_eq_spec() -> bool {
        true
    }

    open spec fn eq_spec(&self, other: &Self) -> bool {
        self.aliases@ == other.aliases@ && self.tholds@ == other.tholds@ && self.max_weight
            == other.max_weight
    }
}

} // verus!
