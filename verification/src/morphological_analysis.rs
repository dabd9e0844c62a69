//! The lexical token type and its pronunciation-length metrics.

use vstd::prelude::*;

use crate::chars::{is_small_kana, is_symbol, is_syllable_skip};
use crate::chars::{chars_of, small_kana_char, symbol_char, syllable_skip_char};

verus! {

/// Token structure: one lexical unit with its surface text (`word`), the
/// reading used by the mora metric (`mora`) and the reading used by the
/// syllable metric (`syllable`).
#[derive(Debug)]
pub struct LyrianToken {
    pub word: String,
    pub mora: String,
    pub syllable: String,
}

impl View for LyrianToken {
    type V = (Seq<char>, Seq<char>, Seq<char>);

    open spec fn view(&self) -> Self::V {
        (self.word@, self.mora@, self.syllable@)
    }
}

impl Clone for LyrianToken {
    fn clone(&self) -> (res: Self)
        ensures
            res == *self,
    {
        LyrianToken {
            word: self.word.clone(),
            mora: self.mora.clone(),
            syllable: self.syllable.clone(),
        }
    }
}

impl PartialEq for LyrianToken {
    fn eq(&self, other: &Self) -> (res: bool) {
        self.word == other.word && self.mora == other.mora && self.syllable == other.syllable
    }
}

impl vstd::std_specs::cmp::PartialEqSpecImpl for LyrianToken {
    open spec fn obeys_eq_spec() -> bool {
        true
    }

    open spec fn eq_spec(&self, other: &Self) -> bool {
        self@ == other@
    }
}

/// True of a character that the mora metric counts: anything but a small
/// kana or an uncountable symbol.
pub open spec fn mora_keep(c: char) -> bool {
    !is_small_kana(c) && !is_symbol(c)
}

/// The mora-metric length of a reading: the number of its counted characters.
pub open spec fn mora_units(s: Seq<char>) -> nat {
    s.filter(|c: char| mora_keep(c)).len()
}

/// The syllable-metric length of a reading: the number of characters that
/// are not attached to the previous sound.
pub open spec fn syllable_units(s: Seq<char>) -> nat {
    s.filter(|c: char| !is_syllable_skip(c)).len()
}

/// The pronunciation length of a token under the chosen metric. A token
/// whose mora reading is the explicit `unknown` marker has length zero
/// under both metrics.
pub open spec fn token_units(t: LyrianToken, syllable: bool) -> nat {
    if t.mora@ == "unknown"@ {
        0
    } else if syllable {
        syllable_units(t.syllable@)
    } else {
        mora_units(t.mora@)
    }
}

proof fn lemma_mora_units_step(s: Seq<char>, i: int)
    requires
        0 <= i < s.len(),
    ensures
        mora_units(s.take(i + 1)) == mora_units(s.take(i)) + (if mora_keep(s[i]) {
            1int
        } else {
            0int
        }),
{
    assert(s.take(i + 1).drop_last() =~= s.take(i));
    reveal(Seq::filter);
    assert(s.take(i + 1).last() == s[i]);
}

proof fn lemma_syllable_units_step(s: Seq<char>, i: int)
    requires
        0 <= i < s.len(),
    ensures
        syllable_units(s.take(i + 1)) == syllable_units(s.take(i)) + (if !is_syllable_skip(
            s[i],
        ) {
            1int
        } else {
            0int
        }),
{
    assert(s.take(i + 1).drop_last() =~= s.take(i));
    reveal(Seq::filter);
    assert(s.take(i + 1).last() == s[i]);
}

/// Counts the characters of `s` that the mora metric keeps.
fn count_mora_units(s: &str) -> (n: usize)
    ensures
        n == mora_units(s@),
{
    let cs = chars_of(s);
    let mut n: usize = 0;
    let mut i: usize = 0;
    while i < cs.len()
        invariant
            i <= cs@.len(),
            cs@ == s@,
            n == mora_units(s@.take(i as int)),
            n <= i,
        decreases cs@.len() - i,
    {
        proof {
            lemma_mora_units_step(s@, i as int);
        }
        if !small_kana_char(cs[i]) && !symbol_char(cs[i]) {
            n = n + 1;
        }
        i = i + 1;
    }
    proof {
        assert(s@.take(s@.len() as int) =~= s@);
    }
    n
}

/// Counts the characters of `s` that the syllable metric keeps.
fn count_syllable_units(s: &str) -> (n: usize)
    ensures
        n == syllable_units(s@),
{
    let cs = chars_of(s);
    let mut n: usize = 0;
    let mut i: usize = 0;
    while i < cs.len()
        invariant
            i <= cs@.len(),
            cs@ == s@,
            n == syllable_units(s@.take(i as int)),
            n <= i,
        decreases cs@.len() - i,
    {
        proof {
            lemma_syllable_units_step(s@, i as int);
        }
        if !syllable_skip_char(cs[i]) {
            n = n + 1;
        }
        i = i + 1;
    }
    proof {
        assert(s@.take(s@.len() as int) =~= s@);
    }
    n
}

impl LyrianToken {
    /// Creates a new instance of `LyrianToken`.
    pub fn new(word: String, mora: String, syllable: String) -> (t: LyrianToken)
        ensures
            t.word@ == word@,
            t.mora@ == mora@,
            t.syllable@ == syllable@,
    {
        LyrianToken { word, mora, syllable }
    }

    /// Calculates the number of pronunciation units of the token.
    ///
    /// With `syllable` set the count is taken on the syllable reading,
    /// skipping the characters that attach to the previous sound; otherwise
    /// it is taken on the mora reading, skipping small kana and symbols.
    /// A token whose mora reading is the `unknown` marker counts zero.
    ///
    /// Skipping voiceless sounds and smoothly connected vowels are planned
    /// refinements; both currently adjust the count by zero.
    pub fn length(&self, syllable: bool) -> (n: usize)
        ensures
            n == token_units(*self, syllable),
    {
        if self.mora == "unknown".to_owned() {
            return 0;
        }
        if syllable {
            count_syllable_units(self.syllable.as_str())
        } else {
            count_mora_units(self.mora.as_str())
        }
    }

    /// The sentinel token: empty surface text, zero length under both
    /// metrics. It stands for "end of sequence" in the transition model.
    pub fn empty() -> (t: LyrianToken)
        ensures
            t.word@ == Seq::<char>::empty(),
            t.mora@ == Seq::<char>::empty(),
            t.syllable@ == Seq::<char>::empty(),
            token_units(t, true) == 0,
            token_units(t, false) == 0,
    {
        let t = LyrianToken { word: String::new(), mora: String::new(), syllable: String::new() };
        proof {
            reveal(Seq::filter);
            assert(t.mora@ =~= Seq::<char>::empty());
        }
        t
    }
}

/// Counting a reading whose characters the mora metric all keeps gives
/// the full character count.
proof fn lemma_mora_units_all_kept(s: Seq<char>)
    requires
        forall|i: int| 0 <= i < s.len() ==> mora_keep(#[trigger] s[i]),
    ensures
        mora_units(s) == s.len(),
    decreases s.len(),
{
    reveal(Seq::filter);
    if s.len() > 0 {
        lemma_mora_units_all_kept(s.drop_last());
        assert(s.drop_last() =~= s.subrange(0, s.len() - 1));
        assert(mora_keep(s.last()));
    }
}

/// Law: the syllable metric never exceeds the mora metric for a token
/// whose two readings are one and the same string and whose reading holds
/// neither combining kana nor symbols. (A combining kana is counted by
/// the syllable metric but not by the mora metric, so a reading holding
/// one can count more syllables than morae.)
pub proof fn lemma_coarse_at_most_fine(t: LyrianToken)
    requires
        t.syllable@ == t.mora@,
        forall|i: int| 0 <= i < t.mora@.len() ==> mora_keep(#[trigger] t.mora@[i]),
    ensures
        token_units(t, true) <= token_units(t, false),
{
    if t.mora@ == "unknown"@ {
    } else {
        lemma_mora_units_all_kept(t.mora@);
        broadcast use vstd::seq_lib::group_seq_lib_default;

        assert(t.syllable@.filter(|c: char| !is_syllable_skip(c)).len() <= t.syllable@.len());
    }
}

/// Builds a token out of one entry of a morphological analysis: the surface
/// text and the detail fields of the analyzer, whose eighth and ninth
/// entries hold the reading and the phonation. An entry with a single
/// detail field carries no reading: both readings become the `unknown`
/// marker.
pub fn token_from_analysis(text: String, detail: &Vec<String>) -> (t: LyrianToken)
    requires
        detail@.len() == 1 || detail@.len() >= 9,
    ensures
        t.word@ == text@,
        detail@.len() != 1 ==> t.mora@ == detail@[7]@ && t.syllable@ == detail@[8]@,
        detail@.len() == 1 ==> t.mora@ == "unknown"@ && t.syllable@ == "unknown"@,
{
    if detail.len() != 1 {
        LyrianToken::new(text, detail[7].clone(), detail[8].clone())
    } else {
        LyrianToken::new(text, "unknown".to_owned(), "unknown".to_owned())
    }
}

} // verus!
