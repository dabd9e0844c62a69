//! The generated lyric: a sequence of tokens and its joined text.

use vstd::prelude::*;
use vstd::string::StringExecFns;

use crate::chars::{chars_of, is_symbol, symbol_char};
use crate::morphological_analysis::{token_units, LyrianToken};

verus! {

/// Whether the reading holds any uncountable symbol character.
pub open spec fn has_symbol(s: Seq<char>) -> bool {
    exists|i: int| 0 <= i < s.len() && is_symbol(s[i])
}

/// The total pronunciation length of a token sequence under one metric.
pub open spec fn lyric_units(s: Seq<LyrianToken>, syllable: bool) -> int
    decreases s.len(),
{
    if s.len() == 0 {
        0
    } else {
        lyric_units(s.drop_last(), syllable) + token_units(s.last(), syllable)
    }
}

/// The joined surface text of a token sequence: the words of its tokens in
/// order, leaving out every token whose mora reading holds a symbol.
pub open spec fn joined(s: Seq<LyrianToken>) -> Seq<char>
    decreases s.len(),
{
    if s.len() == 0 {
        Seq::empty()
    } else {
        joined(s.drop_last()) + (if has_symbol(s.last().mora@) {
            Seq::empty()
        } else {
            s.last().word@
        })
    }
}


proof fn lemma_lyric_units_take_step(s: Seq<LyrianToken>, i: int, syllable: bool)
    requires
        0 <= i < s.len(),
    ensures
        lyric_units(s.take(i + 1), syllable) == lyric_units(s.take(i), syllable) + token_units(
            s[i],
            syllable,
        ),
{
    assert(s.take(i + 1).drop_last() =~= s.take(i));
    assert(s.take(i + 1).last() == s[i]);
}

proof fn lemma_lyric_units_take_le(s: Seq<LyrianToken>, i: int, syllable: bool)
    requires
        0 <= i <= s.len(),
    ensures
        lyric_units(s.take(i), syllable) <= lyric_units(s, syllable),
    decreases s.len() - i,
{
    if i == s.len() {
        assert(s.take(i) =~= s);
    } else {
        lemma_lyric_units_take_step(s, i, syllable);
        lemma_lyric_units_take_le(s, i + 1, syllable);
    }
}

proof fn lemma_joined_take_step(s: Seq<LyrianToken>, i: int)
    requires
        0 <= i < s.len(),
    ensures
        joined(s.take(i + 1)) == joined(s.take(i)) + (if has_symbol(s[i].mora@) {
            Seq::<char>::empty()
        } else {
            s[i].word@
        }),
{
    assert(s.take(i + 1).drop_last() =~= s.take(i));
    assert(s.take(i + 1).last() == s[i]);
}

/// Decides whether the string holds any uncountable symbol character.
#[verifier::loop_isolation(false)]
fn has_symbol_str(s: &str) -> (b: bool)
    ensures
        b == has_symbol(s@),
{
    let cs = chars_of(s);
    let mut i: usize = 0;
    while i < cs.len()
        invariant
            i <= cs@.len(),
            cs@ == s@,
            forall|k: int| 0 <= k < i ==> !is_symbol(s@[k]),
        decreases cs@.len() - i,
    {
        if symbol_char(cs[i]) {
            return true;
        }
        i = i + 1;
    }
    false
}

/// Lyric structure: the tokens drawn by one successful generation walk.
#[derive(Debug)]
pub struct Lyric {
    tokens: Vec<LyrianToken>,
}

impl Lyric {
    /// The tokens of the lyric, in order.
    pub closed spec fn toks(self) -> Seq<LyrianToken> {
        self.tokens@
    }

    /// Creates a new instance of `Lyric`.
    pub fn new(tokens: Vec<LyrianToken>) -> (l: Lyric)
        ensures
            l.toks() == tokens@,
    {
        Lyric { tokens }
    }

    /// Returns the pronunciation length of the lyric: the total of its
    /// tokens' lengths under the chosen metric.
    #[verifier::loop_isolation(false)]
    pub fn length(&self, syllable: bool) -> (n: usize)
        requires
            lyric_units(self.toks(), syllable) <= usize::MAX,
        ensures
            n == lyric_units(self.toks(), syllable),
    {
        let ghost tv = self.tokens@;
        let mut acc: usize = 0;
        let mut i: usize = 0;
        while i < self.tokens.len()
            invariant
                i <= tv.len(),
                self.tokens@ == tv,
                acc == lyric_units(tv.take(i as int), syllable),
            decreases tv.len() - i,
        {
            proof {
                lemma_lyric_units_take_step(tv, i as int, syllable);
                lemma_lyric_units_take_le(tv, i as int + 1, syllable);
            }
            acc = acc + self.tokens[i].length(syllable);
            i = i + 1;
        }
        proof {
            assert(tv.take(tv.len() as int) =~= tv);
        }
        acc
    }

    /// Adds a new token to the lyric.
    pub fn add_token(&mut self, token: LyrianToken)
        ensures
            final(self).toks() == old(self).toks().push(token),
    {
        self.tokens.push(token);
    }

    /// Joins the words of the lyric's tokens into the output text. A token
    /// whose mora reading holds a symbol character is left out.
    #[verifier::loop_isolation(false)]
    pub fn join(&self) -> (r: String)
        ensures
            r@ == joined(self.toks()),
    {
        let ghost tv = self.tokens@;
        let mut out = String::new();
        let mut i: usize = 0;
        while i < self.tokens.len()
            invariant
                i <= tv.len(),
                self.tokens@ == tv,
                out@ == joined(tv.take(i as int)),
            decreases tv.len() - i,
        {
            proof {
                lemma_joined_take_step(tv, i as int);
            }
            let cur = &self.tokens[i];
            if !has_symbol_str(cur.mora.as_str()) {
                out.append(cur.word.as_str());
            } else {
                proof {
                    assert(out@ + Seq::<char>::empty() =~= out@);
                }
            }
            i = i + 1;
        }
        proof {
            assert(tv.take(tv.len() as int) =~= tv);
        }
        out
    }
}

} // verus!
