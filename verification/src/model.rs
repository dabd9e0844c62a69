//! The user-facing model: training, persistence and lyric generation.

use vstd::prelude::*;

use crate::json::{parse_model, parse_model_exec, render_model, render_model_exec};
use crate::json::{shape_ok_views, tok_views};
use crate::markov::vecs_view;
use crate::lyric::{lyric_units, Lyric};
use crate::markov::{contains_tok, linked_walk, some_linked_walk, tok_eq, MarkovModel};
use crate::morphological_analysis::LyrianToken;

verus! {

/// The number of fresh walks one generation call may start.
pub const MAX_ATTEMPTS: usize = 64;

/// The number of sampling steps one walk may take.
pub const MAX_STEPS: usize = 64;

/// The failures the library reports, each as an explicit result value.
#[derive(Debug)]
pub enum LyrianError {
    /// The external tokenizer failed; its message is kept.
    TokenizationFailed(String),
    /// A persisted model is malformed or schema-incompatible.
    ModelDecodeFailed(String),
    /// The requested length admits no sequence before any sampling begins.
    InvalidQuery,
    /// The retry budget ran out without hitting the requested length.
    GenerationExhausted,
}

impl LyrianError {
    /// A short description of the failure.
    pub fn message(&self) -> String {
        match self {
            LyrianError::TokenizationFailed(m) => m.clone(),
            LyrianError::ModelDecodeFailed(m) => m.clone(),
            LyrianError::InvalidQuery => "the requested length must be positive".to_owned(),
            LyrianError::GenerationExhausted => {
                "could not generate a lyric in given arguments".to_owned()
            },
        }
    }
}

/// Lyrian model structure: a transition model ready for generation queries.
#[derive(Debug)]
pub struct LyrianModel {
    pub markov: MarkovModel,
}

impl LyrianModel {
    /// Builds a model from an already tokenized training sequence: every
    /// training token gets a state, states are distinct and stand in order
    /// of first appearance, and the counts are the observed adjacent pairs.
    /// Only a sequence beyond the count range is refused.
    pub fn from_tokens(tokens: Vec<LyrianToken>) -> (r: Result<LyrianModel, LyrianError>)
        ensures
            r is Ok <==> tokens@.len() <= u32::MAX,
            r matches Ok(m) ==> {
                &&& forall|k: int|
                    0 <= k < tokens@.len() ==> contains_tok(
                        m.markov.tokens(),
                        #[trigger] tokens@[k],
                    )
                &&& forall|p: int|
                    0 <= p < m.markov.size() ==> contains_tok(
                        tokens@,
                        #[trigger] m.markov.tokens()[p],
                    )
                &&& forall|p: int, q: int|
                    0 <= p < q < m.markov.size() ==> !tok_eq(
                        #[trigger] m.markov.tokens()[p],
                        #[trigger] m.markov.tokens()[q],
                    )
                &&& forall|p: int, q: int|
                    0 <= p < m.markov.size() && 0 <= q < m.markov.size()
                        ==> #[trigger] m.markov.row(p)[q] == crate::markov::pair_count(
                        tokens@,
                        m.markov.tokens()[p],
                        m.markov.tokens()[q],
                    )
            },
    {
        if tokens.len() as u64 > u32::MAX as u64 {
            return Err(
                LyrianError::TokenizationFailed(
                    "the training sequence holds too many tokens".to_owned(),
                ),
            );
        }
        Ok(LyrianModel { markov: MarkovModel::from(tokens) })
    }

    /// Generates a lyric whose pronunciation length equals `lyric_len`
    /// exactly, under the syllable metric when `rhythmical` is set and the
    /// mora metric otherwise.
    ///
    /// Each attempt walks the chain from a freshly seeded cursor, adding
    /// one drawn token at a time; an attempt that overshoots the target is
    /// abandoned, never trimmed. Work is bounded by the attempt and step
    /// budgets; a zero target is rejected before any sampling, and a model
    /// without any observed transition always fails.
    pub fn generate_lyric(&self, lyric_len: usize, rhythmical: bool) -> (r: Result<
        Lyric,
        LyrianError,
    >)
        ensures
            r matches Ok(l) ==> lyric_units(l.toks(), rhythmical) == lyric_len,
            r matches Ok(l) ==> forall|idx: int|
                0 <= idx < l.toks().len() ==> contains_tok(
                    self.markov.tokens(),
                    #[trigger] l.toks()[idx],
                ),
            r matches Ok(l) ==> some_linked_walk(self.markov, l.toks()),
            r matches Err(e) ==> (e is InvalidQuery <==> lyric_len == 0),
            r matches Err(e) ==> e is InvalidQuery || e is GenerationExhausted,
            lyric_len == 0 ==> r is Err,
            self.markov.exhausted() && lyric_len > 0 ==> r is Err,
    {
        if lyric_len == 0 {
            return Err(LyrianError::InvalidQuery);
        }

        let mut attempt: usize = 0;
        while attempt < MAX_ATTEMPTS
            invariant
                lyric_len > 0,
            decreases MAX_ATTEMPTS - attempt,
        {
            let mut lyric = Lyric::new(Vec::new());
            let mut cum: usize = 0;
            let mut cursor: Option<usize> = None;
            let ghost mut idxs: Seq<int> = Seq::empty();
            let mut step: usize = 0;
            while step < MAX_STEPS
                invariant
                    lyric_len > 0,
                    cum < lyric_len,
                    cum == lyric_units(lyric.toks(), rhythmical),
                    cursor matches Some(i) ==> i < self.markov.size(),
                    linked_walk(self.markov, idxs, lyric.toks()),
                    cursor matches Some(i) ==> idxs.len() > 0 && i == idxs.last(),
                    idxs.len() > 0 ==> cursor is Some,
                    forall|idx: int|
                        0 <= idx < lyric.toks().len() ==> contains_tok(
                            self.markov.tokens(),
                            #[trigger] lyric.toks()[idx],
                        ),
                decreases MAX_STEPS - step,
            {
                match self.markov.next(cursor) {
                    None => {
                        // No state of the model has any successor: no walk
                        // can ever produce a token.
                        return Err(LyrianError::GenerationExhausted);
                    },
                    Some((j, token)) => {
                        let tl = token.length(rhythmical);
                        if tl > lyric_len - cum {
                            // Overshoot: abandon this attempt.
                            break ;
                        }
                        proof {
                            lemma_generate_push(lyric.toks(), token, rhythmical);
                            assert(contains_tok(self.markov.tokens(), token)) by {
                                assert(crate::markov::tok_eq(
                                    token,
                                    self.markov.tokens()[j as int],
                                ));
                            }
                        }
                        let ghost toks0 = lyric.toks();
                        let ghost idxs0 = idxs;
                        lyric.add_token(token);
                        cum = cum + tl;
                        proof {
                            idxs = idxs.push(j as int);
                            assert(linked_walk(self.markov, idxs, lyric.toks())) by {
                                assert forall|k: int| 0 <= k < idxs.len() - 1 implies
                                    self.markov.row_blocked(#[trigger] idxs[k]) || self.markov.row(
                                    idxs[k],
                                )[idxs[k + 1]] > 0 by {
                                    if k < idxs0.len() - 1 {
                                        assert(idxs[k] == idxs0[k] && idxs[k + 1] == idxs0[k + 1]);
                                    } else {
                                        assert(idxs[k] == idxs0.last() && idxs[k + 1] == j);
                                    }
                                }
                            }
                        }
                        if cum == lyric_len {
                            proof {
                                assert(some_linked_walk(self.markov, lyric.toks())) by {
                                    assert(linked_walk(self.markov, idxs, lyric.toks()));
                                }
                            }
                            return Ok(lyric);
                        }
                        cursor = Some(j);
                    },
                }
                step = step + 1;
            }
            attempt = attempt + 1;
        }

        Err(LyrianError::GenerationExhausted)
    }
}

impl LyrianModel {
    /// Writes the model in its persisted form: one JSON object holding the
    /// token list and the count matrix.
    pub fn to_json_str(&self) -> (r: String)
        ensures
            r@ == render_model(self.markov.tokens(), self.markov.rows_view()),
    {
        render_model_exec(&self.markov)
    }

    /// Reads a model from its persisted form. A text that is not exactly
    /// one canonical model object, or whose parts do not form a model, is
    /// refused as a decode failure.
    pub fn from_json(json: &str) -> (r: Result<LyrianModel, LyrianError>)
        ensures
            r matches Ok(m) ==> parse_model(json@) == Some(
                (tok_views(m.markov.tokens()), m.markov.rows_view()),
            ),
            r is Ok <==> (parse_model(json@) matches Some(pr) && shape_ok_views(pr.0, pr.1)),
            r matches Err(e) ==> e is ModelDecodeFailed,
    {
        let cs = crate::chars::chars_of(json);
        match parse_model_exec(&cs) {
            None => Err(
                LyrianError::ModelDecodeFailed(
                    "the text is not a persisted model object".to_owned(),
                ),
            ),
            Some((toks, rows)) => {
                let ghost toks0 = toks@;
                let ghost tsv = tok_views(toks@);
                let ghost rsv = vecs_view(rows@);
                match MarkovModel::from_parts(toks, rows) {
                    None => {
                        proof {
                            lemma_shape_transfer(toks0, rsv);
                        }
                        Err(
                            LyrianError::ModelDecodeFailed(
                                "the parts of the text do not form a model".to_owned(),
                            ),
                        )
                    },
                    Some(m) => {
                        proof {
                            lemma_shape_transfer(toks0, rsv);
                            assert(tok_views(m.tokens()) == tsv);
                        }
                        Ok(LyrianModel { markov: m })
                    },
                }
            },
        }
    }
}

/// The parts read from a persisted text form a model exactly when their
/// views have the right shape: token-view distinctness is token
/// distinctness.
proof fn lemma_shape_transfer(toks: Seq<LyrianToken>, rs: Seq<Seq<u32>>)
    ensures
        crate::markov::parts_shape_ok(toks, rs) <==> shape_ok_views(tok_views(toks), rs),
{
    let tv = tok_views(toks);
    assert(tv.len() == toks.len());
    if crate::markov::parts_shape_ok(toks, rs) {
        assert forall|p: int, q: int| 0 <= p < q < tv.len() implies (#[trigger] tv[p]) != (
        #[trigger] tv[q]) by {
            assert(!tok_eq(toks[p], toks[q]));
            assert(tv[p] == toks[p]@ && tv[q] == toks[q]@);
        }
        assert(shape_ok_views(tv, rs));
    }
    if shape_ok_views(tv, rs) {
        assert forall|p: int, q: int| 0 <= p < q < toks.len() implies !tok_eq(
            #[trigger] toks[p],
            #[trigger] toks[q],
        ) by {
            assert(tv[p] != tv[q]);
            assert(tv[p] == toks[p]@ && tv[q] == toks[q]@);
        }
        assert(crate::markov::parts_shape_ok(toks, rs));
    }
}

proof fn lemma_generate_push(s: Seq<LyrianToken>, t: LyrianToken, syllable: bool)
    ensures
        lyric_units(s.push(t), syllable) == lyric_units(s, syllable)
            + crate::morphological_analysis::token_units(t, syllable),
{
    assert(s.push(t).drop_last() =~= s);
    assert(s.push(t).last() == t);
}

} // verus!
