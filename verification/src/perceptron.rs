//! The perceptron: a greedy tagger that goes through a block from left to
//! right and gives each word without a tag the tag with the highest score.
//!
//! The score of a tag for a word is the sum of the weights that the model
//! holds for the tag under each feature of the word in its context. The tags
//! of the two words before are among the features, so a tag once given
//! decides on those that follow.

use crate::block::{Block, Word};
use crate::data::{ContextSuffix, ContextWord, Feature};
use crate::model::{add_weight, is_first_max, Model, Scores};
use crate::pos::POS;
use crate::text::first_char;
use vstd::prelude::*;

verus! {

/// The word of context at the place `j` of a block, where the places just
/// outside the block hold markers.
pub open spec fn context_at(words: Seq<Word>, j: int) -> Option<ContextWord> {
    if j == -2 {
        Some(ContextWord::of_bytes(ContextWord::encode("-START2-"@)))
    } else if j == -1 {
        Some(ContextWord::of_bytes(ContextWord::encode("-START-"@)))
    } else if 0 <= j < words.len() {
        ContextWord::spec_of_word(words[j].text(), words[j].spec_tag())
    } else if j == words.len() {
        Some(ContextWord::of_bytes(ContextWord::encode("-END-"@)))
    } else if j == words.len() + 1 {
        Some(ContextWord::of_bytes(ContextWord::encode("-END2-"@)))
    } else {
        None
    }
}

/// The feature of the first character of a token, where it is ASCII.
pub open spec fn first_char_feature(text: Seq<char>) -> Option<Feature> {
    if text.len() > 0 && text[0] <= '\u{7f}' {
        Some(Feature::Pref1(text[0] as u8))
    } else {
        None
    }
}

/// The features of a token by itself and by the tags `t1` of the word before
/// and `t2` of the word two before. `None` stands for a feature that the
/// token does not have.
pub open spec fn own_features(text: Seq<char>, t1: POS, t2: POS) -> Seq<Option<Feature>> {
    seq![
        match ContextSuffix::spec_of_token(text) {
            Some(s) => Some(Feature::Suffix(s)),
            None => None,
        },
        first_char_feature(text),
        Some(Feature::IMinus1Tag(t1)),
        Some(Feature::IMinus2Tag(t2)),
        Some(Feature::ITagPlusIMinus2Tag(t1, t2)),
    ]
}

/// The feature that `make` gives for a word of context, where there is one.
pub open spec fn feature_of(word: Option<ContextWord>, make: spec_fn(ContextWord) -> Feature)
    -> Option<Feature> {
    match word {
        Some(w) => Some(make(w)),
        None => None,
    }
}

/// The features of the word `i` of a block by the words around it, when the
/// word before bears the tag `t1`.
pub open spec fn context_features(words: Seq<Word>, i: int, t1: POS) -> Seq<Option<Feature>> {
    seq![
        feature_of(context_at(words, i - 2), |w: ContextWord| Feature::IMinus2Word(w)),
        feature_of(context_at(words, i - 1), |w: ContextWord| Feature::IMinus1Word(w)),
        feature_of(
            context_at(words, i - 1),
            |w: ContextWord| Feature::IMinus1Suffix(w.suffix_of()),
        ),
        feature_of(context_at(words, i), |w: ContextWord| Feature::IWord(w)),
        feature_of(context_at(words, i), |w: ContextWord| Feature::IMinus1TagPlusIWord(t1, w)),
        feature_of(context_at(words, i + 1), |w: ContextWord| Feature::IPlus1Word(w)),
        feature_of(
            context_at(words, i + 1),
            |w: ContextWord| Feature::IPlus1Suffix(w.suffix_of()),
        ),
        feature_of(context_at(words, i + 2), |w: ContextWord| Feature::IPlus2Word(w)),
    ]
}

/// The features of the word `i` of a block, when the word before bears the
/// tag `t1` and the word two before the tag `t2`, in the order in which
/// their weights are added.
pub open spec fn features(words: Seq<Word>, i: int, t1: POS, t2: POS) -> Seq<Option<Feature>> {
    own_features(words[i].text(), t1, t2) + context_features(words, i, t1)
}

/// The rows of weights that a model holds for the given features, in their
/// order.
pub open spec fn rows_of(model: &Model, features: Seq<Option<Feature>>) -> Seq<Seq<(POS, i32)>>
    decreases features.len(),
{
    if features.len() == 0 {
        Seq::empty()
    } else {
        let before = rows_of(model, features.drop_last());
        match features.last() {
            Some(f) => match model.row(f) {
                Some(row) => before.push(row),
                None => before,
            },
            None => before,
        }
    }
}

/// The scores after each weight of a row was added to the score of its tag.
pub open spec fn add_row(scores: Seq<i64>, row: Seq<(POS, i32)>) -> Seq<i64>
    decreases row.len(),
{
    if row.len() == 0 {
        scores
    } else {
        let before = add_row(scores, row.drop_last());
        let at = row.last().0.spec_index() as int;
        before.update(at, add_weight(before[at], row.last().1))
    }
}

/// The scores after each of the rows was added.
pub open spec fn add_rows(scores: Seq<i64>, rows: Seq<Seq<(POS, i32)>>) -> Seq<i64>
    decreases rows.len(),
{
    if rows.len() == 0 {
        scores
    } else {
        add_row(add_rows(scores, rows.drop_last()), rows.last())
    }
}

/// The part of speech with the highest of the scores: of several with that
/// score, the first.
pub open spec fn best_of(scores: Seq<i64>) -> POS {
    choose|pos: POS| is_first_max(scores, pos.spec_index() as int)
}

/// The tag that the model predicts for the word `i` of a block, when the
/// word before bears the tag `t1` and the word two before the tag `t2`.
pub open spec fn predicted_tag(model: &Model, words: Seq<Word>, i: int, t1: POS, t2: POS) -> POS {
    best_of(add_rows(model.spec_initial_scores()@, rows_of(model, features(words, i, t1, t2))))
}

/// The tags of the last word and of the word before it, after the first `k`
/// words of a block were gone through.
pub open spec fn tags_before(model: &Model, words: Seq<Word>, k: int) -> (POS, POS)
    decreases k, 0int,
{
    if k <= 0 {
        (POS::Start, POS::Start2)
    } else {
        (tag_at(model, words, k - 1), tags_before(model, words, k - 1).0)
    }
}

/// The tag of the word `k` of a block once the block was gone through: its
/// own where it has one, else the predicted one.
pub open spec fn tag_at(model: &Model, words: Seq<Word>, k: int) -> POS
    decreases k, 1int,
{
    if k < 0 || k >= words.len() {
        POS::Start
    } else {
        match words[k].spec_tag() {
            Some(tag) => tag,
            None => predicted_tag(
                model,
                words,
                k,
                tags_before(model, words, k).0,
                tags_before(model, words, k).1,
            ),
        }
    }
}

/// The words bear the same texts and the same tags.
pub open spec fn same_words(a: Seq<Word>, b: Seq<Word>) -> bool {
    &&& a.len() == b.len()
    &&& forall|k: int|
        0 <= k < a.len() ==> (#[trigger] a[k]).text() == b[k].text() && a[k].spec_tag()
            == b[k].spec_tag()
}

/// Tagging is a function of the texts and tags of the words: two blocks with
/// the same words get the same tags.
pub proof fn lemma_tagging_is_deterministic(model: &Model, a: Seq<Word>, b: Seq<Word>, k: int)
    requires
        same_words(a, b),
        0 <= k < a.len(),
    ensures
        tag_at(model, a, k) == tag_at(model, b, k),
        tags_before(model, a, k) == tags_before(model, b, k),
    decreases k,
{
    if k > 0 {
        lemma_tagging_is_deterministic(model, a, b, k - 1);
        if k > 1 {
            lemma_tagging_is_deterministic(model, a, b, k - 2);
        }
    }
    let t1 = tags_before(model, a, k).0;
    let t2 = tags_before(model, a, k).1;
    assert(tags_before(model, a, k) == tags_before(model, b, k));
    assert(a[k].text() == b[k].text());
    assert forall|j: int| context_at(a, j) == context_at(b, j) by {
        if 0 <= j < a.len() {
            assert(a[j].text() == b[j].text());
        }
    }
    assert(context_features(a, k, t1) =~= context_features(b, k, t1));
    assert(features(a, k, t1, t2) =~= features(b, k, t1, t2));
}

/// The context used by the perceptron: the words of context of a block,
/// with two markers before them and two after.
struct Context {
    tokens: Vec<Option<ContextWord>>,
}

impl Context {
    /// The context holds the words of context of `words`.
    spec fn holds(&self, words: Seq<Word>) -> bool {
        &&& self.tokens@.len() == words.len() + 4
        &&& forall|t: int|
            0 <= t < words.len() + 4 ==> #[trigger] self.tokens@[t] == context_at(words, t - 2)
    }

    /// Create a new `Context` from the given block.
    fn new(block: &Block<Word>) -> (context: Self)
        ensures
            context.holds(block@),
            block@.len() + 4 <= usize::MAX,
    {
        let words = block.as_slice();
        let mut tokens: Vec<Option<ContextWord>> = Vec::new();
        tokens.push(Some(ContextWord::start2()));
        tokens.push(Some(ContextWord::start()));
        let mut i: usize = 0;
        while i < words.len()
            invariant
                0 <= i <= words@.len(),
                words@ == block@,
                tokens@.len() == i + 2,
                forall|t: int| 0 <= t < i + 2 ==> #[trigger] tokens@[t] == context_at(words@, t - 2),
            decreases words@.len() - i,
        {
            let word = &words[i];
            tokens.push(ContextWord::new_from_word(word.as_str(), word.tag()));
            i += 1;
        }
        tokens.push(Some(ContextWord::end()));
        tokens.push(Some(ContextWord::end2()));
        let count = tokens.len();
        Context { tokens }
    }

    /// Get the context window around the given word index.
    ///
    /// This includes the two words before and after the given index.
    fn window(&self, i: usize) -> (around: (
        Option<ContextWord>,
        Option<ContextWord>,
        Option<ContextWord>,
        Option<ContextWord>,
        Option<ContextWord>,
    ))
        requires
            2 <= i,
            i + 2 < self.tokens@.len(),
        ensures
            around.0 == self.tokens@[i - 2],
            around.1 == self.tokens@[i - 1],
            around.2 == self.tokens@[i as int],
            around.3 == self.tokens@[i + 1],
            around.4 == self.tokens@[i + 2],
    {
        let count = self.tokens.len();
        (
            self.tokens[i - 2],
            self.tokens[i - 1],
            self.tokens[i],
            self.tokens[i + 1],
            self.tokens[i + 2],
        )
    }
}

/// The rows of weights of the features of a single word.
struct WordWeights<'m> {
    model: &'m Model,
    weights: Vec<&'m [(POS, i32)]>,
}

impl<'m> WordWeights<'m> {
    /// The rows that were pushed.
    spec fn rows(&self) -> Seq<Seq<(POS, i32)>> {
        Seq::new(self.weights@.len(), |i: int| self.weights@[i]@)
    }

    /// Create a new `WordWeights` for the given model, with no row.
    fn new(model: &'m Model) -> (weights: Self)
        ensures
            weights.model == model,
            weights.rows() == Seq::<Seq<(POS, i32)>>::empty(),
    {
        let weights = WordWeights { model, weights: Vec::with_capacity(Feature::num_features()) };
        assert(weights.rows() =~= Seq::<Seq<(POS, i32)>>::empty());
        weights
    }

    /// Clear the current rows.
    fn clear(&mut self)
        ensures
            final(self).model == old(self).model,
            final(self).rows() == Seq::<Seq<(POS, i32)>>::empty(),
    {
        self.weights.clear();
        assert(self.rows() =~= Seq::<Seq<(POS, i32)>>::empty());
    }

    /// Push the row of the given feature, where the feature is had and the
    /// model holds a row for it.
    fn push(&mut self, feature: Option<Feature>, Ghost(before): Ghost<Seq<Option<Feature>>>)
        requires
            old(self).rows() == rows_of(old(self).model, before),
        ensures
            final(self).model == old(self).model,
            final(self).rows() == rows_of(old(self).model, before.push(feature)),
    {
        let ghost rows = self.rows();
        proof {
            assert(before.push(feature).drop_last() =~= before);
        }
        if let Some(f) = feature {
            if let Some(weights) = self.model.get(&f) {
                self.weights.push(weights);
                assert(self.rows() =~= rows.push(weights@));
            }
        }
    }

    /// Get the current rows.
    fn as_slice(&self) -> (rows: &[&'m [(POS, i32)]])
        ensures
            rows@ == self.weights@,
    {
        self.weights.as_slice()
    }
}

/// A perceptron.
pub struct Perceptron<'m> {
    model: &'m Model,
}

impl<'m> Perceptron<'m> {
    /// The model of the perceptron.
    pub closed spec fn model(&self) -> &Model {
        self.model
    }

    /// Create a new perceptron with the given model.
    pub fn new(model: &'m Model) -> (perceptron: Self)
        ensures
            perceptron.model() == model,
    {
        Self { model }
    }

    /// Predict the tags for all words in the given block.
    ///
    /// This should be run after the words that always bear the same tag were
    /// given it. Every word keeps its text and its offset; a word with a tag
    /// keeps it, and a word without one is given the predicted tag.
    pub fn predict(&self, block: &mut Block<Word>)
        ensures
            final(block).spec_kind() == old(block).spec_kind(),
            final(block)@.len() == old(block)@.len(),
            forall|k: int|
                0 <= k < old(block)@.len() ==> (#[trigger] final(block)@[k]).tagged(
                    &old(block)@[k],
                    Some(tag_at(self.model(), old(block)@, k)),
                ),
    {
        let context = Context::new(block);
        let mut weights = WordWeights::new(self.model);
        let ghost words = block@;

        let mut t1 = POS::Start;
        let mut t2 = POS::Start2;

        let count = block.len();
        let mut i: usize = 0;
        while i < count
            invariant
                0 <= i <= count,
                count == words.len(),
                count + 4 <= usize::MAX,
                words == old(block)@,
                block@.len() == count,
                block.spec_kind() == old(block).spec_kind(),
                context.holds(words),
                weights.model == self.model,
                (t1, t2) == tags_before(self.model, words, i as int),
                forall|k: int| i <= k < count ==> #[trigger] block@[k] == words[k],
                forall|k: int|
                    0 <= k < i ==> (#[trigger] block@[k]).tagged(
                        &words[k],
                        Some(tag_at(self.model, words, k)),
                    ),
            decreases count - i,
        {
            let mut word = block.as_slice()[i];
            let next_t1 = match word.tag() {
                None => {
                    // Only predict if the tag is currently unknown.
                    let tag = self.predict_one(
                        &mut weights,
                        &context,
                        i,
                        word.as_str(),
                        t1,
                        t2,
                        Ghost(words),
                    );
                    word.set_tag(tag);
                    block.set(i, word);
                    tag
                },
                Some(tag) => tag,
            };
            t2 = t1;
            t1 = next_t1;
            i += 1;
        }
    }

    /// Predict the tag for a single word.
    fn predict_one(
        &self,
        weights: &mut WordWeights<'m>,
        context: &Context,
        word_index: usize,
        token: &str,
        t1: POS,
        t2: POS,
        Ghost(words): Ghost<Seq<Word>>,
    ) -> (tag: POS)
        requires
            old(weights).model == self.model,
            context.holds(words),
            word_index < words.len(),
            words.len() + 4 <= usize::MAX,
            token@ == words[word_index as int].text(),
        ensures
            final(weights).model == self.model,
            tag == predicted_tag(self.model, words, word_index as int, t1, t2),
    {
        weights.clear();
        Self::push_own(weights, token, t1, t2);
        Self::push_context(
            weights,
            context,
            word_index,
            t1,
            Ghost(words),
            Ghost(own_features(token@, t1, t2)),
        );
        let scores = self.score(weights);
        let best = scores.max();
        proof {
            scores.lemma_len();
            let chosen = best_of(scores@);
            let b = best.spec_index() as int;
            let c = chosen.spec_index() as int;
            assert(is_first_max(scores@, b));
            assert(is_first_max(scores@, c));
            if b < c {
                assert(scores@[b] < scores@[c]);
                assert(scores@[c] <= scores@[b]);
            } else if c < b {
                assert(scores@[c] < scores@[b]);
                assert(scores@[b] <= scores@[c]);
            }
            POS::lemma_index_injective(best, chosen);
        }
        best
    }

    /// Push the rows of the features of a token by itself.
    fn push_own(weights: &mut WordWeights<'m>, token: &str, t1: POS, t2: POS)
        requires
            old(weights).rows() == Seq::<Seq<(POS, i32)>>::empty(),
        ensures
            final(weights).model == old(weights).model,
            final(weights).rows() == rows_of(old(weights).model, own_features(token@, t1, t2)),
    {
        let ghost mut pushed: Seq<Option<Feature>> = Seq::empty();

        let suffix = match ContextSuffix::from_token(token) {
            Some(s) => Some(Feature::Suffix(s)),
            None => None,
        };
        weights.push(suffix, Ghost(pushed));
        proof {
            pushed = pushed.push(suffix);
        }

        let pref1 = match first_char(token) {
            Some(c) => if c <= '\u{7f}' {
                Some(Feature::Pref1(c as u8))
            } else {
                None
            },
            None => None,
        };
        weights.push(pref1, Ghost(pushed));
        proof {
            pushed = pushed.push(pref1);
        }

        weights.push(Some(Feature::IMinus1Tag(t1)), Ghost(pushed));
        proof {
            pushed = pushed.push(Some(Feature::IMinus1Tag(t1)));
        }
        weights.push(Some(Feature::IMinus2Tag(t2)), Ghost(pushed));
        proof {
            pushed = pushed.push(Some(Feature::IMinus2Tag(t2)));
        }
        weights.push(Some(Feature::ITagPlusIMinus2Tag(t1, t2)), Ghost(pushed));
        proof {
            pushed = pushed.push(Some(Feature::ITagPlusIMinus2Tag(t1, t2)));
            assert(pushed =~= own_features(token@, t1, t2));
        }
    }

    /// Push the rows of the features of a word by the words around it.
    #[verifier::rlimit(40)]
    fn push_context(
        weights: &mut WordWeights<'m>,
        context: &Context,
        word_index: usize,
        t1: POS,
        Ghost(words): Ghost<Seq<Word>>,
        Ghost(before): Ghost<Seq<Option<Feature>>>,
    )
        requires
            old(weights).rows() == rows_of(old(weights).model, before),
            context.holds(words),
            word_index < words.len(),
            words.len() + 4 <= usize::MAX,
        ensures
            final(weights).model == old(weights).model,
            final(weights).rows() == rows_of(
                old(weights).model,
                before + context_features(words, word_index as int, t1),
            ),
    {
        let ghost i = word_index as int;
        let ghost mut pushed: Seq<Option<Feature>> = before;
        let (minus2, minus1, current, plus1, plus2) = context.window(word_index + 2);
        proof {
            assert(minus2 == context_at(words, i - 2));
            assert(minus1 == context_at(words, i - 1));
            assert(current == context_at(words, i));
            assert(plus1 == context_at(words, i + 1));
            assert(plus2 == context_at(words, i + 2));
        }

        let f0 = match minus2 {
            Some(word) => Some(Feature::IMinus2Word(word)),
            None => None,
        };
        weights.push(f0, Ghost(pushed));
        proof {
            pushed = pushed.push(f0);
        }

        let f1 = match minus1 {
            Some(word) => Some(Feature::IMinus1Word(word)),
            None => None,
        };
        weights.push(f1, Ghost(pushed));
        proof {
            pushed = pushed.push(f1);
        }
        let f2 = match minus1 {
            Some(word) => Some(Feature::IMinus1Suffix(word.suffix())),
            None => None,
        };
        weights.push(f2, Ghost(pushed));
        proof {
            pushed = pushed.push(f2);
        }

        let f3 = match current {
            Some(word) => Some(Feature::IWord(word)),
            None => None,
        };
        weights.push(f3, Ghost(pushed));
        proof {
            pushed = pushed.push(f3);
        }
        let f4 = match current {
            Some(word) => Some(Feature::IMinus1TagPlusIWord(t1, word)),
            None => None,
        };
        weights.push(f4, Ghost(pushed));
        proof {
            pushed = pushed.push(f4);
        }

        let f5 = match plus1 {
            Some(word) => Some(Feature::IPlus1Word(word)),
            None => None,
        };
        weights.push(f5, Ghost(pushed));
        proof {
            pushed = pushed.push(f5);
        }
        let f6 = match plus1 {
            Some(word) => Some(Feature::IPlus1Suffix(word.suffix())),
            None => None,
        };
        weights.push(f6, Ghost(pushed));
        proof {
            pushed = pushed.push(f6);
        }

        let f7 = match plus2 {
            Some(word) => Some(Feature::IPlus2Word(word)),
            None => None,
        };
        weights.push(f7, Ghost(pushed));
        proof {
            pushed = pushed.push(f7);
            let around = context_features(words, i, t1);
            assert(around.len() == 8);
            assert(around[0] == f0);
            assert(around[1] == f1);
            assert(around[2] == f2);
            assert(around[3] == f3);
            assert(around[4] == f4);
            assert(around[5] == f5);
            assert(around[6] == f6);
            assert(around[7] == f7);
            assert(pushed =~= before + around);
        }
    }

    /// The scores of the tags: those that every prediction starts from, with
    /// the weights of each row added.
    fn score(&self, weights: &WordWeights<'m>) -> (scores: Scores)
        ensures
            scores@ == add_rows(self.model.spec_initial_scores()@, weights.rows()),
    {
        let mut scores = self.model.initial_scores();
        let rows = weights.as_slice();
        let ghost all_rows = weights.rows();
        let mut r: usize = 0;
        assert(all_rows.take(0) =~= Seq::<Seq<(POS, i32)>>::empty());
        while r < rows.len()
            invariant
                0 <= r <= rows@.len(),
                rows@.len() == all_rows.len(),
                forall|k: int| 0 <= k < rows@.len() ==> (#[trigger] rows@[k])@ == all_rows[k],
                scores@ == add_rows(self.model.spec_initial_scores()@, all_rows.take(r as int)),
            decreases rows@.len() - r,
        {
            let row = rows[r];
            let ghost start = scores@;
            let mut w: usize = 0;
            assert(row@.take(0) =~= Seq::<(POS, i32)>::empty());
            while w < row.len()
                invariant
                    0 <= w <= row@.len(),
                    scores@ == add_row(start, row@.take(w as int)),
                decreases row@.len() - w,
            {
                let (tag, weight) = row[w];
                assert(row@.take(w + 1).drop_last() =~= row@.take(w as int));
                scores.update(tag, weight);
                w += 1;
            }
            proof {
                assert(row@.take(row@.len() as int) =~= row@);
                assert(all_rows.take(r + 1).drop_last() =~= all_rows.take(r as int));
            }
            r += 1;
        }
        proof {
            assert(all_rows.take(all_rows.len() as int) =~= all_rows);
        }
        scores
    }
}

} // verus!
