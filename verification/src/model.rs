//! The tagger's model: a table of tags for words that always bear the same
//! tag, and a table of weights by feature.
//!
//! Weights are whole numbers: a model whose weights are fractions is scaled
//! by a fixed factor before it comes here. Scores add weights up and stop at
//! the ends of their range instead of wrapping round.

use crate::data::Feature;
use crate::pos::POS;
use fxhash::FxHashMap;
use std::ops::Range;
use vstd::prelude::*;

verus! {

/// The sum of a score and a weight, held to the range of a score.
pub open spec fn add_weight(score: i64, weight: i32) -> i64 {
    if score + weight > i64::MAX {
        i64::MAX
    } else if score + weight < i64::MIN {
        i64::MIN
    } else {
        (score + weight) as i64
    }
}

/// `best` is the first place among `scores` that holds their greatest value.
pub open spec fn is_first_max(scores: Seq<i64>, best: int) -> bool {
    &&& 0 <= best < scores.len()
    &&& forall|j: int| 0 <= j < scores.len() ==> scores[j] <= scores[best]
    &&& forall|j: int| 0 <= j < best ==> scores[j] < scores[best]
}

/// A score for each part of speech.
#[derive(Copy, Clone, Debug)]
pub struct Scores {
    scores: [i64; 49],
}

impl View for Scores {
    type V = Seq<i64>;

    closed spec fn view(&self) -> Seq<i64> {
        self.scores@
    }
}

impl Scores {
    /// There is one score for each part of speech.
    pub proof fn lemma_len(&self)
        ensures
            self@.len() == POS::COUNT,
    {
    }

    /// The score of a part of speech.
    pub fn get(&self, pos: POS) -> (score: i64)
        ensures
            score == self@[pos.spec_index() as int],
    {
        self.scores[pos.index()]
    }

    /// Add `score` to the current score for `pos`.
    pub fn update(&mut self, pos: POS, score: i32)
        ensures
            final(self)@ == old(self)@.update(
                pos.spec_index() as int,
                add_weight(old(self)@[pos.spec_index() as int], score),
            ),
    {
        let i = pos.index();
        let sum: i128 = self.scores[i] as i128 + score as i128;
        let held: i64 = if sum > i64::MAX as i128 {
            i64::MAX
        } else if sum < i64::MIN as i128 {
            i64::MIN
        } else {
            sum as i64
        };
        self.scores[i] = held;
    }

    /// Get the part of speech with the highest score: of several with that
    /// score, the first in the order of the parts of speech.
    pub fn max(&self) -> (best: POS)
        ensures
            is_first_max(self@, best.spec_index() as int),
    {
        let mut best: usize = 0;
        let mut i: usize = 1;
        while i < 49
            invariant
                1 <= i <= 49,
                0 <= best < i,
                forall|j: int| 0 <= j < i ==> self@[j] <= self@[best as int],
                forall|j: int| 0 <= j < best ==> self@[j] < self@[best as int],
            decreases 49 - i,
        {
            if self.scores[i] > self.scores[best] {
                best = i;
            }
            i += 1;
        }
        match POS::from_index(best) {
            Some(pos) => pos,
            None => POS::Start,
        }
    }
}

impl Default for Scores {
    fn default() -> (scores: Self)
        ensures
            scores@ == Seq::new(49, |i: int| 0i64),
    {
        let scores = Scores { scores: [0i64; 49] };
        assert(scores@ =~= Seq::new(49, |i: int| 0i64));
        scores
    }
}

/// A range of weights in the model, with 32-bit bounds.
#[derive(Copy, Clone, Debug, PartialEq, Eq, PartialOrd, Ord, Structural)]
pub struct WeightRange {
    start: u32,
    end: u32,
}

impl WeightRange {
    /// The index of the first weight of the range.
    pub closed spec fn spec_start(&self) -> u32 {
        self.start
    }

    /// The index after the last weight of the range.
    pub closed spec fn spec_end(&self) -> u32 {
        self.end
    }

    /// Create a new `WeightRange`.
    ///
    /// The bounds are cut to their low 32 bits; nothing else is checked.
    pub fn new(start: usize, end: usize) -> (range: Self)
        ensures
            range.spec_start() == start as u32,
            range.spec_end() == end as u32,
    {
        WeightRange { start: #[verifier::truncate] (start as u32), end: #[verifier::truncate] (end as u32) }
    }

    /// Get the range as a `Range<usize>`.
    pub fn as_range(&self) -> (bounds: Range<usize>)
        ensures
            bounds.start == self.spec_start(),
            bounds.end == self.spec_end(),
    {
        (self.start as usize)..(self.end as usize)
    }
}

/// `BuildHasherDefault` of the standard library, which carries no data. It is
/// named here only so that a map with such a hasher can be held.
#[verifier::external_type_specification]
#[verifier::external_body]
#[verifier::reject_recursive_types(H)]
pub struct ExBuildHasherDefault<H>(std::hash::BuildHasherDefault<H>);

/// `fxhash::FxHasher`, the hasher of the model's tables. It is named here
/// only so that such a table can be held.
#[verifier::external_type_specification]
#[verifier::external_body]
pub struct ExFxHasher(fxhash::FxHasher);

/// What a table of static tags holds: for each word in it, its tag.
pub uninterp spec fn static_tag_entries(table: FxHashMap<String, POS>) -> Map<Seq<char>, POS>;

/// What a table of weight ranges holds: for each feature in it, its range.
pub uninterp spec fn weight_range_entries(table: FxHashMap<Feature, WeightRange>) -> Map<
    Feature,
    WeightRange,
>;

/// `HashMap::get` of the standard library, on a table of static tags with
/// the hasher of `fxhash`: the tag that the table holds for the word, or
/// `None` where it holds none.
#[verifier::external_body]
fn static_tag_get(table: &FxHashMap<String, POS>, word: &str) -> (tag: Option<POS>)
    ensures
        tag == (if static_tag_entries(*table).contains_key(word@) {
            Some(static_tag_entries(*table)[word@])
        } else {
            None
        }),
{
    table.get(word).copied()
}

/// `HashMap::get` of the standard library, on a table of weight ranges with
/// the hasher of `fxhash`: the range that the table holds for the feature,
/// or `None` where it holds none. Features are the same key where they are
/// the same value.
#[verifier::external_body]
fn weight_range_get(table: &FxHashMap<Feature, WeightRange>, feature: &Feature) -> (range: Option<
    WeightRange,
>)
    ensures
        range == (if weight_range_entries(*table).contains_key(*feature) {
            Some(weight_range_entries(*table)[*feature])
        } else {
            None
        }),
{
    table.get(feature).copied()
}

/// A model for the tagger.
pub struct Model {
    static_tags: FxHashMap<String, POS>,
    weights: Vec<(POS, i32)>,
    mapping: FxHashMap<Feature, WeightRange>,
    initial_scores: Scores,
}

impl Model {
    /// The words that always bear the same tag, each with its tag.
    pub closed spec fn static_tags(&self) -> Map<Seq<char>, POS> {
        static_tag_entries(self.static_tags)
    }

    /// All the weights of the model, each for a tag.
    pub closed spec fn weights(&self) -> Seq<(POS, i32)> {
        self.weights@
    }

    /// For each feature that the model knows, where its weights lie.
    pub closed spec fn ranges(&self) -> Map<Feature, WeightRange> {
        weight_range_entries(self.mapping)
    }

    /// The scores that every prediction starts from.
    pub closed spec fn spec_initial_scores(&self) -> Scores {
        self.initial_scores
    }

    /// The weights of a feature: those in its range, where the model knows
    /// the feature and the range lies within the weights.
    pub open spec fn row(&self, feature: Feature) -> Option<Seq<(POS, i32)>> {
        if self.ranges().contains_key(feature) {
            let range = self.ranges()[feature];
            if range.spec_start() <= range.spec_end() <= self.weights().len() {
                Some(self.weights().subrange(range.spec_start() as int, range.spec_end() as int))
            } else {
                None
            }
        } else {
            None
        }
    }

    /// Create a new model.
    pub fn new(
        static_tags: FxHashMap<String, POS>,
        weights: Vec<(POS, i32)>,
        mapping: FxHashMap<Feature, WeightRange>,
        initial_scores: Scores,
    ) -> (model: Self)
        ensures
            model.static_tags() == static_tag_entries(static_tags),
            model.weights() == weights@,
            model.ranges() == weight_range_entries(mapping),
            model.spec_initial_scores() == initial_scores,
    {
        Model { static_tags, weights, mapping, initial_scores }
    }

    /// Get the initial scores that should be used when predicting a word
    #[verifier::when_used_as_spec(spec_initial_scores)]
    pub fn initial_scores(&self) -> (scores: Scores)
        ensures
            scores == self.spec_initial_scores(),
    {
        self.initial_scores
    }

    /// Get the static tag for a word
    pub fn get_static_tag(&self, word: &str) -> (tag: Option<POS>)
        ensures
            tag == (if self.static_tags().contains_key(word@) {
                Some(self.static_tags()[word@])
            } else {
                None
            }),
    {
        static_tag_get(&self.static_tags, word)
    }

    /// Get the weights for a feature
    pub fn get(&self, feature: &Feature) -> (weights: Option<&[(POS, i32)]>)
        ensures
            match weights {
                Some(w) => self.row(*feature) == Some(w@),
                None => self.row(*feature) is None,
            },
    {
        match weight_range_get(&self.mapping, feature) {
            Some(range) => {
                let bounds = range.as_range();
                if bounds.start <= bounds.end && bounds.end <= self.weights.len() {
                    Some(vstd::slice::slice_subrange(self.weights.as_slice(), bounds.start, bounds.end))
                } else {
                    None
                }
            },
            None => None,
        }
    }
}

} // verus!
