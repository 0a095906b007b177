//! The order in which the rules and the measures of a set are applied does
//! not show in the sorted results.

use crate::block::{Block, Word};
use crate::doc::{blocks_lie_in, places_fix_tags, Document};
use crate::gather::{gathered, lemma_gathered_rearranged, lemma_rearranged, rearranged, rearranges};
use crate::rule::{
    all_findings, all_measured, lemma_measurement_order_is_unique, lemma_warning_order_is_unique,
    measured_blocks, measured_words, measurement_of, told_apart, BoxedPattern, BoxedRule,
    MeasureInstance, MeasureKey, Measurement, MeasurementView, Results, RuleSet, Warning,
    WarningView,
};
use crate::sort::in_order;
use vstd::prelude::*;

verus! {

/// What each of the rules finds in a document.
pub open spec fn found_each(rules: Seq<BoxedRule>, doc: &Document) -> Seq<Seq<WarningView>> {
    Seq::new(rules.len(), |i: int| rules[i].findings(doc))
}

/// What each of the measures takes of a document.
pub open spec fn taken_each(measures: Seq<MeasureInstance>, doc: &Document) -> Seq<
    Seq<MeasurementView>,
> {
    Seq::new(measures.len(), |i: int| measures[i].measured(doc))
}

/// What the rules find is what each finds, one after another.
proof fn lemma_findings_gathered(rules: Seq<BoxedRule>, doc: &Document, upto: int)
    requires
        upto <= rules.len(),
    ensures
        all_findings(rules, doc, upto) == gathered(found_each(rules, doc), upto),
    decreases upto,
{
    if upto > 0 {
        lemma_findings_gathered(rules, doc, upto - 1);
    }
}

/// What the measures take is what each takes, one after another.
proof fn lemma_measured_gathered(measures: Seq<MeasureInstance>, doc: &Document, upto: int)
    requires
        upto <= measures.len(),
    ensures
        all_measured(measures, doc, upto) == gathered(taken_each(measures, doc), upto),
    decreases upto,
{
    if upto > 0 {
        lemma_measured_gathered(measures, doc, upto - 1);
    }
}

/// Patterns that match the same words give the same measurements of words.
proof fn lemma_alike_words(
    p: BoxedPattern,
    q: BoxedPattern,
    key: MeasureKey,
    words: Seq<Word>,
    upto: int,
)
    requires
        forall|word: Word| #[trigger] p.accepts(word) == q.accepts(word),
    ensures
        measured_words(p, key, words, upto) == measured_words(q, key, words, upto),
    decreases upto,
{
    if upto > 0 {
        lemma_alike_words(p, q, key, words, upto - 1);
        assert(p.accepts(words[upto - 1]) == q.accepts(words[upto - 1]));
    }
}

/// Patterns that match the same words give the same measurements of blocks.
proof fn lemma_alike_blocks(
    p: BoxedPattern,
    q: BoxedPattern,
    key: MeasureKey,
    blocks: Seq<Block<Word>>,
    upto: int,
)
    requires
        forall|word: Word| #[trigger] p.accepts(word) == q.accepts(word),
    ensures
        measured_blocks(p, key, blocks, upto) == measured_blocks(q, key, blocks, upto),
    decreases upto,
{
    if upto > 0 {
        lemma_alike_blocks(p, q, key, blocks, upto - 1);
        lemma_alike_words(p, q, key, blocks[upto - 1]@, blocks[upto - 1]@.len() as int);
    }
}

/// Measures with one key that match the same words take the same
/// measurements of a document.
pub proof fn lemma_alike_measures(a: &MeasureInstance, b: &MeasureInstance, doc: &Document)
    requires
        a.alike(b),
    ensures
        a.measured(doc) == b.measured(doc),
{
    lemma_alike_blocks(
        a.spec_pattern(),
        b.spec_pattern(),
        a.spec_key(),
        doc.spec_blocks(),
        doc.spec_blocks().len() as int,
    );
}

/// The measurement is one of a word of the blocks.
pub open spec fn measures_word_of(one: MeasurementView, blocks: Seq<Block<Word>>) -> bool {
    exists|b: int, w: int|
        0 <= b < blocks.len() && 0 <= w < blocks[b]@.len() && one.text == (
        #[trigger] blocks[b]@[w]).text() && one.offset == blocks[b]@[w].spec_offset() && one.tag
            == blocks[b]@[w].spec_tag()
}

/// Each measurement of words is one of a word among them.
proof fn lemma_measured_words_of(
    pattern: BoxedPattern,
    key: MeasureKey,
    words: Seq<Word>,
    upto: int,
    i: int,
)
    requires
        upto <= words.len(),
        0 <= i < measured_words(pattern, key, words, upto).len(),
    ensures
        exists|w: int|
            0 <= w < upto && measured_words(pattern, key, words, upto)[i] == measurement_of(
                #[trigger] words[w],
                key,
            ),
    decreases upto,
{
    let before = measured_words(pattern, key, words, upto - 1);
    if i < before.len() {
        lemma_measured_words_of(pattern, key, words, upto - 1, i);
        let w = choose|w: int|
            0 <= w < upto - 1 && before[i] == measurement_of(#[trigger] words[w], key);
        assert(measured_words(pattern, key, words, upto)[i] == measurement_of(words[w], key));
    } else {
        assert(measured_words(pattern, key, words, upto)[i] == measurement_of(
            words[upto - 1],
            key,
        ));
    }
}

/// Each measurement of blocks is one of a word of the blocks.
proof fn lemma_measured_blocks_of(
    pattern: BoxedPattern,
    key: MeasureKey,
    blocks: Seq<Block<Word>>,
    upto: int,
    i: int,
)
    requires
        upto <= blocks.len(),
        0 <= i < measured_blocks(pattern, key, blocks, upto).len(),
    ensures
        measures_word_of(measured_blocks(pattern, key, blocks, upto)[i], blocks),
    decreases upto,
{
    let before = measured_blocks(pattern, key, blocks, upto - 1);
    if i < before.len() {
        lemma_measured_blocks_of(pattern, key, blocks, upto - 1, i);
    } else {
        let words = blocks[upto - 1]@;
        let more = measured_words(pattern, key, words, words.len() as int);
        lemma_measured_words_of(pattern, key, words, words.len() as int, i - before.len());
        let w = choose|w: int|
            0 <= w < words.len() && more[i - before.len()] == measurement_of(
                #[trigger] words[w],
                key,
            );
        assert(measured_blocks(pattern, key, blocks, upto)[i] == measurement_of(
            blocks[upto - 1]@[w],
            key,
        ));
    }
}

/// Each measurement that measures take of a document is one of a word of
/// the document.
proof fn lemma_all_measured_of(
    measures: Seq<MeasureInstance>,
    doc: &Document,
    upto: int,
    i: int,
)
    requires
        upto <= measures.len(),
        0 <= i < all_measured(measures, doc, upto).len(),
    ensures
        measures_word_of(all_measured(measures, doc, upto)[i], doc.spec_blocks()),
    decreases upto,
{
    let before = all_measured(measures, doc, upto - 1);
    if i < before.len() {
        lemma_all_measured_of(measures, doc, upto - 1, i);
    } else {
        lemma_measured_blocks_of(
            measures[upto - 1].spec_pattern(),
            measures[upto - 1].spec_key(),
            doc.spec_blocks(),
            doc.spec_blocks().len() as int,
            i - before.len(),
        );
    }
}

/// Where the words of a document at one place have one tag, the
/// measurements that measures take of it at one place under one key are one
/// measurement.
pub proof fn lemma_measured_told_apart(measures: Seq<MeasureInstance>, doc: &Document)
    requires
        blocks_lie_in(doc.spec_blocks(), doc.text()),
        places_fix_tags(doc.spec_blocks()),
    ensures
        told_apart(all_measured(measures, doc, measures.len() as int)),
{
    let all = all_measured(measures, doc, measures.len() as int);
    let blocks = doc.spec_blocks();
    assert forall|i: int, j: int|
        0 <= i < all.len() && 0 <= j < all.len() && (#[trigger] all[i]).offset == (
        #[trigger] all[j]).offset && crate::text::utf8_len(all[i].text) == crate::text::utf8_len(
            all[j].text,
        ) && all[i].key == all[j].key implies all[i] == all[j] by {
        lemma_all_measured_of(measures, doc, measures.len() as int, i);
        lemma_all_measured_of(measures, doc, measures.len() as int, j);
        let (b, w) = choose|b: int, w: int|
            0 <= b < blocks.len() && 0 <= w < blocks[b]@.len() && all[i].text == (
            #[trigger] blocks[b]@[w]).text() && all[i].offset == blocks[b]@[w].spec_offset()
                && all[i].tag == blocks[b]@[w].spec_tag();
        let (c, v) = choose|c: int, v: int|
            0 <= c < blocks.len() && 0 <= v < blocks[c]@.len() && all[j].text == (
            #[trigger] blocks[c]@[v]).text() && all[j].offset == blocks[c]@[v].spec_offset()
                && all[j].tag == blocks[c]@[v].spec_tag();
        assert(blocks[b]@[w].lies_in(doc.text()));
        assert(blocks[c]@[v].lies_in(doc.text()));
        assert(blocks[b]@[w].spec_end() == blocks[c]@[v].spec_end());
        assert(all[i].text == all[j].text);
        assert(all[i].tag == all[j].tag);
    }
}

/// The order in which the rules and the measures of a set are applied does
/// not show in the results. Where a second set holds, in another order,
/// rules that find what those of the first find in a document and measures
/// like those of the first, and the words of the document at one place have
/// one tag, the sorted results of the two sets for the document are the
/// same.
pub proof fn lemma_order_of_application(
    a: &RuleSet,
    b: &RuleSet,
    rule_order: Seq<int>,
    measure_order: Seq<int>,
    doc: &Document,
    first: &Results,
    second: &Results,
)
    requires
        a.rules().len() == b.rules().len(),
        rearranges(rule_order, a.rules().len()),
        forall|i: int|
            0 <= i < b.rules().len() ==> (#[trigger] b.rules()[i]).findings(doc)
                == a.rules()[rule_order[i]].findings(doc),
        a.measures().len() == b.measures().len(),
        rearranges(measure_order, a.measures().len()),
        forall|i: int|
            0 <= i < b.measures().len() ==> (#[trigger] b.measures()[i]).alike(
                &a.measures()[measure_order[i]],
            ),
        blocks_lie_in(doc.spec_blocks(), doc.text()),
        places_fix_tags(doc.spec_blocks()),
        in_order::<Warning>(first.warnings()),
        in_order::<Measurement>(first.measurements()),
        first.warnings().to_multiset() == all_findings(
            a.rules(),
            doc,
            a.rules().len() as int,
        ).to_multiset(),
        first.measurements().to_multiset() == all_measured(
            a.measures(),
            doc,
            a.measures().len() as int,
        ).to_multiset(),
        in_order::<Warning>(second.warnings()),
        in_order::<Measurement>(second.measurements()),
        second.warnings().to_multiset() == all_findings(
            b.rules(),
            doc,
            b.rules().len() as int,
        ).to_multiset(),
        second.measurements().to_multiset() == all_measured(
            b.measures(),
            doc,
            b.measures().len() as int,
        ).to_multiset(),
    ensures
        first.warnings() == second.warnings(),
        first.measurements() == second.measurements(),
{
    let found_a = found_each(a.rules(), doc);
    let found_b = found_each(b.rules(), doc);
    assert(rearranged(found_a, found_b, rule_order));
    lemma_rearranged(found_a, found_b, rule_order);
    lemma_gathered_rearranged(found_a, found_b);
    lemma_findings_gathered(a.rules(), doc, a.rules().len() as int);
    lemma_findings_gathered(b.rules(), doc, b.rules().len() as int);
    lemma_warning_order_is_unique(first.warnings(), second.warnings());

    let taken_a = taken_each(a.measures(), doc);
    let taken_b = taken_each(b.measures(), doc);
    assert forall|i: int| 0 <= i < taken_b.len() implies #[trigger] taken_b[i]
        == taken_a[measure_order[i]] by {
        assert(b.measures()[i].alike(&a.measures()[measure_order[i]]));
        lemma_alike_measures(&b.measures()[i], &a.measures()[measure_order[i]], doc);
    }
    assert(rearranged(taken_a, taken_b, measure_order));
    lemma_rearranged(taken_a, taken_b, measure_order);
    lemma_gathered_rearranged(taken_a, taken_b);
    lemma_measured_gathered(a.measures(), doc, a.measures().len() as int);
    lemma_measured_gathered(b.measures(), doc, b.measures().len() as int);

    let all = all_measured(a.measures(), doc, a.measures().len() as int);
    lemma_measured_told_apart(a.measures(), doc);
    assert(told_apart(first.measurements())) by {
        let held = first.measurements();
        held.to_multiset_ensures();
        all.to_multiset_ensures();
        assert forall|i: int, j: int|
            0 <= i < held.len() && 0 <= j < held.len() && (#[trigger] held[i]).offset == (
            #[trigger] held[j]).offset && crate::text::utf8_len(held[i].text)
                == crate::text::utf8_len(held[j].text) && held[i].key
                == held[j].key implies held[i] == held[j] by {
            assert(held.contains(held[i]));
            assert(held.contains(held[j]));
            assert(all.to_multiset().count(held[i]) > 0);
            assert(all.to_multiset().count(held[j]) > 0);
            assert(all.contains(held[i]));
            assert(all.contains(held[j]));
            let p = choose|p: int| 0 <= p < all.len() && all[p] == held[i];
            let q = choose|q: int| 0 <= q < all.len() && all[q] == held[j];
            assert(all[p] == all[q]);
        }
    }
    lemma_measurement_order_is_unique(first.measurements(), second.measurements());
}

} // verus!
