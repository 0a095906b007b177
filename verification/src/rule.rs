//! Rules and measures, and what they find in a document.
//!
//! A rule goes through a document and adds warnings. A measure counts the
//! words that a pattern matches. A set of rules and measures applies them
//! all to a document and hands back what they found, sorted.

use crate::block::{Block, Word};
use crate::doc::{blocks_lie_in, offsets_in_order, Document};
use crate::lines::{spans_to_ranges, HasSpan, LineCharRange};
use crate::matcher::{
    is_match_in, is_match_of, lemma_kept, lemma_match_in_is_match, match_words, matches_upto,
    searched, Matcher, MultipleWordPattern, SingleWordPattern,
};
use crate::sort::{in_order, keys, sort, Ranked};
use crate::span::ByteSpan;
use crate::text::utf8_len;
use vstd::prelude::*;
use vstd::std_specs::iter::IteratorSpec;
use vstd::string::*;

verus! {

/// The first text is not after the second in the order of a dictionary, with
/// the characters in the order of their codes.
pub open spec fn text_le(a: Seq<char>, b: Seq<char>) -> bool
    decreases a.len(),
{
    if a.len() == 0 {
        true
    } else if b.len() == 0 {
        false
    } else if a[0] != b[0] {
        (a[0] as u32) < (b[0] as u32)
    } else {
        text_le(a.drop_first(), b.drop_first())
    }
}

/// Of two texts one is not after the other.
pub proof fn lemma_text_le_total(a: Seq<char>, b: Seq<char>)
    ensures
        text_le(a, b) || text_le(b, a),
    decreases a.len(),
{
    if a.len() > 0 && b.len() > 0 {
        if a[0] == b[0] {
            lemma_text_le_total(a.drop_first(), b.drop_first());
        } else {
            vstd::utf8::char_u32_cast(a[0], a[0] as u32);
            vstd::utf8::char_u32_cast(b[0], b[0] as u32);
        }
    }
}

/// The order of texts is transitive.
pub proof fn lemma_text_le_transitive(a: Seq<char>, b: Seq<char>, c: Seq<char>)
    requires
        text_le(a, b),
        text_le(b, c),
    ensures
        text_le(a, c),
    decreases a.len(),
{
    if a.len() > 0 && b.len() > 0 && c.len() > 0 {
        vstd::utf8::char_u32_cast(a[0], a[0] as u32);
        vstd::utf8::char_u32_cast(b[0], b[0] as u32);
        vstd::utf8::char_u32_cast(c[0], c[0] as u32);
        if a[0] == b[0] && b[0] == c[0] {
            lemma_text_le_transitive(a.drop_first(), b.drop_first(), c.drop_first());
        }
    }
}

/// Two texts of which each is not after the other are the same text.
pub proof fn lemma_text_le_antisymmetric(a: Seq<char>, b: Seq<char>)
    requires
        text_le(a, b),
        text_le(b, a),
    ensures
        a == b,
    decreases a.len(),
{
    if a.len() > 0 && b.len() > 0 {
        vstd::utf8::char_u32_cast(a[0], a[0] as u32);
        vstd::utf8::char_u32_cast(b[0], b[0] as u32);
        lemma_text_le_antisymmetric(a.drop_first(), b.drop_first());
        assert(a =~= seq![a[0]] + a.drop_first());
        assert(b =~= seq![b[0]] + b.drop_first());
    } else {
        assert(a =~= b);
    }
}

/// Whether the first string is not after the second in the order of a
/// dictionary.
pub fn str_le(a: &str, b: &str) -> (le: bool)
    ensures
        le == text_le(a@, b@),
{
    broadcast use vstd::string::group_string_axioms;

    let mut x = a.chars();
    let mut y = b.chars();
    let ghost mut k: int = 0;
    proof {
        assert(a@.skip(0) =~= a@);
        assert(b@.skip(0) =~= b@);
    }
    loop
        invariant
            0 <= k <= a@.len(),
            k <= b@.len(),
            x.remaining() == a@.skip(k),
            y.remaining() == b@.skip(k),
            text_le(a@, b@) == text_le(a@.skip(k), b@.skip(k)),
        decreases a@.len() - k,
    {
        match x.next() {
            None => {
                return true;
            },
            Some(c) => match y.next() {
                None => {
                    return false;
                },
                Some(d) => {
                    assert(c == a@.skip(k)[0] && d == b@.skip(k)[0]);
                    if c != d {
                        return (c as u32) < (d as u32);
                    }
                    proof {
                        assert(a@.skip(k).drop_first() =~= a@.skip(k + 1));
                        assert(b@.skip(k).drop_first() =~= b@.skip(k + 1));
                        k = k + 1;
                    }
                },
            },
        }
    }
}

/// A single finding from a rule which indicates a possible error in the
/// document.
#[derive(Clone, Debug, PartialEq, Eq, PartialOrd, Ord)]
pub struct Warning {
    /// The span of the warning.
    pub span: ByteSpan,
    /// The message associated with the warning.
    pub message: String,
}

/// What a warning holds.
pub struct WarningView {
    /// The span of the warning.
    pub span: ByteSpan,
    /// The message associated with the warning.
    pub message: Seq<char>,
}

impl View for Warning {
    type V = WarningView;

    open spec fn view(&self) -> WarningView {
        WarningView { span: self.span, message: self.message@ }
    }
}

/// The order of warnings: by the start of the span, then by its end, then by
/// the message.
pub open spec fn warning_le(a: WarningView, b: WarningView) -> bool {
    if a.span.spec_start() != b.span.spec_start() {
        a.span.spec_start() < b.span.spec_start()
    } else if a.span.spec_end() != b.span.spec_end() {
        a.span.spec_end() < b.span.spec_end()
    } else {
        text_le(a.message, b.message)
    }
}

impl Ranked for Warning {
    type Key = WarningView;

    open spec fn key(&self) -> WarningView {
        self@
    }

    open spec fn le(a: WarningView, b: WarningView) -> bool {
        warning_le(a, b)
    }

    proof fn lemma_total(a: WarningView, b: WarningView) {
        lemma_text_le_total(a.message, b.message);
    }

    proof fn lemma_transitive(a: WarningView, b: WarningView, c: WarningView) {
        if a.span.spec_start() == b.span.spec_start() && b.span.spec_start()
            == c.span.spec_start() && a.span.spec_end() == b.span.spec_end() && b.span.spec_end()
            == c.span.spec_end() {
            lemma_text_le_transitive(a.message, b.message, c.message);
        }
    }

    fn is_le(&self, other: &Self) -> (le: bool) {
        if self.span.start() != other.span.start() {
            self.span.start() < other.span.start()
        } else if self.span.end() != other.span.end() {
            self.span.end() < other.span.end()
        } else {
            str_le(self.message.as_str(), other.message.as_str())
        }
    }
}

/// Warnings in order are the only arrangement in order of what they hold:
/// the order in which rules are applied does not show in sorted results.
pub proof fn lemma_warning_order_is_unique(a: Seq<WarningView>, b: Seq<WarningView>)
    requires
        in_order::<Warning>(a),
        in_order::<Warning>(b),
        a.to_multiset() == b.to_multiset(),
    ensures
        a == b,
{
    assert forall|i: int, j: int|
        0 <= i < a.len() && 0 <= j < a.len() && warning_le(#[trigger] a[i], #[trigger] a[j])
            && warning_le(a[j], a[i]) implies a[i] == a[j] by {
        lemma_text_le_antisymmetric(a[i].message, a[j].message);
        ByteSpan::lemma_ext(a[i].span, a[j].span);
    }
    crate::sort::lemma_order_is_unique::<Warning>(a, b);
}

impl HasSpan for Warning {
    open spec fn spec_span(&self) -> ByteSpan {
        self.span
    }

    fn span(&self) -> (span: ByteSpan) {
        self.span
    }
}

/// The span from the start of the first of the words to the end of the last.
pub open spec fn covering(words: Seq<Word>) -> ByteSpan {
    ByteSpan::spec_new(words[0].spec_offset(), words.last().spec_end() as usize)
}

/// A builder for `Warning`.
pub struct WarningBuilder {
    span: ByteSpan,
    message: Option<String>,
}

impl WarningBuilder {
    /// The span of the warning to be.
    pub closed spec fn spec_span(&self) -> ByteSpan {
        self.span
    }

    /// The message of the warning to be, once it is set.
    pub closed spec fn spec_message(&self) -> Option<Seq<char>> {
        match self.message {
            Some(m) => Some(m@),
            None => None,
        }
    }

    /// Create a new builder for the given words.
    ///
    /// The span of the final `Warning` will be the span covering all the
    /// words. There must be a word, and the last must not end before the
    /// first starts.
    pub fn new(words: &[Word]) -> (builder: Self)
        requires
            words@.len() > 0,
            words@[0].spec_offset() <= words@.last().spec_end(),
        ensures
            builder.spec_span() == covering(words@),
            builder.spec_message() is None,
            among(covering(words@), words@),
    {
        broadcast use ByteSpan::lemma_spec_new;

        let first = &words[0];
        let last = &words[words.len() - 1];
        let end = last.as_span().end();
        assert(words@.last() == words@[words@.len() - 1]);
        WarningBuilder { span: ByteSpan::new_unchecked(first.as_offset(), end), message: None }
    }

    /// Set the message for the warning.
    ///
    /// A message is required.
    pub fn message(self, message: String) -> (builder: Self)
        ensures
            builder.spec_span() == self.spec_span(),
            builder.spec_message() == Some(message@),
    {
        WarningBuilder { span: self.span, message: Some(message) }
    }

    /// Build the `Warning`. The message must have been set.
    pub fn build(self) -> (warning: Warning)
        requires
            self.spec_message() is Some,
        ensures
            warning@ == (WarningView {
                span: self.spec_span(),
                message: self.spec_message()->0,
            }),
    {
        match self.message {
            Some(message) => Warning { span: self.span, message },
            None => Warning { span: self.span, message: String::new() },
        }
    }
}

/// What each of the warnings holds.
pub open spec fn warning_views(warnings: Seq<Warning>) -> Seq<WarningView> {
    Seq::new(warnings.len(), |i: int| warnings[i]@)
}

/// Build a set of warnings for a single document.
#[derive(Debug)]
pub struct WarningsBuilder {
    warnings: Vec<Warning>,
}

impl View for WarningsBuilder {
    type V = Seq<WarningView>;

    closed spec fn view(&self) -> Seq<WarningView> {
        warning_views(self.warnings@)
    }
}

impl WarningsBuilder {
    /// A builder that holds no warning.
    pub fn new() -> (builder: Self)
        ensures
            builder@ == Seq::<WarningView>::empty(),
    {
        let builder = WarningsBuilder { warnings: Vec::new() };
        assert(builder@ =~= Seq::<WarningView>::empty());
        builder
    }

    /// Add a new warning.
    pub fn add_warning(&mut self, result: Warning)
        ensures
            final(self)@ == old(self)@.push(result@),
    {
        self.warnings.push(result);
        assert(self@ =~= old(self)@.push(result@));
    }

    /// The warnings, sorted.
    fn build(self) -> (warnings: Vec<Warning>)
        ensures
            in_order::<Warning>(warning_views(warnings@)),
            warning_views(warnings@).to_multiset() == self@.to_multiset(),
    {
        let ghost before = self@;
        assert(keys(self.warnings@) =~= before);
        let warnings = sort(self.warnings);
        assert(keys(warnings@) =~= warning_views(warnings@));
        warnings
    }
}

/// A unique id for a measure.
#[derive(Copy, Clone, Debug, PartialEq, Eq, PartialOrd, Ord, Hash, Structural)]
pub enum MeasureKey {
    AbstractNouns,
    AcademicAdWords,
    Adjectives,
    BeVerbs,
    Prepositions,
}

impl MeasureKey {
    /// The place of the key in the order of the keys.
    pub open spec fn spec_index(self) -> usize {
        match self {
            MeasureKey::AbstractNouns => 0,
            MeasureKey::AcademicAdWords => 1,
            MeasureKey::Adjectives => 2,
            MeasureKey::BeVerbs => 3,
            MeasureKey::Prepositions => 4,
        }
    }

    /// The place of the key in the order of the keys.
    #[verifier::when_used_as_spec(spec_index)]
    pub fn index(self) -> (i: usize)
        ensures
            i == self.spec_index(),
    {
        match self {
            MeasureKey::AbstractNouns => 0,
            MeasureKey::AcademicAdWords => 1,
            MeasureKey::Adjectives => 2,
            MeasureKey::BeVerbs => 3,
            MeasureKey::Prepositions => 4,
        }
    }

    /// The name of the key.
    pub open spec fn spec_name(self) -> Seq<char> {
        match self {
            MeasureKey::AbstractNouns => "AbstractNouns"@,
            MeasureKey::AcademicAdWords => "AcademicAdWords"@,
            MeasureKey::Adjectives => "Adjectives"@,
            MeasureKey::BeVerbs => "BeVerbs"@,
            MeasureKey::Prepositions => "Prepositions"@,
        }
    }

    /// The name of the key.
    pub fn name(self) -> (name: &'static str)
        ensures
            name@ == self.spec_name(),
    {
        match self {
            MeasureKey::AbstractNouns => "AbstractNouns",
            MeasureKey::AcademicAdWords => "AcademicAdWords",
            MeasureKey::Adjectives => "Adjectives",
            MeasureKey::BeVerbs => "BeVerbs",
            MeasureKey::Prepositions => "Prepositions",
        }
    }

    /// All the keys, in their order.
    pub fn all() -> (all: [MeasureKey; 5])
        ensures
            forall|i: int| 0 <= i < 5 ==> (#[trigger] all@[i]).spec_index() == i,
    {
        [
            MeasureKey::AbstractNouns,
            MeasureKey::AcademicAdWords,
            MeasureKey::Adjectives,
            MeasureKey::BeVerbs,
            MeasureKey::Prepositions,
        ]
    }
}

/// An instance of a measurement.
#[derive(Clone, Debug, PartialEq, Eq)]
pub struct Measurement<'input> {
    /// The word that was measured.
    pub word: Word<'input>,
    /// The key for the measurement.
    pub key: MeasureKey,
}

/// What a measurement holds.
pub struct MeasurementView {
    /// The characters of the word that was measured.
    pub text: Seq<char>,
    /// The byte offset of the word in the input.
    pub offset: usize,
    /// The part of speech of the word.
    pub tag: Option<crate::pos::POS>,
    /// The key for the measurement.
    pub key: MeasureKey,
}

impl MeasurementView {
    /// The byte span of the word that was measured.
    pub open spec fn span(self) -> ByteSpan {
        ByteSpan::spec_new(self.offset, (self.offset + utf8_len(self.text)) as usize)
    }
}

/// What a measurement of the word under the key holds.
pub open spec fn measurement_of(word: Word, key: MeasureKey) -> MeasurementView {
    MeasurementView {
        text: word.text(),
        offset: word.spec_offset(),
        tag: word.spec_tag(),
        key,
    }
}

impl View for Measurement<'_> {
    type V = MeasurementView;

    open spec fn view(&self) -> MeasurementView {
        measurement_of(self.word, self.key)
    }
}

/// The order of measurements: by the start of the word, then by its end,
/// then by the key.
pub open spec fn measurement_le(a: MeasurementView, b: MeasurementView) -> bool {
    if a.offset != b.offset {
        a.offset < b.offset
    } else if a.offset + utf8_len(a.text) != b.offset + utf8_len(b.text) {
        a.offset + utf8_len(a.text) < b.offset + utf8_len(b.text)
    } else {
        a.key.spec_index() <= b.key.spec_index()
    }
}

impl<'input> Ranked for Measurement<'input> {
    type Key = MeasurementView;

    open spec fn key(&self) -> MeasurementView {
        self@
    }

    open spec fn le(a: MeasurementView, b: MeasurementView) -> bool {
        measurement_le(a, b)
    }

    proof fn lemma_total(a: MeasurementView, b: MeasurementView) {
    }

    proof fn lemma_transitive(a: MeasurementView, b: MeasurementView, c: MeasurementView) {
    }

    fn is_le(&self, other: &Self) -> (le: bool) {
        let a = self.word.as_span();
        let b = other.word.as_span();
        if a.start() != b.start() {
            a.start() < b.start()
        } else if a.end() != b.end() {
            a.end() < b.end()
        } else {
            self.key.index() <= other.key.index()
        }
    }
}

/// Measurements of one place under one key are one measurement.
pub open spec fn told_apart(measurements: Seq<MeasurementView>) -> bool {
    forall|i: int, j: int|
        0 <= i < measurements.len() && 0 <= j < measurements.len() && (
        #[trigger] measurements[i]).offset == (#[trigger] measurements[j]).offset && utf8_len(
            measurements[i].text,
        ) == utf8_len(measurements[j].text) && measurements[i].key == measurements[j].key
            ==> measurements[i] == measurements[j]
}

/// Where measurements of one place under one key are one measurement,
/// measurements in order are the only arrangement in order of what they
/// hold: the order in which measures are applied does not show in sorted
/// results.
pub proof fn lemma_measurement_order_is_unique(a: Seq<MeasurementView>, b: Seq<MeasurementView>)
    requires
        in_order::<Measurement>(a),
        in_order::<Measurement>(b),
        a.to_multiset() == b.to_multiset(),
        told_apart(a),
    ensures
        a == b,
{
    assert forall|i: int, j: int|
        0 <= i < a.len() && 0 <= j < a.len() && measurement_le(#[trigger] a[i], #[trigger] a[j])
            && measurement_le(a[j], a[i]) implies a[i] == a[j] by {
        assert(a[i].key.spec_index() == a[j].key.spec_index());
        assert(a[i].key == a[j].key);
    }
    crate::sort::lemma_order_is_unique::<Measurement>(a, b);
}

impl<'input> Measurement<'input> {
    /// Create a new measurement.
    pub fn new(key: MeasureKey, word: Word<'input>) -> (measurement: Self)
        ensures
            measurement@ == measurement_of(word, key),
    {
        Measurement { word, key }
    }
}

impl HasSpan for Measurement<'_> {
    open spec fn spec_span(&self) -> ByteSpan {
        self.word.spec_span()
    }

    fn span(&self) -> (span: ByteSpan) {
        self.word.as_span()
    }
}

/// What each of the measurements holds.
pub open spec fn measurement_views(measurements: Seq<Measurement>) -> Seq<MeasurementView> {
    Seq::new(measurements.len(), |i: int| measurements[i]@)
}

/// Build a set of measurements for a single document.
///
/// The measurements are held in the order in which they were added, each
/// with its key; they are sorted when the results are built.
#[derive(Debug)]
pub struct MeasurementsBuilder<'input> {
    measurements: Vec<Measurement<'input>>,
}

impl View for MeasurementsBuilder<'_> {
    type V = Seq<MeasurementView>;

    closed spec fn view(&self) -> Seq<MeasurementView> {
        measurement_views(self.measurements@)
    }
}

impl<'input> MeasurementsBuilder<'input> {
    /// A builder that holds no measurement.
    pub fn new() -> (builder: Self)
        ensures
            builder@ == Seq::<MeasurementView>::empty(),
    {
        let builder = MeasurementsBuilder { measurements: Vec::new() };
        assert(builder@ =~= Seq::<MeasurementView>::empty());
        builder
    }

    /// Add a new measurement to the builder.
    pub fn add_measurement(&mut self, key: MeasureKey, word: &Word<'input>)
        ensures
            final(self)@ == old(self)@.push(measurement_of(*word, key)),
    {
        self.measurements.push(Measurement::new(key, *word));
        assert(self@ =~= old(self)@.push(measurement_of(*word, key)));
    }

    /// The measurements, sorted.
    fn build(self) -> (measurements: Vec<Measurement<'input>>)
        ensures
            in_order::<Measurement>(measurement_views(measurements@)),
            measurement_views(measurements@).to_multiset() == self@.to_multiset(),
    {
        let ghost before = self@;
        assert(keys(self.measurements@) =~= before);
        let measurements = sort(self.measurements);
        assert(keys(measurements@) =~= measurement_views(measurements@));
        measurements
    }
}

/// A builder for `Results`.
struct ResultsBuilder<'input> {
    input: &'input str,
    warnings_builder: WarningsBuilder,
    measurements_builder: MeasurementsBuilder<'input>,
}

impl<'input> ResultsBuilder<'input> {
    fn new(input: &'input str) -> (builder: Self)
        ensures
            builder.input@ == input@,
            builder.warnings_builder@ == Seq::<WarningView>::empty(),
            builder.measurements_builder@ == Seq::<MeasurementView>::empty(),
    {
        ResultsBuilder {
            input,
            warnings_builder: WarningsBuilder::new(),
            measurements_builder: MeasurementsBuilder::new(),
        }
    }

    fn build(self) -> (results: Results<'input>)
        requires
            forall|i: int|
                0 <= i < self.warnings_builder@.len() ==> (
                #[trigger] self.warnings_builder@[i]).span.fits(self.input@),
            forall|i: int|
                0 <= i < self.measurements_builder@.len() ==> (
                #[trigger] self.measurements_builder@[i]).span().fits(self.input@),
        ensures
            results.text() == self.input@,
            results.warnings().to_multiset() == self.warnings_builder@.to_multiset(),
            results.measurements().to_multiset() == self.measurements_builder@.to_multiset(),
    {
        let ghost found = self.warnings_builder@;
        let ghost measured = self.measurements_builder@;
        let ghost text = self.input@;
        let warnings = self.warnings_builder.build();
        let measurements = self.measurements_builder.build();
        proof {
            let sorted_found = warning_views(warnings@);
            let sorted_measured = measurement_views(measurements@);
            lemma_same_elements(sorted_found, found);
            lemma_same_elements(sorted_measured, measured);
            assert forall|i: int| 0 <= i < sorted_found.len() implies (
            #[trigger] sorted_found[i]).span.fits(text) by {
                let one = sorted_found[i];
                assert(found.contains(one));
                let j = choose|j: int| 0 <= j < found.len() && found[j] == one;
                assert(found[j].span.fits(text));
            }
            assert forall|i: int| 0 <= i < sorted_measured.len() implies (
            #[trigger] sorted_measured[i]).span().fits(text) by {
                let one = sorted_measured[i];
                assert(measured.contains(one));
                let j = choose|j: int| 0 <= j < measured.len() && measured[j] == one;
                assert(measured[j].span().fits(text));
            }
        }
        Results { input: self.input, warnings, measurements }
    }
}

/// The results of applying rules and measures to a document.
#[derive(Debug)]
pub struct Results<'input> {
    input: &'input str,
    warnings: Vec<Warning>,
    measurements: Vec<Measurement<'input>>,
}

impl<'input> Results<'input> {
    /// The text of the document.
    pub closed spec fn text(&self) -> Seq<char> {
        self.input@
    }

    /// What the warnings hold, in their order.
    pub closed spec fn warnings(&self) -> Seq<WarningView> {
        warning_views(self.warnings@)
    }

    /// What the measurements hold, in their order.
    pub closed spec fn measurements(&self) -> Seq<MeasurementView> {
        measurement_views(self.measurements@)
    }

    /// The warnings and the measurements are sorted, and every span of the
    /// results is a span of the text.
    #[verifier::type_invariant]
    pub closed spec fn well_formed(&self) -> bool {
        &&& in_order::<Warning>(warning_views(self.warnings@))
        &&& in_order::<Measurement>(measurement_views(self.measurements@))
        &&& self.fits()
    }

    /// Every span of the results is a span of the text.
    pub open spec fn fits(&self) -> bool {
        &&& forall|i: int|
            0 <= i < self.warnings().len() ==> (#[trigger] self.warnings()[i]).span.fits(
                self.text(),
            )
        &&& forall|i: int|
            0 <= i < self.measurements().len() ==> (#[trigger] self.measurements()[i]).span().fits(
                self.text(),
            )
    }

    /// States what holds of all results: every span is a span of the text,
    /// no warning is after a later one in the order of warnings, so neither
    /// is its span, and no measurement is after a later one in the order of
    /// measurements.
    pub fn check_state(&self)
        ensures
            self.fits(),
            forall|i: int, j: int|
                0 <= i < j < self.warnings().len() ==> warning_le(
                    #[trigger] self.warnings()[i],
                    #[trigger] self.warnings()[j],
                ) && self.warnings()[i].span.le(&self.warnings()[j].span),
            forall|i: int, j: int|
                0 <= i < j < self.measurements().len() ==> measurement_le(
                    #[trigger] self.measurements()[i],
                    #[trigger] self.measurements()[j],
                ),
    {
        proof {
            use_type_invariant(self);
        }
    }

    /// The warnings, ordered by their span in ascending order.
    pub fn as_warnings(&self) -> (warnings: &[Warning])
        ensures
            warning_views(warnings@) == self.warnings(),
    {
        self.warnings.as_slice()
    }

    /// The measurements, ordered by the word in ascending order, and then by
    /// the `MeasureKey`.
    pub fn as_measurements(&self) -> (measurements: &[Measurement<'input>])
        ensures
            measurement_views(measurements@) == self.measurements(),
    {
        self.measurements.as_slice()
    }

    /// Iterate over the warnings.
    ///
    /// Warnings are ordered by their span in ascending order.
    pub fn iter_warnings(&self) -> (warnings: std::slice::Iter<'_, Warning>)
        ensures
            warning_views(warnings.remaining().unref()) == self.warnings(),
    {
        broadcast use vstd::std_specs::slice::axiom_spec_slice_iter;

        let warnings = self.warnings.as_slice().iter();
        assert(warnings.remaining().unref() =~= self.warnings@);
        warnings
    }

    /// The warnings with their ranges.
    ///
    /// Warnings are ordered by their span in ascending order.
    pub fn iter_warnings_with_ranges(&self) -> (ranges: Vec<(LineCharRange, &Warning)>)
        ensures
            ranges@.len() == self.warnings().len(),
            forall|i: int|
                0 <= i < ranges@.len() ==> (#[trigger] ranges@[i]).0 == crate::lines::range_of(
                    self.text(),
                    self.warnings()[i].span,
                ) && ranges@[i].1@ == self.warnings()[i],
    {
        proof {
            use_type_invariant(self);
            let views = warning_views(self.warnings@);
            assert forall|i: int, j: int| 0 <= i <= j < self.warnings@.len() implies (
            #[trigger] self.warnings@[i]).spec_span().spec_start() <= (
            #[trigger] self.warnings@[j]).spec_span().spec_start() by {
                if i < j {
                    assert(warning_le(views[i], views[j]));
                }
            }
            assert forall|i: int| 0 <= i < self.warnings@.len() implies (
            #[trigger] self.warnings@[i]).spec_span().fits(self.input@) by {
                assert(self.warnings()[i].span.fits(self.text()));
            }
        }
        spans_to_ranges(self.input, self.warnings.as_slice())
    }

    /// Iterate over the measurements.
    ///
    /// Measurements are ordered by the word in ascending order, and then by the `MeasureKey`.
    pub fn iter_measurements(&self) -> (measurements: std::slice::Iter<'_, Measurement<'input>>)
        ensures
            measurement_views(measurements.remaining().unref()) == self.measurements(),
    {
        broadcast use vstd::std_specs::slice::axiom_spec_slice_iter;

        let measurements = self.measurements.as_slice().iter();
        assert(measurements.remaining().unref() =~= self.measurements@);
        measurements
    }

    /// The measurements with their ranges.
    ///
    /// Measurements are ordered by the word in ascending order, and then by the `MeasureKey`.
    pub fn iter_measurements_with_ranges(&self) -> (ranges: Vec<
        (LineCharRange, &Measurement<'input>),
    >)
        ensures
            ranges@.len() == self.measurements().len(),
            forall|i: int|
                0 <= i < ranges@.len() ==> (#[trigger] ranges@[i]).0 == crate::lines::range_of(
                    self.text(),
                    self.measurements()[i].span(),
                ) && ranges@[i].1@ == self.measurements()[i],
    {
        proof {
            use_type_invariant(self);
            broadcast use ByteSpan::lemma_spec_new;

            let views = measurement_views(self.measurements@);
            assert forall|i: int, j: int| 0 <= i <= j < self.measurements@.len() implies (
            #[trigger] self.measurements@[i]).spec_span().spec_start() <= (
            #[trigger] self.measurements@[j]).spec_span().spec_start() by {
                if i < j {
                    assert(measurement_le(views[i], views[j]));
                }
            }
            assert forall|i: int| 0 <= i < self.measurements@.len() implies (
            #[trigger] self.measurements@[i]).spec_span().fits(self.input@) by {
                assert(self.measurements()[i].span().fits(self.text()));
            }
        }
        spans_to_ranges(self.input, self.measurements.as_slice())
    }
}

/// A rule that finds warnings in a document.
pub trait Rule: Send + Sync {
    /// The warnings that the rule finds in a document, in the order in which
    /// it finds them.
    spec fn findings(&self, doc: &Document) -> Seq<WarningView>;

    /// Apply the rule to the document, adding zero or more warnings to the
    /// builder. The span of every warning is a span of the text of the
    /// document.
    fn apply(&self, doc: &Document, warnings: &mut WarningsBuilder)
        ensures
            final(warnings)@ == old(warnings)@ + self.findings(doc),
            forall|i: int|
                0 <= i < self.findings(doc).len() ==> (#[trigger] self.findings(doc)[i]).span.fits(
                    doc.text(),
                ),
    ;
}

/// The span starts where one of the words starts and ends where one of them
/// ends.
pub open spec fn among(span: ByteSpan, words: Seq<Word>) -> bool {
    &&& span.spec_start() <= span.spec_end()
    &&& exists|a: int|
        0 <= a < words.len() && (#[trigger] words[a]).spec_offset() == span.spec_start()
    &&& exists|b: int| 0 <= b < words.len() && (#[trigger] words[b]).spec_end() == span.spec_end()
}

/// A span among words of a text is a span of the text.
pub proof fn lemma_among_fits(span: ByteSpan, words: Seq<Word>, input: Seq<char>)
    requires
        among(span, words),
        forall|k: int| 0 <= k < words.len() ==> (#[trigger] words[k]).lies_in(input),
    ensures
        span.fits(input),
{
    let a = choose|a: int|
        0 <= a < words.len() && (#[trigger] words[a]).spec_offset() == span.spec_start();
    let b = choose|b: int|
        0 <= b < words.len() && (#[trigger] words[b]).spec_end() == span.spec_end();
    assert(words[a].lies_in(input));
    assert(words[b].lies_in(input));
}

/// A rule that searches for warnings using a specific pattern, using a `Matcher`.
pub trait MatcherRule: Send {
    /// The type of the matcher for this rule.
    type Search: Matcher;

    /// The matcher for this rule.
    spec fn spec_matcher() -> Self::Search;

    /// The warnings that the rule gives for a match.
    spec fn emitted(words: Seq<Word>) -> Seq<WarningView>;

    /// Get the matcher for this rule.
    fn matcher() -> (search: Self::Search)
        ensures
            search == Self::spec_matcher(),
            search.ready(),
    ;

    /// Handle a match for the given set of words. The results should be added
    /// to the builder.
    ///
    /// Further filtering can be done here. For example, if there is a
    /// constraint that can not be specified in a `Matcher`.
    fn on_match(words: &[Word], warnings: &mut WarningsBuilder)
        requires
            is_match_of(Self::spec_matcher().spec_pattern(), words@),
            offsets_in_order(words@),
        ensures
            final(warnings)@ == old(warnings)@ + Self::emitted(words@),
            forall|i: int|
                0 <= i < Self::emitted(words@).len() ==> among(
                    (#[trigger] Self::emitted(words@)[i]).span,
                    words@,
                ),
    ;
}

/// The warnings that a rule gives for the first `upto` of the matches.
pub open spec fn match_findings<U: MatcherRule>(matches: Seq<Seq<Word>>, upto: int) -> Seq<
    WarningView,
>
    decreases upto,
{
    if upto <= 0 {
        Seq::empty()
    } else {
        match_findings::<U>(matches, upto - 1) + U::emitted(matches[upto - 1])
    }
}

/// The matches of the matcher of a rule among the words of a block.
pub open spec fn block_matches<U: MatcherRule>(words: Seq<Word>) -> Seq<Seq<Word>> {
    matches_upto(
        U::spec_matcher().spec_pattern(),
        searched(U::spec_matcher(), words),
        searched(U::spec_matcher(), words).len() as int,
    )
}

/// The warnings that a rule gives for the first `upto` of the blocks.
pub open spec fn doc_findings<U: MatcherRule>(blocks: Seq<Block<Word>>, upto: int) -> Seq<
    WarningView,
>
    decreases upto,
{
    if upto <= 0 {
        Seq::empty()
    } else {
        doc_findings::<U>(blocks, upto - 1) + match_findings::<U>(
            block_matches::<U>(blocks[upto - 1]@),
            block_matches::<U>(blocks[upto - 1]@).len() as int,
        )
    }
}

/// The words that a matcher searches are words of the block, in their
/// order.
proof fn lemma_searched<M: Matcher>(matcher: M, words: Seq<Word>)
    ensures
        forall|k: int|
            0 <= k < searched(matcher, words).len() ==> words.contains(
                #[trigger] searched(matcher, words)[k],
            ),
        offsets_in_order(words) ==> offsets_in_order(searched(matcher, words)),
{
    match matcher.spec_ignore_pattern() {
        Some(ignore) => {
            lemma_kept(ignore, words);
        },
        None => {
            assert forall|k: int| 0 <= k < words.len() implies words.contains(
                #[trigger] words[k],
            ) by {}
        },
    }
}

impl<U: MatcherRule + Sync> Rule for U {
    open spec fn findings(&self, doc: &Document) -> Seq<WarningView> {
        doc_findings::<U>(doc.spec_blocks(), doc.spec_blocks().len() as int)
    }

    /// Run the `matcher` on each block in the document, and call `on_match` for
    /// each match.
    fn apply(&self, doc: &Document, warnings: &mut WarningsBuilder) {
        let matcher = Self::matcher();
        let blocks = doc.blocks();
        let ghost start = warnings@;
        let ghost text = doc.text();
        let mut b: usize = 0;
        proof {
            assert(start + doc_findings::<U>(blocks@, 0) =~= start);
        }
        while b < blocks.len()
            invariant
                0 <= b <= blocks@.len(),
                blocks@ == doc.spec_blocks(),
                text == doc.text(),
                blocks_lie_in(blocks@, text),
                matcher == Self::spec_matcher(),
                matcher.ready(),
                warnings@ == start + doc_findings::<U>(blocks@, b as int),
                forall|i: int|
                    0 <= i < doc_findings::<U>(blocks@, b as int).len() ==> (
                    #[trigger] doc_findings::<U>(blocks@, b as int)[i]).span.fits(text),
            decreases blocks@.len() - b,
        {
            let block = &blocks[b];
            let matches = match_words(block, &matcher);
            let ghost found = crate::matcher::views_of(matches@);
            let ghost done = doc_findings::<U>(blocks@, b as int);
            let ghost words = searched(matcher, block@);
            let mut m: usize = 0;
            proof {
                assert(found == block_matches::<U>(block@));
                assert(done + match_findings::<U>(found, 0) =~= done);
                lemma_searched(matcher, block@);
                assert(offsets_in_order(block@));
            }
            while m < matches.len()
                invariant
                    0 <= m <= matches@.len(),
                    found == crate::matcher::views_of(matches@),
                    words == searched(matcher, block@),
                    offsets_in_order(words),
                    forall|k: int| 0 <= k < words.len() ==> (#[trigger] words[k]).lies_in(text),
                    matcher == Self::spec_matcher(),
                    forall|t: int|
                        0 <= t < matches@.len() ==> is_match_in(
                            matcher.spec_pattern(),
                            words,
                            (#[trigger] matches@[t])@,
                        ),
                    warnings@ == start + (done + match_findings::<U>(found, m as int)),
                    forall|i: int|
                        0 <= i < (done + match_findings::<U>(found, m as int)).len() ==> (
                        #[trigger] (done + match_findings::<U>(found, m as int))[i]).span.fits(
                            text,
                        ),
                decreases matches@.len() - m,
            {
                let matched = matches[m].as_slice();
                let ghost so_far = done + match_findings::<U>(found, m as int);
                proof {
                    lemma_match_in_is_match(matcher.spec_pattern(), words, matched@);
                }
                Self::on_match(matched, warnings);
                proof {
                    let more = Self::emitted(matched@);
                    assert(found[m as int] == matched@);
                    assert(done + match_findings::<U>(found, m + 1) =~= so_far + more);
                    assert(start + (so_far + more) =~= (start + so_far) + more);
                    assert forall|k: int| 0 <= k < matched@.len() implies (
                    #[trigger] matched@[k]).lies_in(text) by {
                        let w = matched@[k];
                        assert(words.contains(w));
                        let j = choose|j: int| 0 <= j < words.len() && words[j] == w;
                        assert(words[j].lies_in(text));
                    }
                    assert forall|i: int| 0 <= i < (so_far + more).len() implies (#[trigger] (so_far
                        + more)[i]).span.fits(text) by {
                        if i < so_far.len() {
                            assert((so_far + more)[i] == so_far[i]);
                        } else {
                            assert((so_far + more)[i] == more[i - so_far.len()]);
                            lemma_among_fits(more[i - so_far.len()].span, matched@, text);
                        }
                    }
                }
                m += 1;
            }
            b += 1;
        }
    }
}

/// A pattern for single words behind a pointer, whatever its type.
pub struct BoxedPattern(pub Box<dyn SingleWordPattern>);

impl BoxedPattern {
    /// The pattern can be used.
    pub open spec fn valid(&self) -> bool {
        self.0.valid()
    }

    /// Whether the pattern matches the word.
    pub open spec fn accepts(&self, word: Word) -> bool {
        self.0.accepts(word)
    }

    /// Check if the pattern matches the given word.
    pub fn matches_word(&self, word: &Word) -> (matched: bool)
        requires
            self.valid(),
        ensures
            matched == self.accepts(*word),
    {
        self.0.matches_word(word)
    }
}

/// A measure that searches for a specific pattern, using a `SingleWordPattern`.
pub trait Measure {
    /// The key for this measure.
    spec fn spec_key(&self) -> MeasureKey;

    /// Whether the measure counts the word.
    spec fn counts(&self, word: Word) -> bool;

    /// Get the key for this measure.
    fn key(&self) -> (id: MeasureKey)
        ensures
            id == self.spec_key(),
    ;

    /// Get the pattern for this measure.
    fn pattern(&self) -> (boxed: BoxedPattern)
        ensures
            boxed.valid(),
            forall|word: Word| #[trigger] boxed.accepts(word) == self.counts(word),
    ;
}

/// A measure behind a pointer, whatever its type.
pub struct BoxedMeasure(pub Box<dyn Measure>);

impl BoxedMeasure {
    /// The key for this measure.
    pub open spec fn spec_key(&self) -> MeasureKey {
        self.0.spec_key()
    }

    /// Whether the measure counts the word.
    pub open spec fn counts(&self, word: Word) -> bool {
        self.0.counts(word)
    }

    /// Get the key for this measure.
    pub fn key(&self) -> (id: MeasureKey)
        ensures
            id == self.spec_key(),
    {
        self.0.key()
    }

    /// Get the pattern for this measure.
    pub fn pattern(&self) -> (boxed: BoxedPattern)
        ensures
            boxed.valid(),
            forall|word: Word| #[trigger] boxed.accepts(word) == self.counts(word),
    {
        self.0.pattern()
    }
}

/// A rule behind a pointer, whatever its type.
pub struct BoxedRule(pub Box<dyn Rule>);

impl BoxedRule {
    /// The rule behind a pointer.
    pub fn new<R: Rule + 'static>(rule: R) -> (boxed: Self)
        ensures
            forall|doc: &Document| #[trigger] boxed.findings(doc) == rule.findings(doc),
    {
        BoxedRule(Box::new(rule))
    }

    /// The warnings that the rule finds in a document, in the order in which
    /// it finds them.
    pub open spec fn findings(&self, doc: &Document) -> Seq<WarningView> {
        self.0.findings(doc)
    }

    /// Apply the rule to the document, adding zero or more warnings to the
    /// builder.
    pub fn apply(&self, doc: &Document, warnings: &mut WarningsBuilder)
        ensures
            final(warnings)@ == old(warnings)@ + self.findings(doc),
            forall|i: int|
                0 <= i < self.findings(doc).len() ==> (#[trigger] self.findings(doc)[i]).span.fits(
                    doc.text(),
                ),
    {
        self.0.apply(doc, warnings)
    }
}

/// The measurements under `key` of the first `upto` of the words that the
/// pattern matches.
pub open spec fn measured_words(
    pattern: BoxedPattern,
    key: MeasureKey,
    words: Seq<Word>,
    upto: int,
) -> Seq<MeasurementView>
    decreases upto,
{
    if upto <= 0 {
        Seq::empty()
    } else if pattern.accepts(words[upto - 1]) {
        measured_words(pattern, key, words, upto - 1).push(measurement_of(words[upto - 1], key))
    } else {
        measured_words(pattern, key, words, upto - 1)
    }
}

/// The measurements under `key` of the words of the first `upto` of the
/// blocks that the pattern matches.
pub open spec fn measured_blocks(
    pattern: BoxedPattern,
    key: MeasureKey,
    blocks: Seq<Block<Word>>,
    upto: int,
) -> Seq<MeasurementView>
    decreases upto,
{
    if upto <= 0 {
        Seq::empty()
    } else {
        measured_blocks(pattern, key, blocks, upto - 1) + measured_words(
            pattern,
            key,
            blocks[upto - 1]@,
            blocks[upto - 1]@.len() as int,
        )
    }
}

/// A measure with its key and its pattern at hand.
pub struct MeasureInstance {
    key: MeasureKey,
    pattern: BoxedPattern,
}

impl MeasureInstance {
    /// The key of the measure.
    pub closed spec fn spec_key(&self) -> MeasureKey {
        self.key
    }

    /// The pattern of the measure.
    pub closed spec fn spec_pattern(&self) -> BoxedPattern {
        self.pattern
    }

    /// The pattern of the measure can be used.
    #[verifier::type_invariant]
    pub closed spec fn well_formed(&self) -> bool {
        self.pattern.valid()
    }

    /// The measurements of a document: one for each word that the pattern
    /// matches, block by block and word by word.
    pub open spec fn measured(&self, doc: &Document) -> Seq<MeasurementView> {
        measured_blocks(
            self.spec_pattern(),
            self.spec_key(),
            doc.spec_blocks(),
            doc.spec_blocks().len() as int,
        )
    }

    /// The two measures have one key and match the same words.
    pub open spec fn alike(&self, other: &MeasureInstance) -> bool {
        &&& self.spec_key() == other.spec_key()
        &&& forall|word: Word| #[trigger]
            self.spec_pattern().accepts(word) == other.spec_pattern().accepts(word)
    }

    /// The measure with its key and its pattern at hand.
    pub fn new(measure: &BoxedMeasure) -> (instance: Self)
        ensures
            instance.spec_key() == measure.spec_key(),
            forall|word: Word| #[trigger]
                instance.spec_pattern().accepts(word) == measure.counts(word),
    {
        MeasureInstance { key: measure.key(), pattern: measure.pattern() }
    }

    /// Add a measurement for each word of the document that the pattern
    /// matches.
    pub fn apply<'input>(
        &self,
        doc: &Document<'input>,
        measurements: &mut MeasurementsBuilder<'input>,
    )
        ensures
            final(measurements)@ == old(measurements)@ + self.measured(doc),
            forall|i: int|
                0 <= i < self.measured(doc).len() ==> (#[trigger] self.measured(doc)[i]).span().fits(
                    doc.text(),
                ),
    {
        proof {
            use_type_invariant(self);
        }
        let blocks = doc.blocks();
        let ghost start = measurements@;
        let ghost text = doc.text();
        let mut b: usize = 0;
        proof {
            assert(start + measured_blocks(self.pattern, self.key, blocks@, 0) =~= start);
        }
        while b < blocks.len()
            invariant
                0 <= b <= blocks@.len(),
                blocks@ == doc.spec_blocks(),
                text == doc.text(),
                blocks_lie_in(blocks@, text),
                self.pattern.valid(),
                measurements@ == start + measured_blocks(self.pattern, self.key, blocks@, b as int),
                forall|i: int|
                    0 <= i < measured_blocks(self.pattern, self.key, blocks@, b as int).len() ==> (
                    #[trigger] measured_blocks(
                        self.pattern,
                        self.key,
                        blocks@,
                        b as int,
                    )[i]).span().fits(text),
            decreases blocks@.len() - b,
        {
            let words = blocks[b].as_slice();
            let ghost done = measured_blocks(self.pattern, self.key, blocks@, b as int);
            let mut w: usize = 0;
            proof {
                assert(done + measured_words(self.pattern, self.key, words@, 0) =~= done);
            }
            while w < words.len()
                invariant
                    0 <= w <= words@.len(),
                    words@ == blocks@[b as int]@,
                    self.pattern.valid(),
                    forall|k: int| 0 <= k < words@.len() ==> (#[trigger] words@[k]).lies_in(text),
                    measurements@ == start + (done + measured_words(
                        self.pattern,
                        self.key,
                        words@,
                        w as int,
                    )),
                    forall|i: int|
                        0 <= i < (done + measured_words(
                            self.pattern,
                            self.key,
                            words@,
                            w as int,
                        )).len() ==> (#[trigger] (done + measured_words(
                            self.pattern,
                            self.key,
                            words@,
                            w as int,
                        ))[i]).span().fits(text),
                decreases words@.len() - w,
            {
                let word = &words[w];
                let ghost so_far = done + measured_words(self.pattern, self.key, words@, w as int);
                if self.pattern.matches_word(word) {
                    measurements.add_measurement(self.key, word);
                    proof {
                        broadcast use ByteSpan::lemma_spec_new;

                        let one = measurement_of(*word, self.key);
                        assert(word.lies_in(text));
                        assert(one.span().fits(text));
                        assert(done + measured_words(self.pattern, self.key, words@, w + 1)
                            =~= so_far.push(one));
                        assert((start + so_far).push(one) =~= start + so_far.push(one));
                    }
                }
                w += 1;
            }
            b += 1;
        }
    }
}

/// The warnings that the first `upto` of the rules find in a document.
pub open spec fn all_findings(rules: Seq<BoxedRule>, doc: &Document, upto: int) -> Seq<WarningView>
    decreases upto,
{
    if upto <= 0 {
        Seq::empty()
    } else {
        all_findings(rules, doc, upto - 1) + rules[upto - 1].findings(doc)
    }
}

/// The measurements that the first `upto` of the measures take of a
/// document.
pub open spec fn all_measured(measures: Seq<MeasureInstance>, doc: &Document, upto: int) -> Seq<
    MeasurementView,
>
    decreases upto,
{
    if upto <= 0 {
        Seq::empty()
    } else {
        all_measured(measures, doc, upto - 1) + measures[upto - 1].measured(doc)
    }
}

/// Every element of one sequence is among those of another with the same
/// elements.
proof fn lemma_same_elements<A>(a: Seq<A>, b: Seq<A>)
    requires
        a.to_multiset() == b.to_multiset(),
    ensures
        forall|i: int| 0 <= i < a.len() ==> b.contains(#[trigger] a[i]),
{
    assert forall|i: int| 0 <= i < a.len() implies b.contains(#[trigger] a[i]) by {
        a.to_multiset_ensures();
        b.to_multiset_ensures();
        assert(a.contains(a[i]));
        assert(a.to_multiset().count(a[i]) > 0);
        assert(b.to_multiset().count(a[i]) > 0);
    }
}

/// A set of rules and measures to apply to a document.
pub struct RuleSet {
    rules: Vec<BoxedRule>,
    measures: Vec<MeasureInstance>,
}

impl Default for RuleSet {
    /// The set of the rules and the measures that come with the library.
    fn default() -> (set: Self)
        ensures
            set.rules().len() == 5,
            forall|doc: &Document| #[trigger]
                set.rules()[0].findings(doc) == crate::rules::academic_we::AcademicWe.findings(doc),
            forall|doc: &Document| #[trigger]
                set.rules()[1].findings(doc)
                    == crate::rules::passive_construction::PassiveConstruction.findings(doc),
            forall|doc: &Document| #[trigger]
                set.rules()[2].findings(doc) == crate::rules::repeated_words::RepeatedWords.findings(
                    doc,
                ),
            forall|doc: &Document| #[trigger]
                set.rules()[3].findings(doc) == crate::rules::weak_ing::WeakIng.findings(doc),
            forall|doc: &Document| #[trigger]
                set.rules()[4].findings(doc) == crate::rules::weasel_words::WeaselWords.findings(
                    doc,
                ),
            set.measures().len() == 5,
            forall|i: int| 0 <= i < 5 ==> (#[trigger] set.measures()[i]).spec_key().spec_index() == i,
            forall|word: Word| #[trigger]
                set.measures()[0].spec_pattern().accepts(word)
                    == crate::measures::abstract_nouns::AbstractNouns.counts(word),
            forall|word: Word| #[trigger]
                set.measures()[1].spec_pattern().accepts(word)
                    == crate::measures::academic_ad_words::AcademicAdWords.counts(word),
            forall|word: Word| #[trigger]
                set.measures()[2].spec_pattern().accepts(word)
                    == crate::measures::adjectives::Adjectives.counts(word),
            forall|word: Word| #[trigger]
                set.measures()[3].spec_pattern().accepts(word)
                    == crate::measures::be_verbs::BeVerbs.counts(word),
            forall|word: Word| #[trigger]
                set.measures()[4].spec_pattern().accepts(word)
                    == crate::measures::prepositions::Prepositions.counts(word),
    {
        RuleSet::new(crate::rules::default_rules(), crate::measures::default_measures())
    }
}

impl RuleSet {
    /// The rules of the set.
    pub closed spec fn rules(&self) -> Seq<BoxedRule> {
        self.rules@
    }

    /// The measures of the set.
    pub closed spec fn measures(&self) -> Seq<MeasureInstance> {
        self.measures@
    }

    /// Create a new rule set with the given rules and measures.
    pub fn new(rules: Vec<BoxedRule>, measures: Vec<BoxedMeasure>) -> (set: Self)
        ensures
            set.rules() == rules@,
            set.measures().len() == measures@.len(),
            forall|i: int|
                0 <= i < measures@.len() ==> (#[trigger] set.measures()[i]).spec_key()
                    == measures@[i].spec_key() && forall|word: Word| #[trigger]
                    set.measures()[i].spec_pattern().accepts(word) == measures@[i].counts(word),
    {
        let mut instances: Vec<MeasureInstance> = Vec::new();
        let mut i: usize = 0;
        while i < measures.len()
            invariant
                0 <= i <= measures@.len(),
                instances@.len() == i,
                forall|k: int|
                    0 <= k < i ==> (#[trigger] instances@[k]).spec_key() == measures@[k].spec_key()
                        && forall|word: Word| #[trigger]
                        instances@[k].spec_pattern().accepts(word) == measures@[k].counts(word),
            decreases measures@.len() - i,
        {
            instances.push(MeasureInstance::new(&measures[i]));
            i += 1;
        }
        RuleSet { rules, measures: instances }
    }

    /// Apply the rules and measures to the document, returning the results.
    ///
    /// The results hold what the rules find and what the measures take, no
    /// more and no less, in sorted order.
    pub fn apply<'input>(&self, doc: &Document<'input>) -> (results: Results<'input>)
        ensures
            results.text() == doc.text(),
            results.warnings().to_multiset() == all_findings(
                self.rules(),
                doc,
                self.rules().len() as int,
            ).to_multiset(),
            results.measurements().to_multiset() == all_measured(
                self.measures(),
                doc,
                self.measures().len() as int,
            ).to_multiset(),
            results.fits(),
    {
        let mut results = ResultsBuilder::new(doc.input());
        let ghost text = doc.text();

        let mut r: usize = 0;
        proof {
            assert(all_findings(self.rules@, doc, 0) =~= results.warnings_builder@);
        }
        while r < self.rules.len()
            invariant
                0 <= r <= self.rules@.len(),
                text == doc.text(),
                results.input@ == text,
                results.measurements_builder@ == Seq::<MeasurementView>::empty(),
                results.warnings_builder@ == all_findings(self.rules@, doc, r as int),
                forall|i: int|
                    0 <= i < results.warnings_builder@.len() ==> (
                    #[trigger] results.warnings_builder@[i]).span.fits(text),
            decreases self.rules@.len() - r,
        {
            let ghost before = results.warnings_builder@;
            self.rules[r].apply(doc, &mut results.warnings_builder);
            proof {
                let more = self.rules@[r as int].findings(doc);
                assert forall|i: int| 0 <= i < (before + more).len() implies (#[trigger] (before
                    + more)[i]).span.fits(text) by {
                    if i >= before.len() {
                        assert((before + more)[i] == more[i - before.len()]);
                    }
                }
            }
            r += 1;
        }

        let mut m: usize = 0;
        proof {
            assert(all_measured(self.measures@, doc, 0) =~= results.measurements_builder@);
        }
        while m < self.measures.len()
            invariant
                0 <= m <= self.measures@.len(),
                text == doc.text(),
                results.input@ == text,
                results.warnings_builder@ == all_findings(
                    self.rules@,
                    doc,
                    self.rules@.len() as int,
                ),
                forall|i: int|
                    0 <= i < results.warnings_builder@.len() ==> (
                    #[trigger] results.warnings_builder@[i]).span.fits(text),
                results.measurements_builder@ == all_measured(self.measures@, doc, m as int),
                forall|i: int|
                    0 <= i < results.measurements_builder@.len() ==> (
                    #[trigger] results.measurements_builder@[i]).span().fits(text),
            decreases self.measures@.len() - m,
        {
            let ghost before = results.measurements_builder@;
            self.measures[m].apply(doc, &mut results.measurements_builder);
            proof {
                let more = self.measures@[m as int].measured(doc);
                assert forall|i: int| 0 <= i < (before + more).len() implies (#[trigger] (before
                    + more)[i]).span().fits(text) by {
                    if i >= before.len() {
                        assert((before + more)[i] == more[i - before.len()]);
                    }
                }
            }
            m += 1;
        }

        let results = results.build();
        proof {
            use_type_invariant(&results);
        }
        results
    }
}

} // verus!
