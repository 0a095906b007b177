//! Patterns over tagged words.
//!
//! A pattern for a single word says of a word whether it matches. A pattern
//! for several words says of a run of words how many of them, from the first
//! on, it matches, or that it matches none. Patterns are put together from
//! smaller ones, and a pattern that fails leaves no trace: whatever follows
//! an alternative that failed sees the words as they were.

use crate::block::{Block, Word};
use crate::pos::POS;
use crate::text::{
    ascii_lower, eq_ignoring_ascii_case, str_eq, str_eq_ignore_ascii_case, to_ascii_lower,
};
use smallvec::SmallVec;
use vstd::prelude::*;
use vstd::string::*;

verus! {

/// A pattern that matches a single word.
pub trait SingleWordPattern: Send + Sync {
    /// The pattern can be used: what it is made of can be called.
    spec fn valid(&self) -> bool;

    /// Whether the pattern matches the word.
    spec fn accepts(&self, word: Word) -> bool;

    /// Check if the pattern matches the given word.
    fn matches_word(&self, word: &Word) -> (matched: bool)
        requires
            self.valid(),
        ensures
            matched == self.accepts(*word),
    ;
}

/// The least of a number and the greatest `usize`.
pub open spec fn held(n: nat) -> usize {
    if n <= usize::MAX {
        n as usize
    } else {
        usize::MAX
    }
}

/// A pattern that matches multiple words.
pub trait MultipleWordPattern {
    /// The pattern can be used: what it is made of can be called.
    spec fn sound(&self) -> bool;

    /// The number of words, from the first on, that the pattern matches, or
    /// `None` where it does not match.
    spec fn match_len(&self, words: Seq<Word>) -> Option<nat>;

    /// An estimate of the number of words that this pattern will match.
    spec fn hint(&self) -> nat;

    /// An estimate of the number of words that this pattern will match.
    fn size_hint(&self) -> (n: usize)
        ensures
            n == held(self.hint()),
    ;

    /// Check if the pattern matches the given words.
    ///
    /// `matched_words` is the list of words that have been matched so far. If
    /// this pattern matches, the words that it matches are added to the list;
    /// if it does not, the list is left as it was.
    fn matches<'input>(&self, matched_words: &mut Vec<Word<'input>>, words: &[Word<'input>]) -> (n:
        Option<usize>)
        requires
            self.sound(),
        ensures
            match n {
                Some(n) => {
                    &&& self.match_len(words@) == Some(n as nat)
                    &&& n <= words@.len()
                    &&& final(matched_words)@ == old(matched_words)@ + words@.take(n as int)
                },
                None => {
                    &&& self.match_len(words@) is None
                    &&& final(matched_words)@ == old(matched_words)@
                },
            },
    ;
}

/// `f` can be called on every argument and gives one result for each.
pub open spec fn is_function<A, F: Fn(A) -> bool>(f: F) -> bool {
    &&& forall|a: A| call_requires(f, (a,))
    &&& forall|a: A, x: bool, y: bool|
        call_ensures(f, (a,), x) && call_ensures(f, (a,), y) ==> x == y
}

/// What `f` gives for `a`.
pub open spec fn result_of<A, F: Fn(A) -> bool>(f: F, a: A) -> bool {
    choose|x: bool| call_ensures(f, (a,), x)
}

/// A test of a tag.
///
/// Every function from tags to `bool` is one. A type of its own can be one
/// too, and then says in `holds` what it tests.
pub trait TagTest {
    /// The test can be used.
    spec fn usable(&self) -> bool;

    /// Whether the tag passes the test.
    spec fn holds(&self, tag: POS) -> bool;

    /// Whether the tag passes the test.
    fn test(&self, tag: POS) -> (passed: bool)
        requires
            self.usable(),
        ensures
            passed == self.holds(tag),
    ;
}

impl<F: Fn(POS) -> bool> TagTest for F {
    open spec fn usable(&self) -> bool {
        is_function(*self)
    }

    open spec fn holds(&self, tag: POS) -> bool {
        result_of(*self, tag)
    }

    fn test(&self, tag: POS) -> (passed: bool) {
        self(tag)
    }
}

/// A pattern that matches words based on their tag.
#[derive(Copy, Clone)]
pub struct TagFn<T: TagTest>(pub T);

impl<T: TagTest + Send + Sync> SingleWordPattern for TagFn<T> {
    open spec fn valid(&self) -> bool {
        self.0.usable()
    }

    open spec fn accepts(&self, word: Word) -> bool {
        match word.spec_tag() {
            Some(tag) => self.0.holds(tag),
            None => false,
        }
    }

    fn matches_word(&self, word: &Word) -> (matched: bool) {
        match word.tag() {
            Some(tag) => self.0.test(tag),
            None => false,
        }
    }
}

/// `f` can be called on every string and gives one result for each text.
pub open spec fn is_str_function<F: Fn(&str) -> bool>(f: F) -> bool {
    &&& forall|s: &str| call_requires(f, (s,))
    &&& forall|s: &str, t: &str, x: bool, y: bool|
        s@ == t@ && call_ensures(f, (s,), x) && call_ensures(f, (t,), y) ==> x == y
}

/// `f` may give `x` for a string with the given text.
pub open spec fn may_give<F: Fn(&str) -> bool>(f: F, text: Seq<char>, x: bool) -> bool {
    exists|s: &str| s@ == text && #[trigger] call_ensures(f, (s,), x)
}

/// What `f` gives for a string.
pub open spec fn str_result_of<F: Fn(&str) -> bool>(f: F, text: Seq<char>) -> bool {
    choose|x: bool| may_give(f, text, x)
}

/// A test of a string.
///
/// Every function from strings to `bool` is one. A type of its own can be
/// one too, and then says in `holds` what it tests.
pub trait StrTest {
    /// The test can be used.
    spec fn usable(&self) -> bool;

    /// Whether the text passes the test.
    spec fn holds(&self, text: Seq<char>) -> bool;

    /// Whether the string passes the test.
    fn test(&self, s: &str) -> (passed: bool)
        requires
            self.usable(),
        ensures
            passed == self.holds(s@),
    ;
}

impl<F: Fn(&str) -> bool> StrTest for F {
    open spec fn usable(&self) -> bool {
        is_str_function(*self)
    }

    open spec fn holds(&self, text: Seq<char>) -> bool {
        str_result_of(*self, text)
    }

    fn test(&self, s: &str) -> (passed: bool) {
        let passed = self(s);
        assert(may_give(*self, s@, passed));
        passed
    }
}

/// A pattern that matches words based on their string value.
#[derive(Copy, Clone)]
pub struct StrFn<T: StrTest>(pub T);

impl<T: StrTest + Send + Sync> SingleWordPattern for StrFn<T> {
    open spec fn valid(&self) -> bool {
        self.0.usable()
    }

    open spec fn accepts(&self, word: Word) -> bool {
        self.0.holds(word.text())
    }

    fn matches_word(&self, word: &Word) -> (matched: bool) {
        self.0.test(word.as_str())
    }
}

/// A pattern that matches words based on their string value, ignoring case.
///
/// Strings are equal up to the case of their ASCII letters.
#[derive(Copy, Clone)]
pub struct IgnoreCase {
    str: &'static str,
}

impl IgnoreCase {
    /// The text that a word has to be equal to.
    pub closed spec fn text(&self) -> Seq<char> {
        self.str@
    }

    /// The pattern for the given string.
    pub closed spec fn spec_new(str: &'static str) -> IgnoreCase {
        IgnoreCase { str }
    }

    /// The pattern for a string has the text of the string.
    pub broadcast proof fn lemma_spec_new(str: &'static str)
        ensures
            (#[trigger] Self::spec_new(str)).text() == str@,
    {
    }

    /// Create a new pattern.
    pub fn new(str: &'static str) -> (pattern: Self)
        ensures
            pattern.text() == str@,
            pattern == Self::spec_new(str),
    {
        Self { str }
    }
}

impl SingleWordPattern for IgnoreCase {
    open spec fn valid(&self) -> bool {
        true
    }

    open spec fn accepts(&self, word: Word) -> bool {
        eq_ignoring_ascii_case(word.text(), self.text())
    }

    fn matches_word(&self, word: &Word) -> (matched: bool) {
        str_eq_ignore_ascii_case(word.as_str(), self.str)
    }
}

/// A short run of characters that lives on the stack: a `SmallVec` of the
/// crate `smallvec` with room for eight characters. What it holds is named
/// by [`buffer_chars`].
#[verifier::external_body]
pub struct CharBuffer {
    inner: SmallVec<[char; 8]>,
}

/// The characters that a buffer holds, in the order in which they were
/// pushed.
pub uninterp spec fn buffer_chars(buffer: CharBuffer) -> Seq<char>;

/// `SmallVec::new`: a buffer that holds nothing.
#[verifier::external_body]
fn chars_new() -> (buffer: CharBuffer)
    ensures
        buffer_chars(buffer) == Seq::<char>::empty(),
{
    CharBuffer { inner: SmallVec::new() }
}

/// `SmallVec::push`: the character is added after those that the buffer
/// holds.
#[verifier::external_body]
fn chars_push(buffer: &mut CharBuffer, c: char)
    ensures
        buffer_chars(*final(buffer)) == buffer_chars(*old(buffer)).push(c),
{
    buffer.inner.push(c)
}

/// `SmallVec::len`: the number of characters that the buffer holds.
#[verifier::external_body]
fn chars_len(buffer: &CharBuffer) -> (n: usize)
    ensures
        n == buffer_chars(*buffer).len(),
{
    buffer.inner.len()
}

/// Indexing a `SmallVec`: the character at the given place in the buffer.
#[verifier::external_body]
fn chars_get(buffer: &CharBuffer, index: usize) -> (c: char)
    requires
        index < buffer_chars(*buffer).len(),
    ensures
        c == buffer_chars(*buffer)[index as int],
{
    buffer.inner[index]
}

/// A pattern that matches words which end with an ASCII suffix, ignoring case.
pub struct EndsWithIgnoreCase {
    suffix_reversed: CharBuffer,
}

impl EndsWithIgnoreCase {
    /// The suffix that a word has to end with.
    pub closed spec fn suffix(&self) -> Seq<char> {
        buffer_chars(self.suffix_reversed).reverse()
    }

    /// Create a new pattern.
    ///
    /// The suffix must be ASCII.
    pub fn new(suffix: &'static str) -> (pattern: Self)
        requires
            is_ascii(suffix),
        ensures
            pattern.suffix() == suffix@,
    {
        let count = suffix.unicode_len();
        let mut suffix_reversed = chars_new();
        let mut left: usize = count;
        while left > 0
            invariant
                0 <= left <= count,
                count == suffix@.len(),
                buffer_chars(suffix_reversed).len() == count - left,
                forall|i: int|
                    0 <= i < count - left ==> #[trigger] buffer_chars(suffix_reversed)[i]
                        == suffix@[count - 1 - i],
            decreases left,
        {
            let ghost before = buffer_chars(suffix_reversed);
            chars_push(&mut suffix_reversed, suffix.get_char(left - 1));
            left -= 1;
        }
        let pattern = Self { suffix_reversed };
        assert(pattern.suffix() =~= suffix@);
        pattern
    }
}

impl SingleWordPattern for EndsWithIgnoreCase {
    open spec fn valid(&self) -> bool {
        true
    }

    open spec fn accepts(&self, word: Word) -> bool {
        &&& word.text().len() > self.suffix().len()
        &&& eq_ignoring_ascii_case(
            word.text().skip(word.text().len() - self.suffix().len()),
            self.suffix(),
        )
    }

    fn matches_word(&self, word: &Word) -> (matched: bool) {
        let suffix_count = chars_len(&self.suffix_reversed);
        let text = word.as_str();
        let count = text.unicode_len();
        if count > suffix_count {
            let ghost tail = word.text().skip(count - suffix_count);
            let ghost suffix = self.suffix();
            let mut i: usize = 0;
            while i < suffix_count
                invariant
                    0 <= i <= suffix_count < count,
                    count == text@.len(),
                    text@ == word.text(),
                    suffix_count == buffer_chars(self.suffix_reversed).len(),
                    suffix == self.suffix(),
                    tail == word.text().skip(count - suffix_count),
                    forall|j: int|
                        suffix_count - i <= j < suffix_count ==> ascii_lower(#[trigger] tail[j])
                            == ascii_lower(suffix[j]),
                decreases suffix_count - i,
            {
                let a = text.get_char(count - 1 - i);
                let b = chars_get(&self.suffix_reversed, i);
                assert(a == tail[suffix_count - 1 - i]);
                assert(b == suffix[suffix_count - 1 - i]);
                if to_ascii_lower(a) != to_ascii_lower(b) {
                    return false;
                }
                i += 1;
            }
            true
        } else {
            false
        }
    }
}

/// All single word patterns are also multiple word patterns.
impl<P: SingleWordPattern> MultipleWordPattern for P {
    open spec fn sound(&self) -> bool {
        self.valid()
    }

    open spec fn match_len(&self, words: Seq<Word>) -> Option<nat> {
        if words.len() > 0 && self.accepts(words[0]) {
            Some(1nat)
        } else {
            None
        }
    }

    open spec fn hint(&self) -> nat {
        1
    }

    fn size_hint(&self) -> (n: usize) {
        1
    }

    fn matches<'input>(&self, matched_words: &mut Vec<Word<'input>>, words: &[Word<'input>]) -> (n:
        Option<usize>) {
        if words.len() > 0 {
            if self.matches_word(&words[0]) {
                matched_words.push(words[0]);
                assert(words@.take(1) =~= seq![words@[0]]);
                return Some(1);
            }
        }
        None
    }
}

impl SingleWordPattern for POS {
    open spec fn valid(&self) -> bool {
        true
    }

    open spec fn accepts(&self, word: Word) -> bool {
        word.spec_tag() == Some(*self)
    }

    fn matches_word(&self, word: &Word) -> (matched: bool) {
        match word.tag() {
            Some(tag) => tag == *self,
            None => false,
        }
    }
}

impl SingleWordPattern for &str {
    open spec fn valid(&self) -> bool {
        true
    }

    open spec fn accepts(&self, word: Word) -> bool {
        word.text() == self@
    }

    fn matches_word(&self, word: &Word) -> (matched: bool) {
        str_eq(word.as_str(), *self)
    }
}

/// What follows a match of `n` words in `words`.
pub open spec fn rest_after(words: Seq<Word>, n: nat) -> Seq<Word> {
    words.skip(n as int)
}

/// The number of words that two patterns match one after the other.
pub open spec fn then_len<P: MultipleWordPattern>(first: Option<nat>, second: P, words: Seq<Word>)
    -> Option<nat> {
    match first {
        Some(n) => if n <= words.len() {
            match second.match_len(rest_after(words, n)) {
                Some(m) => Some(n + m),
                None => None,
            }
        } else {
            None
        },
        None => None,
    }
}

/// The sum of two estimates, held to what a `usize` can hold.
fn add_hints(a: usize, b: usize, Ghost(x): Ghost<nat>, Ghost(y): Ghost<nat>) -> (n: usize)
    requires
        a == held(x),
        b == held(y),
    ensures
        n == held(x + y),
{
    if a > usize::MAX - b {
        usize::MAX
    } else {
        a + b
    }
}

/// One more pattern after a match of `offset` words: the words of both, or
/// `None`.
fn matches_next<'input, P: MultipleWordPattern>(
    pattern: &P,
    matched_words: &mut Vec<Word<'input>>,
    words: &[Word<'input>],
    offset: usize,
    Ghost(start): Ghost<Seq<Word<'input>>>,
) -> (n: Option<usize>)
    requires
        pattern.sound(),
        offset <= words@.len(),
        old(matched_words)@ == start + words@.take(offset as int),
    ensures
        match n {
            Some(n) => {
                &&& then_len(Some(offset as nat), *pattern, words@) == Some(n as nat)
                &&& n <= words@.len()
                &&& final(matched_words)@ == start + words@.take(n as int)
            },
            None => {
                &&& then_len(Some(offset as nat), *pattern, words@) is None
                &&& final(matched_words)@ == old(matched_words)@
            },
        },
{
    let rest = vstd::slice::slice_subrange(words, offset, words.len());
    assert(rest@ =~= words@.skip(offset as int));
    match pattern.matches(matched_words, rest) {
        Some(next) => {
            assert(words@.take(offset as int) + words@.skip(offset as int).take(next as int)
                =~= words@.take(offset + next));
            Some(offset + next)
        },
        None => None,
    }
}

/// A pattern that matches a sequence of two multiple word patterns.
impl<A: MultipleWordPattern, B: MultipleWordPattern> MultipleWordPattern for (A, B) {
    open spec fn sound(&self) -> bool {
        self.0.sound() && self.1.sound()
    }

    open spec fn match_len(&self, words: Seq<Word>) -> Option<nat> {
        then_len(self.0.match_len(words), self.1, words)
    }

    open spec fn hint(&self) -> nat {
        self.0.hint() + self.1.hint()
    }

    fn size_hint(&self) -> (n: usize) {
        add_hints(
            self.0.size_hint(),
            self.1.size_hint(),
            Ghost(self.0.hint()),
            Ghost(self.1.hint()),
        )
    }

    fn matches<'input>(&self, matched_words: &mut Vec<Word<'input>>, words: &[Word<'input>]) -> (n:
        Option<usize>) {
        let start_len = matched_words.len();
        let ghost start = matched_words@;
        if let Some(offset) = self.0.matches(matched_words, words) {
            if let Some(offset) = matches_next(&self.1, matched_words, words, offset, Ghost(start)) {
                return Some(offset);
            }
        }
        matched_words.truncate(start_len);
        assert(matched_words@ =~= start);
        None
    }
}

/// A pattern that matches a sequence of three multiple word patterns.
impl<
    A: MultipleWordPattern,
    B: MultipleWordPattern,
    C: MultipleWordPattern,
> MultipleWordPattern for (A, B, C) {
    open spec fn sound(&self) -> bool {
        self.0.sound() && self.1.sound() && self.2.sound()
    }

    open spec fn match_len(&self, words: Seq<Word>) -> Option<nat> {
        then_len(then_len(self.0.match_len(words), self.1, words), self.2, words)
    }

    open spec fn hint(&self) -> nat {
        self.0.hint() + self.1.hint() + self.2.hint()
    }

    fn size_hint(&self) -> (n: usize) {
        let two = add_hints(
            self.0.size_hint(),
            self.1.size_hint(),
            Ghost(self.0.hint()),
            Ghost(self.1.hint()),
        );
        add_hints(two, self.2.size_hint(), Ghost(self.0.hint() + self.1.hint()), Ghost(self.2.hint()))
    }

    fn matches<'input>(&self, matched_words: &mut Vec<Word<'input>>, words: &[Word<'input>]) -> (n:
        Option<usize>) {
        let start_len = matched_words.len();
        let ghost start = matched_words@;
        if let Some(offset) = self.0.matches(matched_words, words) {
            if let Some(offset) = matches_next(&self.1, matched_words, words, offset, Ghost(start)) {
                if let Some(offset) = matches_next(
                    &self.2,
                    matched_words,
                    words,
                    offset,
                    Ghost(start),
                ) {
                    return Some(offset);
                }
            }
        }
        matched_words.truncate(start_len);
        assert(matched_words@ =~= start);
        None
    }
}

/// A pattern that matches a sequence of four multiple word patterns.
impl<
    A: MultipleWordPattern,
    B: MultipleWordPattern,
    C: MultipleWordPattern,
    D: MultipleWordPattern,
> MultipleWordPattern for (A, B, C, D) {
    open spec fn sound(&self) -> bool {
        self.0.sound() && self.1.sound() && self.2.sound() && self.3.sound()
    }

    open spec fn match_len(&self, words: Seq<Word>) -> Option<nat> {
        then_len(
            then_len(then_len(self.0.match_len(words), self.1, words), self.2, words),
            self.3,
            words,
        )
    }

    open spec fn hint(&self) -> nat {
        self.0.hint() + self.1.hint() + self.2.hint() + self.3.hint()
    }

    fn size_hint(&self) -> (n: usize) {
        let two = add_hints(
            self.0.size_hint(),
            self.1.size_hint(),
            Ghost(self.0.hint()),
            Ghost(self.1.hint()),
        );
        let three = add_hints(
            two,
            self.2.size_hint(),
            Ghost(self.0.hint() + self.1.hint()),
            Ghost(self.2.hint()),
        );
        add_hints(
            three,
            self.3.size_hint(),
            Ghost(self.0.hint() + self.1.hint() + self.2.hint()),
            Ghost(self.3.hint()),
        )
    }

    fn matches<'input>(&self, matched_words: &mut Vec<Word<'input>>, words: &[Word<'input>]) -> (n:
        Option<usize>) {
        let start_len = matched_words.len();
        let ghost start = matched_words@;
        if let Some(offset) = self.0.matches(matched_words, words) {
            if let Some(offset) = matches_next(&self.1, matched_words, words, offset, Ghost(start)) {
                if let Some(offset) = matches_next(
                    &self.2,
                    matched_words,
                    words,
                    offset,
                    Ghost(start),
                ) {
                    if let Some(offset) = matches_next(
                        &self.3,
                        matched_words,
                        words,
                        offset,
                        Ghost(start),
                    ) {
                        return Some(offset);
                    }
                }
            }
        }
        matched_words.truncate(start_len);
        assert(matched_words@ =~= start);
        None
    }
}

/// A pattern that matches any word.
#[derive(Copy, Clone, Debug)]
pub struct Any;

impl SingleWordPattern for Any {
    open spec fn valid(&self) -> bool {
        true
    }

    open spec fn accepts(&self, word: Word) -> bool {
        true
    }

    fn matches_word(&self, _word: &Word) -> (matched: bool) {
        true
    }
}

/// A pattern that matches either of two single word patterns.
#[derive(Copy, Clone, Debug)]
pub struct OrS<L: SingleWordPattern, R: SingleWordPattern>(pub L, pub R);

impl<L: SingleWordPattern, R: SingleWordPattern> SingleWordPattern for OrS<L, R> {
    open spec fn valid(&self) -> bool {
        self.0.valid() && self.1.valid()
    }

    open spec fn accepts(&self, word: Word) -> bool {
        self.0.accepts(word) || self.1.accepts(word)
    }

    fn matches_word(&self, word: &Word) -> (matched: bool) {
        self.0.matches_word(word) || self.1.matches_word(word)
    }
}

/// A pattern that matches either of two multiple word patterns: the first
/// where it matches, else the second.
#[derive(Copy, Clone, Debug)]
pub struct Or<L: MultipleWordPattern, R: MultipleWordPattern>(pub L, pub R);

impl<L: MultipleWordPattern, R: MultipleWordPattern> MultipleWordPattern for Or<L, R> {
    open spec fn sound(&self) -> bool {
        self.0.sound() && self.1.sound()
    }

    open spec fn match_len(&self, words: Seq<Word>) -> Option<nat> {
        match self.0.match_len(words) {
            Some(n) => Some(n),
            None => self.1.match_len(words),
        }
    }

    open spec fn hint(&self) -> nat {
        if self.0.hint() >= self.1.hint() {
            self.0.hint()
        } else {
            self.1.hint()
        }
    }

    fn size_hint(&self) -> (n: usize) {
        let left = self.0.size_hint();
        let right = self.1.size_hint();
        if left >= right {
            left
        } else {
            right
        }
    }

    fn matches<'input>(&self, matched_words: &mut Vec<Word<'input>>, words: &[Word<'input>]) -> (n:
        Option<usize>) {
        if let Some(next) = self.0.matches(matched_words, words) {
            return Some(next);
        }
        if let Some(next) = self.1.matches(matched_words, words) {
            return Some(next);
        }
        None
    }
}

/// A pattern that matches if both of two single word patterns match a single word.
#[derive(Copy, Clone, Debug)]
pub struct AndS<L: SingleWordPattern, R: SingleWordPattern>(pub L, pub R);

impl<L: SingleWordPattern, R: SingleWordPattern> SingleWordPattern for AndS<L, R> {
    open spec fn valid(&self) -> bool {
        self.0.valid() && self.1.valid()
    }

    open spec fn accepts(&self, word: Word) -> bool {
        self.0.accepts(word) && self.1.accepts(word)
    }

    fn matches_word(&self, word: &Word) -> (matched: bool) {
        self.0.matches_word(word) && self.1.matches_word(word)
    }
}

/// A pattern that matches if any of a set of single word patterns match a single word.
#[derive(Copy, Clone)]
pub struct OneOfS<P, const N: usize>(pub [P; N]);

impl<P: SingleWordPattern, const N: usize> SingleWordPattern for OneOfS<P, N> {
    open spec fn valid(&self) -> bool {
        forall|i: int| 0 <= i < N ==> (#[trigger] self.0@[i]).valid()
    }

    open spec fn accepts(&self, word: Word) -> bool {
        exists|i: int| 0 <= i < N && (#[trigger] self.0@[i]).accepts(word)
    }

    fn matches_word(&self, word: &Word) -> (matched: bool) {
        let mut i: usize = 0;
        while i < N
            invariant
                0 <= i <= N,
                self.valid(),
                forall|j: int| 0 <= j < i ==> !(#[trigger] self.0@[j]).accepts(*word),
            decreases N - i,
        {
            if self.0[i].matches_word(word) {
                return true;
            }
            i += 1;
        }
        false
    }
}

/// The number of words that the first of the patterns from `from` on that
/// matches does match.
pub open spec fn first_match_len<P: MultipleWordPattern>(
    patterns: Seq<P>,
    words: Seq<Word>,
    from: int,
) -> Option<nat>
    decreases patterns.len() - from,
{
    if from < 0 || from >= patterns.len() {
        None
    } else {
        match patterns[from].match_len(words) {
            Some(n) => Some(n),
            None => first_match_len(patterns, words, from + 1),
        }
    }
}

/// Where one of several patterns matches, the match is that of one of them.
pub proof fn lemma_first_match_len<P: MultipleWordPattern>(
    patterns: Seq<P>,
    words: Seq<Word>,
    from: int,
)
    requires
        0 <= from,
    ensures
        match first_match_len(patterns, words, from) {
            Some(n) => exists|i: int|
                from <= i < patterns.len() && (#[trigger] patterns[i]).match_len(words) == Some(n),
            None => forall|i: int|
                from <= i < patterns.len() ==> (#[trigger] patterns[i]).match_len(words) is None,
        },
    decreases patterns.len() - from,
{
    if from < patterns.len() {
        lemma_first_match_len(patterns, words, from + 1);
    }
}

/// The greatest of the estimates of the first `upto` patterns, or one where
/// there is none.
pub open spec fn greatest_hint<P: MultipleWordPattern>(patterns: Seq<P>, upto: int) -> nat
    decreases upto,
{
    if upto <= 0 {
        0
    } else if upto == 1 {
        patterns[0].hint()
    } else if greatest_hint(patterns, upto - 1) >= patterns[upto - 1].hint() {
        greatest_hint(patterns, upto - 1)
    } else {
        patterns[upto - 1].hint()
    }
}

/// A pattern that matches if any of a set of multiple word patterns match a
/// sequence of words: the first of them that matches decides.
#[derive(Copy, Clone, Debug)]
pub struct OneOf<P, const N: usize>(pub [P; N]);

impl<P: MultipleWordPattern, const N: usize> MultipleWordPattern for OneOf<P, N> {
    open spec fn sound(&self) -> bool {
        forall|i: int| 0 <= i < N ==> (#[trigger] self.0@[i]).sound()
    }

    open spec fn match_len(&self, words: Seq<Word>) -> Option<nat> {
        first_match_len(self.0@, words, 0)
    }

    open spec fn hint(&self) -> nat {
        if N == 0 {
            1
        } else {
            greatest_hint(self.0@, N as int)
        }
    }

    fn size_hint(&self) -> (n: usize) {
        if N == 0 {
            return 1;
        }
        let mut best: usize = self.0[0].size_hint();
        let mut i: usize = 1;
        while i < N
            invariant
                1 <= i <= N,
                best == held(greatest_hint(self.0@, i as int)),
            decreases N - i,
        {
            let next = self.0[i].size_hint();
            if next > best {
                best = next;
            }
            i += 1;
        }
        best
    }

    fn matches<'input>(&self, matched_words: &mut Vec<Word<'input>>, words: &[Word<'input>]) -> (n:
        Option<usize>) {
        let mut i: usize = 0;
        while i < N
            invariant
                0 <= i <= N,
                self.sound(),
                matched_words@ == old(matched_words)@,
                first_match_len(self.0@, words@, 0) == first_match_len(self.0@, words@, i as int),
            decreases N - i,
        {
            if let Some(next) = self.0[i].matches(matched_words, words) {
                return Some(next);
            }
            i += 1;
        }
        None
    }
}

/// A pattern that matches an optional multiple word pattern: what the
/// pattern matches, or no word at all.
#[derive(Copy, Clone, Debug)]
pub struct Opt<P>(pub P);

impl<P: MultipleWordPattern> MultipleWordPattern for Opt<P> {
    open spec fn sound(&self) -> bool {
        self.0.sound()
    }

    open spec fn match_len(&self, words: Seq<Word>) -> Option<nat> {
        match self.0.match_len(words) {
            Some(n) => Some(n),
            None => Some(0nat),
        }
    }

    open spec fn hint(&self) -> nat {
        self.0.hint()
    }

    fn size_hint(&self) -> (n: usize) {
        self.0.size_hint()
    }

    fn matches<'input>(&self, matched_words: &mut Vec<Word<'input>>, words: &[Word<'input>]) -> (n:
        Option<usize>) {
        if let Some(next) = self.0.matches(matched_words, words) {
            return Some(next);
        }
        assert(matched_words@ + words@.take(0) =~= matched_words@);
        Some(0)
    }
}

/// A top-level matcher that can match multiple word patterns while ignoring
/// certain words.
pub trait Matcher {
    /// The type of pattern that matches words to ignore during matching.
    type IgnorePattern: SingleWordPattern;

    /// The type of pattern to search for.
    type Pattern: MultipleWordPattern;

    /// The matcher can be used: its patterns can.
    spec fn ready(&self) -> bool;

    /// The pattern that matches words to ignore, if there is one.
    spec fn spec_ignore_pattern(&self) -> Option<Self::IgnorePattern>;

    /// The pattern to search for.
    spec fn spec_pattern(&self) -> Self::Pattern;

    /// Get the pattern that matches words to ignore.
    ///
    /// `None` indicates that no words should be ignored.
    fn ignore_pattern(&self) -> (ignore: Option<&Self::IgnorePattern>)
        requires
            self.ready(),
        ensures
            match ignore {
                Some(pattern) => self.spec_ignore_pattern() == Some(*pattern) && pattern.valid(),
                None => self.spec_ignore_pattern() is None,
            },
    ;

    /// Get the pattern to search for.
    fn pattern(&self) -> (pattern: &Self::Pattern)
        requires
            self.ready(),
        ensures
            *pattern == self.spec_pattern(),
            pattern.sound(),
    ;
}

/// All multiple word patterns are also matchers, which do not ignore any words.
impl<P: MultipleWordPattern> Matcher for P {
    type IgnorePattern = Any;

    type Pattern = P;

    open spec fn ready(&self) -> bool {
        self.sound()
    }

    open spec fn spec_ignore_pattern(&self) -> Option<Any> {
        None
    }

    open spec fn spec_pattern(&self) -> P {
        *self
    }

    fn ignore_pattern(&self) -> (ignore: Option<&Any>) {
        None
    }

    fn pattern(&self) -> (pattern: &P) {
        self
    }
}

/// A matcher that matches a sequence of multiple word patterns while ignoring
/// some words.
#[derive(Copy, Clone)]
pub struct Ignore<I, P>(pub I, pub P);

impl<I: SingleWordPattern, P: MultipleWordPattern> Matcher for Ignore<I, P> {
    type IgnorePattern = I;

    type Pattern = P;

    open spec fn ready(&self) -> bool {
        self.0.valid() && self.1.sound()
    }

    open spec fn spec_ignore_pattern(&self) -> Option<I> {
        Some(self.0)
    }

    open spec fn spec_pattern(&self) -> P {
        self.1
    }

    fn ignore_pattern(&self) -> (ignore: Option<&I>) {
        Some(&self.0)
    }

    fn pattern(&self) -> (pattern: &P) {
        &self.1
    }
}

/// The words that a pattern for words to ignore leaves.
pub open spec fn kept<I: SingleWordPattern>(ignore: I, words: Seq<Word>) -> Seq<Word>
    decreases words.len(),
{
    if words.len() == 0 {
        words
    } else if ignore.accepts(words.last()) {
        kept(ignore, words.drop_last())
    } else {
        kept(ignore, words.drop_last()).push(words.last())
    }
}

/// The words that a matcher searches among those of a block.
pub open spec fn searched<M: Matcher>(matcher: M, words: Seq<Word>) -> Seq<Word> {
    match matcher.spec_ignore_pattern() {
        Some(ignore) => kept(ignore, words),
        None => words,
    }
}

/// The matches of a pattern that start at one of the first `upto` words, in
/// the order of their first words.
pub open spec fn matches_upto<P: MultipleWordPattern>(pattern: P, words: Seq<Word>, upto: int)
    -> Seq<Seq<Word>>
    decreases upto,
{
    if upto <= 0 {
        Seq::empty()
    } else {
        let before = matches_upto(pattern, words, upto - 1);
        match pattern.match_len(words.skip(upto - 1)) {
            Some(n) => before.push(words.subrange(upto - 1, upto - 1 + n)),
            None => before,
        }
    }
}

/// `found` is a match of the pattern among `words`: the words from some
/// place on that the pattern matches there.
pub open spec fn is_match_in<P: MultipleWordPattern>(
    pattern: P,
    words: Seq<Word>,
    found: Seq<Word>,
) -> bool {
    exists|i: int|
        0 <= i && i + found.len() <= words.len() && pattern.match_len(#[trigger] words.skip(i))
            == Some(found.len()) && found == words.subrange(i, i + found.len())
}

/// `found` may be a match of the pattern: the pattern matches these words
/// where they stand before some others.
pub open spec fn is_match_of<P: MultipleWordPattern>(pattern: P, found: Seq<Word>) -> bool {
    exists|rest: Seq<Word>| pattern.match_len(#[trigger] (found + rest)) == Some(found.len())
}

/// A match among words is a match.
pub proof fn lemma_match_in_is_match<P: MultipleWordPattern>(
    pattern: P,
    words: Seq<Word>,
    found: Seq<Word>,
)
    requires
        is_match_in(pattern, words, found),
    ensures
        is_match_of(pattern, found),
        forall|k: int| 0 <= k < found.len() ==> words.contains(#[trigger] found[k]),
        crate::doc::offsets_in_order(words) ==> crate::doc::offsets_in_order(found),
{
    let i = choose|i: int|
        0 <= i && i + found.len() <= words.len() && pattern.match_len(#[trigger] words.skip(i))
            == Some(found.len()) && found == words.subrange(i, i + found.len());
    let rest = words.skip(i + found.len());
    assert(found + rest =~= words.skip(i));
    assert forall|k: int| 0 <= k < found.len() implies words.contains(#[trigger] found[k]) by {
        assert(words[i + k] == found[k]);
    }
    if crate::doc::offsets_in_order(words) {
        assert forall|a: int, b: int| 0 <= a <= b < found.len() implies (
        #[trigger] found[a]).spec_offset() <= (#[trigger] found[b]).spec_offset() by {
            assert(words[i + a] == found[a] && words[i + b] == found[b]);
        }
    }
}

/// The words that are left are among the words, in their order.
pub proof fn lemma_kept<I: SingleWordPattern>(ignore: I, words: Seq<Word>)
    ensures
        forall|k: int|
            0 <= k < kept(ignore, words).len() ==> words.contains(#[trigger] kept(ignore, words)[k]),
        crate::doc::offsets_in_order(words) ==> crate::doc::offsets_in_order(kept(ignore, words)),
    decreases words.len(),
{
    if words.len() > 0 {
        let before = words.drop_last();
        lemma_kept(ignore, before);
        let left = kept(ignore, words);
        assert forall|k: int| 0 <= k < left.len() implies words.contains(#[trigger] left[k]) by {
            if k < kept(ignore, before).len() {
                let w = kept(ignore, before)[k];
                assert(before.contains(w));
                let j = choose|j: int| 0 <= j < before.len() && before[j] == w;
                assert(words[j] == w);
            } else {
                assert(words[words.len() - 1] == left[k]);
            }
        }
        if crate::doc::offsets_in_order(words) {
            assert forall|i: int, j: int| 0 <= i <= j < before.len() implies (
            #[trigger] before[i]).spec_offset() <= (#[trigger] before[j]).spec_offset() by {
                assert(words[i] == before[i] && words[j] == before[j]);
            }
            assert forall|i: int, j: int| 0 <= i <= j < left.len() implies (
            #[trigger] left[i]).spec_offset() <= (#[trigger] left[j]).spec_offset() by {
                if j == kept(ignore, before).len() && i < j {
                    let w = kept(ignore, before)[i];
                    assert(before.contains(w));
                    let a = choose|a: int| 0 <= a < before.len() && before[a] == w;
                    assert(words[a] == w);
                    assert(words[words.len() - 1] == left[j]);
                }
            }
        }
    }
}

/// The words of each of the matches.
pub open spec fn views_of(matches: Seq<Vec<Word>>) -> Seq<Seq<Word>> {
    Seq::new(matches.len(), |i: int| matches[i]@)
}

/// Find each sequence of words in `block` that match the pattern of
/// `matcher`.
///
/// Every word that is not ignored is tried as the first word of a match, so
/// matches may overlap. The matches come in the order of their first words.
pub fn match_words<'input, M: Matcher>(block: &Block<Word<'input>>, matcher: &M) -> (matches: Vec<
    Vec<Word<'input>>,
>)
    requires
        matcher.ready(),
    ensures
        views_of(matches@) == matches_upto(
            matcher.spec_pattern(),
            searched(*matcher, block@),
            searched(*matcher, block@).len() as int,
        ),
        forall|t: int|
            0 <= t < matches@.len() ==> is_match_in(
                matcher.spec_pattern(),
                searched(*matcher, block@),
                (#[trigger] matches@[t])@,
            ),
{
    let all_words = block.as_slice();
    let ignore_pattern = matcher.ignore_pattern();

    // If an ignore pattern is provided, filter out any words that match it.
    let mut ignored_words: Vec<Word<'input>> = Vec::new();
    match ignore_pattern {
        Some(ignore) => {
            let mut i: usize = 0;
            assert(all_words@.take(0) =~= Seq::<Word>::empty());
            while i < all_words.len()
                invariant
                    0 <= i <= all_words@.len(),
                    ignore.valid(),
                    ignored_words@ == kept(*ignore, all_words@.take(i as int)),
                decreases all_words@.len() - i,
            {
                assert(all_words@.take(i + 1).drop_last() =~= all_words@.take(i as int));
                if !ignore.matches_word(&all_words[i]) {
                    ignored_words.push(all_words[i]);
                }
                i += 1;
            }
            assert(all_words@.take(all_words@.len() as int) =~= all_words@);
        },
        None => {},
    }

    // Search all the words if no pattern for words to ignore is provided.
    let words: &[Word<'input>] = match ignore_pattern {
        Some(_) => ignored_words.as_slice(),
        None => all_words,
    };
    assert(words@ == searched(*matcher, block@));

    let pattern = matcher.pattern();
    let hint = pattern.size_hint();
    let mut matches: Vec<Vec<Word<'input>>> = Vec::new();
    let mut i: usize = 0;
    assert(views_of(matches@) =~= matches_upto(*pattern, words@, 0));
    while i < words.len()
        invariant
            0 <= i <= words@.len(),
            pattern.sound(),
            views_of(matches@) == matches_upto(*pattern, words@, i as int),
            forall|t: int|
                0 <= t < matches@.len() ==> is_match_in(*pattern, words@, (#[trigger] matches@[t])@),
        decreases words@.len() - i,
    {
        // Each attempt starts from a buffer of its own, so that what a
        // pattern that fails may have done is never seen.
        let mut matched_words: Vec<Word<'input>> = Vec::with_capacity(hint);
        let rest = vstd::slice::slice_subrange(words, i, words.len());
        assert(rest@ =~= words@.skip(i as int));
        let ghost before = views_of(matches@);
        if let Some(n) = pattern.matches(&mut matched_words, rest) {
            assert(matched_words@ =~= words@.subrange(i as int, i + n));
            let ghost earlier = matches@;
            matches.push(matched_words);
            assert(views_of(matches@) =~= before.push(words@.subrange(i as int, i + n)));
            assert forall|t: int| 0 <= t < matches@.len() implies is_match_in(
                *pattern,
                words@,
                (#[trigger] matches@[t])@,
            ) by {
                if t < earlier.len() {
                    assert(matches@[t] == earlier[t]);
                } else {
                    assert(pattern.match_len(words@.skip(i as int)) == Some(n as nat));
                }
            }
        }
        i += 1;
    }
    matches
}

} // verus!
