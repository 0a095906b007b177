//! The values that the tagger's model is keyed by: fixed-width encodings of
//! words and of their endings, and the features built from them.

use crate::pos::POS;
use crate::text::{
    after, char_index, first_char, lemma_boundary, lemma_boundary_ends, lemma_boundary_order,
    occurs_at, split_at_space, str_eq, str_find, strip_prefix,
};
use vstd::prelude::*;
use vstd::string::*;
use vstd::utf8::*;

verus! {

/// The bytes of an ASCII text, one for each character.
pub open spec fn ascii_bytes(text: Seq<char>) -> Seq<u8> {
    Seq::new(text.len(), |i: int| text[i] as u8)
}

/// `bytes` at the right end of a field of `width` bytes, with zeros before
/// them.
pub open spec fn right_aligned(bytes: Seq<u8>, width: nat) -> Seq<u8>
    recommends
        bytes.len() <= width,
{
    Seq::new(
        width,
        |i: int|
            if i < width - bytes.len() {
                0u8
            } else {
                bytes[i - (width - bytes.len())]
            },
    )
}

/// The last three characters of a text, or all of it where it is shorter.
pub open spec fn ending(text: Seq<char>) -> Seq<char> {
    if text.len() <= 3 {
        text
    } else {
        text.skip(text.len() - 3)
    }
}

/// The suffix of a `ContextWord`. This can be one, two or three ASCII characters long.
#[derive(Copy, Clone, Debug, PartialEq, Eq, Hash, PartialOrd, Ord)]
pub struct ContextSuffix {
    /// The characters of the suffix, at the right end and with zeros before
    /// them.
    chars: [u8; 3],
}

impl View for ContextSuffix {
    type V = Seq<u8>;

    closed spec fn view(&self) -> Seq<u8> {
        self.chars@
    }
}

impl ContextSuffix {
    /// A suffix from its three bytes.
    pub fn new(chars: [u8; 3]) -> (suffix: Self)
        ensures
            suffix@ == chars@,
    {
        ContextSuffix { chars }
    }

    /// The three bytes of the suffix.
    pub fn bytes(&self) -> (chars: [u8; 3])
        ensures
            chars@ == self@,
    {
        self.chars
    }

    /// Every suffix has three bytes.
    pub proof fn lemma_len(&self)
        ensures
            self@.len() == 3,
    {
    }

    /// Suffixes with the same bytes are the same suffix.
    pub proof fn lemma_ext(a: ContextSuffix, b: ContextSuffix)
        requires
            a@ == b@,
        ensures
            a == b,
    {
        assert(a.chars =~= b.chars);
    }

    /// The suffix with the given bytes.
    pub open spec fn of_bytes(bytes: Seq<u8>) -> ContextSuffix {
        choose|s: ContextSuffix| s@ == bytes
    }

    /// A suffix is the suffix with its bytes.
    pub proof fn lemma_of_bytes(self)
        ensures
            Self::of_bytes(self@) == self,
    {
        Self::lemma_ext(Self::of_bytes(self@), self);
    }

    /// The suffix of a token, where it has one.
    pub open spec fn spec_of_token(text: Seq<char>) -> Option<ContextSuffix> {
        match Self::spec_from_token(text) {
            Some(bytes) => Some(Self::of_bytes(bytes)),
            None => None,
        }
    }

    /// The encoding of the ending of a text: `None` for an empty text and for
    /// one whose ending is not all ASCII.
    pub open spec fn spec_from_token(text: Seq<char>) -> Option<Seq<u8>> {
        if text.len() == 0 || !is_ascii_chars(ending(text)) {
            None
        } else {
            Some(right_aligned(ascii_bytes(ending(text)), 3))
        }
    }

    /// The suffix of a token: its last three characters, or fewer where it is
    /// shorter. `None` where the token is empty or one of these characters is
    /// not ASCII.
    pub fn from_token(token: &str) -> (suffix: Option<ContextSuffix>)
        ensures
            match suffix {
                Some(s) => Self::spec_from_token(token@) == Some(s@),
                None => Self::spec_from_token(token@) is None,
            },
            suffix == Self::spec_of_token(token@),
    {
        let count = token.unicode_len();
        if count == 0 {
            return None;
        }
        let kept: usize = if count < 3 {
            count
        } else {
            3
        };
        let skipped: usize = count - kept;
        let pad: usize = 3 - kept;
        let mut chars: [u8; 3] = [0u8, 0u8, 0u8];
        let ghost tail = ending(token@);
        assert(tail.len() == kept);
        let mut i: usize = 0;
        while i < kept
            invariant
                0 <= i <= kept <= 3,
                kept == tail.len(),
                pad == 3 - kept,
                skipped == count - kept,
                count == token@.len(),
                tail == ending(token@),
                forall|j: int| 0 <= j < pad ==> chars@[j] == 0,
                forall|j: int| 0 <= j < i ==> '\0' <= #[trigger] tail[j] <= '\u{7f}',
                forall|j: int| 0 <= j < i ==> chars@[pad + j] == #[trigger] tail[j] as u8,
            decreases kept - i,
        {
            let c = token.get_char(skipped + i);
            assert(c == tail[i as int]);
            if c > '\u{7f}' {
                return None;
            }
            chars[pad + i] = c as u8;
            i += 1;
        }
        let suffix = ContextSuffix { chars };
        assert(suffix@ =~= right_aligned(ascii_bytes(tail), 3));
        proof {
            suffix.lemma_of_bytes();
        }
        Some(suffix)
    }
}

/// The text is a year: four ASCII digits.
pub open spec fn is_year(text: Seq<char>) -> bool {
    &&& text.len() == 4
    &&& forall|i: int| 0 <= i < 4 ==> '0' <= #[trigger] text[i] <= '9'
}

/// The text holds a hyphen, and its first hyphen is not its first character.
pub open spec fn has_inner_hyphen(text: Seq<char>) -> bool {
    &&& text.len() > 0
    &&& text[0] != '-'
    &&& exists|k: int| 0 < k < text.len() && #[trigger] text[k] == '-'
}

/// Whether the token is a year: four ASCII digits.
fn is_year_token(token: &str) -> (year: bool)
    ensures
        year == is_year(token@),
{
    if !token.is_ascii() {
        assert(!is_year(token@)) by {
            if is_year(token@) {
                assert forall|i: int| 0 <= i < token@.len() implies '\0' <= #[trigger] token@[i]
                    <= '\u{7f}' by {}
            }
        }
        return false;
    }
    if token.unicode_len() != 4 {
        return false;
    }
    let mut i: usize = 0;
    while i < 4
        invariant
            0 <= i <= 4,
            token@.len() == 4,
            is_ascii(token),
            forall|j: int| 0 <= j < i ==> '0' <= #[trigger] token@[j] <= '9',
        decreases 4 - i,
    {
        let b = token.get_ascii(i);
        assert('\0' <= token@[i as int] <= '\u{7f}');
        if b < 48 || b > 57 {
            return false;
        }
        i += 1;
    }
    true
}

/// Whether the token holds a hyphen, and its first hyphen is not its first
/// character.
fn has_inner_hyphen_token(token: &str) -> (inner: bool)
    ensures
        inner == has_inner_hyphen(token@),
{
    proof {
        reveal_strlit("-");
    }
    let ghost text = token@;
    let ghost needle = "-"@;
    assert(needle.len() == 1 && needle[0] == '-');
    assert forall|k: int| 0 <= k < text.len() implies (occurs_at(text, needle, k) <==> text[k]
        == '-') by {
        if text[k] == '-' {
            assert(text.subrange(k, k + 1) =~= needle);
        } else {
            assert(text.subrange(k, k + 1)[0] == text[k]);
        }
    }
    match str_find(token, "-") {
        Some(offset) => {
            proof {
                let k = char_index(text, offset as int);
                lemma_boundary(text, offset as int);
                lemma_boundary_ends(text);
                lemma_boundary_order(text, 0, offset as int);
                assert(occurs_at(text, needle, k));
                if k > 0 {
                    assert(!occurs_at(text, needle, 0));
                    assert(text[k] == '-');
                }
            }
            offset > 0
        },
        None => {
            proof {
                assert forall|k: int| 0 < k < text.len() implies text[k] != '-' by {
                    assert(!occurs_at(text, needle, k));
                }
            }
            false
        },
    }
}

/// A word of context for the tagger: up to [`ContextWord::LENGTH`] ASCII
/// characters in a field of that width.
///
/// For most tokens this is the token itself. A number is replaced by the
/// marker `!DIGITS`, or `!YEAR` where it has four digits, and a token with a
/// hyphen inside by `!HYPHEN`. Four more markers stand for the places just
/// outside a block.
#[derive(Copy, Clone, Debug, PartialEq, Eq, Hash, PartialOrd, Ord)]
pub struct ContextWord {
    /// The characters are at the right end of the field, with zeros before
    /// them, so that the suffix is the last three bytes.
    chars: [u8; 23],
}

impl View for ContextWord {
    type V = Seq<u8>;

    closed spec fn view(&self) -> Seq<u8> {
        self.chars@
    }
}

impl ContextWord {
    /// The width of the field in bytes.
    pub const LENGTH: usize = 23;

    /// The field that holds an ASCII text.
    pub open spec fn encode(text: Seq<char>) -> Seq<u8> {
        right_aligned(ascii_bytes(text), 23)
    }

    /// The word of context for a token with the given tag, where it has one.
    pub open spec fn spec_from_word(text: Seq<char>, pos: Option<POS>) -> Option<Seq<u8>> {
        if pos == Some(POS::CardinalNumber) {
            if is_year(text) {
                Some(Self::encode("!YEAR"@))
            } else {
                Some(Self::encode("!DIGITS"@))
            }
        } else if has_inner_hyphen(text) {
            Some(Self::encode("!HYPHEN"@))
        } else if !is_ascii_chars(text) || text.len() > 23 {
            None
        } else {
            Some(Self::encode(text))
        }
    }

    /// Every word of context has as many bytes as the field is wide.
    pub proof fn lemma_len(&self)
        ensures
            self@.len() == 23,
    {
    }

    /// Words of context with the same bytes are the same.
    pub proof fn lemma_ext(a: ContextWord, b: ContextWord)
        requires
            a@ == b@,
        ensures
            a == b,
    {
        assert(a.chars =~= b.chars);
    }

    /// The word of context with the given bytes.
    pub open spec fn of_bytes(bytes: Seq<u8>) -> ContextWord {
        choose|w: ContextWord| w@ == bytes
    }

    /// A word of context is the one with its bytes.
    pub proof fn lemma_of_bytes(self)
        ensures
            Self::of_bytes(self@) == self,
    {
        Self::lemma_ext(Self::of_bytes(self@), self);
    }

    /// The word of context for a token with the given tag, where it has one.
    pub open spec fn spec_of_word(text: Seq<char>, pos: Option<POS>) -> Option<ContextWord> {
        match Self::spec_from_word(text, pos) {
            Some(bytes) => Some(Self::of_bytes(bytes)),
            None => None,
        }
    }

    /// The ending of a word of context, as a suffix.
    pub open spec fn suffix_of(self) -> ContextSuffix {
        ContextSuffix::of_bytes(self.spec_suffix())
    }

    /// The bytes of the field.
    pub fn bytes(&self) -> (chars: [u8; 23])
        ensures
            chars@ == self@,
    {
        self.chars
    }

    /// Create a new `ContextWord` from an input token.
    ///
    /// This returns `None` if the token holds a character that is not ASCII
    /// or is longer than the field, unless a marker stands for it.
    pub fn new_from_word(token: &str, pos: Option<POS>) -> (word: Option<ContextWord>)
        ensures
            match word {
                Some(w) => Self::spec_from_word(token@, pos) == Some(w@),
                None => Self::spec_from_word(token@, pos) is None,
            },
            word == Self::spec_of_word(token@, pos),
    {
        let word = Self::encode_word(token, pos);
        proof {
            if let Some(w) = word {
                w.lemma_of_bytes();
            }
        }
        word
    }

    /// The word of context for a token, by cases.
    fn encode_word(token: &str, pos: Option<POS>) -> (word: Option<ContextWord>)
        ensures
            match word {
                Some(w) => Self::spec_from_word(token@, pos) == Some(w@),
                None => Self::spec_from_word(token@, pos) is None,
            },
    {
        match pos {
            Some(POS::CardinalNumber) => {
                if is_year_token(token) {
                    return Some(Self::year());
                } else {
                    return Some(Self::digits());
                }
            },
            _ => {},
        }
        if has_inner_hyphen_token(token) {
            return Some(Self::hyphen());
        }
        if !token.is_ascii() {
            return None;
        }
        let bytes = token.as_bytes();
        let count = bytes.len();
        proof {
            is_ascii_spec_bytes(token);
        }
        if count > 23 {
            return None;
        }
        let pad: usize = 23 - count;
        let mut chars: [u8; 23] = [0u8; 23];
        let mut i: usize = 0;
        while i < count
            invariant
                0 <= i <= count <= 23,
                pad == 23 - count,
                count == bytes@.len(),
                bytes@ == ascii_bytes(token@),
                forall|j: int| 0 <= j < pad ==> chars@[j] == 0,
                forall|j: int| 0 <= j < i ==> chars@[pad + j] == #[trigger] bytes@[j],
            decreases count - i,
        {
            chars[pad + i] = bytes[i];
            i += 1;
        }
        let word = ContextWord { chars };
        assert(word@ =~= Self::encode(token@));
        Some(word)
    }

    /// Create a new `ContextWord` from a token of a model: one without a tag.
    ///
    /// The token must be one that a word of context stands for: it must not
    /// be longer than the field and must hold ASCII alone, unless it holds a
    /// hyphen inside. For any token, see [`ContextWord::new_from_word`].
    pub fn new_from_model(token: &str) -> (word: ContextWord)
        requires
            Self::spec_from_word(token@, None) is Some,
        ensures
            Self::spec_from_word(token@, None) == Some(word@),
            Self::spec_of_word(token@, None) == Some(word),
    {
        match Self::new_from_word(token, None) {
            Some(word) => word,
            None => vstd::pervasive::unreached(),
        }
    }

    /// The ending of the word: the last three bytes of the field.
    pub open spec fn spec_suffix(&self) -> Seq<u8> {
        self@.skip(20)
    }

    /// Get the suffix of the word.
    pub fn suffix(&self) -> (suffix: ContextSuffix)
        ensures
            suffix@ == self.spec_suffix(),
            suffix == self.suffix_of(),
    {
        let suffix = ContextSuffix::new([self.chars[20], self.chars[21], self.chars[22]]);
        assert(suffix@ =~= self.spec_suffix());
        proof {
            suffix.lemma_of_bytes();
        }
        suffix
    }

    /// The marker for a number of four digits.
    fn year() -> (word: ContextWord)
        ensures
            word@ == Self::encode("!YEAR"@),
            word == Self::of_bytes(Self::encode("!YEAR"@)),
    {
        let word = ContextWord {
            chars: [0, 0, 0, 0, 0, 0, 0, 0, 0, 0, 0, 0, 0, 0, 0, 0, 0, 0, 33, 89, 69, 65, 82],
        };
        proof {
            reveal_strlit("!YEAR");
            assert(word@ =~= Self::encode("!YEAR"@));
            word.lemma_of_bytes();
        }
        word
    }

    /// The marker for any other number.
    fn digits() -> (word: ContextWord)
        ensures
            word@ == Self::encode("!DIGITS"@),
            word == Self::of_bytes(Self::encode("!DIGITS"@)),
    {
        let word = ContextWord {
            chars: [0, 0, 0, 0, 0, 0, 0, 0, 0, 0, 0, 0, 0, 0, 0, 0, 33, 68, 73, 71, 73, 84, 83],
        };
        proof {
            reveal_strlit("!DIGITS");
            assert(word@ =~= Self::encode("!DIGITS"@));
            word.lemma_of_bytes();
        }
        word
    }

    /// The marker for a token with a hyphen inside.
    fn hyphen() -> (word: ContextWord)
        ensures
            word@ == Self::encode("!HYPHEN"@),
            word == Self::of_bytes(Self::encode("!HYPHEN"@)),
    {
        let word = ContextWord {
            chars: [0, 0, 0, 0, 0, 0, 0, 0, 0, 0, 0, 0, 0, 0, 0, 0, 33, 72, 89, 80, 72, 69, 78],
        };
        proof {
            reveal_strlit("!HYPHEN");
            assert(word@ =~= Self::encode("!HYPHEN"@));
            word.lemma_of_bytes();
        }
        word
    }

    /// The marker for the place just before a block.
    pub fn start() -> (word: ContextWord)
        ensures
            word@ == Self::encode("-START-"@),
            word == Self::of_bytes(Self::encode("-START-"@)),
    {
        let word = ContextWord {
            chars: [0, 0, 0, 0, 0, 0, 0, 0, 0, 0, 0, 0, 0, 0, 0, 0, 45, 83, 84, 65, 82, 84, 45],
        };
        proof {
            reveal_strlit("-START-");
            assert(word@ =~= Self::encode("-START-"@));
            word.lemma_of_bytes();
        }
        word
    }

    /// The marker for the place two before a block.
    pub fn start2() -> (word: ContextWord)
        ensures
            word@ == Self::encode("-START2-"@),
            word == Self::of_bytes(Self::encode("-START2-"@)),
    {
        let word = ContextWord {
            chars: [0, 0, 0, 0, 0, 0, 0, 0, 0, 0, 0, 0, 0, 0, 0, 45, 83, 84, 65, 82, 84, 50, 45],
        };
        proof {
            reveal_strlit("-START2-");
            assert(word@ =~= Self::encode("-START2-"@));
            word.lemma_of_bytes();
        }
        word
    }

    /// The marker for the place just after a block.
    pub fn end() -> (word: ContextWord)
        ensures
            word@ == Self::encode("-END-"@),
            word == Self::of_bytes(Self::encode("-END-"@)),
    {
        let word = ContextWord {
            chars: [0, 0, 0, 0, 0, 0, 0, 0, 0, 0, 0, 0, 0, 0, 0, 0, 0, 0, 45, 69, 78, 68, 45],
        };
        proof {
            reveal_strlit("-END-");
            assert(word@ =~= Self::encode("-END-"@));
            word.lemma_of_bytes();
        }
        word
    }

    /// The marker for the place two after a block.
    pub fn end2() -> (word: ContextWord)
        ensures
            word@ == Self::encode("-END2-"@),
            word == Self::of_bytes(Self::encode("-END2-"@)),
    {
        let word = ContextWord {
            chars: [0, 0, 0, 0, 0, 0, 0, 0, 0, 0, 0, 0, 0, 0, 0, 0, 0, 45, 69, 78, 68, 50, 45],
        };
        proof {
            reveal_strlit("-END2-");
            assert(word@ =~= Self::encode("-END2-"@));
            word.lemma_of_bytes();
        }
        word
    }
}

/// A feature of a word in its context, the key under which a model holds
/// weights.
#[derive(Copy, Clone, Debug, PartialEq, Eq, Hash, PartialOrd, Ord)]
pub enum Feature {
    /// Holds of every word.
    Bias,
    /// The ending of the word.
    Suffix(ContextSuffix),
    /// The first character of the word.
    Pref1(u8),
    /// The tag of the word before.
    IMinus1Tag(POS),
    /// The tag of the word two before.
    IMinus2Tag(POS),
    /// The tags of the word before and of the word two before.
    ITagPlusIMinus2Tag(POS, POS),
    /// The word itself.
    IWord(ContextWord),
    /// The tag of the word before, and the word itself.
    IMinus1TagPlusIWord(POS, ContextWord),
    /// The word before.
    IMinus1Word(ContextWord),
    /// The ending of the word before.
    IMinus1Suffix(ContextSuffix),
    /// The word two before.
    IMinus2Word(ContextWord),
    /// The word after.
    IPlus1Word(ContextWord),
    /// The ending of the word after.
    IPlus1Suffix(ContextSuffix),
    /// The word two after.
    IPlus2Word(ContextWord),
}

/// `value` is a tag's label, a space and a second tag's label.
pub open spec fn names_tags(value: Seq<char>, first: POS, second: POS) -> bool {
    exists|k: int|
        #![trigger value.take(k)]
        crate::text::is_first_space(value, k) && value.take(k) == first.spec_label() && value.skip(
            k + 1,
        ) == second.spec_label()
}

/// `value` is a tag's label, a space and a word of a model.
pub open spec fn names_tag_and_word(value: Seq<char>, tag: POS, word: ContextWord) -> bool {
    exists|k: int|
        #![trigger value.take(k)]
        crate::text::is_first_space(value, k) && value.take(k) == tag.spec_label()
            && ContextWord::spec_from_word(value.skip(k + 1), None) == Some(word@)
}

/// `value` starts with an ASCII character, whose code is `code`.
pub open spec fn starts_with_code(value: Seq<char>, code: u8) -> bool {
    value.len() > 0 && value[0] <= '\u{7f}' && code == value[0] as u8
}

impl Feature {
    /// The number of kinds of feature.
    pub fn num_features() -> (n: usize)
        ensures
            n == 14,
    {
        14
    }

    /// `label` is the name of this feature in a model.
    ///
    /// A name is `bias`, or the name of a kind of feature, a space, and what
    /// the feature holds. The kinds are tried in the order below, and the
    /// first whose name the label starts with decides.
    pub open spec fn described_by(self, label: Seq<char>) -> bool {
        if label == "bias"@ {
            self == Feature::Bias
        } else if let Some(v) = after("i suffix "@, label) {
            self matches Feature::Suffix(s) && ContextSuffix::spec_from_token(v) == Some(s@)
        } else if let Some(v) = after("i pref1 "@, label) {
            self matches Feature::Pref1(code) && starts_with_code(v, code)
        } else if let Some(v) = after("i-1 suffix "@, label) {
            self matches Feature::IMinus1Suffix(s) && ContextSuffix::spec_from_token(v) == Some(s@)
        } else if let Some(v) = after("i-1 tag "@, label) {
            self matches Feature::IMinus1Tag(tag) && tag.spec_label() == v
        } else if let Some(v) = after("i-2 tag "@, label) {
            self matches Feature::IMinus2Tag(tag) && tag.spec_label() == v
        } else if let Some(v) = after("i tag+i-2 tag "@, label) {
            self matches Feature::ITagPlusIMinus2Tag(first, second) && names_tags(v, first, second)
        } else if let Some(v) = after("i word "@, label) {
            self matches Feature::IWord(w) && ContextWord::spec_from_word(v, None) == Some(w@)
        } else if let Some(v) = after("i-1 tag+i word "@, label) {
            self matches Feature::IMinus1TagPlusIWord(tag, w) && names_tag_and_word(v, tag, w)
        } else if let Some(v) = after("i-1 word "@, label) {
            self matches Feature::IMinus1Word(w) && ContextWord::spec_from_word(v, None) == Some(w@)
        } else if let Some(v) = after("i+1 word "@, label) {
            self matches Feature::IPlus1Word(w) && ContextWord::spec_from_word(v, None) == Some(w@)
        } else if let Some(v) = after("i+1 suffix "@, label) {
            self matches Feature::IPlus1Suffix(s) && ContextSuffix::spec_from_token(v) == Some(s@)
        } else if let Some(v) = after("i+2 word "@, label) {
            self matches Feature::IPlus2Word(w) && ContextWord::spec_from_word(v, None) == Some(w@)
        } else if let Some(v) = after("i-2 word "@, label) {
            self matches Feature::IMinus2Word(w) && ContextWord::spec_from_word(v, None) == Some(w@)
        } else {
            false
        }
    }

    /// The feature that a label of a model names. The label must name one;
    /// for any label, see [`Feature::parse`].
    pub fn from(s: String) -> (feature: Feature)
        requires
            exists|f: Feature| f.described_by(s@),
        ensures
            feature.described_by(s@),
    {
        match Self::parse(s.as_str()) {
            Some(feature) => feature,
            None => vstd::pervasive::unreached(),
        }
    }

    /// The feature that a label of a model names, or `None` where the label
    /// names none.
    pub fn parse(label: &str) -> (feature: Option<Feature>)
        ensures
            match feature {
                Some(f) => f.described_by(label@),
                None => forall|f: Feature| !f.described_by(label@),
            },
    {
        if str_eq(label, "bias") {
            Some(Feature::Bias)
        } else if let Some(value) = strip_prefix(label, "i suffix ") {
            match ContextSuffix::from_token(value) {
                Some(s) => Some(Feature::Suffix(s)),
                None => None,
            }
        } else if let Some(value) = strip_prefix(label, "i pref1 ") {
            match first_char(value) {
                Some(c) => if c <= '\u{7f}' {
                    Some(Feature::Pref1(c as u8))
                } else {
                    None
                },
                None => None,
            }
        } else if let Some(value) = strip_prefix(label, "i-1 suffix ") {
            match ContextSuffix::from_token(value) {
                Some(s) => Some(Feature::IMinus1Suffix(s)),
                None => None,
            }
        } else if let Some(value) = strip_prefix(label, "i-1 tag ") {
            match POS::from_label(value) {
                Some(tag) => Some(Feature::IMinus1Tag(tag)),
                None => None,
            }
        } else if let Some(value) = strip_prefix(label, "i-2 tag ") {
            match POS::from_label(value) {
                Some(tag) => Some(Feature::IMinus2Tag(tag)),
                None => None,
            }
        } else if let Some(value) = strip_prefix(label, "i tag+i-2 tag ") {
            Self::parse_tags(value)
        } else if let Some(value) = strip_prefix(label, "i word ") {
            match ContextWord::new_from_word(value, None) {
                Some(w) => Some(Feature::IWord(w)),
                None => None,
            }
        } else if let Some(value) = strip_prefix(label, "i-1 tag+i word ") {
            Self::parse_tag_and_word(value)
        } else if let Some(value) = strip_prefix(label, "i-1 word ") {
            match ContextWord::new_from_word(value, None) {
                Some(w) => Some(Feature::IMinus1Word(w)),
                None => None,
            }
        } else if let Some(value) = strip_prefix(label, "i+1 word ") {
            match ContextWord::new_from_word(value, None) {
                Some(w) => Some(Feature::IPlus1Word(w)),
                None => None,
            }
        } else if let Some(value) = strip_prefix(label, "i+1 suffix ") {
            match ContextSuffix::from_token(value) {
                Some(s) => Some(Feature::IPlus1Suffix(s)),
                None => None,
            }
        } else if let Some(value) = strip_prefix(label, "i+2 word ") {
            match ContextWord::new_from_word(value, None) {
                Some(w) => Some(Feature::IPlus2Word(w)),
                None => None,
            }
        } else if let Some(value) = strip_prefix(label, "i-2 word ") {
            match ContextWord::new_from_word(value, None) {
                Some(w) => Some(Feature::IMinus2Word(w)),
                None => None,
            }
        } else {
            None
        }
    }

    /// The feature of two tags that `value` names.
    fn parse_tags(value: &str) -> (feature: Option<Feature>)
        ensures
            match feature {
                Some(f) => f matches Feature::ITagPlusIMinus2Tag(first, second) && names_tags(
                    value@,
                    first,
                    second,
                ),
                None => forall|first: POS, second: POS| !names_tags(value@, first, second),
            },
    {
        let parts = split_at_space(value);
        proof {
            assert forall|k: int| #[trigger]
                crate::text::is_first_space(value@, k) implies parts matches Some(pair) && k
                == pair.0@.len() by {
                if let Some(pair) = parts {
                    let j = pair.0@.len() as int;
                    if j < k {
                        assert(value@[j] != ' ');
                    } else if k < j {
                        assert(value@[k] != ' ');
                    }
                } else {
                    assert(value@[k] != ' ');
                }
            }
        }
        match parts {
            Some((left, right)) => match POS::from_label(left) {
                Some(first) => match POS::from_label(right) {
                    Some(second) => {
                        proof {
                            let k = left@.len() as int;
                            assert(value@.take(k) == first.spec_label());
                        }
                        Some(Feature::ITagPlusIMinus2Tag(first, second))
                    },
                    None => None,
                },
                None => None,
            },
            None => None,
        }
    }

    /// The feature of a tag and a word that `value` names.
    fn parse_tag_and_word(value: &str) -> (feature: Option<Feature>)
        ensures
            match feature {
                Some(f) => f matches Feature::IMinus1TagPlusIWord(tag, w) && names_tag_and_word(
                    value@,
                    tag,
                    w,
                ),
                None => forall|tag: POS, w: ContextWord| !names_tag_and_word(value@, tag, w),
            },
    {
        let parts = split_at_space(value);
        proof {
            assert forall|k: int| #[trigger]
                crate::text::is_first_space(value@, k) implies parts matches Some(pair) && k
                == pair.0@.len() by {
                if let Some(pair) = parts {
                    let j = pair.0@.len() as int;
                    if j < k {
                        assert(value@[j] != ' ');
                    } else if k < j {
                        assert(value@[k] != ' ');
                    }
                } else {
                    assert(value@[k] != ' ');
                }
            }
        }
        match parts {
            Some((left, right)) => match POS::from_label(left) {
                Some(tag) => match ContextWord::new_from_word(right, None) {
                    Some(w) => {
                        proof {
                            let k = left@.len() as int;
                            assert(value@.take(k) == tag.spec_label());
                        }
                        Some(Feature::IMinus1TagPlusIWord(tag, w))
                    },
                    None => None,
                },
                None => None,
            },
            None => None,
        }
    }
}

} // verus!
