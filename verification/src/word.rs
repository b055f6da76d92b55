use vstd::prelude::*;

use crate::ast::{NameValuePair, NameValuePairView};

verus! {

pub const LOWER_A: u8 = 97;
pub const LOWER_Z: u8 = 122;
pub const UPPER_A: u8 = 65;
pub const UPPER_Z: u8 = 90;
pub const UNDERSCORE: u8 = 95;
pub const DIGIT_0: u8 = 48;
pub const DIGIT_9: u8 = 57;
pub const SQUOTE: u8 = 39;
pub const DQUOTE: u8 = 34;
pub const EQUALS: u8 = 61;

/// How a word was quoted in the source text.
#[derive(Clone, Copy, Debug, PartialEq, Eq, Structural)]
pub enum Quote {
    Single,
    Double,
}

/// A single shell argument: raw bytes plus an optional quote tag.
#[derive(Clone, Debug, PartialEq)]
pub struct Word {
    pub value: Vec<u8>,
    pub quote: Option<Quote>,
}

/// Mathematical image of a `Word`.
pub struct WordView {
    pub value: Seq<u8>,
    pub quote: Option<Quote>,
}

impl View for Word {
    type V = WordView;

    open spec fn view(&self) -> WordView {
        WordView { value: self.value@, quote: self.quote }
    }
}

pub open spec fn is_valid_first_byte_spec(byte: u8) -> bool {
    (LOWER_A <= byte && byte <= LOWER_Z) || (UPPER_A <= byte && byte <= UPPER_Z) || byte == UNDERSCORE
}

pub open spec fn is_valid_name_byte_spec(byte: u8) -> bool {
    is_valid_first_byte_spec(byte) || (DIGIT_0 <= byte && byte <= DIGIT_9)
}

/// A valid variable name: non-empty, alphabetic or `_` first,
/// alphanumeric or `_` after.
pub open spec fn is_valid_name_spec(s: Seq<u8>) -> bool {
    &&& s.len() > 0
    &&& is_valid_first_byte_spec(s[0])
    &&& forall|i: int| 1 <= i < s.len() ==> is_valid_name_byte_spec(s[i])
}

pub fn is_valid_first_byte(byte: u8) -> (r: bool)
    ensures
        r == is_valid_first_byte_spec(byte),
{
    (LOWER_A <= byte && byte <= LOWER_Z) || (UPPER_A <= byte && byte <= UPPER_Z) || byte == UNDERSCORE
}

pub fn is_valid_name_byte(byte: u8) -> (r: bool)
    ensures
        r == is_valid_name_byte_spec(byte),
{
    is_valid_first_byte(byte) || (DIGIT_0 <= byte && byte <= DIGIT_9)
}

pub fn is_valid_name(input: &[u8]) -> (r: bool)
    ensures
        r == is_valid_name_spec(input@),
{
    if input.len() == 0 {
        return false;
    }
    if !is_valid_first_byte(input[0]) {
        return false;
    }
    let mut i: usize = 1;
    while i < input.len()
        invariant
            1 <= i <= input@.len(),
            is_valid_first_byte_spec(input@[0]),
            forall|j: int| 1 <= j < i ==> is_valid_name_byte_spec(input@[j]),
        decreases input@.len() - i,
    {
        if !is_valid_name_byte(input[i]) {
            return false;
        }
        i += 1;
    }
    true
}

/// Index of the first occurrence of `byte` in `s`, if any.
pub open spec fn find_byte(s: Seq<u8>, byte: u8) -> Option<int>
    decreases s.len(),
{
    if s.len() == 0 {
        None
    } else if s[0] == byte {
        Some(0 as int)
    } else {
        match find_byte(s.skip(1), byte) {
            Some(i) => Some(i + 1),
            None => None,
        }
    }
}

pub proof fn lemma_find_byte(s: Seq<u8>, byte: u8)
    ensures
        match find_byte(s, byte) {
            Some(i) => 0 <= i < s.len() && s[i] == byte && forall|j: int|
                0 <= j < i ==> s[j] != byte,
            None => forall|j: int| 0 <= j < s.len() ==> s[j] != byte,
        },
    decreases s.len(),
{
    if s.len() > 0 && s[0] != byte {
        lemma_find_byte(s.skip(1), byte);
        let t = s.skip(1);
        match find_byte(t, byte) {
            Some(i) => {
                assert(s[i + 1] == t[i]);
                assert forall|j: int| 0 <= j < i + 1 implies s[j] != byte by {
                    if j > 0 {
                        assert(s[j] == t[j - 1]);
                    }
                }
            },
            None => {
                assert forall|j: int| 0 <= j < s.len() implies s[j] != byte by {
                    if j > 0 {
                        assert(s[j] == t[j - 1]);
                    }
                }
            },
        }
    }
}

pub proof fn lemma_find_byte_at(s: Seq<u8>, byte: u8, i: int)
    requires
        0 <= i < s.len(),
        s[i] == byte,
        forall|j: int| 0 <= j < i ==> s[j] != byte,
    ensures
        find_byte(s, byte) == Some(i),
    decreases s.len(),
{
    if i > 0 {
        lemma_find_byte_at(s.skip(1), byte, i - 1);
    }
}

pub fn find_byte_in(s: &[u8], byte: u8) -> (r: Option<usize>)
    ensures
        match r {
            Some(i) => find_byte(s@, byte) == Some(i as int),
            None => find_byte(s@, byte) is None,
        },
{
    let mut i: usize = 0;
    while i < s.len()
        invariant
            0 <= i <= s@.len(),
            forall|j: int| 0 <= j < i ==> s@[j] != byte,
        decreases s@.len() - i,
    {
        if s[i] == byte {
            proof {
                lemma_find_byte_at(s@, byte, i as int);
            }
            return Some(i);
        }
        i += 1;
    }
    proof {
        lemma_find_byte(s@, byte);
        if find_byte(s@, byte) is Some {
            let k = find_byte(s@, byte)->Some_0;
            assert(s@[k] == byte);
        }
    }
    None
}

/// Copy of a byte slice as an owned vector.
pub fn copy_bytes(s: &[u8]) -> (r: Vec<u8>)
    ensures
        r@ == s@,
{
    let mut r: Vec<u8> = Vec::new();
    let mut i: usize = 0;
    while i < s.len()
        invariant
            0 <= i <= s@.len(),
            r@ == s@.take(i as int),
        decreases s@.len() - i,
    {
        r.push(s[i]);
        proof {
            assert(r@ =~= s@.take(i + 1));
        }
        i += 1;
    }
    proof {
        assert(r@ =~= s@);
    }
    r
}

/// A value written as `'...'` or `"..."`: the quote pair is stripped and
/// becomes the word's tag.
pub open spec fn parse_quoted_word_spec(v: Seq<u8>) -> Option<WordView> {
    if v.len() < 2 {
        None
    } else if v[0] != v[v.len() - 1] {
        None
    } else if v[0] == SQUOTE {
        Some(WordView { value: v.subrange(1, v.len() - 1), quote: Some(Quote::Single) })
    } else if v[0] == DQUOTE {
        Some(WordView { value: v.subrange(1, v.len() - 1), quote: Some(Quote::Double) })
    } else {
        None
    }
}

pub open spec fn opt_word_view(r: Option<Word>) -> Option<WordView> {
    match r {
        Some(w) => Some(w@),
        None => None,
    }
}

pub fn parse_quoted_word(value: &[u8]) -> (r: Option<Word>)
    ensures
        opt_word_view(r) == parse_quoted_word_spec(value@),
{
    let len = value.len();
    if len < 2 {
        return None;
    }
    let first = value[0];
    let last = value[len - 1];
    if first != last {
        return None;
    }
    let quote = if first == SQUOTE {
        Quote::Single
    } else if first == DQUOTE {
        Quote::Double
    } else {
        return None;
    };
    let inner: Vec<u8> = copy_bytes(&value[1..len - 1]);
    Some(Word { value: inner, quote: Some(quote) })
}

impl Word {
    pub fn new(value: Vec<u8>, quote: Option<Quote>) -> (r: Self)
        ensures
            r@ == (WordView { value: value@, quote }),
    {
        Self { value, quote }
    }

    pub fn unquoted(value: Vec<u8>) -> (r: Self)
        ensures
            r@ == (WordView { value: value@, quote: None::<Quote> }),
    {
        Self { value, quote: None }
    }

    pub fn as_bytes(&self) -> (r: &[u8])
        ensures
            r@ == self@.value,
    {
        self.value.as_slice()
    }

    pub fn is_valid_name(&self) -> (r: bool)
        ensures
            r == is_valid_name_spec(self@.value),
    {
        is_valid_name(self.value.as_slice())
    }

    /// A deep copy with the same bytes and quote tag.
    pub fn duplicate(&self) -> (r: Word)
        ensures
            r@ == self@,
    {
        Word { value: copy_bytes(self.value.as_slice()), quote: self.quote }
    }

    /// Read this word as `NAME=value` if it has that shape: unquoted, with a
    /// first `=` after a valid name; a quoted value keeps its quote tag.
    pub fn parse_name_value_pair(&self) -> (r: Option<NameValuePair>)
        ensures
            opt_pair_view(r) == name_value_pair_spec(self@),
    {
        if self.quote.is_some() {
            return None;
        }
        let bytes = self.value.as_slice();
        match find_byte_in(bytes, EQUALS) {
            None => None,
            Some(pos) => {
                if pos == 0 {
                    return None;
                }
                proof {
                    lemma_find_byte(self@.value, EQUALS);
                    assert(pos < bytes@.len());
                }
                let parts = bytes.split_at(pos);
                let name_part = parts.0;
                let value_part = &parts.1[1..parts.1.len()];
                proof {
                    assert(name_part@ =~= self@.value.take(pos as int));
                    assert(value_part@ =~= self@.value.skip(pos + 1));
                }
                if !is_valid_name(name_part) {
                    return None;
                }
                let value_word = match parse_quoted_word(value_part) {
                    Some(w) => w,
                    None => Word::unquoted(copy_bytes(value_part)),
                };
                Some(NameValuePair::new(Word::unquoted(copy_bytes(name_part)), value_word))
            },
        }
    }
}

pub open spec fn opt_pair_view(r: Option<NameValuePair>) -> Option<NameValuePairView> {
    match r {
        Some(p) => Some(p@),
        None => None,
    }
}

/// What `Word::parse_name_value_pair` yields: `None` unless the word is
/// unquoted, its first `=` is past position zero, and what precedes that `=`
/// is a valid name.
pub open spec fn name_value_pair_spec(w: WordView) -> Option<NameValuePairView> {
    if w.quote is Some {
        None
    } else {
        match find_byte(w.value, EQUALS) {
            None => None,
            Some(pos) => if pos == 0 {
                None
            } else if !is_valid_name_spec(w.value.take(pos)) {
                None
            } else {
                Some(NameValuePairView {
                    name: WordView { value: w.value.take(pos), quote: None },
                    value: match parse_quoted_word_spec(w.value.skip(pos + 1)) {
                        Some(q) => q,
                        None => WordView { value: w.value.skip(pos + 1), quote: None },
                    },
                })
            },
        }
    }
}

} // verus!
