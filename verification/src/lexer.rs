use vstd::prelude::*;

use crate::redirect::{Redirect, WriteMode};
use crate::word::{copy_bytes, Quote, Word, WordView, DIGIT_0, DQUOTE, SQUOTE};

verus! {

pub const NEWLINE: u8 = 10;
pub const SEMICOLON: u8 = 59;
pub const LEFT_BRACE: u8 = 123;
pub const RIGHT_BRACE: u8 = 125;
pub const PIPE_BYTE: u8 = 124;
pub const GREATER: u8 = 62;
pub const LESS: u8 = 60;
pub const AMPERSAND: u8 = 38;
pub const DIGIT_1: u8 = 49;
pub const DIGIT_2: u8 = 50;

/// `\n` and `;` both end a statement.
pub open spec fn is_line_terminator_spec(byte: u8) -> bool {
    byte == NEWLINE || byte == SEMICOLON
}

pub fn is_line_terminator(byte: u8) -> (r: bool)
    ensures
        r == is_line_terminator_spec(byte),
{
    byte == NEWLINE || byte == SEMICOLON
}

pub open spec fn is_ascii_whitespace_spec(byte: u8) -> bool {
    byte == 32 || byte == 9 || byte == 10 || byte == 12 || byte == 13
}

fn is_ascii_whitespace(byte: u8) -> (r: bool)
    ensures
        r == is_ascii_whitespace_spec(byte),
{
    byte == 32 || byte == 9 || byte == 10 || byte == 12 || byte == 13
}

/// Nothing but whitespace and terminators from `from` to the end.
pub open spec fn all_blank(s: Seq<u8>, from: int) -> bool {
    forall|i: int|
        from <= i < s.len() ==> is_ascii_whitespace_spec(#[trigger] s[i])
            || is_line_terminator_spec(s[i])
}

/// An unquoted word never holds whitespace or a statement terminator:
/// those bytes end it.
pub open spec fn plain_word_bytes(s: Seq<u8>) -> bool {
    forall|i: int|
        0 <= i < s.len() ==> !is_ascii_whitespace_spec(#[trigger] s[i])
            && !is_line_terminator_spec(s[i])
}

/// One byte is blank when it separates or terminates: ASCII whitespace
/// or a statement terminator.
pub open spec fn blank_byte(b: u8) -> bool {
    is_ascii_whitespace_spec(b) || is_line_terminator_spec(b)
}

/// Length of the maximal non-blank prefix of `s`: the span one unquoted
/// word covers.
pub open spec fn plain_len(s: Seq<u8>) -> int
    decreases s.len(),
{
    if s.len() == 0 {
        0
    } else if !blank_byte(s[0]) {
        1 + plain_len(s.skip(1))
    } else {
        0
    }
}

pub proof fn lemma_plain_len(s: Seq<u8>)
    ensures
        0 <= plain_len(s) <= s.len(),
        forall|k: int| 0 <= k < plain_len(s) ==> !blank_byte(#[trigger] s[k]),
        plain_len(s) < s.len() ==> blank_byte(s[plain_len(s)]),
    decreases s.len(),
{
    if s.len() > 0 && !blank_byte(s[0]) {
        lemma_plain_len(s.skip(1));
        let t = s.skip(1);
        let n = plain_len(s);
        assert forall|k: int| 0 <= k < n implies !blank_byte(#[trigger] s[k]) by {
            if k > 0 {
                assert(s[k] == t[k - 1]);
            }
        }
        if n < s.len() {
            assert(s[n] == t[n - 1]);
        }
    }
}

pub proof fn lemma_plain_len_at(s: Seq<u8>, n: int)
    requires
        0 <= n <= s.len(),
        forall|k: int| 0 <= k < n ==> !blank_byte(#[trigger] s[k]),
        n < s.len() ==> blank_byte(s[n]),
    ensures
        plain_len(s) == n,
    decreases s.len(),
{
    if s.len() > 0 && n > 0 {
        assert forall|k: int| 0 <= k < n - 1 implies !blank_byte(#[trigger] s.skip(1)[k]) by {
            assert(s.skip(1)[k] == s[k + 1]);
        }
        if n - 1 < s.skip(1).len() {
            assert(s.skip(1)[n - 1] == s[n]);
        }
        lemma_plain_len_at(s.skip(1), n - 1);
    }
}

pub proof fn lemma_plain_len_lower(s: Seq<u8>, j: int)
    requires
        0 <= j <= s.len(),
        forall|k: int| 0 <= k < j ==> !blank_byte(#[trigger] s[k]),
    ensures
        plain_len(s) >= j,
    decreases s.len(),
{
    lemma_plain_len(s);
    if s.len() > 0 && j > 0 {
        assert(!blank_byte(s[0]));
        assert forall|k: int| 0 <= k < j - 1 implies !blank_byte(#[trigger] s.skip(1)[k]) by {
            assert(s.skip(1)[k] == s[k + 1]);
        }
        lemma_plain_len_lower(s.skip(1), j - 1);
        assert(plain_len(s) == 1 + plain_len(s.skip(1)));
    }
}

/// When the bytes `[p0, m)` are one word's and either the input or a
/// blank byte follows, the word span at `p0` is exactly `m - p0`.
pub proof fn lemma_span_end(src: Seq<u8>, p0: int, buf: Seq<u8>, m: int)
    requires
        0 <= p0 <= m <= src.len(),
        buf == src.subrange(p0, m),
        plain_word_bytes(buf),
        m < src.len() ==> blank_byte(src[m]),
    ensures
        plain_len(src.skip(p0)) == m - p0,
        src.subrange(p0, p0 + (m - p0)) == buf,
{
    assert forall|k: int| 0 <= k < m - p0 implies !blank_byte(#[trigger] src.skip(p0)[k]) by {
        assert(src.skip(p0)[k] == src[p0 + k]);
        assert(buf[k] == src[p0 + k]);
        assert(!is_ascii_whitespace_spec(buf[k]) && !is_line_terminator_spec(buf[k]));
    }
    if m - p0 < src.skip(p0).len() {
        assert(src.skip(p0)[m - p0] == src[m]);
    }
    lemma_plain_len_at(src.skip(p0), m - p0);
}

/// Where the lexer stands after reading the word span at `p`: past the
/// span, and past the ending whitespace byte unless it is a terminator
/// (which is pushed back) or the end of input.
pub open spec fn word_end(s: Seq<u8>, p: int) -> int {
    let n = plain_len(s.skip(p));
    p + n + (if p + n < s.len() && !is_line_terminator_spec(s[p + n]) {
        1int
    } else {
        0int
    })
}

/// The byte at `pos` begins a plain unquoted word: not blank, not a
/// quote, brace, pipe or redirect operator, and not a stream selector
/// digit bound to one.
pub open spec fn plain_start(s: Seq<u8>, pos: int) -> bool {
    &&& 0 <= pos < s.len()
    &&& !blank_byte(s[pos])
    &&& s[pos] != DQUOTE
    &&& s[pos] != SQUOTE
    &&& s[pos] != LEFT_BRACE
    &&& s[pos] != RIGHT_BRACE
    &&& s[pos] != PIPE_BYTE
    &&& s[pos] != GREATER
    &&& s[pos] != LESS
    &&& (s[pos] == DIGIT_0 ==> !(pos + 1 < s.len() && s[pos + 1] == LESS))
    &&& ((s[pos] == DIGIT_1 || s[pos] == DIGIT_2) ==> !(pos + 1 < s.len() && s[pos + 1]
        == GREATER))
}

/// What one token is.
#[derive(Clone, Debug, PartialEq)]
pub enum Kind {
    Word(Word),
    Redirect(Redirect<Word>),
    LeftBrace,
    RightBrace,
    Pipe,
    Semi,
}

/// Mathematical image of a `Kind`.
pub enum KindView {
    Word(WordView),
    Redirect(Redirect<WordView>),
    LeftBrace,
    RightBrace,
    Pipe,
    Semi,
}

impl View for Kind {
    type V = KindView;

    open spec fn view(&self) -> KindView {
        match self {
            Kind::Word(w) => KindView::Word(w@),
            Kind::Redirect(r) => KindView::Redirect(r@),
            Kind::LeftBrace => KindView::LeftBrace,
            Kind::RightBrace => KindView::RightBrace,
            Kind::Pipe => KindView::Pipe,
            Kind::Semi => KindView::Semi,
        }
    }
}

/// A token's shape with the payload forgotten; what the lexer's
/// semicolon-insertion rules look at.
#[derive(Clone, Copy, Debug, PartialEq, Eq, Structural)]
pub enum KindTag {
    Word,
    Redirect,
    LeftBrace,
    RightBrace,
    Pipe,
    Semi,
}

pub open spec fn tag_of(k: KindView) -> KindTag {
    match k {
        KindView::Word(_) => KindTag::Word,
        KindView::Redirect(_) => KindTag::Redirect,
        KindView::LeftBrace => KindTag::LeftBrace,
        KindView::RightBrace => KindTag::RightBrace,
        KindView::Pipe => KindTag::Pipe,
        KindView::Semi => KindTag::Semi,
    }
}

fn tag_of_kind(k: &Kind) -> (r: KindTag)
    ensures
        r == tag_of(k@),
{
    match k {
        Kind::Word(_) => KindTag::Word,
        Kind::Redirect(_) => KindTag::Redirect,
        Kind::LeftBrace => KindTag::LeftBrace,
        Kind::RightBrace => KindTag::RightBrace,
        Kind::Pipe => KindTag::Pipe,
        Kind::Semi => KindTag::Semi,
    }
}

/// One token with the 1-based source line it began on.
#[derive(Clone, Debug, PartialEq)]
pub struct Token {
    pub kind: Kind,
    pub line: usize,
}

/// Mathematical image of a `Token`.
pub struct TokenView {
    pub kind: KindView,
    pub line: int,
}

impl View for Token {
    type V = TokenView;

    open spec fn view(&self) -> TokenView {
        TokenView { kind: self.kind@, line: self.line as int }
    }
}

impl Kind {
    /// A deep copy with the same view.
    pub fn duplicate(&self) -> (r: Kind)
        ensures
            r@ == self@,
    {
        match self {
            Kind::Word(w) => Kind::Word(w.duplicate()),
            Kind::Redirect(rd) => Kind::Redirect(
                match rd {
                    Redirect::InFile(p) => Redirect::InFile(p.duplicate()),
                    Redirect::OutErr => Redirect::OutErr,
                    Redirect::OutFile(p, m) => Redirect::OutFile(p.duplicate(), *m),
                    Redirect::ErrOut => Redirect::ErrOut,
                    Redirect::ErrFile(p, m) => Redirect::ErrFile(p.duplicate(), *m),
                },
            ),
            Kind::LeftBrace => Kind::LeftBrace,
            Kind::RightBrace => Kind::RightBrace,
            Kind::Pipe => Kind::Pipe,
            Kind::Semi => Kind::Semi,
        }
    }
}

impl Token {
    pub fn new(kind: Kind, line: usize) -> (r: Self)
        ensures
            r.kind@ == kind@,
            r.line == line,
    {
        Self { kind, line }
    }
}

/// Why tokenization stopped.
#[derive(Clone, Debug, PartialEq)]
pub enum LexError {
    /// An unterminated `'` or `"`; carries the bytes read so far.
    MissingClosingQuote(Vec<u8>),
    /// `>>` onto a stream reference, which has no append mode.
    AppendToStream(WritableStream),
    /// Stdin redirected to a stream reference.
    RedirectStdinToStream(WritableStream),
    /// `>&1`: stdout redirected to itself.
    RedirectStdoutToItself,
    /// `2>&2`: stderr redirected to itself.
    RedirectStderrToItself,
    /// `&` followed by something other than `1` or `2`.
    BadStreamReference(Option<u8>),
    /// A redirect location that is not a word.
    BadRedirectLocation(Box<Kind>),
    /// Input ended where a redirect location was expected.
    MissingRedirectLocation,
}

/// The byte stream a redirection reads from or writes to.
#[derive(Clone, Copy, Debug, PartialEq, Eq, Structural)]
pub enum Stream {
    Stdin,
    Stdout,
    Stderr,
}

impl Stream {
    pub fn is_writable(&self) -> (r: bool)
        ensures
            r == (*self == Stream::Stdout || *self == Stream::Stderr),
    {
        match *self {
            Stream::Stdin => false,
            Stream::Stdout | Stream::Stderr => true,
        }
    }
}

/// A stream that a redirection may write to: `&1` or `&2`.
#[derive(Clone, Copy, Debug, PartialEq, Eq, Structural)]
pub enum WritableStream {
    Stdout,
    Stderr,
}

/// Where a redirection sends or takes its bytes.
enum Location {
    Path(Word),
    Stream(WritableStream),
}

/// Mathematical image of the lexer's state.
pub struct LexerView {
    pub src: Seq<u8>,
    pub pos: int,
    pub line: int,
    /// A buffered token kind, emitted before any byte is read.
    pub pending: Option<KindView>,
    /// The shape of the last emitted token.
    pub last: Option<KindTag>,
}

/// Strictly decreases whenever the lexer emits a token: input left to
/// read, a buffered token, and a still-owed trailing `Semi` all count.
pub open spec fn lexer_measure(l: LexerView) -> int {
    3 * (l.src.len() - l.pos) + (if l.pending is Some {
        2int
    } else {
        0int
    }) + (if l.last == Some(KindTag::Semi) {
        0int
    } else {
        1int
    })
}

/// How many newline bytes `s` holds; the line counter mirrors it.
pub open spec fn count_nl(s: Seq<u8>) -> int
    decreases s.len(),
{
    if s.len() == 0 {
        0
    } else {
        count_nl(s.drop_last()) + (if s.last() == NEWLINE {
            1int
        } else {
            0int
        })
    }
}

pub proof fn lemma_count_nl_bounds(s: Seq<u8>)
    ensures
        0 <= count_nl(s) <= s.len(),
    decreases s.len(),
{
    if s.len() > 0 {
        lemma_count_nl_bounds(s.drop_last());
    }
}

/// The newline count is flat over a newline-free range.
pub proof fn lemma_count_nl_same(s: Seq<u8>, a: int, b: int)
    requires
        0 <= a <= b <= s.len(),
        forall|k: int| a <= k < b ==> s[k] != NEWLINE,
    ensures
        count_nl(s.take(b)) == count_nl(s.take(a)),
    decreases b - a,
{
    if b > a {
        lemma_count_nl_step(s, b - 1);
        lemma_count_nl_same(s, a, b - 1);
    }
}

pub proof fn lemma_count_nl_step(s: Seq<u8>, p: int)
    requires
        0 <= p < s.len(),
    ensures
        count_nl(s.take(p + 1)) == count_nl(s.take(p)) + (if s[p] == NEWLINE {
            1int
        } else {
            0int
        }),
{
    assert(s.take(p + 1).drop_last() =~= s.take(p));
    assert(s.take(p + 1).last() == s[p]);
}

/// The byte-level tokenizer.
pub struct Lexer {
    src: Vec<u8>,
    pos: usize,
    line: usize,
    pending: Option<Kind>,
    last: Option<KindTag>,
}

impl View for Lexer {
    type V = LexerView;

    closed spec fn view(&self) -> LexerView {
        LexerView {
            src: self.src@,
            pos: self.pos as int,
            line: self.line as int,
            pending: match self.pending {
                Some(ref k) => Some(k@),
                None => None,
            },
            last: self.last,
        }
    }
}

impl Lexer {
    /// The position and line fields are in range and consistent.
    pub open spec fn wf_core(&self) -> bool {
        &&& 0 <= self@.pos <= self@.src.len()
        &&& self@.src.len() < usize::MAX
        &&& 1 <= self@.line
        &&& self@.line == 1 + count_nl(self@.src.take(self@.pos))
    }

    pub open spec fn wf(&self) -> bool {
        &&& self.wf_core()
        &&& (self@.pending is Some ==> self@.last == Some(KindTag::Semi) && self@.pending
            == Some(KindView::RightBrace))
    }

    pub fn new(src: &[u8]) -> (r: Self)
        requires
            src@.len() < usize::MAX,
        ensures
            r.wf(),
            r@.src == src@,
            r@.pos == 0,
            r@.line == 1,
            r@.pending is None,
            r@.last is None,
    {
        let r = Self { src: copy_bytes(src), pos: 0, line: 1, pending: None, last: None };
        proof {
            assert(r@.src.take(0) =~= Seq::<u8>::empty());
        }
        r
    }

    fn emit(&mut self, kind: Kind, line: Option<usize>) -> (r: Option<Result<Token, LexError>>)
        requires
            old(self).wf_core(),
            old(self)@.pending is Some ==> tag_of(kind@) == KindTag::Semi && old(self)@.pending
                == Some(KindView::RightBrace),
        ensures
            final(self).wf(),
            final(self)@.src == old(self)@.src,
            final(self)@.pos == old(self)@.pos,
            final(self)@.line == old(self)@.line,
            final(self)@.pending == old(self)@.pending,
            final(self)@.last == Some(tag_of(kind@)),
            match r {
                Some(Ok(t)) => t.kind@ == kind@ && t@.line == (match line {
                    Some(l) => l as int,
                    None => old(self)@.line,
                }),
                _ => false,
            },
    {
        self.last = Some(tag_of_kind(&kind));
        let l = match line {
            Some(l) => l,
            None => self.line,
        };
        Some(Ok(Token::new(kind, l)))
    }

    fn next_byte(&mut self) -> (r: Option<u8>)
        requires
            old(self).wf(),
        ensures
            final(self).wf(),
            final(self)@.src == old(self)@.src,
            final(self)@.pending == old(self)@.pending,
            final(self)@.last == old(self)@.last,
            match r {
                Some(b) => {
                    &&& old(self)@.pos < old(self)@.src.len()
                    &&& b == old(self)@.src[old(self)@.pos]
                    &&& final(self)@.pos == old(self)@.pos + 1
                    &&& final(self)@.line == old(self)@.line + (if b == NEWLINE {
                        1int
                    } else {
                        0int
                    })
                },
                None => final(self)@ == old(self)@ && old(self)@.pos == old(self)@.src.len(),
            },
    {
        if self.pos < self.src.len() {
            let b = self.src[self.pos];
            proof {
                lemma_count_nl_step(self@.src, self@.pos);
                lemma_count_nl_bounds(self@.src.take(self@.pos + 1));
            }
            self.pos = self.pos + 1;
            if b == NEWLINE {
                self.line = self.line + 1;
            }
            Some(b)
        } else {
            None
        }
    }

    fn push_byte(&mut self, byte: u8)
        requires
            old(self).wf(),
            old(self)@.pos >= 1,
            byte == old(self)@.src[old(self)@.pos - 1],
            byte == NEWLINE ==> old(self)@.line >= 2,
        ensures
            final(self).wf(),
            final(self)@.src == old(self)@.src,
            final(self)@.pending == old(self)@.pending,
            final(self)@.last == old(self)@.last,
            final(self)@.pos == old(self)@.pos - 1,
            final(self)@.line == old(self)@.line - (if byte == NEWLINE {
                1int
            } else {
                0int
            }),
    {
        proof {
            lemma_count_nl_step(self@.src, self@.pos - 1);
        }
        self.pos = self.pos - 1;
        if byte == NEWLINE {
            self.line = self.line - 1;
        }
    }

    fn consume_line_terminators(&mut self)
        requires
            old(self).wf(),
        ensures
            final(self).wf(),
            final(self)@.src == old(self)@.src,
            final(self)@.pending == old(self)@.pending,
            final(self)@.last == old(self)@.last,
            final(self)@.pos >= old(self)@.pos,
            forall|k: int|
                old(self)@.pos <= k < final(self)@.pos ==> is_line_terminator_spec(
                    #[trigger] old(self)@.src[k],
                ),
            final(self)@.pos == old(self)@.src.len() || !is_line_terminator_spec(
                old(self)@.src[final(self)@.pos],
            ),
    {
        loop
            invariant
                self.wf(),
                self@.src == old(self)@.src,
                self@.pending == old(self)@.pending,
                self@.last == old(self)@.last,
                self@.pos >= old(self)@.pos,
                forall|k: int|
                    old(self)@.pos <= k < self@.pos ==> is_line_terminator_spec(
                        #[trigger] old(self)@.src[k],
                    ),
            decreases self@.src.len() - self@.pos,
        {
            match self.next_byte() {
                Some(c) => {
                    if !is_line_terminator(c) {
                        self.push_byte(c);
                        return;
                    }
                },
                None => {
                    return;
                },
            }
        }
    }

    /// Reads a quoted word: everything up to the matching quote byte is
    /// the word, verbatim; input ending first is the unterminated-quote
    /// error, carrying what was read.
    fn consume_quoted_word(&mut self, quote: u8) -> (r: Option<Result<Token, LexError>>)
        requires
            old(self).wf(),
            old(self)@.pending is None,
            quote == DQUOTE || quote == SQUOTE,
        ensures
            final(self).wf(),
            final(self)@.src == old(self)@.src,
            final(self)@.pending is None,
            lexer_measure(final(self)@) <= lexer_measure(old(self)@),
            match r {
                Some(Ok(t)) => {
                    &&& final(self)@.last == Some(tag_of(t.kind@))
                    &&& lexer_measure(final(self)@) < lexer_measure(old(self)@)
                    &&& (match crate::word::find_byte(
                        old(self)@.src.skip(old(self)@.pos),
                        quote,
                    ) {
                        Some(p) => {
                            &&& t.kind@ == KindView::Word(
                                WordView {
                                    value: old(self)@.src.subrange(
                                        old(self)@.pos,
                                        old(self)@.pos + p,
                                    ),
                                    quote: Some(
                                        if quote == DQUOTE {
                                            Quote::Double
                                        } else {
                                            Quote::Single
                                        },
                                    ),
                                },
                            )
                            &&& t@.line == old(self)@.line
                            &&& final(self)@.pos == old(self)@.pos + p + 1
                        },
                        None => false,
                    })
                },
                Some(Err(e)) => {
                    &&& final(self)@.last == old(self)@.last
                    &&& crate::word::find_byte(old(self)@.src.skip(old(self)@.pos), quote)
                        is None
                    &&& (match e {
                        LexError::MissingClosingQuote(b) => b@ == old(self)@.src.skip(
                            old(self)@.pos,
                        ),
                        _ => false,
                    })
                    &&& final(self)@.pos == old(self)@.src.len()
                },
                None => false,
            },
    {
        let line = self.line;
        let mut buf: Vec<u8> = Vec::new();
        proof {
            assert(buf@ =~= self@.src.subrange(self@.pos, self@.pos));
            if plain_start(self@.src, self@.pos) {
                lemma_plain_len(self@.src.skip(self@.pos));
            }
        }
        loop
            invariant
                self.wf(),
                self@.pending is None,
                self@.last == old(self)@.last,
                self@.src == old(self)@.src,
                self@.pos >= old(self)@.pos,
                line == old(self)@.line,
                buf@ == old(self)@.src.subrange(old(self)@.pos, self@.pos),
                forall|k: int|
                    old(self)@.pos <= k < self@.pos ==> old(self)@.src[k] != quote,
            decreases self@.src.len() - self@.pos,
        {
            match self.next_byte() {
                Some(byte) => {
                    if byte == quote {
                        proof {
                            assert forall|k: int|
                                0 <= k < self@.pos - 1 - old(self)@.pos implies old(self)@.src.skip(
                                old(self)@.pos,
                            )[k] != quote by {
                                assert(old(self)@.src.skip(old(self)@.pos)[k] == old(
                                    self,
                                )@.src[old(self)@.pos + k]);
                            }
                            assert(old(self)@.src.skip(old(self)@.pos)[self@.pos - 1 - old(
                                self,
                            )@.pos] == quote);
                            crate::word::lemma_find_byte_at(
                                old(self)@.src.skip(old(self)@.pos),
                                quote,
                                self@.pos - 1 - old(self)@.pos,
                            );
                            assert(buf@ =~= old(self)@.src.subrange(
                                old(self)@.pos,
                                old(self)@.pos + (self@.pos - 1 - old(self)@.pos),
                            ));
                        }
                        let q = if quote == DQUOTE {
                            Quote::Double
                        } else {
                            Quote::Single
                        };
                        return self.emit(Kind::Word(Word::new(buf, Some(q))), Some(line));
                    }
                    let ghost buf0 = buf@;
                    buf.push(byte);
                    proof {
                        assert(buf@ =~= old(self)@.src.subrange(old(self)@.pos, self@.pos));
                    }
                },
                None => {
                    proof {
                        crate::word::lemma_find_byte(
                            old(self)@.src.skip(old(self)@.pos),
                            quote,
                        );
                        if crate::word::find_byte(old(self)@.src.skip(old(self)@.pos), quote)
                            is Some {
                            let p = crate::word::find_byte(
                                old(self)@.src.skip(old(self)@.pos),
                                quote,
                            )->Some_0;
                            assert(old(self)@.src[old(self)@.pos + p] == quote);
                        }
                        assert(buf@ =~= old(self)@.src.skip(old(self)@.pos));
                    }
                    return Some(Err(LexError::MissingClosingQuote(buf)));
                },
            }
        }
    }

    /// Reads the rest of a redirection, the stream selector already
    /// consumed: an optional append `>`, then the location, mapped to the
    /// redirect forms; the impossible combinations are the lexing errors.
    fn consume_redirect(&mut self, fd: Stream) -> (r: Result<(Redirect<Word>, usize), LexError>)
        requires
            old(self).wf(),
            old(self)@.pending is None,
        ensures
            final(self).wf(),
            final(self)@.src == old(self)@.src,
            lexer_measure(final(self)@) <= lexer_measure(old(self)@),
            r is Ok ==> final(self)@.pending is None,
            (0 <= old(self)@.pos && old(self)@.pos + 1 < old(self)@.src.len() && old(
                self,
            )@.src[old(self)@.pos] == AMPERSAND && old(self)@.src[old(self)@.pos + 1]
                == DIGIT_1) ==> (match (fd, r) {
                (Stream::Stdin, Err(LexError::RedirectStdinToStream(WritableStream::Stdout))) => true,
                (Stream::Stdout, Err(LexError::RedirectStdoutToItself)) => true,
                (Stream::Stderr, Ok((Redirect::ErrOut, line))) => line == old(self)@.line
                    && final(self)@.pos == old(self)@.pos + 2,
                _ => false,
            }),
            (0 <= old(self)@.pos && old(self)@.pos + 1 < old(self)@.src.len() && old(
                self,
            )@.src[old(self)@.pos] == AMPERSAND && old(self)@.src[old(self)@.pos + 1]
                == DIGIT_2) ==> (match (fd, r) {
                (Stream::Stdin, Err(LexError::RedirectStdinToStream(WritableStream::Stderr))) => true,
                (Stream::Stdout, Ok((Redirect::OutErr, line))) => line == old(self)@.line
                    && final(self)@.pos == old(self)@.pos + 2,
                (Stream::Stderr, Err(LexError::RedirectStderrToItself)) => true,
                _ => false,
            }),
            (fd != Stream::Stdin && 0 <= old(self)@.pos && old(self)@.pos + 2 < old(
                self,
            )@.src.len() && old(self)@.src[old(self)@.pos] == GREATER && old(self)@.src[old(
                self,
            )@.pos + 1] == AMPERSAND && (old(self)@.src[old(self)@.pos + 2] == DIGIT_1 || old(
                self,
            )@.src[old(self)@.pos + 2] == DIGIT_2)) ==> (match r {
                Err(LexError::AppendToStream(_)) => true,
                _ => false,
            }),
            (plain_start(old(self)@.src, old(self)@.pos) && old(self)@.src[old(self)@.pos]
                != AMPERSAND) ==> ({
                let src = old(self)@.src;
                let p = old(self)@.pos;
                let w = (WordView {
                    value: src.subrange(p, p + plain_len(src.skip(p))),
                    quote: None::<Quote>,
                });
                (match (fd, r) {
                    (Stream::Stdin, Ok((Redirect::InFile(path), line))) => path@ == w && line
                        == old(self)@.line,
                    (Stream::Stdout, Ok((Redirect::OutFile(path, WriteMode::Truncate), line))) => path@
                        == w && line == old(self)@.line,
                    (Stream::Stderr, Ok((Redirect::ErrFile(path, WriteMode::Truncate), line))) => path@
                        == w && line == old(self)@.line,
                    _ => false,
                }) && final(self)@.pos == word_end(src, p)
            }),
            (0 <= old(self)@.pos < old(self)@.src.len() && (old(self)@.src[old(self)@.pos]
                == DQUOTE || old(self)@.src[old(self)@.pos] == SQUOTE)) ==> ({
                let src = old(self)@.src;
                let p = old(self)@.pos;
                let q = src[p];
                match crate::word::find_byte(src.skip(p + 1), q) {
                    Some(k) => {
                        let w = (WordView {
                            value: src.subrange(p + 1, p + 1 + k),
                            quote: Some(
                                if q == DQUOTE {
                                    Quote::Double
                                } else {
                                    Quote::Single
                                },
                            ),
                        });
                        (match (fd, r) {
                            (Stream::Stdin, Ok((Redirect::InFile(path), line))) => path@ == w
                                && line == old(self)@.line,
                            (
                                Stream::Stdout,
                                Ok((Redirect::OutFile(path, WriteMode::Truncate), line)),
                            ) => path@ == w && line == old(self)@.line,
                            (
                                Stream::Stderr,
                                Ok((Redirect::ErrFile(path, WriteMode::Truncate), line)),
                            ) => path@ == w && line == old(self)@.line,
                            _ => false,
                        }) && final(self)@.pos == p + k + 2
                    },
                    None => (match r {
                        Err(LexError::MissingClosingQuote(b)) => b@ == src.skip(p + 1),
                        _ => false,
                    }),
                }
            }),
            (old(self)@.pos == old(self)@.src.len()) ==> (match r {
                Err(LexError::MissingRedirectLocation) => true,
                _ => false,
            }),
            (fd != Stream::Stdin && 0 <= old(self)@.pos && old(self)@.pos < old(self)@.src.len()
                && old(self)@.src[old(self)@.pos] == GREATER && plain_start(
                old(self)@.src,
                old(self)@.pos + 1,
            ) && old(self)@.src[old(self)@.pos + 1] != AMPERSAND) ==> ({
                let src = old(self)@.src;
                let p = old(self)@.pos + 1;
                let w = (WordView {
                    value: src.subrange(p, p + plain_len(src.skip(p))),
                    quote: None::<Quote>,
                });
                (match (fd, r) {
                    (Stream::Stdout, Ok((Redirect::OutFile(path, WriteMode::Append), line))) => path@
                        == w && line == old(self)@.line,
                    (Stream::Stderr, Ok((Redirect::ErrFile(path, WriteMode::Append), line))) => path@
                        == w && line == old(self)@.line,
                    _ => false,
                }) && final(self)@.pos == word_end(src, p)
            }),
        decreases lexer_measure(self@), 2int,
    {
        let line = self.line;

        let mode = if fd.is_writable() {
            match self.next_byte() {
                Some(b) => {
                    if b == GREATER {
                        WriteMode::Append
                    } else {
                        self.push_byte(b);
                        WriteMode::Truncate
                    }
                },
                None => WriteMode::Truncate,
            }
        } else {
            WriteMode::Truncate
        };

        let location = match self.consume_redirect_location() {
            Ok(l) => l,
            Err(e) => {
                return Err(e);
            },
        };

        match &location {
            Location::Stream(stream) => {
                if mode == WriteMode::Append {
                    return Err(LexError::AppendToStream(*stream));
                }
            },
            Location::Path(_) => {},
        }

        match fd {
            Stream::Stdin => match location {
                Location::Path(path) => Ok((Redirect::InFile(path), line)),
                Location::Stream(stream) => Err(LexError::RedirectStdinToStream(stream)),
            },
            Stream::Stdout => match location {
                Location::Path(path) => Ok((Redirect::OutFile(path, mode), line)),
                Location::Stream(WritableStream::Stdout) => Err(
                    LexError::RedirectStdoutToItself,
                ),
                Location::Stream(WritableStream::Stderr) => Ok((Redirect::OutErr, line)),
            },
            Stream::Stderr => match location {
                Location::Path(path) => Ok((Redirect::ErrFile(path, mode), line)),
                Location::Stream(WritableStream::Stdout) => Ok((Redirect::ErrOut, line)),
                Location::Stream(WritableStream::Stderr) => Err(
                    LexError::RedirectStderrToItself,
                ),
            },
        }
    }

    /// Reads where a redirection points: `&1`/`&2` name a stream, a word
    /// names a path.
    fn consume_redirect_location(&mut self) -> (r: Result<Location, LexError>)
        requires
            old(self).wf(),
            old(self)@.pending is None,
        ensures
            final(self).wf(),
            final(self)@.src == old(self)@.src,
            lexer_measure(final(self)@) <= lexer_measure(old(self)@),
            r is Ok ==> final(self)@.pending is None,
            (0 <= old(self)@.pos < old(self)@.src.len() && old(self)@.src[old(self)@.pos]
                == AMPERSAND) ==> ({
                let src = old(self)@.src;
                let p = old(self)@.pos;
                if p + 1 < src.len() && src[p + 1] == DIGIT_1 {
                    (match r {
                        Ok(Location::Stream(WritableStream::Stdout)) => true,
                        _ => false,
                    }) && final(self)@.pos == p + 2
                } else if p + 1 < src.len() && src[p + 1] == DIGIT_2 {
                    (match r {
                        Ok(Location::Stream(WritableStream::Stderr)) => true,
                        _ => false,
                    }) && final(self)@.pos == p + 2
                } else {
                    match r {
                        Err(LexError::BadStreamReference(_)) => true,
                        _ => false,
                    }
                }
            }),
            (plain_start(old(self)@.src, old(self)@.pos) && old(self)@.src[old(self)@.pos]
                != AMPERSAND) ==> ({
                let src = old(self)@.src;
                let p = old(self)@.pos;
                (match r {
                    Ok(Location::Path(w)) => w@ == (WordView {
                        value: src.subrange(p, p + plain_len(src.skip(p))),
                        quote: None::<Quote>,
                    }),
                    _ => false,
                }) && final(self)@.pos == word_end(src, p)
            }),
            (0 <= old(self)@.pos < old(self)@.src.len() && (old(self)@.src[old(self)@.pos]
                == DQUOTE || old(self)@.src[old(self)@.pos] == SQUOTE)) ==> ({
                let src = old(self)@.src;
                let p = old(self)@.pos;
                let q = src[p];
                match crate::word::find_byte(src.skip(p + 1), q) {
                    Some(k) => (match r {
                        Ok(Location::Path(w)) => w@ == (WordView {
                            value: src.subrange(p + 1, p + 1 + k),
                            quote: Some(
                                if q == DQUOTE {
                                    Quote::Double
                                } else {
                                    Quote::Single
                                },
                            ),
                        }),
                        _ => false,
                    }) && final(self)@.pos == p + k + 2,
                    None => (match r {
                        Err(LexError::MissingClosingQuote(b)) => b@ == src.skip(p + 1),
                        _ => false,
                    }),
                }
            }),
            (old(self)@.pos == old(self)@.src.len()) ==> (match r {
                Err(LexError::MissingRedirectLocation) => true,
                _ => false,
            }),
        decreases lexer_measure(self@), 1int,
    {
        match self.next_byte() {
            Some(b) => {
                if b == AMPERSAND {
                    match self.next_byte() {
                        Some(c) => {
                            if c == DIGIT_1 {
                                Ok(Location::Stream(WritableStream::Stdout))
                            } else if c == DIGIT_2 {
                                Ok(Location::Stream(WritableStream::Stderr))
                            } else {
                                Err(LexError::BadStreamReference(Some(c)))
                            }
                        },
                        None => Err(LexError::BadStreamReference(None)),
                    }
                } else {
                    self.push_byte(b);
                    match self.next() {
                        Some(Ok(t)) => match t.kind {
                            Kind::Word(word) => Ok(Location::Path(word)),
                            k => Err(LexError::BadRedirectLocation(Box::new(k))),
                        },
                        Some(Err(e)) => Err(e),
                        None => Err(LexError::MissingRedirectLocation),
                    }
                }
            },
            None => Err(LexError::MissingRedirectLocation),
        }
    }

    fn should_insert_semi(&self) -> (r: bool)
        ensures
            r == (match self@.last {
                Some(tag) => tag != KindTag::LeftBrace && tag != KindTag::Semi,
                None => false,
            }),
    {
        match self.last {
            Some(tag) => tag != KindTag::LeftBrace && tag != KindTag::Semi,
            None => false,
        }
    }

    /// The next token. Runs of terminators coalesce into one `Semi`,
    /// leading terminators are dropped, and a final `Semi` is synthesized
    /// so that every non-empty stream ends in one.
    #[verifier::loop_isolation(false)]
    #[verifier::rlimit(100)]
    pub fn next(&mut self) -> (r: Option<Result<Token, LexError>>)
        requires
            old(self).wf(),
        ensures
            final(self).wf(),
            final(self)@.src == old(self)@.src,
            lexer_measure(final(self)@) <= lexer_measure(old(self)@),
            match r {
                None => final(self)@.last == old(self)@.last && (old(self)@.last is None || old(
                    self,
                )@.last == Some(KindTag::Semi)),
                Some(Ok(t)) => {
                    &&& final(self)@.last == Some(tag_of(t.kind@))
                    &&& lexer_measure(final(self)@) < lexer_measure(old(self)@)
                    &&& (old(self)@.last is None ==> tag_of(t.kind@) != KindTag::Semi)
                    &&& (match t.kind@ {
                        KindView::Word(w) => w.quote is None ==> plain_word_bytes(w.value),
                        _ => true,
                    })
                },
                Some(Err(_)) => true,
            },
            (old(self)@.last is None && old(self)@.pending is None && all_blank(
                old(self)@.src,
                old(self)@.pos,
            )) ==> r is None,
            (old(self)@.last is None && old(self)@.pending is None && r is None) ==> all_blank(
                old(self)@.src,
                old(self)@.pos,
            ),
            (old(self)@.pending == Some(KindView::RightBrace)) ==> (match r {
                Some(Ok(t)) => t.kind@ == KindView::RightBrace && final(self)@.pending is None
                    && final(self)@.pos == old(self)@.pos,
                _ => false,
            }),
            (old(self)@.pending is None && plain_start(old(self)@.src, old(self)@.pos)) ==> ({
                let n = plain_len(old(self)@.src.skip(old(self)@.pos));
                match r {
                    Some(Ok(t)) => {
                        &&& t.kind@ == KindView::Word(
                            WordView {
                                value: old(self)@.src.subrange(
                                    old(self)@.pos,
                                    old(self)@.pos + n,
                                ),
                                quote: None::<Quote>,
                            },
                        )
                        &&& t@.line == old(self)@.line
                        &&& final(self)@.pos == old(self)@.pos + n + (if old(self)@.pos + n < old(
                            self,
                        )@.src.len() && !is_line_terminator_spec(
                            old(self)@.src[old(self)@.pos + n],
                        ) {
                            1int
                        } else {
                            0int
                        })
                    },
                    _ => false,
                }
            }),
            (old(self)@.pending is None && old(self)@.pos == old(self)@.src.len()) ==> (match old(
                self,
            )@.last {
                Some(t) => if t != KindTag::Semi {
                    match r {
                        Some(Ok(tk)) => tk.kind@ == KindView::Semi && tk@.line == old(
                            self,
                        )@.line && final(self)@.pos == old(self)@.pos,
                        _ => false,
                    }
                } else {
                    r is None
                },
                None => r is None,
            }),
            (old(self)@.pending is None && 0 <= old(self)@.pos < old(self)@.src.len()
                && is_line_terminator_spec(old(self)@.src[old(self)@.pos]) && old(self)@.last
                is Some) ==> (match r {
                Some(Ok(t)) => {
                    &&& t.kind@ == KindView::Semi
                    &&& t@.line == old(self)@.line + (if old(self)@.src[old(self)@.pos]
                        == NEWLINE {
                        1int
                    } else {
                        0int
                    }) - 1
                    &&& forall|k: int|
                        old(self)@.pos <= k < final(self)@.pos ==> is_line_terminator_spec(
                            #[trigger] old(self)@.src[k],
                        )
                    &&& (final(self)@.pos == old(self)@.src.len() || !is_line_terminator_spec(
                        old(self)@.src[final(self)@.pos],
                    ))
                    &&& final(self)@.pos > old(self)@.pos
                },
                _ => false,
            }),
            (old(self)@.pending is None && 0 <= old(self)@.pos < old(self)@.src.len() && old(
                self,
            )@.src[old(self)@.pos] == RIGHT_BRACE) ==> (match r {
                Some(Ok(t)) => {
                    &&& final(self)@.pos == old(self)@.pos + 1
                    &&& (if old(self)@.last is Some && old(self)@.last != Some(KindTag::LeftBrace)
                        && old(self)@.last != Some(KindTag::Semi) {
                        t.kind@ == KindView::Semi && final(self)@.pending == Some(
                            KindView::RightBrace,
                        )
                    } else {
                        t.kind@ == KindView::RightBrace && final(self)@.pending is None
                    })
                },
                _ => false,
            }),
            (old(self)@.pending is None && 0 <= old(self)@.pos < old(self)@.src.len() && old(
                self,
            )@.src[old(self)@.pos] == LEFT_BRACE) ==> (match r {
                Some(Ok(t)) => {
                    &&& t.kind@ == KindView::LeftBrace
                    &&& t@.line == old(self)@.line
                    &&& forall|k: int|
                        old(self)@.pos + 1 <= k < final(self)@.pos ==> is_line_terminator_spec(
                            #[trigger] old(self)@.src[k],
                        )
                    &&& (final(self)@.pos == old(self)@.src.len() || !is_line_terminator_spec(
                        old(self)@.src[final(self)@.pos],
                    ))
                    &&& final(self)@.pos > old(self)@.pos
                },
                _ => false,
            }),
            (old(self)@.pending is None && 0 <= old(self)@.pos < old(self)@.src.len() && old(
                self,
            )@.src[old(self)@.pos] == PIPE_BYTE) ==> (match r {
                Some(Ok(t)) => t.kind@ == KindView::Pipe && final(self)@.pos == old(self)@.pos
                    + 1,
                _ => false,
            }),
            (old(self)@.pending is None && 0 <= old(self)@.pos && old(self)@.pos < old(
                self,
            )@.src.len() && (old(self)@.src[old(self)@.pos] == LESS || old(self)@.src[old(
                self,
            )@.pos] == GREATER) && plain_start(old(self)@.src, old(self)@.pos + 1) && old(
                self,
            )@.src[old(self)@.pos + 1] != AMPERSAND) ==> ({
                let src = old(self)@.src;
                let p = old(self)@.pos + 1;
                let w = (WordView {
                    value: src.subrange(p, p + plain_len(src.skip(p))),
                    quote: None::<Quote>,
                });
                match r {
                    Some(Ok(t)) => {
                        &&& t.kind@ == (if src[old(self)@.pos] == LESS {
                            KindView::Redirect(Redirect::InFile(w))
                        } else {
                            KindView::Redirect(Redirect::OutFile(w, WriteMode::Truncate))
                        })
                        &&& t@.line == old(self)@.line
                        &&& final(self)@.pos == word_end(src, p)
                    },
                    _ => false,
                }
            }),
            (old(self)@.pending is None && 0 <= old(self)@.pos && old(self)@.pos + 2 < old(
                self,
            )@.src.len() && old(self)@.src[old(self)@.pos] == GREATER && old(self)@.src[old(
                self,
            )@.pos + 1] == AMPERSAND && old(self)@.src[old(self)@.pos + 2] == DIGIT_2) ==> (match r {
                Some(Ok(t)) => t.kind@ == KindView::Redirect(Redirect::OutErr) && t@.line == old(
                    self,
                )@.line && final(self)@.pos == old(self)@.pos + 3,
                _ => false,
            }),
            (old(self)@.pending is None && 0 <= old(self)@.pos && old(self)@.pos + 3 < old(
                self,
            )@.src.len() && old(self)@.src[old(self)@.pos] == DIGIT_2 && old(self)@.src[old(
                self,
            )@.pos + 1] == GREATER && old(self)@.src[old(self)@.pos + 2] == AMPERSAND && old(
                self,
            )@.src[old(self)@.pos + 3] == DIGIT_1) ==> (match r {
                Some(Ok(t)) => t.kind@ == KindView::Redirect(Redirect::ErrOut) && t@.line == old(
                    self,
                )@.line && final(self)@.pos == old(self)@.pos + 4,
                _ => false,
            }),
            (old(self)@.pending is None && 0 <= old(self)@.pos < old(self)@.src.len() && (old(
                self,
            )@.src[old(self)@.pos] == DQUOTE || old(self)@.src[old(self)@.pos] == SQUOTE))
                ==> ({
                let q = old(self)@.src[old(self)@.pos];
                match crate::word::find_byte(old(self)@.src.skip(old(self)@.pos + 1), q) {
                    Some(p) => match r {
                        Some(Ok(t)) => t.kind@ == KindView::Word(
                            WordView {
                                value: old(self)@.src.subrange(
                                    old(self)@.pos + 1,
                                    old(self)@.pos + 1 + p,
                                ),
                                quote: Some(
                                    if q == DQUOTE {
                                        Quote::Double
                                    } else {
                                        Quote::Single
                                    },
                                ),
                            },
                        ) && final(self)@.pos == old(self)@.pos + p + 2,
                        _ => false,
                    },
                    None => match r {
                        Some(Err(e)) => (match e {
                            LexError::MissingClosingQuote(b) => b@ == old(self)@.src.skip(
                                old(self)@.pos + 1,
                            ),
                            _ => false,
                        }),
                        _ => false,
                    },
                }
            }),
        decreases lexer_measure(self@), 0int,
    {
        let ghost m0 = lexer_measure(self@);
        match self.pending.take() {
            Some(kind) => {
                return self.emit(kind, None);
            },
            None => {},
        }

        let mut buf: Vec<u8> = Vec::new();
        proof {
            assert(buf@ =~= self@.src.subrange(self@.pos, self@.pos));
            if plain_start(self@.src, self@.pos) {
                lemma_plain_len(self@.src.skip(self@.pos));
            }
        }
        loop
            invariant
                self.wf(),
                self@.pending is None,
                self@.src == old(self)@.src,
                self@.last == old(self)@.last,
                lexer_measure(self@) + 3 * buf@.len() <= m0,
                buf@.len() > 0 ==> lexer_measure(self@) + 3 <= m0,
                plain_word_bytes(buf@),
                (old(self)@.last is None && old(self)@.pending is None && all_blank(
                    old(self)@.src,
                    old(self)@.pos,
                )) ==> (buf@.len() == 0 && self@.last is None && self@.pos
                    >= old(self)@.pos),
                self@.pos >= old(self)@.pos,
                buf@.len() == 0 ==> (forall|k: int|
                    old(self)@.pos <= k < self@.pos ==> is_ascii_whitespace_spec(
                        #[trigger] old(self)@.src[k],
                    ) || is_line_terminator_spec(old(self)@.src[k])),
                plain_start(old(self)@.src, old(self)@.pos) ==> (buf@ == old(self)@.src.subrange(
                    old(self)@.pos,
                    self@.pos,
                ) && self@.pos <= old(self)@.pos + plain_len(
                    old(self)@.src.skip(old(self)@.pos),
                )),
                (0 <= old(self)@.pos < old(self)@.src.len() && !plain_start(
                    old(self)@.src,
                    old(self)@.pos,
                ) && !blank_byte(old(self)@.src[old(self)@.pos])) ==> (buf@.len() == 0
                    && self@.pos == old(self)@.pos),
                (0 <= old(self)@.pos < old(self)@.src.len() && is_line_terminator_spec(
                    old(self)@.src[old(self)@.pos],
                ) && old(self)@.last is Some) ==> (buf@.len() == 0 && self@.pos == old(
                    self,
                )@.pos),
            decreases self@.src.len() - self@.pos,
        {
            let byte = match self.next_byte() {
                Some(b) => b,
                None => {
                    proof {
                        if plain_start(old(self)@.src, old(self)@.pos) && buf@.len() == 0 {
                            assert(self@.pos == old(self)@.pos);
                            assert(false);
                        }
                    }
                    if buf.len() == 0 {
                        match self.last {
                            Some(KindTag::Semi) | None => {
                                proof {
                                    if old(self)@.last is None && old(self)@.pending is None {
                                        assert(self@.pos == self@.src.len());
                                        assert forall|k: int|
                                            old(self)@.pos <= k < old(self)@.src.len() implies
                                            is_ascii_whitespace_spec(
                                                #[trigger] old(self)@.src[k],
                                            ) || is_line_terminator_spec(
                                                old(self)@.src[k],
                                            ) by {}
                                    }
                                }
                                return None;
                            },
                            Some(_) => {
                                // A trailing Semi, so the parser always
                                // sees one.
                                return self.emit(Kind::Semi, None);
                            },
                        }
                    } else {
                        proof {
                            if plain_start(old(self)@.src, old(self)@.pos) {
                                lemma_span_end(old(self)@.src, old(self)@.pos, buf@, self@.pos);
                                assert forall|k: int|
                                    old(self)@.pos <= k < self@.pos implies old(self)@.src[k]
                                    != NEWLINE by {
                                    assert(buf@[k - old(self)@.pos] == old(self)@.src[k]);
                                }
                                lemma_count_nl_same(
                                    old(self)@.src,
                                    old(self)@.pos,
                                    self@.pos,
                                );
                            }
                        }
                        return self.emit(Kind::Word(Word::unquoted(buf)), None);
                    }
                },
            };

            if buf.len() == 0 {
                if byte == DQUOTE || byte == SQUOTE {
                    return self.consume_quoted_word(byte);
                } else if byte == LEFT_BRACE {
                    let line = self.line;
                    self.consume_line_terminators();
                    return self.emit(Kind::LeftBrace, Some(line));
                } else if byte == RIGHT_BRACE {
                    if self.should_insert_semi() {
                        self.pending = Some(Kind::RightBrace);
                        return self.emit(Kind::Semi, None);
                    } else {
                        return self.emit(Kind::RightBrace, None);
                    }
                } else if byte == PIPE_BYTE {
                    return self.emit(Kind::Pipe, None);
                } else if byte == GREATER || byte == LESS {
                    let fd = if byte == GREATER {
                        Stream::Stdout
                    } else {
                        Stream::Stdin
                    };
                    return match self.consume_redirect(fd) {
                        Ok((redirect, line)) => self.emit(Kind::Redirect(redirect), Some(line)),
                        Err(e) => Some(Err(e)),
                    };
                } else if byte == DIGIT_0 {
                    match self.next_byte() {
                        Some(c) => {
                            if c == LESS {
                                return match self.consume_redirect(Stream::Stdin) {
                                    Ok((redirect, line)) => self.emit(
                                        Kind::Redirect(redirect),
                                        Some(line),
                                    ),
                                    Err(e) => Some(Err(e)),
                                };
                            } else {
                                buf.push(byte);
                                self.push_byte(c);
                                continue;
                            }
                        },
                        None => {
                            buf.push(byte);
                            proof {
                                if plain_start(old(self)@.src, old(self)@.pos) {
                                    assert(buf@ =~= old(self)@.src.subrange(
                                        old(self)@.pos,
                                        self@.pos,
                                    ));
                                    lemma_span_end(
                                        old(self)@.src,
                                        old(self)@.pos,
                                        buf@,
                                        self@.pos,
                                    );
                                    assert forall|k: int|
                                        old(self)@.pos <= k < self@.pos implies old(
                                        self,
                                    )@.src[k] != NEWLINE by {
                                        assert(buf@[k - old(self)@.pos] == old(
                                            self,
                                        )@.src[k]);
                                    }
                                    lemma_count_nl_same(
                                        old(self)@.src,
                                        old(self)@.pos,
                                        self@.pos,
                                    );
                                }
                            }
                            return self.emit(Kind::Word(Word::unquoted(buf)), None);
                        },
                    }
                } else if byte == DIGIT_1 || byte == DIGIT_2 {
                    match self.next_byte() {
                        Some(c) => {
                            if c == GREATER {
                                let fd = if byte == DIGIT_1 {
                                    Stream::Stdout
                                } else {
                                    Stream::Stderr
                                };
                                return match self.consume_redirect(fd) {
                                    Ok((redirect, line)) => self.emit(
                                        Kind::Redirect(redirect),
                                        Some(line),
                                    ),
                                    Err(e) => Some(Err(e)),
                                };
                            } else {
                                buf.push(byte);
                                self.push_byte(c);
                                continue;
                            }
                        },
                        None => {
                            buf.push(byte);
                            proof {
                                if plain_start(old(self)@.src, old(self)@.pos) {
                                    assert(buf@ =~= old(self)@.src.subrange(
                                        old(self)@.pos,
                                        self@.pos,
                                    ));
                                    lemma_span_end(
                                        old(self)@.src,
                                        old(self)@.pos,
                                        buf@,
                                        self@.pos,
                                    );
                                    assert forall|k: int|
                                        old(self)@.pos <= k < self@.pos implies old(
                                        self,
                                    )@.src[k] != NEWLINE by {
                                        assert(buf@[k - old(self)@.pos] == old(
                                            self,
                                        )@.src[k]);
                                    }
                                    lemma_count_nl_same(
                                        old(self)@.src,
                                        old(self)@.pos,
                                        self@.pos,
                                    );
                                }
                            }
                            return self.emit(Kind::Word(Word::unquoted(buf)), None);
                        },
                    }
                }
            }

            if is_line_terminator(byte) {
                if buf.len() == 0 {
                    let line = self.line;
                    self.consume_line_terminators();
                    if self.last.is_none() {
                        // Leading terminators are dropped.
                        continue;
                    } else {
                        return self.emit(Kind::Semi, Some(line - 1));
                    }
                } else {
                    self.push_byte(byte);
                    proof {
                        if plain_start(old(self)@.src, old(self)@.pos) {
                            lemma_span_end(old(self)@.src, old(self)@.pos, buf@, self@.pos);
                            assert forall|k: int|
                                old(self)@.pos <= k < self@.pos implies old(self)@.src[k]
                                != NEWLINE by {
                                assert(buf@[k - old(self)@.pos] == old(self)@.src[k]);
                            }
                            lemma_count_nl_same(old(self)@.src, old(self)@.pos, self@.pos);
                        }
                    }
                    return self.emit(Kind::Word(Word::unquoted(buf)), None);
                }
            }

            if is_ascii_whitespace(byte) {
                if buf.len() == 0 {
                    // Runs of whitespace collapse.
                    continue;
                } else {
                    // The token ends here.
                    proof {
                        if plain_start(old(self)@.src, old(self)@.pos) {
                            lemma_span_end(
                                old(self)@.src,
                                old(self)@.pos,
                                buf@,
                                self@.pos - 1,
                            );
                            assert forall|k: int|
                                old(self)@.pos <= k < self@.pos implies old(self)@.src[k]
                                != NEWLINE by {
                                if k < self@.pos - 1 {
                                    assert(buf@[k - old(self)@.pos] == old(self)@.src[k]);
                                } else {
                                    assert(old(self)@.src[k] == byte);
                                }
                            }
                            lemma_count_nl_same(old(self)@.src, old(self)@.pos, self@.pos);
                        }
                    }
                    return self.emit(Kind::Word(Word::unquoted(buf)), None);
                }
            }

            buf.push(byte);
        }
    }
}

/// Tokenizes a whole input.
pub fn lex_all(src: &[u8]) -> (r: Result<Vec<Token>, LexError>)
    requires
        src@.len() < usize::MAX,
    ensures
        match r {
            Ok(tokens) => {
                &&& tokens@.len() > 0 ==> (tag_of(tokens@[0].kind@) != KindTag::Semi && tag_of(
                    tokens@[tokens@.len() - 1].kind@,
                ) == KindTag::Semi)
                &&& tokens@.len() == 0 <==> all_blank(src@, 0)
                &&& plain_start(src@, 0) ==> (tokens@.len() > 0 && tokens@[0].kind@
                    == KindView::Word(
                    WordView {
                        value: src@.subrange(0, plain_len(src@)),
                        quote: None::<Quote>,
                    },
                ) && tokens@[0]@.line == 1)
                &&& (0 < src@.len() && src@[0] == LEFT_BRACE) ==> (tokens@.len() > 0
                    && tokens@[0].kind@ is LeftBrace && tokens@[0]@.line == 1)
            },
            Err(_) => !all_blank(src@, 0),
        },
{
    let mut lexer = Lexer::new(src);
    let mut tokens: Vec<Token> = Vec::new();
    loop
        invariant
            lexer.wf(),
            lexer@.src == src@,
            match lexer@.last {
                None => tokens@.len() == 0,
                Some(tag) => tokens@.len() > 0 && tag == tag_of(
                    tokens@[tokens@.len() - 1].kind@,
                ),
            },
            tokens@.len() > 0 ==> tag_of(tokens@[0].kind@) != KindTag::Semi,
            all_blank(src@, 0) ==> (tokens@.len() == 0 && lexer@.last is None && lexer@.pending
                is None),
            tokens@.len() == 0 ==> (lexer@.pos == 0 && lexer@.last is None && lexer@.pending
                is None),
            (plain_start(src@, 0) && tokens@.len() > 0) ==> (tokens@[0].kind@ == KindView::Word(
                WordView { value: src@.subrange(0, plain_len(src@)), quote: None::<Quote> },
            ) && tokens@[0]@.line == 1),
            (0 < src@.len() && src@[0] == LEFT_BRACE && tokens@.len() > 0) ==> (
            tokens@[0].kind@ is LeftBrace && tokens@[0]@.line == 1),
        decreases lexer_measure(lexer@),
    {
        match lexer.next() {
            Some(Ok(t)) => {
                proof {
                    if tokens@.len() == 0 {
                        assert(src@.skip(0) =~= src@);
                    }
                }
                tokens.push(t);
            },
            Some(Err(e)) => {
                return Err(e);
            },
            None => {
                return Ok(tokens);
            },
        }
    }
}

/// A token stream the lexer emitted ends in `Semi` exactly when it holds
/// at least one non-terminator token: `Semi` never opens the stream, and
/// always closes a non-empty one.
pub proof fn lemma_tokens_end_in_semi(tokens: Seq<Token>)
    requires
        tokens.len() > 0 ==> (tag_of(tokens[0].kind@) != KindTag::Semi && tag_of(
            tokens[tokens.len() - 1].kind@,
        ) == KindTag::Semi),
    ensures
        (tokens.len() > 0 && tag_of(tokens[tokens.len() - 1].kind@) == KindTag::Semi) <==> (exists|
            i: int,
        |
            0 <= i < tokens.len() && tag_of(tokens[i].kind@) != KindTag::Semi),
{
    if tokens.len() > 0 {
        assert(tag_of(tokens[0].kind@) != KindTag::Semi);
    }
}

} // verus!
