//! Lexer for the keyboard profile language.
//!
//! Given source bytes, produces a finite sequence of spanned tokens,
//! terminating at end of input. Whitespace is discarded, `#` starts a line
//! comment, newlines are significant tokens. The spec functions here give the
//! lexer its full functional specification: [`Lexer::next`] returns exactly
//! what [`spec_next_token`] describes, so lexing the same bytes twice always
//! yields the same tokens.

use crate::ast::key::{eq3, eq4, eq5, eq6, eq7, eq8, eq11};
use crate::diag::{DiagKind, DiagSig, Diagnostic, Severity};
use crate::utils::Span;
use vstd::prelude::*;

verus! {

/// The kind of a token: a closed tag set of keywords, literals, punctuation
/// and the significant newline.
#[derive(Debug, Clone, Copy, PartialEq, Eq, Hash, Structural)]
pub enum TokenType {
    Profile,
    Config,
    Layer,
    Tap,
    Hold,
    Chord,
    Sequence,
    Combo,
    Run,
    OpenApp,
    NoneKw,
    Capture,
    Release,
    Wait,
    True,
    False,
    AppFocused,
    Variable,
    IntLit,
    StringLit,
    Equals,
    Comma,
    LCurly,
    RCurly,
    LParen,
    RParen,
    LSquare,
    RSquare,
    Colon,
    Newline,
    Caret,
    Underscore,
}

/// Space or tab: discarded between tokens.
pub open spec fn is_ws_byte(b: u8) -> bool {
    b == ' ' as u8 || b == 9u8
}

/// The significant newline byte.
pub open spec fn is_newline_byte(b: u8) -> bool {
    b == 10u8
}

/// An ASCII decimal digit.
pub open spec fn is_digit_byte(b: u8) -> bool {
    '0' as u8 <= b <= '9' as u8
}

/// An ASCII letter.
pub open spec fn is_alpha_byte(b: u8) -> bool {
    ('a' as u8 <= b <= 'z' as u8) || ('A' as u8 <= b <= 'Z' as u8)
}

/// A byte that may continue an identifier.
pub open spec fn is_ident_byte(b: u8) -> bool {
    is_alpha_byte(b) || is_digit_byte(b) || b == '_' as u8
}

/// The token kind of a single-byte punctuation token, if the byte is one.
pub open spec fn spec_punct_kind(b: u8) -> Option<TokenType> {
    if b == '{' as u8 {
        Some(TokenType::LCurly)
    } else if b == '}' as u8 {
        Some(TokenType::RCurly)
    } else if b == '(' as u8 {
        Some(TokenType::LParen)
    } else if b == ')' as u8 {
        Some(TokenType::RParen)
    } else if b == '[' as u8 {
        Some(TokenType::LSquare)
    } else if b == ']' as u8 {
        Some(TokenType::RSquare)
    } else if b == ',' as u8 {
        Some(TokenType::Comma)
    } else if b == '=' as u8 {
        Some(TokenType::Equals)
    } else if b == '^' as u8 {
        Some(TokenType::Caret)
    } else if b == '_' as u8 {
        Some(TokenType::Underscore)
    } else {
        None
    }
}

/// The keyword kind of the given identifier bytes, if they match the fixed
/// keyword table exactly.
pub open spec fn spec_keyword_of(s: Seq<u8>) -> Option<TokenType> {
    if s == seq!['p' as u8, 'r' as u8, 'o' as u8, 'f' as u8, 'i' as u8, 'l' as u8, 'e' as u8] {
        Some(TokenType::Profile)
    } else if s == seq!['c' as u8, 'o' as u8, 'n' as u8, 'f' as u8, 'i' as u8, 'g' as u8] {
        Some(TokenType::Config)
    } else if s == seq!['l' as u8, 'a' as u8, 'y' as u8, 'e' as u8, 'r' as u8] {
        Some(TokenType::Layer)
    } else if s == seq!['t' as u8, 'a' as u8, 'p' as u8] {
        Some(TokenType::Tap)
    } else if s == seq!['h' as u8, 'o' as u8, 'l' as u8, 'd' as u8] {
        Some(TokenType::Hold)
    } else if s == seq!['c' as u8, 'h' as u8, 'o' as u8, 'r' as u8, 'd' as u8] {
        Some(TokenType::Chord)
    } else if s == seq!['s' as u8, 'e' as u8, 'q' as u8, 'u' as u8, 'e' as u8, 'n' as u8, 'c' as u8, 'e' as u8] {
        Some(TokenType::Sequence)
    } else if s == seq!['c' as u8, 'o' as u8, 'm' as u8, 'b' as u8, 'o' as u8] {
        Some(TokenType::Combo)
    } else if s == seq!['r' as u8, 'u' as u8, 'n' as u8] {
        Some(TokenType::Run)
    } else if s == seq!['o' as u8, 'p' as u8, 'e' as u8, 'n' as u8, '_' as u8, 'a' as u8, 'p' as u8, 'p' as u8] {
        Some(TokenType::OpenApp)
    } else if s == seq!['n' as u8, 'o' as u8, 'n' as u8, 'e' as u8] {
        Some(TokenType::NoneKw)
    } else if s == seq!['c' as u8, 'a' as u8, 'p' as u8, 't' as u8, 'u' as u8, 'r' as u8, 'e' as u8] {
        Some(TokenType::Capture)
    } else if s == seq!['r' as u8, 'e' as u8, 'l' as u8, 'e' as u8, 'a' as u8, 's' as u8, 'e' as u8] {
        Some(TokenType::Release)
    } else if s == seq!['w' as u8, 'a' as u8, 'i' as u8, 't' as u8] {
        Some(TokenType::Wait)
    } else if s == seq!['t' as u8, 'r' as u8, 'u' as u8, 'e' as u8] {
        Some(TokenType::True)
    } else if s == seq!['f' as u8, 'a' as u8, 'l' as u8, 's' as u8, 'e' as u8] {
        Some(TokenType::False)
    } else if s == seq!['a' as u8, 'p' as u8, 'p' as u8, '_' as u8, 'f' as u8, 'o' as u8, 'c' as u8, 'u' as u8, 's' as u8, 'e' as u8, 'd' as u8] {
        Some(TokenType::AppFocused)
    } else {
        None
    }
}

/// Reclassifies identifier bytes as a keyword via exact-match lookup.
pub fn bytes_to_keyword(bytes: &Vec<u8>) -> (r: Option<TokenType>)
    ensures
        r == spec_keyword_of(bytes@),
{
    if eq7(bytes, 'p' as u8, 'r' as u8, 'o' as u8, 'f' as u8, 'i' as u8, 'l' as u8, 'e' as u8) {
        return Some(TokenType::Profile);
    }
    if eq6(bytes, 'c' as u8, 'o' as u8, 'n' as u8, 'f' as u8, 'i' as u8, 'g' as u8) {
        return Some(TokenType::Config);
    }
    if eq5(bytes, 'l' as u8, 'a' as u8, 'y' as u8, 'e' as u8, 'r' as u8) {
        return Some(TokenType::Layer);
    }
    if eq3(bytes, 't' as u8, 'a' as u8, 'p' as u8) {
        return Some(TokenType::Tap);
    }
    if eq4(bytes, 'h' as u8, 'o' as u8, 'l' as u8, 'd' as u8) {
        return Some(TokenType::Hold);
    }
    if eq5(bytes, 'c' as u8, 'h' as u8, 'o' as u8, 'r' as u8, 'd' as u8) {
        return Some(TokenType::Chord);
    }
    if eq8(bytes, 's' as u8, 'e' as u8, 'q' as u8, 'u' as u8, 'e' as u8, 'n' as u8, 'c' as u8, 'e' as u8) {
        return Some(TokenType::Sequence);
    }
    if eq5(bytes, 'c' as u8, 'o' as u8, 'm' as u8, 'b' as u8, 'o' as u8) {
        return Some(TokenType::Combo);
    }
    if eq3(bytes, 'r' as u8, 'u' as u8, 'n' as u8) {
        return Some(TokenType::Run);
    }
    if eq8(bytes, 'o' as u8, 'p' as u8, 'e' as u8, 'n' as u8, '_' as u8, 'a' as u8, 'p' as u8, 'p' as u8) {
        return Some(TokenType::OpenApp);
    }
    if eq4(bytes, 'n' as u8, 'o' as u8, 'n' as u8, 'e' as u8) {
        return Some(TokenType::NoneKw);
    }
    if eq7(bytes, 'c' as u8, 'a' as u8, 'p' as u8, 't' as u8, 'u' as u8, 'r' as u8, 'e' as u8) {
        return Some(TokenType::Capture);
    }
    if eq7(bytes, 'r' as u8, 'e' as u8, 'l' as u8, 'e' as u8, 'a' as u8, 's' as u8, 'e' as u8) {
        return Some(TokenType::Release);
    }
    if eq4(bytes, 'w' as u8, 'a' as u8, 'i' as u8, 't' as u8) {
        return Some(TokenType::Wait);
    }
    if eq4(bytes, 't' as u8, 'r' as u8, 'u' as u8, 'e' as u8) {
        return Some(TokenType::True);
    }
    if eq5(bytes, 'f' as u8, 'a' as u8, 'l' as u8, 's' as u8, 'e' as u8) {
        return Some(TokenType::False);
    }
    if eq11(bytes, 'a' as u8, 'p' as u8, 'p' as u8, '_' as u8, 'f' as u8, 'o' as u8, 'c' as u8, 'u' as u8, 's' as u8, 'e' as u8, 'd' as u8) {
        return Some(TokenType::AppFocused);
    }
    None
}

/// Position just after a line comment starting inside it at `i`: the position
/// of the terminating newline (not consumed), or the end of input.
pub open spec fn spec_skip_comment(bytes: Seq<u8>, i: int) -> int
    decreases bytes.len() - i,
{
    if i >= bytes.len() {
        bytes.len() as int
    } else if is_newline_byte(bytes[i]) {
        i
    } else {
        spec_skip_comment(bytes, i + 1)
    }
}

/// Position of the next byte that is neither discarded whitespace nor part of
/// a line comment, starting at `i`.
pub open spec fn spec_skip(bytes: Seq<u8>, i: int) -> int
    decreases bytes.len() - i,
{
    if i >= bytes.len() {
        i
    } else if is_ws_byte(bytes[i]) {
        spec_skip(bytes, i + 1)
    } else if bytes[i] == '#' as u8 {
        spec_skip_comment(bytes, i + 1)
    } else {
        i
    }
}

/// End (exclusive) of the identifier run starting at `i`.
pub open spec fn spec_ident_end(bytes: Seq<u8>, i: int) -> int
    decreases bytes.len() - i,
{
    if i < bytes.len() && is_ident_byte(bytes[i]) {
        spec_ident_end(bytes, i + 1)
    } else {
        i
    }
}

/// End (exclusive) of the digit run starting at `i`.
pub open spec fn spec_digits_end(bytes: Seq<u8>, i: int) -> int
    decreases bytes.len() - i,
{
    if i < bytes.len() && is_digit_byte(bytes[i]) {
        spec_digits_end(bytes, i + 1)
    } else {
        i
    }
}

/// Scanning just after an opening quote at `i`: the position one past the
/// closing quote, or `None` if the line or the input ends first.
pub open spec fn spec_string_end(bytes: Seq<u8>, i: int) -> Option<int>
    decreases bytes.len() - i,
{
    if i >= bytes.len() {
        None
    } else if bytes[i] == '"' as u8 {
        Some(i + 1)
    } else if is_newline_byte(bytes[i]) {
        None
    } else {
        spec_string_end(bytes, i + 1)
    }
}

/// What one step of the lexer does at position `cur`: the end of input, a
/// token `(kind, start, end)`, or a fatal lexical error at a position.
pub enum LexStep {
    End,
    Tok(TokenType, int, int),
    Fail(DiagKind, int),
}

/// The full functional specification of one lexing step.
pub open spec fn spec_next_token(bytes: Seq<u8>, cur: int) -> LexStep {
    let i = spec_skip(bytes, cur);
    if i >= bytes.len() {
        LexStep::End
    } else {
        let b = bytes[i];
        if is_newline_byte(b) {
            LexStep::Tok(TokenType::Newline, i, i + 1)
        } else {
            match spec_punct_kind(b) {
                Some(k) => LexStep::Tok(k, i, i + 1),
                None => if is_digit_byte(b) {
                    LexStep::Tok(TokenType::IntLit, i, spec_digits_end(bytes, i + 1))
                } else if b == '"' as u8 {
                    match spec_string_end(bytes, i + 1) {
                        Some(e) => LexStep::Tok(TokenType::StringLit, i, e),
                        None => LexStep::Fail(DiagKind::UnterminatedString, i),
                    }
                } else if is_alpha_byte(b) {
                    let e = spec_ident_end(bytes, i + 1);
                    match spec_keyword_of(bytes.subrange(i, e)) {
                        Some(k) => LexStep::Tok(k, i, e),
                        None => LexStep::Tok(TokenType::Variable, i, e),
                    }
                } else if b == 13u8 || b >= 128 {
                    LexStep::Fail(DiagKind::InvalidCharacter, i)
                } else {
                    LexStep::Fail(DiagKind::UnexpectedCharacter, i)
                },
            }
        }
    }
}

/// The skip position never moves backwards and stays in bounds.
pub proof fn lemma_skip_bounds(bytes: Seq<u8>, i: int)
    requires
        0 <= i <= bytes.len(),
    ensures
        i <= spec_skip(bytes, i) <= bytes.len(),
    decreases bytes.len() - i,
{
    if i < bytes.len() {
        if is_ws_byte(bytes[i]) {
            lemma_skip_bounds(bytes, i + 1);
        } else if bytes[i] == '#' as u8 {
            lemma_skip_comment_bounds(bytes, i + 1);
        }
    }
}

/// The comment-skip position never moves backwards and stays in bounds.
pub proof fn lemma_skip_comment_bounds(bytes: Seq<u8>, i: int)
    requires
        0 <= i <= bytes.len(),
    ensures
        i <= spec_skip_comment(bytes, i) <= bytes.len(),
    decreases bytes.len() - i,
{
    if i < bytes.len() && !is_newline_byte(bytes[i]) {
        lemma_skip_comment_bounds(bytes, i + 1);
    }
}

/// Identifier runs end in bounds, after their start.
pub proof fn lemma_ident_end_bounds(bytes: Seq<u8>, i: int)
    requires
        0 <= i <= bytes.len(),
    ensures
        i <= spec_ident_end(bytes, i) <= bytes.len(),
    decreases bytes.len() - i,
{
    if i < bytes.len() && is_ident_byte(bytes[i]) {
        lemma_ident_end_bounds(bytes, i + 1);
    }
}

/// Digit runs end in bounds, after their start.
pub proof fn lemma_digits_end_bounds(bytes: Seq<u8>, i: int)
    requires
        0 <= i <= bytes.len(),
    ensures
        i <= spec_digits_end(bytes, i) <= bytes.len(),
    decreases bytes.len() - i,
{
    if i < bytes.len() && is_digit_byte(bytes[i]) {
        lemma_digits_end_bounds(bytes, i + 1);
    }
}

/// A found string end lies in bounds, after its start.
pub proof fn lemma_string_end_bounds(bytes: Seq<u8>, i: int)
    requires
        0 <= i <= bytes.len(),
    ensures
        match spec_string_end(bytes, i) {
            Some(e) => i < e <= bytes.len(),
            None => true,
        },
    decreases bytes.len() - i,
{
    if i < bytes.len() && bytes[i] != '"' as u8 && !is_newline_byte(bytes[i]) {
        lemma_string_end_bounds(bytes, i + 1);
    }
}

/// Every token the lexer can produce starts at or after the scan position and
/// has a nonempty extent inside the input; every failure position is in
/// bounds.
pub proof fn lemma_next_token_bounds(bytes: Seq<u8>, cur: int)
    requires
        0 <= cur <= bytes.len(),
    ensures
        match spec_next_token(bytes, cur) {
            LexStep::End => true,
            LexStep::Tok(k, s, e) => cur <= s < e <= bytes.len(),
            LexStep::Fail(dk, p) => cur <= p < bytes.len(),
        },
{
    lemma_skip_bounds(bytes, cur);
    let i = spec_skip(bytes, cur);
    if i < bytes.len() {
        lemma_digits_end_bounds(bytes, i + 1);
        lemma_ident_end_bounds(bytes, i + 1);
        lemma_string_end_bounds(bytes, i + 1);
    }
}

impl TokenType {
    /// The display name of this token kind, for diagnostics.
    pub fn name(&self) -> &'static str {
        match self {
            TokenType::Profile => "Profile",
            TokenType::Config => "Config",
            TokenType::Layer => "Layer",
            TokenType::Tap => "Tap",
            TokenType::Hold => "Hold",
            TokenType::Chord => "Chord",
            TokenType::Sequence => "Sequence",
            TokenType::Combo => "Combo",
            TokenType::Run => "Run",
            TokenType::OpenApp => "OpenApp",
            TokenType::NoneKw => "NoneKw",
            TokenType::Capture => "Capture",
            TokenType::Release => "Release",
            TokenType::Wait => "Wait",
            TokenType::True => "True",
            TokenType::False => "False",
            TokenType::AppFocused => "AppFocused",
            TokenType::Variable => "Variable",
            TokenType::IntLit => "IntLit",
            TokenType::StringLit => "StringLit",
            TokenType::Equals => "Equals",
            TokenType::Comma => "Comma",
            TokenType::LCurly => "LCurly",
            TokenType::RCurly => "RCurly",
            TokenType::LParen => "LParen",
            TokenType::RParen => "RParen",
            TokenType::LSquare => "LSquare",
            TokenType::RSquare => "RSquare",
            TokenType::Colon => "Colon",
            TokenType::Newline => "Newline",
            TokenType::Caret => "Caret",
            TokenType::Underscore => "Underscore",
        }
    }
}

/// One spanned token: its kind, start offset and source bytes.
#[derive(Debug, Clone)]
pub struct Token {
    pub kind: TokenType,
    pub start: usize,
    pub bytes: Vec<u8>,
}

/// The model of a token: its kind, start offset and source bytes.
#[verifier::ext_equal]
pub struct TokenModel {
    pub kind: TokenType,
    pub start: int,
    pub bytes: Seq<u8>,
}

impl Token {
    /// The token's extent does not overflow the address space.
    pub open spec fn wf(&self) -> bool {
        self.start + self.bytes@.len() <= usize::MAX
    }

    /// The model of this token.
    pub open spec fn model(&self) -> TokenModel {
        TokenModel { kind: self.kind, start: self.start as int, bytes: self.bytes@ }
    }

    /// The span this token covers.
    pub open spec fn spec_loc(&self) -> Span {
        Span { start: self.start, len: self.bytes@.len() as usize }
    }

    /// The kind of this token.
    pub fn kind(&self) -> (k: TokenType)
        ensures
            k == self.kind,
    {
        self.kind
    }

    /// The span of this token in the source.
    pub fn loc(&self) -> (s: Span)
        ensures
            s.start == self.start,
            s.len == self.bytes@.len(),
    {
        Span::new(self.start, self.bytes.len())
    }

    /// The start offset of this token.
    pub fn start(&self) -> (r: usize)
        ensures
            r == self.start,
    {
        self.start
    }

    /// The source bytes of this token.
    pub fn bytes(&self) -> (r: &Vec<u8>)
        ensures
            r == &self.bytes,
    {
        &self.bytes
    }
}

/// What one call of [`Lexer::next`] yields: a token, the end of input, or a
/// fatal lexical error.
pub enum LexOutcome {
    Tok(Token),
    End,
    Error(Diagnostic),
}

/// The lexer: source bytes and a scan position. A fresh lexer over the same
/// bytes re-scans them from the start.
#[derive(Debug, Clone)]
pub struct Lexer {
    pub bytes: Vec<u8>,
    pub cur: usize,
}

impl Lexer {
    /// The scan position is inside the source.
    pub open spec fn wf(&self) -> bool {
        self.cur <= self.bytes@.len()
    }

    /// Creates a lexer over the given source bytes.
    pub fn new(source: Vec<u8>) -> (l: Lexer)
        ensures
            l.bytes == source,
            l.cur == 0,
            l.wf(),
    {
        Lexer { bytes: source, cur: 0 }
    }

    /// Builds a token of the given kind and length at the scan position and
    /// advances past it.
    fn create_token(&mut self, kind: TokenType, len: usize) -> (t: Token)
        requires
            old(self).wf(),
            old(self).cur + len <= old(self).bytes@.len(),
        ensures
            final(self).bytes == old(self).bytes,
            final(self).cur == old(self).cur + len,
            final(self).wf(),
            t.kind == kind,
            t.start == old(self).cur,
            t.bytes@ == old(self).bytes@.subrange(
                old(self).cur as int,
                old(self).cur + len,
            ),
            t.wf(),
    {
        let n = self.bytes.len();
        let bytes = Span::new(self.cur, len).as_str(&self.bytes);
        let t = Token { kind, start: self.cur, bytes };
        assert(self.cur + len <= n);
        self.cur = self.cur + len;
        t
    }

    /// Produces the next token, or reports the end of input or a fatal
    /// lexical error, exactly as [`spec_next_token`] describes. After an
    /// error the lexer is exhausted.
    pub fn next(&mut self) -> (r: LexOutcome)
        requires
            old(self).wf(),
        ensures
            final(self).bytes@ == old(self).bytes@,
            final(self).wf(),
            ({
                let step = spec_next_token(old(self).bytes@, old(self).cur as int);
                match step {
                    LexStep::End => r is End && final(self).cur == old(self).bytes@.len(),
                    LexStep::Tok(k, s, e) => r matches LexOutcome::Tok(t) && t.kind == k
                        && t.start == s
                        && t.bytes@ == old(self).bytes@.subrange(s, e)
                        && t.wf()
                        && final(self).cur == e,
                    LexStep::Fail(dk, p) => r matches LexOutcome::Error(d)
                        && d.sig() == (DiagSig {
                            kind: dk,
                            severity: Severity::Error,
                            spans: seq![Span { start: p as usize, len: 0 }],
                        })
                        && final(self).cur == old(self).bytes@.len(),
                }
            }),
    {
        let ghost bv = old(self).bytes@;
        let ghost cur0 = old(self).cur as int;
        let len = self.bytes.len();
        proof {
            lemma_next_token_bounds(bv, cur0);
        }

        // Skip whitespace and comments until the skip position is reached.
        loop
            invariant
                self.bytes@ == bv,
                len == bv.len(),
                cur0 <= self.cur as int,
                self.wf(),
                spec_skip(bv, cur0) == spec_skip(bv, self.cur as int),
            ensures
                self.bytes@ == bv,
                self.wf(),
                cur0 <= self.cur as int,
                self.cur as int == spec_skip(bv, cur0),
            decreases len - self.cur,
        {
            if self.cur >= len {
                break;
            }
            let b = self.bytes[self.cur];
            if b == ' ' as u8 || b == 9u8 {
                self.cur = self.cur + 1;
            } else if b == '#' as u8 {
                let ghost at_hash = self.cur as int;
                self.cur = self.cur + 1;
                while self.cur < len && self.bytes[self.cur] != 10u8
                    invariant
                        self.bytes@ == bv,
                        len == bv.len(),
                        cur0 <= self.cur as int,
                        self.wf(),
                        spec_skip(bv, cur0) == spec_skip_comment(bv, self.cur as int),
                    decreases len - self.cur,
                {
                    self.cur = self.cur + 1;
                }
                break;
            } else {
                break;
            }
        }
        proof {
            assert(self.cur as int == spec_skip(bv, cur0));
        }

        // Dispatch on the first significant byte.
        if self.cur >= len {
            self.cur = len;
            return LexOutcome::End;
        }
        let b = self.bytes[self.cur];
        if b == 10u8 {
            return LexOutcome::Tok(self.create_token(TokenType::Newline, 1));
        }
        if b == '{' as u8 {
            return LexOutcome::Tok(self.create_token(TokenType::LCurly, 1));
        }
        if b == '}' as u8 {
            return LexOutcome::Tok(self.create_token(TokenType::RCurly, 1));
        }
        if b == '(' as u8 {
            return LexOutcome::Tok(self.create_token(TokenType::LParen, 1));
        }
        if b == ')' as u8 {
            return LexOutcome::Tok(self.create_token(TokenType::RParen, 1));
        }
        if b == '[' as u8 {
            return LexOutcome::Tok(self.create_token(TokenType::LSquare, 1));
        }
        if b == ']' as u8 {
            return LexOutcome::Tok(self.create_token(TokenType::RSquare, 1));
        }
        if b == ',' as u8 {
            return LexOutcome::Tok(self.create_token(TokenType::Comma, 1));
        }
        if b == '=' as u8 {
            return LexOutcome::Tok(self.create_token(TokenType::Equals, 1));
        }
        if b == '^' as u8 {
            return LexOutcome::Tok(self.create_token(TokenType::Caret, 1));
        }
        if b == '_' as u8 {
            return LexOutcome::Tok(self.create_token(TokenType::Underscore, 1));
        }
        if '0' as u8 <= b && b <= '9' as u8 {
            let start = self.cur;
            let mut j = self.cur + 1;
            while j < len && '0' as u8 <= self.bytes[j] && self.bytes[j] <= '9' as u8
                invariant
                    self.bytes@ == bv,
                    len == bv.len(),
                    start < j <= len,
                    spec_digits_end(bv, start + 1) == spec_digits_end(bv, j as int),
                decreases len - j,
            {
                j = j + 1;
            }
            return LexOutcome::Tok(self.create_token(TokenType::IntLit, j - start));
        }
        if b == '"' as u8 {
            let start = self.cur;
            let mut j = self.cur + 1;
            while j < len && self.bytes[j] != '"' as u8 && self.bytes[j] != 10u8
                invariant
                    self.bytes@ == bv,
                    len == bv.len(),
                    start < j <= len,
                    spec_string_end(bv, start + 1) == spec_string_end(bv, j as int),
                decreases len - j,
            {
                j = j + 1;
            }
            if j < len && self.bytes[j] == '"' as u8 {
                return LexOutcome::Tok(self.create_token(TokenType::StringLit, j + 1 - start));
            }
            self.cur = len;
            return LexOutcome::Error(
                Diagnostic::new1(
                    DiagKind::UnterminatedString,
                    Severity::Error,
                    crate::diag::msg("String literal must end on the same line"),
                    crate::diag::msg("Unterminated string"),
                    Span::new(start, 0),
                ),
            );
        }
        if ('a' as u8 <= b && b <= 'z' as u8) || ('A' as u8 <= b && b <= 'Z' as u8) {
            let start = self.cur;
            let mut j = self.cur + 1;
            while j < len && (('a' as u8 <= self.bytes[j] && self.bytes[j] <= 'z' as u8) || (
            'A' as u8 <= self.bytes[j] && self.bytes[j] <= 'Z' as u8) || ('0' as u8
                <= self.bytes[j] && self.bytes[j] <= '9' as u8) || self.bytes[j] == '_' as u8)
                invariant
                    self.bytes@ == bv,
                    len == bv.len(),
                    start < j <= len,
                    spec_ident_end(bv, start + 1) == spec_ident_end(bv, j as int),
                decreases len - j,
            {
                j = j + 1;
            }
            let t = self.create_token(TokenType::Variable, j - start);
            let kind = match bytes_to_keyword(&t.bytes) {
                Some(k) => k,
                None => TokenType::Variable,
            };
            let t2 = Token { kind, start: t.start, bytes: t.bytes };
            return LexOutcome::Tok(t2);
        }
        let pos = self.cur;
        self.cur = len;
        if b == 13u8 || b >= 128 {
            return LexOutcome::Error(
                Diagnostic::new1(
                    DiagKind::InvalidCharacter,
                    Severity::Error,
                    crate::diag::msg("Invalid character in profile"),
                    crate::diag::msg("Invalid character"),
                    Span::new(pos, 0),
                ),
            );
        }
        LexOutcome::Error(
            Diagnostic::new1(
                DiagKind::UnexpectedCharacter,
                Severity::Error,
                crate::diag::msg("Unexpected character in profile"),
                crate::diag::msg("Unexpected character"),
                Span::new(pos, 0),
            ),
        )
    }
}

} // verus!
