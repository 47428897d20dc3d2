//! The token stream and the recursive-descent grammar rules.
//!
//! The stream buffers the lexer behind arbitrary-depth lookahead and
//! collapses runs of blank lines into a single newline token: no two tokens
//! it ever delivers are both newlines (see [`TokenStream::next`]). The
//! grammar rules consume the stream one production per function; parse
//! failure anywhere is unrecoverable and carries a spanned diagnostic.

use crate::ast::key::KeyIdent;
use crate::ast::{Behavior, Bind, Config, ConfigEntry, Key, Layer, Profile, Statement, Trigger};
use crate::diag::{msg, msg_append, DiagKind, DiagSig, Diagnostic, Severity};
use crate::lex::{LexOutcome, Lexer, Token, TokenModel, TokenType};
use crate::lex::lemma_next_token_bounds;
use crate::utils::{Span, Spanned};
use vstd::prelude::*;
use vstd::string::StringSliceAdditionalSpecFns;

verus! {

/// No two neighbouring kinds are both newlines.
pub open spec fn no_adjacent_newlines(s: Seq<TokenType>) -> bool {
    forall|i: int|
        0 <= i < s.len() - 1 ==> !((#[trigger] s[i]) == TokenType::Newline && s[i + 1]
            == TokenType::Newline)
}

/// The span a token model covers.
pub open spec fn tok_span(m: TokenModel) -> Span {
    Span { start: m.start as usize, len: m.bytes.len() as usize }
}

/// The tokens a lexer at position `cur` will deliver through the stream:
/// its token sequence with each newline that directly follows another
/// pulled newline dropped, ending at the end of input or at the first
/// lexical error. `prev` is the kind of the last token already pulled.
pub open spec fn spec_stream_from(
    bytes: Seq<u8>,
    cur: int,
    prev: Option<TokenType>,
) -> Seq<TokenModel>
    decreases bytes.len() - cur
        via spec_stream_from_decreases
{
    if cur < 0 || cur > bytes.len() {
        Seq::empty()
    } else {
        match crate::lex::spec_next_token(bytes, cur) {
            crate::lex::LexStep::End => Seq::empty(),
            crate::lex::LexStep::Fail(k, p) => Seq::empty(),
            crate::lex::LexStep::Tok(k, s, e) => if k == TokenType::Newline && prev == Some(
                TokenType::Newline,
            ) {
                spec_stream_from(bytes, e, prev)
            } else {
                seq![TokenModel { kind: k, start: s, bytes: bytes.subrange(s, e) }]
                    + spec_stream_from(bytes, e, Some(k))
            },
        }
    }
}

#[via_fn]
proof fn spec_stream_from_decreases(bytes: Seq<u8>, cur: int, prev: Option<TokenType>) {
    if 0 <= cur <= bytes.len() {
        lemma_next_token_bounds(bytes, cur);
    }
}

/// Whether the lexer reaches the end of input from `cur` without a fatal
/// lexical error.
pub open spec fn spec_lex_ok(bytes: Seq<u8>, cur: int) -> bool
    decreases bytes.len() - cur
        via spec_lex_ok_decreases
{
    if cur < 0 || cur > bytes.len() {
        true
    } else {
        match crate::lex::spec_next_token(bytes, cur) {
            crate::lex::LexStep::End => true,
            crate::lex::LexStep::Fail(k, p) => false,
            crate::lex::LexStep::Tok(k, s, e) => spec_lex_ok(bytes, e),
        }
    }
}

#[via_fn]
proof fn spec_lex_ok_decreases(bytes: Seq<u8>, cur: int) {
    if 0 <= cur <= bytes.len() {
        lemma_next_token_bounds(bytes, cur);
    }
}

/// A stream of tokens produced by a lexer, with support for peeking.
///
/// A lexical error does not produce a token: the stream ends early and
/// stores the diagnostic in `lex_error`, where the caller that drives the
/// parse finds it and gives it precedence.
pub struct TokenStream {
    /// Tokens pulled from the lexer but not yet delivered; the front is next.
    pub peeked: Vec<Token>,
    pub lexer: Lexer,
    /// Kind of the last token pulled from the lexer (drives newline collapse).
    pub prev_kind: Option<TokenType>,
    /// Span of the last token delivered to the consumer.
    pub last_loc: Option<Span>,
    /// The first fatal lexical error met, if any.
    pub lex_error: Option<Diagnostic>,
    /// Kind of the last token delivered to the consumer.
    pub delivered_kind: Ghost<Option<TokenType>>,
    /// The lexer position this stream started from.
    pub start_cur: Ghost<int>,
}

impl TokenStream {
    /// The kinds of the buffered tokens, in delivery order.
    pub open spec fn queue_kinds(&self) -> Seq<TokenType> {
        self.peeked@.map_values(|t: Token| t.kind)
    }

    /// The last delivered kind followed by the buffered kinds.
    pub open spec fn chain(&self) -> Seq<TokenType> {
        match self.delivered_kind@ {
            Some(k) => seq![k] + self.queue_kinds(),
            None => self.queue_kinds(),
        }
    }

    /// The tokens this stream will deliver, in order: the buffered tokens,
    /// then what the lexer has left after newline collapse.
    pub open spec fn upcoming(&self) -> Seq<TokenModel> {
        self.peeked@.map_values(|t: Token| t.model()) + spec_stream_from(
            self.lexer.bytes@,
            self.lexer.cur as int,
            self.prev_kind,
        )
    }

    /// The stream invariant: the lexer is in bounds, no two neighbouring
    /// delivered-or-buffered tokens are newlines, buffered tokens are well
    /// formed, and the pull tracker agrees with the chain.
    #[verifier::opaque]
    pub open spec fn wf(&self) -> bool {
        &&& self.lexer.wf()
        &&& no_adjacent_newlines(self.chain())
        &&& (forall|i: int| 0 <= i < self.peeked@.len() ==> (#[trigger] self.peeked@[i]).wf())
        &&& self.prev_kind == (if self.peeked@.len() > 0 {
            Some(self.peeked@.last().kind)
        } else {
            self.delivered_kind@
        })
        &&& (match self.last_loc {
            Some(s) => s.wf(),
            None => true,
        })
        &&& (match self.lex_error {
            Some(d) => d.is_error(),
            None => true,
        })
        &&& (self.lex_error is None ==> (spec_lex_ok(self.lexer.bytes@, self.start_cur@)
            <==> spec_lex_ok(self.lexer.bytes@, self.lexer.cur as int)))
        &&& (self.lex_error is Some ==> !spec_lex_ok(self.lexer.bytes@, self.start_cur@))
    }

    /// How much input is left: unscanned bytes plus buffered tokens. Every
    /// delivered token strictly shrinks this measure.
    pub open spec fn measure(&self) -> int {
        if self.lexer.cur <= self.lexer.bytes@.len() {
            self.lexer.bytes@.len() - self.lexer.cur + self.peeked@.len()
        } else {
            self.peeked@.len() as int
        }
    }

    /// Creates a new `TokenStream` wrapping the given lexer.
    pub fn new(lexer: Lexer) -> (ts: TokenStream)
        requires
            lexer.wf(),
        ensures
            ts.wf(),
            ts.lexer == lexer,
            ts.lex_error is None,
            ts.delivered_kind@ is None,
            ts.measure() <= lexer.bytes@.len(),
            ts.upcoming() == spec_stream_from(lexer.bytes@, lexer.cur as int, None),
            ts.start_cur@ == lexer.cur as int,
    {
        proof {
            reveal(TokenStream::wf);
            assert(Seq::<Token>::empty().map_values(|t: Token| t.model()) + spec_stream_from(
                lexer.bytes@,
                lexer.cur as int,
                None,
            ) =~= spec_stream_from(lexer.bytes@, lexer.cur as int, None));
        }
        let ghost start = lexer.cur as int;
        TokenStream {
            peeked: Vec::new(),
            lexer,
            prev_kind: None,
            last_loc: None,
            lex_error: None,
            delivered_kind: Ghost(None),
            start_cur: Ghost(start),
        }
    }

    /// Pulls the next token from the lexer, collapsing a newline that
    /// directly follows another pulled newline. On a lexical error, stores
    /// the diagnostic and ends the stream.
    #[verifier::loop_isolation(false)]
    fn pull(&mut self) -> (r: Option<Token>)
        requires
            old(self).wf(),
        ensures
            final(self).peeked == old(self).peeked,
            final(self).delivered_kind == old(self).delivered_kind,
            final(self).last_loc == old(self).last_loc,
            final(self).lexer.bytes@ == old(self).lexer.bytes@,
            final(self).lexer.wf(),
            final(self).start_cur == old(self).start_cur,
            (final(self).lex_error is None ==> (spec_lex_ok(
                final(self).lexer.bytes@,
                old(self).start_cur@,
            ) <==> spec_lex_ok(final(self).lexer.bytes@, final(self).lexer.cur as int))),
            (final(self).lex_error is Some ==> !spec_lex_ok(
                final(self).lexer.bytes@,
                old(self).start_cur@,
            )),
            ({
                let lexpart = spec_stream_from(
                    old(self).lexer.bytes@,
                    old(self).lexer.cur as int,
                    old(self).prev_kind,
                );
                let lexpart_after = spec_stream_from(
                    final(self).lexer.bytes@,
                    final(self).lexer.cur as int,
                    final(self).prev_kind,
                );
                match r {
                    Some(t) => t.wf() && final(self).prev_kind == Some(t.kind)
                        && (t.kind == TokenType::Newline
                            ==> old(self).prev_kind != Some(TokenType::Newline))
                        && final(self).measure() < old(self).measure()
                        && final(self).lex_error == old(self).lex_error
                        && lexpart.len() > 0 && t.model() == lexpart.first()
                        && lexpart_after == lexpart.drop_first(),
                    None => final(self).measure() <= old(self).measure() && final(self).prev_kind
                        == old(self).prev_kind && lexpart.len() == 0 && lexpart_after.len() == 0
                        && (final(self).lex_error is None ==> spec_lex_ok(
                        final(self).lexer.bytes@,
                        final(self).lexer.cur as int,
                    )),
                }
            }),
            match final(self).lex_error {
                Some(d) => d.is_error(),
                None => true,
            },
    {
        proof {
            reveal(TokenStream::wf);
        }
        let ghost s0 = *self;
        loop
            invariant
                self.peeked == s0.peeked,
                self.delivered_kind == s0.delivered_kind,
                self.last_loc == s0.last_loc,
                self.lex_error == s0.lex_error,
                self.start_cur == s0.start_cur,
                spec_lex_ok(self.lexer.bytes@, s0.lexer.cur as int) <==> spec_lex_ok(
                    self.lexer.bytes@,
                    self.lexer.cur as int,
                ),
                match self.lex_error {
                    Some(d) => d.is_error(),
                    None => true,
                },
                self.prev_kind == s0.prev_kind,
                self.lexer.wf(),
                self.lexer.bytes@ == s0.lexer.bytes@,
                self.measure() <= s0.measure(),
                spec_stream_from(self.lexer.bytes@, self.lexer.cur as int, self.prev_kind)
                    == spec_stream_from(s0.lexer.bytes@, s0.lexer.cur as int, s0.prev_kind),
            decreases self.lexer.bytes@.len() - self.lexer.cur,
        {
            let ghost cur_pre = self.lexer.cur as int;
            let ghost m_pre = self.measure();
            proof {
                lemma_next_token_bounds(self.lexer.bytes@, cur_pre);
            }
            let outcome = self.lexer.next();
            match outcome {
                LexOutcome::End => {
                    proof {
                        assert(spec_stream_from(
                            self.lexer.bytes@,
                            self.lexer.cur as int,
                            self.prev_kind,
                        ) =~= Seq::<TokenModel>::empty());
                    }
                    return None;
                },
                LexOutcome::Error(d) => {
                    if self.lex_error.is_none() {
                        self.lex_error = Some(d);
                    }
                    proof {
                        assert(spec_stream_from(
                            self.lexer.bytes@,
                            self.lexer.cur as int,
                            self.prev_kind,
                        ) =~= Seq::<TokenModel>::empty());
                    }
                    return None;
                },
                LexOutcome::Tok(t) => {
                    let is_nl = matches!(t.kind, TokenType::Newline);
                    let prev_nl = matches!(self.prev_kind, Some(TokenType::Newline));
                    if is_nl && prev_nl {
                        // A blank line: collapse it into the previous newline.
                        proof {
                            assert(spec_stream_from(self.lexer.bytes@, cur_pre, self.prev_kind)
                                == spec_stream_from(
                                self.lexer.bytes@,
                                self.lexer.cur as int,
                                self.prev_kind,
                            ));
                        }
                    } else {
                        self.prev_kind = Some(t.kind());
                        proof {
                            let lexpart = spec_stream_from(
                                self.lexer.bytes@,
                                cur_pre,
                                s0.prev_kind,
                            );
                            assert(lexpart.first() == t.model());
                            assert(lexpart.drop_first() =~= spec_stream_from(
                                self.lexer.bytes@,
                                self.lexer.cur as int,
                                self.prev_kind,
                            ));
                        }
                        return Some(t);
                    }
                },
            }
        }
    }

    /// Returns the next token from the peeked queue or the lexer.
    ///
    /// Never delivers a newline directly after a delivered newline: blank
    /// lines collapse to a single logical line break.
    #[verifier::rlimit(100)]
    #[verifier::spinoff_prover]
    pub fn next(&mut self) -> (r: Option<Token>)
        requires
            old(self).wf(),
        ensures
            final(self).wf(),
            final(self).lexer.bytes@ == old(self).lexer.bytes@,
            final(self).start_cur == old(self).start_cur,
            match r {
                Some(t) => t.wf() && final(self).measure() < old(self).measure()
                    && final(self).delivered_kind@ == Some(t.kind)
                    && (t.kind == TokenType::Newline
                        ==> old(self).delivered_kind@ != Some(TokenType::Newline))
                    && old(self).upcoming().len() > 0 && t.model() == old(self).upcoming().first()
                    && final(self).upcoming() == old(self).upcoming().drop_first()
                    && final(self).last_loc == Some(t.spec_loc()),
                None => final(self).measure() <= old(self).measure()
                    && old(self).upcoming().len() == 0 && final(self).upcoming().len() == 0 && (
                final(self).lex_error is None ==> spec_lex_ok(
                    final(self).lexer.bytes@,
                    final(self).lexer.cur as int,
                )),
            },
    {
        proof {
            reveal(TokenStream::wf);
        }
        if self.peeked.len() > 0 {
            let ghost q0 = self.peeked@;
            let ghost chain0 = self.chain();
            let t = self.peeked.remove(0);
            self.delivered_kind = Ghost(Some(t.kind));
            self.last_loc = Some(t.loc());
            proof {
                let qk0 = q0.map_values(|x: Token| x.kind);
                let qk1 = self.queue_kinds();
                assert(qk1 =~= qk0.drop_first());
                assert forall|i: int|
                    0 <= i < self.chain().len() - 1 implies !((#[trigger] self.chain()[i])
                    == TokenType::Newline && self.chain()[i + 1] == TokenType::Newline) by {
                    if old(self).delivered_kind@ is Some {
                        assert(self.chain()[i] == chain0[i + 1]);
                        assert(self.chain()[i + 1] == chain0[i + 2]);
                    } else {
                        assert(self.chain()[i] == chain0[i]);
                        assert(self.chain()[i + 1] == chain0[i + 1]);
                    }
                }
                if old(self).delivered_kind@ == Some(TokenType::Newline) {
                    assert(chain0[0] == TokenType::Newline);
                    assert(chain0[1] == t.kind);
                }
                if q0.len() > 1 {
                    assert(self.peeked@.last() == q0.last());
                }
                assert(t.model() == old(self).upcoming().first());
                assert(self.upcoming() =~= old(self).upcoming().drop_first());
            }
            Some(t)
        } else {
            match self.pull() {
                Some(t) => {
                    self.delivered_kind = Ghost(Some(t.kind));
                    self.last_loc = Some(t.loc());
                    proof {
                        assert(self.chain() =~= seq![t.kind]);
                        assert(t.start + t.bytes@.len() <= usize::MAX);
                        assert(old(self).upcoming() =~= spec_stream_from(
                            old(self).lexer.bytes@,
                            old(self).lexer.cur as int,
                            old(self).prev_kind,
                        ));
                        assert(self.upcoming() =~= old(self).upcoming().drop_first());
                    }
                    Some(t)
                },
                None => {
                    proof {
                        assert(old(self).upcoming() =~= spec_stream_from(
                            old(self).lexer.bytes@,
                            old(self).lexer.cur as int,
                            old(self).prev_kind,
                        ));
                        assert(self.upcoming() =~= spec_stream_from(
                            self.lexer.bytes@,
                            self.lexer.cur as int,
                            self.prev_kind,
                        ));
                    }
                    None
                },
            }
        }
    }

    /// Peeks forward a specified number of tokens, 1-indexed: `peek_at(1)`
    /// is the next token the stream will yield.
    #[verifier::loop_isolation(false)]
    #[verifier::rlimit(100)]
    #[verifier::spinoff_prover]
    pub fn peek_at(&mut self, forward: usize) -> (r: Option<Token>)
        requires
            old(self).wf(),
            forward >= 1,
        ensures
            final(self).wf(),
            final(self).measure() <= old(self).measure(),
            final(self).delivered_kind == old(self).delivered_kind,
            final(self).last_loc == old(self).last_loc,
            final(self).lexer.bytes@ == old(self).lexer.bytes@,
            final(self).upcoming() == old(self).upcoming(),
            final(self).start_cur == old(self).start_cur,
            match r {
                Some(t) => t.wf() && forward - 1 < old(self).upcoming().len() && t.model() == old(
                    self,
                ).upcoming()[forward - 1],
                None => old(self).upcoming().len() < forward && (final(self).lex_error is None
                    ==> spec_lex_ok(final(self).lexer.bytes@, final(self).lexer.cur as int)),
            },
    {
        proof {
            reveal(TokenStream::wf);
        }
        let ghost s0 = *self;
        while self.peeked.len() < forward
            invariant
                self.wf(),
                self.measure() <= s0.measure(),
                self.delivered_kind == s0.delivered_kind,
                self.last_loc == s0.last_loc,
                self.lexer.bytes@ == s0.lexer.bytes@,
                self.upcoming() == s0.upcoming(),
                self.start_cur == s0.start_cur,
            decreases forward - self.peeked.len(),
        {
            let ghost chain_pre = self.chain();
            let ghost q_pre = self.peeked@;
            let ghost up_pre = self.upcoming();
            let ghost lex_pre = spec_stream_from(
                self.lexer.bytes@,
                self.lexer.cur as int,
                self.prev_kind,
            );
            match self.pull() {
                Some(t) => {
                    self.peeked.push(t);
                    proof {
                        let qk1 = self.queue_kinds();
                        assert(qk1 =~= q_pre.map_values(|x: Token| x.kind).push(t.kind));
                        assert(self.chain() =~= chain_pre.push(t.kind));
                        if t.kind == TokenType::Newline && chain_pre.len() > 0 {
                            if q_pre.len() > 0 {
                                assert(chain_pre.last() == q_pre.last().kind);
                            }
                            assert(chain_pre.last() != TokenType::Newline);
                        }
                        assert(no_adjacent_newlines(self.chain()));
                        assert forall|i: int|
                            0 <= i < self.peeked@.len() implies (#[trigger] self.peeked@[i]).wf()
                        by {
                            if i < q_pre.len() {
                                assert(self.peeked@[i] == q_pre[i]);
                            }
                        }
                        assert(self.peeked@.map_values(|x: Token| x.model()) =~= q_pre.map_values(
                            |x: Token| x.model(),
                        ).push(t.model()));
                        assert(self.upcoming() =~= up_pre);
                    }
                },
                None => {
                    proof {
                        assert(self.upcoming() =~= self.peeked@.map_values(
                            |x: Token| x.model(),
                        ));
                        assert(self.upcoming().len() == self.peeked@.len());
                    }
                    return None;
                },
            }
        }
        let t = &self.peeked[forward - 1];
        proof {
            assert(self.upcoming()[forward - 1] == self.peeked@[forward - 1].model());
        }
        Some(clone_token(t))
    }

    /// Returns the next token that will be yielded, without consuming it.
    pub fn peek(&mut self) -> (r: Option<Token>)
        requires
            old(self).wf(),
        ensures
            final(self).wf(),
            final(self).measure() <= old(self).measure(),
            final(self).delivered_kind == old(self).delivered_kind,
            final(self).last_loc == old(self).last_loc,
            final(self).lexer.bytes@ == old(self).lexer.bytes@,
            final(self).upcoming() == old(self).upcoming(),
            final(self).start_cur == old(self).start_cur,
            match r {
                Some(t) => t.wf() && old(self).upcoming().len() > 0 && t.model() == old(
                    self,
                ).upcoming().first(),
                None => old(self).upcoming().len() == 0 && (final(self).lex_error is None
                    ==> spec_lex_ok(final(self).lexer.bytes@, final(self).lexer.cur as int)),
            },
    {
        self.peek_at(1)
    }

    /// The kind of the next token, without consuming it.
    pub fn peek_type(&mut self) -> (r: Option<TokenType>)
        requires
            old(self).wf(),
        ensures
            final(self).wf(),
            final(self).measure() <= old(self).measure(),
            final(self).delivered_kind == old(self).delivered_kind,
            final(self).last_loc == old(self).last_loc,
            final(self).lexer.bytes@ == old(self).lexer.bytes@,
            final(self).upcoming() == old(self).upcoming(),
            final(self).start_cur == old(self).start_cur,
            r == (if old(self).upcoming().len() > 0 {
                Some(old(self).upcoming().first().kind)
            } else {
                None::<TokenType>
            }),
            (old(self).upcoming().len() == 0 && final(self).lex_error is None) ==> spec_lex_ok(
                final(self).lexer.bytes@,
                final(self).lexer.cur as int,
            ),
    {
        match self.peek() {
            Some(t) => Some(t.kind()),
            None => None,
        }
    }

    /// The kind of the token `forward` positions ahead, 1-indexed.
    pub fn peek_type_at(&mut self, forward: usize) -> (r: Option<TokenType>)
        requires
            old(self).wf(),
            forward >= 1,
        ensures
            final(self).wf(),
            final(self).measure() <= old(self).measure(),
            final(self).delivered_kind == old(self).delivered_kind,
            final(self).last_loc == old(self).last_loc,
            final(self).lexer.bytes@ == old(self).lexer.bytes@,
            final(self).upcoming() == old(self).upcoming(),
            final(self).start_cur == old(self).start_cur,
            r == (if forward - 1 < old(self).upcoming().len() {
                Some(old(self).upcoming()[forward - 1].kind)
            } else {
                None::<TokenType>
            }),
    {
        match self.peek_at(forward) {
            Some(t) => Some(t.kind()),
            None => None,
        }
    }

    /// A copy of the lexer contained within this `TokenStream`.
    pub fn lexer(&self) -> (l: Lexer)
        ensures
            l.bytes@ == self.lexer.bytes@,
            l.cur == self.lexer.cur,
    {
        Lexer {
            bytes: Span::new(0, self.lexer.bytes.len()).as_str(&self.lexer.bytes),
            cur: self.lexer.cur,
        }
    }

    /// The last in-bounds offset of the source, where end-of-input
    /// diagnostics point.
    pub fn src_end(&self) -> (r: usize)
        ensures
            (Span { start: r, len: 0 }) == spec_src_end(self.lexer.bytes@),
    {
        let n = self.lexer.bytes.len();
        if n > 0 {
            n - 1
        } else {
            0
        }
    }
}

/// A copy of a token: same kind, start and bytes.
pub fn clone_token(t: &Token) -> (r: Token)
    ensures
        r.kind == t.kind,
        r.start == t.start,
        r.bytes@ == t.bytes@,
        r.model() == t.model(),
{
    let bytes = Span::new(0, t.bytes.len()).as_str(&t.bytes);
    proof {
        assert(t.bytes@.subrange(0, t.bytes@.len() as int) =~= t.bytes@);
    }
    Token { kind: t.kind, start: t.start, bytes }
}

/// The join of two spans: from the smaller start to the larger end.
pub open spec fn spec_join(a: Span, b: Span) -> Span {
    let start = if a.start <= b.start {
        a.start as int
    } else {
        b.start as int
    };
    let end = if a.start + a.len >= b.start + b.len {
        a.start + a.len
    } else {
        b.start + b.len
    };
    Span { start: start as usize, len: (end - start) as usize }
}

/// The span-synthesis rule for a grammar rule that consumed the first `n`
/// upcoming tokens: a zero-length span at the starting position when the
/// position did not move, else the join of the first and last consumed
/// tokens' spans.
pub open spec fn spec_rule_span(toks: Seq<TokenModel>, n: int) -> Span {
    let start = if toks.len() > 0 {
        tok_span(toks[0])
    } else {
        Span { start: 0, len: 0 }
    };
    let next = if n < toks.len() {
        tok_span(toks[n])
    } else {
        Span { start: 0, len: 0 }
    };
    if start == next {
        Span { start: start.start, len: 0 }
    } else {
        spec_join(
            start,
            if n > 0 {
                tok_span(toks[n - 1])
            } else {
                Span { start: 0, len: 0 }
            },
        )
    }
}

/// The stream after a rule that consumed exactly the first `n` upcoming
/// tokens: what remains is the rest, and the last delivered token is the
/// `n`-th.
pub open spec fn consumed_exactly(pre: TokenStream, post: TokenStream, n: int) -> bool {
    &&& 1 <= n <= pre.upcoming().len()
    &&& post.upcoming() == pre.upcoming().skip(n)
    &&& post.last_loc == Some(tok_span(pre.upcoming()[n - 1]))
    &&& stream_progress(pre, post)
}

/// The stream after a successful parse step: still well formed, over the
/// same source, and strictly nearer the end of input.
pub open spec fn stream_progress(pre: TokenStream, post: TokenStream) -> bool {
    &&& post.wf()
    &&& post.measure() < pre.measure()
    &&& post.lexer.bytes@ == pre.lexer.bytes@
    &&& post.start_cur == pre.start_cur
}

/// The stream after a failed parse step: still well formed, over the same
/// source, and no further from the end of input.
pub open spec fn stream_intact(pre: TokenStream, post: TokenStream) -> bool {
    &&& post.wf()
    &&& post.measure() <= pre.measure()
    &&& post.lexer.bytes@ == pre.lexer.bytes@
    &&& post.start_cur == pre.start_cur
}

/// The offset end-of-input diagnostics point at: the last in-bounds byte.
pub open spec fn spec_src_end(bytes: Seq<u8>) -> Span {
    if bytes.len() > 0 {
        Span { start: (bytes.len() - 1) as usize, len: 0 }
    } else {
        Span { start: 0, len: 0 }
    }
}

/// Consumes one token and checks that it has the expected kind. A mismatch
/// produces an unexpected-token error at the offending token; the end of
/// input produces a missing-token error at the last byte of the source.
pub fn expect_token(ts: &mut TokenStream, expected: TokenType) -> (r: Result<Token, Diagnostic>)
    requires
        old(ts).wf(),
    ensures
        ({
            let toks = old(ts).upcoming();
            match r {
                Ok(t) => toks.len() > 0 && toks.first().kind == expected && t.model()
                    == toks.first() && t.kind == expected && t.wf() && consumed_exactly(
                    *old(ts),
                    *final(ts),
                    1,
                ),
                Err(d) => d.is_error() && !(toks.len() > 0 && toks.first().kind == expected)
                    && stream_intact(*old(ts), *final(ts)) && final(ts).upcoming() == (
                if toks.len() > 0 {
                    toks.drop_first()
                } else {
                    toks
                }) && d.sig() == (if toks.len() > 0 {
                    DiagSig {
                        kind: DiagKind::UnexpectedToken,
                        severity: Severity::Error,
                        spans: seq![tok_span(toks.first())],
                    }
                } else {
                    DiagSig {
                        kind: DiagKind::MissingToken,
                        severity: Severity::Error,
                        spans: seq![spec_src_end(old(ts).lexer.bytes@)],
                    }
                }),
            }
        }),
{
    match ts.next() {
        Some(t) => {
            if t.kind() == expected {
                proof {
                    assert(old(ts).upcoming().skip(1) =~= old(ts).upcoming().drop_first());
                    assert(t.spec_loc() == tok_span(old(ts).upcoming()[0]));
                }
                Ok(t)
            } else {
                let mut label = msg("expected: ");
                msg_append(&mut label, &msg(expected.name()));
                msg_append(&mut label, &msg(", found: "));
                msg_append(&mut label, &msg(t.kind().name()));
                Err(Diagnostic::new1(
                    DiagKind::UnexpectedToken,
                    Severity::Error,
                    msg("Unexpected token found"),
                    label,
                    t.loc(),
                ))
            }
        },
        None => {
            proof {
                assert(final(ts).upcoming() =~= old(ts).upcoming());
            }
            let mut label = msg("expected: ");
            msg_append(&mut label, &msg(expected.name()));
            Err(Diagnostic::new1(
                DiagKind::MissingToken,
                Severity::Error,
                msg("Missing expected token"),
                label,
                Span::new(ts.src_end(), 0),
            ))
        },
    }
}

/// The span of the next unconsumed token, where a rule's span starts.
fn span_begin(ts: &mut TokenStream) -> (s: Span)
    requires
        old(ts).wf(),
    ensures
        stream_intact(*old(ts), *final(ts)),
        final(ts).delivered_kind == old(ts).delivered_kind,
        final(ts).last_loc == old(ts).last_loc,
        final(ts).upcoming() == old(ts).upcoming(),
        s.wf(),
        s == (if old(ts).upcoming().len() > 0 {
            tok_span(old(ts).upcoming().first())
        } else {
            Span { start: 0, len: 0 }
        }),
{
    match ts.peek() {
        Some(t) => {
            let s = t.loc();
            proof {
                assert(s.start + s.len <= usize::MAX);
            }
            s
        },
        None => Span::new(0, 0),
    }
}

/// The span of a just-finished rule: from its first consumed token to its
/// last, or a zero-length span where the rule consumed nothing.
/// The span `span_close` synthesizes from the rule's start span, the last
/// delivered token's span and the next unconsumed token.
pub open spec fn spec_close_span(start: Span, last: Option<Span>, up: Seq<TokenModel>) -> Span {
    let end = match last {
        Some(sp) => sp,
        None => Span { start: 0, len: 0 },
    };
    let next = if up.len() > 0 {
        tok_span(up.first())
    } else {
        Span { start: 0, len: 0 }
    };
    if start == next {
        Span { start: start.start, len: 0 }
    } else {
        spec_join(start, end)
    }
}

fn span_close(ts: &mut TokenStream, start: Span) -> (s: Span)
    requires
        old(ts).wf(),
        start.wf(),
    ensures
        stream_intact(*old(ts), *final(ts)),
        final(ts).delivered_kind == old(ts).delivered_kind,
        final(ts).last_loc == old(ts).last_loc,
        final(ts).upcoming() == old(ts).upcoming(),
        s.wf(),
        s == spec_close_span(start, old(ts).last_loc, old(ts).upcoming()),
{
    proof {
        reveal(TokenStream::wf);
    }
    let end = match ts.last_loc {
        Some(sp) => sp,
        None => Span::new(0, 0),
    };
    let next = match ts.peek() {
        Some(t) => {
            let s = t.loc();
            proof {
                assert(s.start + s.len <= usize::MAX);
            }
            s
        },
        None => Span::new(0, 0),
    };
    if start == next {
        // No tokens were consumed.
        Span::new(start.start(), 0)
    } else {
        start.join(end)
    }
}

// --- Spec-level grammar rules -------------------------------------------

/// Grammar: one string literal; its value is the text without the quotes.
/// `Some((v, n))` means the upcoming tokens match, spelling `v`, with the
/// first `n` consumed.
pub open spec fn spec_parse_string(toks: Seq<TokenModel>) -> Option<(Seq<u8>, int)> {
    if toks.len() > 0 && toks[0].kind == TokenType::StringLit && toks[0].bytes.len() >= 2 {
        Some((toks[0].bytes.subrange(1, toks[0].bytes.len() - 1), 1))
    } else {
        None
    }
}

/// Grammar: one integer literal whose decimal value fits in `usize`.
pub open spec fn spec_parse_integer(toks: Seq<TokenModel>) -> Option<(usize, int)> {
    if toks.len() > 0 && toks[0].kind == TokenType::IntLit && toks[0].bytes.len() > 0
        && all_digits(toks[0].bytes) && spec_digits_value(toks[0].bytes) <= usize::MAX {
        Some(((spec_digits_value(toks[0].bytes) as usize), 1))
    } else {
        None
    }
}

/// Grammar: one behavior keyword.
pub open spec fn spec_parse_behavior(toks: Seq<TokenModel>) -> Option<(Behavior, int)> {
    if toks.len() > 0 && toks[0].kind == TokenType::Capture {
        Some((Behavior::Capture, 1))
    } else if toks.len() > 0 && toks[0].kind == TokenType::Release {
        Some((Behavior::Release, 1))
    } else if toks.len() > 0 && toks[0].kind == TokenType::Wait {
        Some((Behavior::Wait, 1))
    } else {
        None
    }
}

/// Grammar: one key name, written as an identifier, a quoted string or an
/// integer literal, matched case-insensitively against the key table.
pub open spec fn spec_parse_key_ident(toks: Seq<TokenModel>) -> Option<(KeyIdent, int)> {
    if toks.len() > 0 && toks[0].kind == TokenType::StringLit {
        if toks[0].bytes.len() >= 2 {
            match crate::ast::key::spec_key_of(
                toks[0].bytes.subrange(1, toks[0].bytes.len() - 1),
            ) {
                Some(k) => Some((k, 1)),
                None => None,
            }
        } else {
            None
        }
    } else if toks.len() > 0 && toks[0].kind == TokenType::IntLit {
        match crate::ast::key::spec_key_of(toks[0].bytes) {
            Some(k) => Some((k, 1)),
            None => None,
        }
    } else if toks.len() > 0 && toks[0].kind == TokenType::Variable {
        match crate::ast::key::spec_key_of(toks[0].bytes) {
            Some(k) => Some((k, 1)),
            None => None,
        }
    } else {
        None
    }
}

/// Grammar: a key with an optional `^` or `_` marker.
pub open spec fn spec_parse_key(toks: Seq<TokenModel>) -> Option<(Key, int)> {
    if toks.len() > 0 && toks[0].kind == TokenType::Caret {
        match spec_parse_key_ident(toks.skip(1)) {
            Some((k, n)) => Some(
                (
                    Key::Up(Spanned { value: k, span: spec_rule_span(toks.skip(1), n) }),
                    n + 1,
                ),
            ),
            None => None,
        }
    } else if toks.len() > 0 && toks[0].kind == TokenType::Underscore {
        match spec_parse_key_ident(toks.skip(1)) {
            Some((k, n)) => Some(
                (
                    Key::Down(Spanned { value: k, span: spec_rule_span(toks.skip(1), n) }),
                    n + 1,
                ),
            ),
            None => None,
        }
    } else {
        match spec_parse_key_ident(toks) {
            Some((k, n)) => Some(
                (Key::Unspecified(Spanned { value: k, span: spec_rule_span(toks, n) }), n),
            ),
            None => None,
        }
    }
}

/// Grammar: the optional trailing arguments of a composite trigger, up to
/// and including the closing parenthesis: `)`, `, behavior )` or
/// `, behavior , timeout )`. A single optional argument is always the
/// behavior, never the timeout.
pub open spec fn spec_parse_opt_args(toks: Seq<TokenModel>) -> Option<
    ((Option<Spanned<Behavior>>, Option<Spanned<usize>>), int),
> {
    if toks.len() > 0 && toks[0].kind == TokenType::RParen {
        Some(((None, None), 1))
    } else if toks.len() > 0 && toks[0].kind == TokenType::Comma {
        match spec_parse_behavior(toks.skip(1)) {
            Some((b, nb)) => {
                let sb = Spanned { value: b, span: spec_rule_span(toks.skip(1), nb) };
                let rest = toks.skip(1 + nb);
                if rest.len() > 0 && rest[0].kind == TokenType::RParen {
                    Some(((Some(sb), None), 1 + nb + 1))
                } else if rest.len() > 0 && rest[0].kind == TokenType::Comma {
                    match spec_parse_integer(rest.skip(1)) {
                        Some((t, nt)) => {
                            let st = Spanned {
                                value: t,
                                span: spec_rule_span(rest.skip(1), nt),
                            };
                            let rest2 = rest.skip(1 + nt);
                            if rest2.len() > 0 && rest2[0].kind == TokenType::RParen {
                                Some(((Some(sb), Some(st)), 1 + nb + 1 + nt + 1))
                            } else {
                                None
                            }
                        },
                        None => None,
                    }
                } else {
                    None
                }
            },
            None => None,
        }
    } else {
        None
    }
}

/// Grammar: the comma-separated key names after an opening bracket,
/// accumulated onto `acc`: each item is followed by a comma or ends the
/// list; the terminating token is left in place.
pub open spec fn spec_key_ident_items_from(
    acc: Seq<Spanned<KeyIdent>>,
    toks: Seq<TokenModel>,
) -> Option<(Seq<Spanned<KeyIdent>>, Seq<TokenModel>)>
    decreases toks.len(),
{
    match spec_parse_key_ident(toks) {
        Some((k, n)) => {
            let acc2 = acc.push(Spanned { value: k, span: spec_rule_span(toks, n) });
            let rest = toks.skip(n);
            if rest.len() > 0 && rest[0].kind == TokenType::Comma {
                spec_key_ident_items_from(acc2, rest.skip(1))
            } else {
                Some((acc2, rest))
            }
        },
        None => None,
    }
}

/// Grammar: a bracketed `[k, k, ...]` list of key names, possibly empty,
/// consuming through the closing bracket.
pub open spec fn spec_parse_key_ident_list(toks: Seq<TokenModel>) -> Option<
    (Seq<Spanned<KeyIdent>>, Seq<TokenModel>),
> {
    if toks.len() > 0 && toks[0].kind == TokenType::LSquare {
        let after = toks.skip(1);
        if after.len() > 0 && after[0].kind == TokenType::RSquare {
            Some((Seq::empty(), after.skip(1)))
        } else {
            match spec_key_ident_items_from(Seq::empty(), after) {
                Some((items, rest)) => if rest.len() > 0 && rest[0].kind == TokenType::RSquare {
                    Some((items, rest.skip(1)))
                } else {
                    None
                },
                None => None,
            }
        }
    } else {
        None
    }
}

/// Grammar: the comma-separated marked keys after an opening bracket,
/// accumulated onto `acc`.
pub open spec fn spec_key_items_from(
    acc: Seq<Spanned<Key>>,
    toks: Seq<TokenModel>,
) -> Option<(Seq<Spanned<Key>>, Seq<TokenModel>)>
    decreases toks.len(),
{
    match spec_parse_key(toks) {
        Some((k, n)) => {
            let acc2 = acc.push(Spanned { value: k, span: spec_rule_span(toks, n) });
            let rest = toks.skip(n);
            if rest.len() > 0 && rest[0].kind == TokenType::Comma {
                spec_key_items_from(acc2, rest.skip(1))
            } else {
                Some((acc2, rest))
            }
        },
        None => None,
    }
}

/// Grammar: a bracketed `[k, k, ...]` list of marked keys, possibly empty,
/// consuming through the closing bracket.
pub open spec fn spec_parse_key_list(toks: Seq<TokenModel>) -> Option<
    (Seq<Spanned<Key>>, Seq<TokenModel>),
> {
    if toks.len() > 0 && toks[0].kind == TokenType::LSquare {
        let after = toks.skip(1);
        if after.len() > 0 && after[0].kind == TokenType::RSquare {
            Some((Seq::empty(), after.skip(1)))
        } else {
            match spec_key_items_from(Seq::empty(), after) {
                Some((items, rest)) => if rest.len() > 0 && rest[0].kind == TokenType::RSquare {
                    Some((items, rest.skip(1)))
                } else {
                    None
                },
                None => None,
            }
        }
    } else {
        None
    }
}

/// The model of a parsed bind: names as byte sequences with their spans.
#[verifier::ext_equal]
pub enum BindM {
    Key(Spanned<Key>),
    NoOp,
    ChangeLayer(Seq<u8>, Span),
    Run(Seq<u8>, Span, Seq<u8>, Span),
    OpenApp(Seq<u8>, Span),
}

/// The model of a bind value.
pub open spec fn bind_model(b: Bind) -> BindM {
    match b {
        Bind::Key(k) => BindM::Key(k),
        Bind::NoOp => BindM::NoOp,
        Bind::ChangeLayer(nm) => BindM::ChangeLayer(nm.value@, nm.span),
        Bind::Run { interpreter, script } => BindM::Run(
            interpreter.value@,
            interpreter.span,
            script.value@,
            script.span,
        ),
        Bind::OpenApp(nm) => BindM::OpenApp(nm.value@, nm.span),
    }
}

/// Grammar: the right side of a statement: a key, `none`, `layer("name")`,
/// `run("interpreter", "script")` or `open_app("name")`.
pub open spec fn spec_parse_bind(toks: Seq<TokenModel>) -> Option<(BindM, int)> {
    if toks.len() == 0 {
        None
    } else if toks[0].kind == TokenType::Variable || toks[0].kind == TokenType::StringLit
        || toks[0].kind == TokenType::Caret || toks[0].kind == TokenType::Underscore {
        match spec_parse_key(toks) {
            Some((k, n)) => Some(
                (BindM::Key(Spanned { value: k, span: spec_rule_span(toks, n) }), n),
            ),
            None => None,
        }
    } else if toks[0].kind == TokenType::NoneKw {
        Some((BindM::NoOp, 1))
    } else if toks[0].kind == TokenType::Layer {
        if toks.len() > 1 && toks[1].kind == TokenType::LParen {
            match spec_parse_string(toks.skip(2)) {
                Some((nm, n)) => {
                    let rest = toks.skip(2 + n);
                    if rest.len() > 0 && rest[0].kind == TokenType::RParen {
                        Some(
                            (
                                BindM::ChangeLayer(nm, spec_rule_span(toks.skip(2), n)),
                                2 + n + 1,
                            ),
                        )
                    } else {
                        None
                    }
                },
                None => None,
            }
        } else {
            None
        }
    } else if toks[0].kind == TokenType::Run {
        if toks.len() > 1 && toks[1].kind == TokenType::LParen {
            match spec_parse_string(toks.skip(2)) {
                Some((interp, n1)) => {
                    let rest1 = toks.skip(2 + n1);
                    if rest1.len() > 0 && rest1[0].kind == TokenType::Comma {
                        match spec_parse_string(rest1.skip(1)) {
                            Some((script, n2)) => {
                                let rest2 = rest1.skip(1 + n2);
                                if rest2.len() > 0 && rest2[0].kind == TokenType::RParen {
                                    Some(
                                        (
                                            BindM::Run(
                                                interp,
                                                spec_rule_span(toks.skip(2), n1),
                                                script,
                                                spec_rule_span(rest1.skip(1), n2),
                                            ),
                                            2 + n1 + 1 + n2 + 1,
                                        ),
                                    )
                                } else {
                                    None
                                }
                            },
                            None => None,
                        }
                    } else {
                        None
                    }
                },
                None => None,
            }
        } else {
            None
        }
    } else if toks[0].kind == TokenType::OpenApp {
        if toks.len() > 1 && toks[1].kind == TokenType::LParen {
            match spec_parse_string(toks.skip(2)) {
                Some((nm, n)) => {
                    let rest = toks.skip(2 + n);
                    if rest.len() > 0 && rest[0].kind == TokenType::RParen {
                        Some(
                            (BindM::OpenApp(nm, spec_rule_span(toks.skip(2), n)), 2 + n + 1),
                        )
                    } else {
                        None
                    }
                },
                None => None,
            }
        } else {
            None
        }
    } else {
        None
    }
}

/// Grammar: the comma-separated binds after an opening bracket,
/// accumulated onto `acc`.
pub open spec fn spec_bind_items_from(
    acc: Seq<BindM>,
    toks: Seq<TokenModel>,
) -> Option<(Seq<BindM>, Seq<TokenModel>)>
    decreases toks.len(),
    via spec_bind_items_from_decreases
{
    match spec_parse_bind(toks) {
        Some((b, n)) => {
            let acc2 = acc.push(b);
            let rest = toks.skip(n);
            if rest.len() > 0 && rest[0].kind == TokenType::Comma {
                spec_bind_items_from(acc2, rest.skip(1))
            } else {
                Some((acc2, rest))
            }
        },
        None => None,
    }
}

#[via_fn]
proof fn spec_bind_items_from_decreases(acc: Seq<BindM>, toks: Seq<TokenModel>) {
    match spec_parse_bind(toks) {
        Some((b, n)) => {
            assert(1 <= n <= toks.len());
        },
        None => {},
    }
}

/// Grammar: a bracketed `[bind, bind, ...]` list, possibly empty,
/// consuming through the closing bracket.
pub open spec fn spec_parse_bind_list(toks: Seq<TokenModel>) -> Option<
    (Seq<BindM>, Seq<TokenModel>),
> {
    if toks.len() > 0 && toks[0].kind == TokenType::LSquare {
        let after = toks.skip(1);
        if after.len() > 0 && after[0].kind == TokenType::RSquare {
            Some((Seq::empty(), after.skip(1)))
        } else {
            match spec_bind_items_from(Seq::empty(), after) {
                Some((items, rest)) => if rest.len() > 0 && rest[0].kind == TokenType::RSquare {
                    Some((items, rest.skip(1)))
                } else {
                    None
                },
                None => None,
            }
        }
    } else {
        None
    }
}

/// The model of a parsed trigger: names as byte sequences, key lists as
/// sequences.
#[verifier::ext_equal]
pub enum TriggerM {
    Key(Spanned<Key>),
    AppFocused(Seq<u8>, Span),
    Chord(Seq<Spanned<KeyIdent>>, Option<Spanned<Behavior>>, Option<Spanned<usize>>),
    Sequence(Seq<Spanned<KeyIdent>>, Option<Spanned<Behavior>>, Option<Spanned<usize>>),
    Tap(Spanned<KeyIdent>, Option<Spanned<Behavior>>, Option<Spanned<usize>>),
    Hold(Spanned<KeyIdent>, Option<Spanned<Behavior>>, Option<Spanned<usize>>),
    Combo(Seq<Spanned<Key>>, Option<Spanned<Behavior>>, Option<Spanned<usize>>),
}

/// The model of a trigger value.
pub open spec fn trigger_model(t: Trigger) -> TriggerM {
    match t {
        Trigger::Key(k) => TriggerM::Key(k),
        Trigger::AppFocused(nm) => TriggerM::AppFocused(nm.value@, nm.span),
        Trigger::Chord(keys, b, to) => TriggerM::Chord(keys@, b, to),
        Trigger::Sequence(keys, b, to) => TriggerM::Sequence(keys@, b, to),
        Trigger::Tap(k, b, to) => TriggerM::Tap(k, b, to),
        Trigger::Hold(k, b, to) => TriggerM::Hold(k, b, to),
        Trigger::Combo(keys, b, to) => TriggerM::Combo(keys@, b, to),
    }
}

/// Grammar: the left side of a statement: a key, `app_focused("name")`, or
/// one of the five timed composite forms with their optional trailing
/// arguments. `Some((v, rest))` means the upcoming tokens start with the
/// production, spelling `v`, with `rest` left unconsumed.
pub open spec fn spec_parse_trigger(toks: Seq<TokenModel>) -> Option<(TriggerM, Seq<TokenModel>)> {
    if toks.len() == 0 {
        None
    } else if toks[0].kind == TokenType::Variable || toks[0].kind == TokenType::StringLit
        || toks[0].kind == TokenType::IntLit || toks[0].kind == TokenType::Caret || toks[0].kind
        == TokenType::Underscore {
        match spec_parse_key(toks) {
            Some((k, n)) => Some(
                (
                    TriggerM::Key(Spanned { value: k, span: spec_rule_span(toks, n) }),
                    toks.skip(n),
                ),
            ),
            None => None,
        }
    } else if toks[0].kind == TokenType::AppFocused {
        if toks.len() > 1 && toks[1].kind == TokenType::LParen {
            match spec_parse_string(toks.skip(2)) {
                Some((nm, n)) => {
                    let rest = toks.skip(2 + n);
                    if rest.len() > 0 && rest[0].kind == TokenType::RParen {
                        Some(
                            (
                                TriggerM::AppFocused(nm, spec_rule_span(toks.skip(2), n)),
                                rest.skip(1),
                            ),
                        )
                    } else {
                        None
                    }
                },
                None => None,
            }
        } else {
            None
        }
    } else if toks[0].kind == TokenType::Chord || toks[0].kind == TokenType::Sequence {
        if toks.len() > 1 && toks[1].kind == TokenType::LParen {
            match spec_parse_key_ident_list(toks.skip(2)) {
                Some((keys, rest)) => match spec_parse_opt_args(rest) {
                    Some(((b, to), m)) => if toks[0].kind == TokenType::Chord {
                        Some((TriggerM::Chord(keys, b, to), rest.skip(m)))
                    } else {
                        Some((TriggerM::Sequence(keys, b, to), rest.skip(m)))
                    },
                    None => None,
                },
                None => None,
            }
        } else {
            None
        }
    } else if toks[0].kind == TokenType::Tap || toks[0].kind == TokenType::Hold {
        if toks.len() > 1 && toks[1].kind == TokenType::LParen {
            match spec_parse_key_ident(toks.skip(2)) {
                Some((k, n)) => {
                    let key = Spanned { value: k, span: spec_rule_span(toks.skip(2), n) };
                    let rest = toks.skip(2 + n);
                    match spec_parse_opt_args(rest) {
                        Some(((b, to), m)) => if toks[0].kind == TokenType::Tap {
                            Some((TriggerM::Tap(key, b, to), rest.skip(m)))
                        } else {
                            Some((TriggerM::Hold(key, b, to), rest.skip(m)))
                        },
                        None => None,
                    }
                },
                None => None,
            }
        } else {
            None
        }
    } else if toks[0].kind == TokenType::Combo {
        if toks.len() > 1 && toks[1].kind == TokenType::LParen {
            match spec_parse_key_list(toks.skip(2)) {
                Some((keys, rest)) => match spec_parse_opt_args(rest) {
                    Some(((b, to), m)) => Some((TriggerM::Combo(keys, b, to), rest.skip(m))),
                    None => None,
                },
                None => None,
            }
        } else {
            None
        }
    } else {
        None
    }
}

/// The model of a parsed statement: its trigger and the models of its
/// binds.
#[verifier::ext_equal]
pub struct StatementM {
    pub lhs: TriggerM,
    pub rhs: Seq<BindM>,
}

/// Grammar: one `trigger = bind` or `trigger = [bind, ...]` statement.
pub open spec fn spec_parse_statement(toks: Seq<TokenModel>) -> Option<
    (StatementM, Seq<TokenModel>),
> {
    match spec_parse_trigger(toks) {
        Some((tv, rest1)) => if rest1.len() > 0 && rest1[0].kind == TokenType::Equals {
            let rest2 = rest1.skip(1);
            if rest2.len() > 0 && rest2[0].kind == TokenType::LSquare {
                match spec_parse_bind_list(rest2) {
                    Some((bs, rest3)) => Some((StatementM { lhs: tv, rhs: bs }, rest3)),
                    None => None,
                }
            } else {
                match spec_parse_bind(rest2) {
                    Some((b, n)) => Some(
                        (StatementM { lhs: tv, rhs: seq![b] }, rest2.skip(n)),
                    ),
                    None => None,
                }
            }
        } else {
            None
        },
        None => None,
    }
}

/// The model of a configuration entry: its kind and plain value.
#[verifier::ext_equal]
pub enum ConfigEntryM {
    DefaultLayer(Seq<u8>),
    DefaultBehavior(Behavior),
    TapTimeout(usize),
    HoldTime(usize),
    ChordTimeout(usize),
    SequenceTimeout(usize),
    ComboTimeout(usize),
    Advanced(bool),
}

/// The model of a configuration entry value.
pub open spec fn config_entry_model(e: ConfigEntry) -> ConfigEntryM {
    match e {
        ConfigEntry::DefaultLayer(v) => ConfigEntryM::DefaultLayer(v.value@),
        ConfigEntry::DefaultBehavior(v) => ConfigEntryM::DefaultBehavior(v.value),
        ConfigEntry::TapTimeout(v) => ConfigEntryM::TapTimeout(v.value),
        ConfigEntry::HoldTime(v) => ConfigEntryM::HoldTime(v.value),
        ConfigEntry::ChordTimeout(v) => ConfigEntryM::ChordTimeout(v.value),
        ConfigEntry::SequenceTimeout(v) => ConfigEntryM::SequenceTimeout(v.value),
        ConfigEntry::ComboTimeout(v) => ConfigEntryM::ComboTimeout(v.value),
        ConfigEntry::Advanced(v) => ConfigEntryM::Advanced(v),
    }
}

/// Grammar: one `name = value` configuration entry: a known entry name, an
/// equals sign, and the value its kind asks for. Always three tokens.
pub open spec fn spec_parse_config_entry(toks: Seq<TokenModel>) -> Option<(ConfigEntryM, int)> {
    if toks.len() > 1 && toks[0].kind == TokenType::Variable && toks[1].kind == TokenType::Equals {
        let name = toks[0].bytes;
        if name == "default_layer".spec_bytes() {
            match spec_parse_string(toks.skip(2)) {
                Some((v, n)) => Some((ConfigEntryM::DefaultLayer(v), 2 + n)),
                None => None,
            }
        } else if name == "default_behavior".spec_bytes() {
            match spec_parse_behavior(toks.skip(2)) {
                Some((v, n)) => Some((ConfigEntryM::DefaultBehavior(v), 2 + n)),
                None => None,
            }
        } else if name == "tap_timeout".spec_bytes() {
            match spec_parse_integer(toks.skip(2)) {
                Some((v, n)) => Some((ConfigEntryM::TapTimeout(v), 2 + n)),
                None => None,
            }
        } else if name == "hold_time".spec_bytes() {
            match spec_parse_integer(toks.skip(2)) {
                Some((v, n)) => Some((ConfigEntryM::HoldTime(v), 2 + n)),
                None => None,
            }
        } else if name == "chord_timeout".spec_bytes() {
            match spec_parse_integer(toks.skip(2)) {
                Some((v, n)) => Some((ConfigEntryM::ChordTimeout(v), 2 + n)),
                None => None,
            }
        } else if name == "sequence_timeout".spec_bytes() {
            match spec_parse_integer(toks.skip(2)) {
                Some((v, n)) => Some((ConfigEntryM::SequenceTimeout(v), 2 + n)),
                None => None,
            }
        } else if name == "combo_timeout".spec_bytes() {
            match spec_parse_integer(toks.skip(2)) {
                Some((v, n)) => Some((ConfigEntryM::ComboTimeout(v), 2 + n)),
                None => None,
            }
        } else if name == "advanced".spec_bytes() {
            if toks.len() > 2 && toks[2].kind == TokenType::True {
                Some((ConfigEntryM::Advanced(true), 3))
            } else if toks.len() > 2 && toks[2].kind == TokenType::False {
                Some((ConfigEntryM::Advanced(false), 3))
            } else {
                None
            }
        } else {
            None
        }
    } else {
        None
    }
}

/// The model of a layer: its name and the models of its statements.
#[verifier::ext_equal]
pub struct LayerM {
    pub name: Seq<u8>,
    pub statements: Seq<StatementM>,
}

/// The model of a whole parsed profile.
#[verifier::ext_equal]
pub struct ProfileM {
    pub name: Seq<u8>,
    pub entries: Seq<ConfigEntryM>,
    pub layers: Seq<LayerM>,
}

/// The model of a layer value.
pub open spec fn layer_model(l: Layer) -> LayerM {
    LayerM {
        name: l.name.value@,
        statements: l.statements@.map_values(
            |s: Spanned<Statement>| StatementM {
                lhs: trigger_model(s.value.lhs.value),
                rhs: s.value.rhs@.map_values(|b: Spanned<Bind>| bind_model(b.value)),
            },
        ),
    }
}

/// The model of a profile value.
pub open spec fn profile_model(p: Profile) -> ProfileM {
    ProfileM {
        name: p.name.value@,
        entries: p.config.value.entries@.map_values(
            |e: Spanned<ConfigEntry>| config_entry_model(e.value),
        ),
        layers: p.layers@.map_values(|l: Spanned<Layer>| layer_model(l.value)),
    }
}

/// A parsed statement leaves a suffix of the tokens.
pub proof fn lemma_statement_bound(toks: Seq<TokenModel>)
    ensures
        match spec_parse_statement(toks) {
            Some((v, rest)) => rest.len() < toks.len(),
            None => true,
        },
{
    match spec_parse_trigger(toks) {
        Some((tv, rest1)) => {
            lemma_trigger_bound(toks);
            if rest1.len() > 0 && rest1[0].kind == TokenType::Equals {
                let rest2 = rest1.skip(1);
                if rest2.len() > 0 && rest2[0].kind == TokenType::LSquare {
                    lemma_bind_list_bound(rest2);
                } else {
                    match spec_parse_bind(rest2) {
                        Some((b, n)) => {
                            assert(1 <= n <= rest2.len());
                        },
                        None => {},
                    }
                }
            }
        },
        None => {},
    }
}

/// A parsed trigger leaves a strictly shorter suffix of the tokens.
pub proof fn lemma_trigger_bound(toks: Seq<TokenModel>)
    ensures
        match spec_parse_trigger(toks) {
            Some((v, rest)) => rest.len() < toks.len(),
            None => true,
        },
{
    if toks.len() == 0 {
    } else if toks[0].kind == TokenType::Variable || toks[0].kind == TokenType::StringLit
        || toks[0].kind == TokenType::IntLit || toks[0].kind == TokenType::Caret || toks[0].kind
        == TokenType::Underscore {
    } else if toks[0].kind == TokenType::AppFocused {
    } else if toks[0].kind == TokenType::Chord || toks[0].kind == TokenType::Sequence {
        if toks.len() > 1 && toks[1].kind == TokenType::LParen {
            lemma_key_ident_list_bound(toks.skip(2));
            match spec_parse_key_ident_list(toks.skip(2)) {
                Some((keys, rest)) => {
                    lemma_opt_args_bound(rest);
                },
                None => {},
            }
        }
    } else if toks[0].kind == TokenType::Tap || toks[0].kind == TokenType::Hold {
        if toks.len() > 1 && toks[1].kind == TokenType::LParen {
            match spec_parse_key_ident(toks.skip(2)) {
                Some((k, n)) => {
                    lemma_opt_args_bound(toks.skip(2 + n));
                },
                None => {},
            }
        }
    } else if toks[0].kind == TokenType::Combo {
        if toks.len() > 1 && toks[1].kind == TokenType::LParen {
            lemma_key_list_bound(toks.skip(2));
            match spec_parse_key_list(toks.skip(2)) {
                Some((keys, rest)) => {
                    lemma_opt_args_bound(rest);
                },
                None => {},
            }
        }
    }
}

/// The optional trailing arguments consume at least the closing parenthesis.
pub proof fn lemma_opt_args_bound(toks: Seq<TokenModel>)
    ensures
        match spec_parse_opt_args(toks) {
            Some((v, m)) => 1 <= m <= toks.len(),
            None => true,
        },
{
}

/// A parsed key-name list leaves a strictly shorter suffix.
pub proof fn lemma_key_ident_list_bound(toks: Seq<TokenModel>)
    ensures
        match spec_parse_key_ident_list(toks) {
            Some((v, rest)) => rest.len() < toks.len(),
            None => true,
        },
{
    if toks.len() > 0 && toks[0].kind == TokenType::LSquare {
        lemma_key_ident_items_bound(Seq::empty(), toks.skip(1));
    }
}

/// Accumulating key names always shortens the tokens.
pub proof fn lemma_key_ident_items_bound(acc: Seq<Spanned<KeyIdent>>, toks: Seq<TokenModel>)
    ensures
        match spec_key_ident_items_from(acc, toks) {
            Some((v, rest)) => rest.len() < toks.len(),
            None => true,
        },
    decreases toks.len(),
{
    match spec_parse_key_ident(toks) {
        Some((k, n)) => {
            let acc2 = acc.push(Spanned { value: k, span: spec_rule_span(toks, n) });
            let rest = toks.skip(n);
            if rest.len() > 0 && rest[0].kind == TokenType::Comma {
                lemma_key_ident_items_bound(acc2, rest.skip(1));
            }
        },
        None => {},
    }
}

/// A parsed marked-key list leaves a strictly shorter suffix.
pub proof fn lemma_key_list_bound(toks: Seq<TokenModel>)
    ensures
        match spec_parse_key_list(toks) {
            Some((v, rest)) => rest.len() < toks.len(),
            None => true,
        },
{
    if toks.len() > 0 && toks[0].kind == TokenType::LSquare {
        lemma_key_items_bound(Seq::empty(), toks.skip(1));
    }
}

/// Accumulating marked keys always shortens the tokens.
pub proof fn lemma_key_items_bound(acc: Seq<Spanned<Key>>, toks: Seq<TokenModel>)
    ensures
        match spec_key_items_from(acc, toks) {
            Some((v, rest)) => rest.len() < toks.len(),
            None => true,
        },
    decreases toks.len(),
{
    match spec_parse_key(toks) {
        Some((k, n)) => {
            let acc2 = acc.push(Spanned { value: k, span: spec_rule_span(toks, n) });
            let rest = toks.skip(n);
            if rest.len() > 0 && rest[0].kind == TokenType::Comma {
                lemma_key_items_bound(acc2, rest.skip(1));
            }
        },
        None => {},
    }
}

/// A parsed bind list leaves a strictly shorter suffix.
pub proof fn lemma_bind_list_bound(toks: Seq<TokenModel>)
    ensures
        match spec_parse_bind_list(toks) {
            Some((v, rest)) => rest.len() < toks.len(),
            None => true,
        },
{
    if toks.len() > 0 && toks[0].kind == TokenType::LSquare {
        lemma_bind_items_bound(Seq::empty(), toks.skip(1));
    }
}

/// Accumulating binds always shortens the tokens.
pub proof fn lemma_bind_items_bound(acc: Seq<BindM>, toks: Seq<TokenModel>)
    ensures
        match spec_bind_items_from(acc, toks) {
            Some((v, rest)) => rest.len() < toks.len(),
            None => true,
        },
    decreases toks.len(),
{
    match spec_parse_bind(toks) {
        Some((b, n)) => {
            assert(1 <= n <= toks.len());
            let acc2 = acc.push(b);
            let rest = toks.skip(n);
            if rest.len() > 0 && rest[0].kind == TokenType::Comma {
                lemma_bind_items_bound(acc2, rest.skip(1));
            }
        },
        None => {},
    }
}

/// Grammar: the entry lines of a configuration block, accumulated onto
/// `acc`: one entry and one newline per line, until the closing brace
/// (left in place).
pub open spec fn spec_config_entries_from(
    acc: Seq<ConfigEntryM>,
    toks: Seq<TokenModel>,
) -> Option<(Seq<ConfigEntryM>, Seq<TokenModel>)>
    decreases toks.len(),
{
    if toks.len() > 0 && toks[0].kind == TokenType::RCurly {
        Some((acc, toks))
    } else {
        match spec_parse_config_entry(toks) {
            Some((e, n)) => {
                let rest = toks.skip(n);
                if rest.len() > 0 && rest[0].kind == TokenType::Newline {
                    spec_config_entries_from(acc.push(e), rest.skip(1))
                } else {
                    None
                }
            },
            None => None,
        }
    }
}

/// Grammar: the `config { ... }` block, consuming through the closing
/// brace.
pub open spec fn spec_parse_config(toks: Seq<TokenModel>) -> Option<
    (Seq<ConfigEntryM>, Seq<TokenModel>),
> {
    if toks.len() > 2 && toks[0].kind == TokenType::Config && toks[1].kind == TokenType::LCurly
        && toks[2].kind == TokenType::Newline {
        match spec_config_entries_from(Seq::empty(), toks.skip(3)) {
            Some((entries, rest)) => if rest.len() > 0 && rest[0].kind == TokenType::RCurly {
                Some((entries, rest.skip(1)))
            } else {
                None
            },
            None => None,
        }
    } else {
        None
    }
}

/// Grammar: the statement lines of a layer block, accumulated onto `acc`:
/// one statement and one newline per line, until the closing brace (left
/// in place).
pub open spec fn spec_layer_stmts_from(
    acc: Seq<StatementM>,
    toks: Seq<TokenModel>,
) -> Option<(Seq<StatementM>, Seq<TokenModel>)>
    decreases toks.len(),
    via spec_layer_stmts_from_decreases
{
    if toks.len() > 0 && toks[0].kind == TokenType::RCurly {
        Some((acc, toks))
    } else {
        match spec_parse_statement(toks) {
            Some((s, rest)) => if rest.len() > 0 && rest[0].kind == TokenType::Newline {
                spec_layer_stmts_from(acc.push(s), rest.skip(1))
            } else {
                None
            },
            None => None,
        }
    }
}

#[via_fn]
proof fn spec_layer_stmts_from_decreases(acc: Seq<StatementM>, toks: Seq<TokenModel>) {
    lemma_statement_bound(toks);
}

/// Grammar: one `layer "name" { ... }` block, consuming through the
/// closing brace.
pub open spec fn spec_parse_layer(toks: Seq<TokenModel>) -> Option<(LayerM, Seq<TokenModel>)> {
    if toks.len() > 0 && toks[0].kind == TokenType::Layer {
        match spec_parse_string(toks.skip(1)) {
            Some((nm, n)) => {
                let rest = toks.skip(1 + n);
                if rest.len() > 1 && rest[0].kind == TokenType::LCurly && rest[1].kind
                    == TokenType::Newline {
                    match spec_layer_stmts_from(Seq::empty(), rest.skip(2)) {
                        Some((stmts, rest2)) => if rest2.len() > 0 && rest2[0].kind
                            == TokenType::RCurly {
                            Some((LayerM { name: nm, statements: stmts }, rest2.skip(1)))
                        } else {
                            None
                        },
                        None => None,
                    }
                } else {
                    None
                }
            },
            None => None,
        }
    } else {
        None
    }
}

/// A parsed layer block leaves a strictly shorter suffix.
pub proof fn lemma_layer_bound(toks: Seq<TokenModel>)
    ensures
        match spec_parse_layer(toks) {
            Some((v, rest)) => rest.len() < toks.len(),
            None => true,
        },
{
    if toks.len() > 0 && toks[0].kind == TokenType::Layer {
        match spec_parse_string(toks.skip(1)) {
            Some((nm, n)) => {
                let rest = toks.skip(1 + n);
                if rest.len() > 1 && rest[0].kind == TokenType::LCurly && rest[1].kind
                    == TokenType::Newline {
                    lemma_layer_stmts_bound(Seq::empty(), rest.skip(2));
                }
            },
            None => {},
        }
    }
}

/// Accumulating statement lines never lengthens the tokens.
pub proof fn lemma_layer_stmts_bound(acc: Seq<StatementM>, toks: Seq<TokenModel>)
    ensures
        match spec_layer_stmts_from(acc, toks) {
            Some((v, rest)) => rest.len() <= toks.len(),
            None => true,
        },
    decreases toks.len(),
{
    if toks.len() > 0 && toks[0].kind == TokenType::RCurly {
    } else {
        match spec_parse_statement(toks) {
            Some((s, rest)) => {
                lemma_statement_bound(toks);
                if rest.len() > 0 && rest[0].kind == TokenType::Newline {
                    lemma_layer_stmts_bound(acc.push(s), rest.skip(1));
                }
            },
            None => {},
        }
    }
}

/// Grammar: the layer blocks of a profile, accumulated onto `acc`: layers
/// separated by newlines, until the end of input.
pub open spec fn spec_profile_layers_from(
    acc: Seq<LayerM>,
    toks: Seq<TokenModel>,
) -> Option<Seq<LayerM>>
    decreases toks.len(),
    via spec_profile_layers_from_decreases
{
    if toks.len() == 0 {
        Some(acc)
    } else {
        match spec_parse_layer(toks) {
            Some((l, rest)) => if rest.len() == 0 {
                Some(acc.push(l))
            } else if rest[0].kind == TokenType::Newline {
                spec_profile_layers_from(acc.push(l), rest.skip(1))
            } else {
                None
            },
            None => None,
        }
    }
}

#[via_fn]
proof fn spec_profile_layers_from_decreases(acc: Seq<LayerM>, toks: Seq<TokenModel>) {
    lemma_layer_bound(toks);
}

/// Grammar: a whole profile: an optional leading line break, the
/// `profile "name"` line, the configuration block, and layer blocks to the
/// end of input.
pub open spec fn spec_parse_profile(toks: Seq<TokenModel>) -> Option<ProfileM> {
    let t1 = if toks.len() > 0 && toks[0].kind == TokenType::Newline {
        toks.skip(1)
    } else {
        toks
    };
    if t1.len() > 0 && t1[0].kind == TokenType::Profile {
        match spec_parse_string(t1.skip(1)) {
            Some((nm, n)) => {
                let rest = t1.skip(1 + n);
                if rest.len() > 0 && rest[0].kind == TokenType::Newline {
                    match spec_parse_config(rest.skip(1)) {
                        Some((entries, rest2)) => if rest2.len() > 0 && rest2[0].kind
                            == TokenType::Newline {
                            match spec_profile_layers_from(Seq::empty(), rest2.skip(1)) {
                                Some(layers) => Some(
                                    ProfileM { name: nm, entries, layers },
                                ),
                                None => None,
                            }
                        } else {
                            None
                        },
                        None => None,
                    }
                } else {
                    None
                }
            },
            None => None,
        }
    } else {
        None
    }
}

/// Whether every byte is an ASCII decimal digit.
pub open spec fn all_digits(s: Seq<u8>) -> bool {
    forall|i: int| 0 <= i < s.len() ==> crate::lex::is_digit_byte(#[trigger] s[i])
}

/// The numeric value of a digit string, most significant digit first.
pub open spec fn spec_digits_value(s: Seq<u8>) -> int
    decreases s.len(),
{
    if s.len() == 0 {
        0
    } else {
        spec_digits_value(s.drop_last()) * 10 + (s.last() - ('0' as u8))
    }
}

/// A digit string's value is nonnegative.
proof fn lemma_digits_value_nonneg(s: Seq<u8>)
    requires
        all_digits(s),
    ensures
        spec_digits_value(s) >= 0,
    decreases s.len(),
{
    if s.len() > 0 {
        assert(all_digits(s.drop_last())) by {
            assert(forall|i: int|
                0 <= i < s.len() - 1 ==> crate::lex::is_digit_byte(#[trigger] s.drop_last()[i])
                    == crate::lex::is_digit_byte(s[i]));
        }
        lemma_digits_value_nonneg(s.drop_last());
    }
}

/// Extending a digit string never shrinks its value.
proof fn lemma_digits_value_prefix(s: Seq<u8>, i: int)
    requires
        all_digits(s),
        0 <= i <= s.len(),
    ensures
        spec_digits_value(s.take(i)) <= spec_digits_value(s),
    decreases s.len() - i,
{
    if i < s.len() {
        let t = s.take(i + 1);
        assert(all_digits(t)) by {
            assert(forall|j: int|
                0 <= j < t.len() ==> crate::lex::is_digit_byte(#[trigger] t[j])
                    == crate::lex::is_digit_byte(s[j]));
        }
        assert(t.drop_last() =~= s.take(i));
        lemma_digits_value_nonneg(t.drop_last());
        assert(spec_digits_value(t) == spec_digits_value(s.take(i)) * 10 + (s[i] - ('0' as u8)));
        assert(spec_digits_value(s.take(i)) <= spec_digits_value(t)) by (nonlinear_arith)
            requires
                spec_digits_value(t) == spec_digits_value(s.take(i)) * 10 + (s[i] - ('0' as u8)),
                spec_digits_value(s.take(i)) >= 0,
                s[i] - ('0' as u8) >= 0,
        {
        }
        lemma_digits_value_prefix(s, i + 1);
        assert(s.take(s.len() as int) =~= s);
    } else {
        assert(s.take(i) =~= s);
    }
}

/// The decimal value of a byte string: `Some` exactly when the string is one
/// or more digits whose value fits in `usize`.
pub fn decimal_value(s: &Vec<u8>) -> (r: Option<usize>)
    ensures
        match r {
            Some(v) => s@.len() > 0 && all_digits(s@) && v == spec_digits_value(s@),
            None => !(s@.len() > 0 && all_digits(s@) && spec_digits_value(s@) <= usize::MAX),
        },
{
    if s.len() == 0 {
        return None;
    }
    let mut acc: usize = 0;
    let mut i: usize = 0;
    proof {
        assert(s@.take(0int) =~= Seq::<u8>::empty());
    }
    while i < s.len()
        invariant
            0 <= i <= s@.len(),
            all_digits(s@.take(i as int)),
            acc == spec_digits_value(s@.take(i as int)),
        decreases s@.len() - i,
    {
        let b = s[i];
        if !('0' as u8 <= b && b <= '9' as u8) {
            proof {
                assert(!crate::lex::is_digit_byte(s@[i as int]));
            }
            return None;
        }
        let d = (b - '0' as u8) as usize;
        if acc > (usize::MAX - d) / 10 {
            proof {
                let t = s@.take(i + 1);
                assert(t.drop_last() =~= s@.take(i as int));
                assert(t.last() == s@[i as int]);
                assert(all_digits(t)) by {
                    assert(forall|j: int|
                        0 <= j < i ==> #[trigger] t[j] == s@.take(i as int)[j]);
                }
                assert(spec_digits_value(t) == acc * 10 + d);
                assert(acc * 10 + d > usize::MAX) by (nonlinear_arith)
                    requires
                        acc > (usize::MAX - d) / 10,
                        0 <= d <= 9,
                        acc >= 0,
                {
                }
                if all_digits(s@) {
                    lemma_digits_value_prefix(s@, i + 1);
                }
            }
            return None;
        }
        proof {
            assert(acc * 10 + d <= usize::MAX) by (nonlinear_arith)
                requires
                    acc <= (usize::MAX - d) / 10,
                    0 <= d <= 9,
                    acc >= 0,
            {
            }
        }
        let next = acc * 10 + d;
        proof {
            let t = s@.take(i + 1);
            assert(t.drop_last() =~= s@.take(i as int));
            assert(t.last() == s@[i as int]);
            assert(all_digits(t)) by {
                assert(forall|j: int| 0 <= j < i ==> #[trigger] t[j] == s@.take(i as int)[j]);
            }
            assert(spec_digits_value(t) == acc * 10 + d);
        }
        acc = next;
        i = i + 1;
    }
    proof {
        assert(s@.take(s@.len() as int) =~= s@);
    }
    Some(acc)
}

/// Parses a string literal, yielding its contents without the quotes.
pub fn parse_string(ts: &mut TokenStream) -> (r: Result<Vec<u8>, Diagnostic>)
    requires
        old(ts).wf(),
    ensures
        ({
            let toks = old(ts).upcoming();
            match spec_parse_string(toks) {
                Some((v, n)) => r matches Ok(x) && x@ == v && consumed_exactly(
                    *old(ts),
                    *final(ts),
                    n,
                ),
                None => r matches Err(d) && d.is_error() && stream_intact(
                    *old(ts),
                    *final(ts),
                ),
            }
        }),
{
    let t = match expect_token(ts, TokenType::StringLit) {
        Ok(t) => t,
        Err(d) => {
            return Err(d);
        },
    };
    if t.bytes.len() < 2 {
        // Cannot happen for a lexed string literal; reject defensively.
        return Err(Diagnostic::new1(
            DiagKind::UnexpectedToken,
            Severity::Error,
            msg("Unexpected token found"),
            msg("malformed string literal"),
            t.loc(),
        ));
    }
    let v = Span::new(1, t.bytes.len() - 2).as_str(&t.bytes);
    proof {
        assert(v@ =~= old(ts).upcoming()[0].bytes.subrange(
            1,
            old(ts).upcoming()[0].bytes.len() - 1,
        ));
    }
    Ok(v)
}

/// Parses a string literal with its span.
pub fn parse_string_spanned(ts: &mut TokenStream) -> (r: Result<Spanned<Vec<u8>>, Diagnostic>)
    requires
        old(ts).wf(),
    ensures
        ({
            let toks = old(ts).upcoming();
            match spec_parse_string(toks) {
                Some((v, n)) => r matches Ok(x) && x.value@ == v && x.span == spec_rule_span(
                    toks,
                    n,
                ) && consumed_exactly(*old(ts), *final(ts), n),
                None => r matches Err(d) && d.is_error() && stream_intact(
                    *old(ts),
                    *final(ts),
                ),
            }
        }),
{
    let start = span_begin(ts);
    match parse_string(ts) {
        Ok(v) => {
            let span = span_close(ts, start);
            proof {
                assert(old(ts).upcoming().skip(1).len() == old(ts).upcoming().len() - 1);
                if old(ts).upcoming().len() > 1 {
                    assert(old(ts).upcoming().skip(1)[0] == old(ts).upcoming()[1]);
                }
            }
            Ok(Spanned::new(v, span))
        },
        Err(d) => Err(d),
    }
}

/// Parses an integer literal into a `usize`, rejecting values out of range.
pub fn parse_integer(ts: &mut TokenStream) -> (r: Result<usize, Diagnostic>)
    requires
        old(ts).wf(),
    ensures
        ({
            let toks = old(ts).upcoming();
            match spec_parse_integer(toks) {
                Some((v, n)) => r matches Ok(x) && x == v && consumed_exactly(
                    *old(ts),
                    *final(ts),
                    n,
                ),
                None => r matches Err(d) && d.is_error() && stream_intact(
                    *old(ts),
                    *final(ts),
                ),
            }
        }),
{
    let t = match expect_token(ts, TokenType::IntLit) {
        Ok(t) => t,
        Err(d) => {
            return Err(d);
        },
    };
    match decimal_value(&t.bytes) {
        Some(v) => Ok(v),
        None => Err(Diagnostic::new1(
            DiagKind::IntegerOutOfRange,
            Severity::Error,
            msg("Integer literal outside of range"),
            msg("Invalid integer literal"),
            t.loc(),
        )),
    }
}

/// Parses an integer literal with its span.
pub fn parse_integer_spanned(ts: &mut TokenStream) -> (r: Result<Spanned<usize>, Diagnostic>)
    requires
        old(ts).wf(),
    ensures
        ({
            let toks = old(ts).upcoming();
            match spec_parse_integer(toks) {
                Some((v, n)) => r matches Ok(x) && x.value == v && x.span == spec_rule_span(
                    toks,
                    n,
                ) && consumed_exactly(*old(ts), *final(ts), n),
                None => r matches Err(d) && d.is_error() && stream_intact(
                    *old(ts),
                    *final(ts),
                ),
            }
        }),
{
    let start = span_begin(ts);
    match parse_integer(ts) {
        Ok(v) => {
            let span = span_close(ts, start);
            proof {
                assert(old(ts).upcoming().skip(1).len() == old(ts).upcoming().len() - 1);
                if old(ts).upcoming().len() > 1 {
                    assert(old(ts).upcoming().skip(1)[0] == old(ts).upcoming()[1]);
                }
            }
            Ok(Spanned::new(v, span))
        },
        Err(d) => Err(d),
    }
}

/// Whether the vector holds exactly the bytes of the given string.
fn bytes_is(v: &Vec<u8>, s: &str) -> (r: bool)
    ensures
        r == (v@ == s.spec_bytes()),
{
    let w = vstd::slice::slice_to_vec(s.as_bytes());
    let r = v == &w;
    proof {
        if r {
            assert(v@ =~= w@);
        }
    }
    r
}

impl KeyIdent {
    /// Parses a key from an identifier, a quoted string, or an integer
    /// literal, case-insensitively.
    pub fn parse(ts: &mut TokenStream) -> (r: Result<KeyIdent, Diagnostic>)
        requires
            old(ts).wf(),
        ensures
            ({
                let toks = old(ts).upcoming();
                match spec_parse_key_ident(toks) {
                    Some((v, n)) => r matches Ok(x) && x == v && consumed_exactly(
                        *old(ts),
                        *final(ts),
                        n,
                    ),
                    None => r matches Err(d) && d.is_error() && stream_intact(
                        *old(ts),
                        *final(ts),
                    ),
                }
            }),
    {
        let is_string = matches!(ts.peek_type(), Some(TokenType::StringLit));
        let is_int = matches!(ts.peek_type(), Some(TokenType::IntLit));
        let (t, name) = if is_string {
            let t = match expect_token(ts, TokenType::StringLit) {
                Ok(t) => t,
                Err(d) => {
                    return Err(d);
                },
            };
            if t.bytes.len() < 2 {
                // Cannot happen for a lexed string literal; reject defensively.
                return Err(Diagnostic::new1(
                    DiagKind::UnexpectedToken,
                    Severity::Error,
                    msg("Unexpected token found"),
                    msg("malformed string literal"),
                    t.loc(),
                ));
            }
            let name = Span::new(1, t.bytes.len() - 2).as_str(&t.bytes);
            proof {
                assert(name@ =~= old(ts).upcoming()[0].bytes.subrange(
                    1,
                    old(ts).upcoming()[0].bytes.len() - 1,
                ));
            }
            (t, name)
        } else if is_int {
            let t = match expect_token(ts, TokenType::IntLit) {
                Ok(t) => t,
                Err(d) => {
                    return Err(d);
                },
            };
            let name = clone_token(&t).bytes;
            (t, name)
        } else {
            let t = match expect_token(ts, TokenType::Variable) {
                Ok(t) => t,
                Err(d) => {
                    return Err(d);
                },
            };
            let name = clone_token(&t).bytes;
            (t, name)
        };
        match crate::ast::key::key_ident_from_bytes(&name) {
            Some(k) => Ok(k),
            None => {
                let mut label = msg("expected: key, found: ");
                msg_append(&mut label, &name);
                Err(Diagnostic::new1(
                    DiagKind::InvalidKey,
                    Severity::Error,
                    msg("Unexpected key found"),
                    label,
                    t.loc(),
                ))
            },
        }
    }

    /// Parses a key with its span.
    pub fn parse_spanned(ts: &mut TokenStream) -> (r: Result<Spanned<KeyIdent>, Diagnostic>)
        requires
            old(ts).wf(),
        ensures
            ({
                let toks = old(ts).upcoming();
                match spec_parse_key_ident(toks) {
                    Some((v, n)) => r matches Ok(x) && x.value == v && x.span == spec_rule_span(
                        toks,
                        n,
                    ) && consumed_exactly(*old(ts), *final(ts), n),
                    None => r matches Err(d) && d.is_error() && stream_intact(
                        *old(ts),
                        *final(ts),
                    ),
                }
            }),
    {
        let start = span_begin(ts);
        match KeyIdent::parse(ts) {
            Ok(v) => {
                let span = span_close(ts, start);
                proof {
                    assert(old(ts).upcoming().skip(1).len() == old(ts).upcoming().len() - 1);
                    if old(ts).upcoming().len() > 1 {
                        assert(old(ts).upcoming().skip(1)[0] == old(ts).upcoming()[1]);
                    }
                }
                Ok(Spanned::new(v, span))
            },
            Err(d) => Err(d),
        }
    }
}

impl Key {
    /// Parses a key with an optional `^` (release-only) or `_` (press-only)
    /// prefix.
    pub fn parse(ts: &mut TokenStream) -> (r: Result<Key, Diagnostic>)
        requires
            old(ts).wf(),
        ensures
            ({
                let toks = old(ts).upcoming();
                match spec_parse_key(toks) {
                    Some((v, n)) => r matches Ok(x) && x == v && consumed_exactly(
                        *old(ts),
                        *final(ts),
                        n,
                    ),
                    None => r matches Err(d) && d.is_error() && stream_intact(
                        *old(ts),
                        *final(ts),
                    ),
                }
            }),
    {
        let ghost toks = old(ts).upcoming();
        if matches!(ts.peek_type(), Some(TokenType::Caret)) {
            match expect_token(ts, TokenType::Caret) {
                Ok(_) => (),
                Err(d) => {
                    return Err(d);
                },
            }
            proof {
                assert(ts.upcoming() == toks.skip(1));
            }
            match KeyIdent::parse_spanned(ts) {
                Ok(k) => {
                    proof {
                        assert(ts.upcoming() =~= toks.skip(2));
                        assert(toks.skip(1)[0] == toks[1]);
                    }
                    Ok(Key::Up(k))
                },
                Err(d) => Err(d),
            }
        } else if matches!(ts.peek_type(), Some(TokenType::Underscore)) {
            match expect_token(ts, TokenType::Underscore) {
                Ok(_) => (),
                Err(d) => {
                    return Err(d);
                },
            }
            proof {
                assert(ts.upcoming() == toks.skip(1));
            }
            match KeyIdent::parse_spanned(ts) {
                Ok(k) => {
                    proof {
                        assert(ts.upcoming() =~= toks.skip(2));
                        assert(toks.skip(1)[0] == toks[1]);
                    }
                    Ok(Key::Down(k))
                },
                Err(d) => Err(d),
            }
        } else {
            match KeyIdent::parse_spanned(ts) {
                Ok(k) => Ok(Key::Unspecified(k)),
                Err(d) => Err(d),
            }
        }
    }

    /// Parses a marked key with its span.
    pub fn parse_spanned(ts: &mut TokenStream) -> (r: Result<Spanned<Key>, Diagnostic>)
        requires
            old(ts).wf(),
        ensures
            ({
                let toks = old(ts).upcoming();
                match spec_parse_key(toks) {
                    Some((v, n)) => r matches Ok(x) && x.value == v && x.span == spec_rule_span(
                        toks,
                        n,
                    ) && consumed_exactly(*old(ts), *final(ts), n),
                    None => r matches Err(d) && d.is_error() && stream_intact(
                        *old(ts),
                        *final(ts),
                    ),
                }
            }),
    {
        let start = span_begin(ts);
        match Key::parse(ts) {
            Ok(v) => {
                let span = span_close(ts, start);
                proof {
                    let toks = old(ts).upcoming();
                    match spec_parse_key(toks) {
                        Some((kv, n)) => {
                            assert(toks.skip(n).len() == toks.len() - n);
                            if n < toks.len() {
                                assert(toks.skip(n)[0] == toks[n]);
                            }
                        },
                        None => {},
                    }
                }
                Ok(Spanned::new(v, span))
            },
            Err(d) => Err(d),
        }
    }
}

impl Behavior {
    /// Parses one of the behavior keywords: `capture`, `release` or `wait`.
    pub fn parse(ts: &mut TokenStream) -> (r: Result<Behavior, Diagnostic>)
        requires
            old(ts).wf(),
        ensures
            ({
                let toks = old(ts).upcoming();
                match spec_parse_behavior(toks) {
                    Some((v, n)) => r matches Ok(x) && x == v && consumed_exactly(
                        *old(ts),
                        *final(ts),
                        n,
                    ),
                    None => r matches Err(d) && d.is_error() && stream_intact(
                        *old(ts),
                        *final(ts),
                    ),
                }
            }),
    {
        proof {
            if old(ts).upcoming().len() > 0 {
                assert(old(ts).upcoming().skip(1) =~= old(ts).upcoming().drop_first());
            }
        }
        match ts.next() {
            Some(t) => match t.kind() {
                TokenType::Capture => Ok(Behavior::Capture),
                TokenType::Release => Ok(Behavior::Release),
                TokenType::Wait => Ok(Behavior::Wait),
                _ => {
                    let mut label = msg("expected: behavior, found: ");
                    msg_append(&mut label, &msg(t.kind().name()));
                    Err(Diagnostic::new1(
                        DiagKind::UnexpectedToken,
                        Severity::Error,
                        msg("Unexpected token found"),
                        label,
                        t.loc(),
                    ))
                },
            },
            None => Err(Diagnostic::new1(
                DiagKind::MissingToken,
                Severity::Error,
                msg("Missing expected token"),
                msg("expected: behavior"),
                Span::new(ts.src_end(), 0),
            )),
        }
    }

    /// Parses a behavior keyword with its span.
    pub fn parse_spanned(ts: &mut TokenStream) -> (r: Result<Spanned<Behavior>, Diagnostic>)
        requires
            old(ts).wf(),
        ensures
            ({
                let toks = old(ts).upcoming();
                match spec_parse_behavior(toks) {
                    Some((v, n)) => r matches Ok(x) && x.value == v && x.span == spec_rule_span(
                        toks,
                        n,
                    ) && consumed_exactly(*old(ts), *final(ts), n),
                    None => r matches Err(d) && d.is_error() && stream_intact(
                        *old(ts),
                        *final(ts),
                    ),
                }
            }),
    {
        let start = span_begin(ts);
        match Behavior::parse(ts) {
            Ok(v) => {
                let span = span_close(ts, start);
                proof {
                    assert(old(ts).upcoming().skip(1).len() == old(ts).upcoming().len() - 1);
                    if old(ts).upcoming().len() > 1 {
                        assert(old(ts).upcoming().skip(1)[0] == old(ts).upcoming()[1]);
                    }
                }
                Ok(Spanned::new(v, span))
            },
            Err(d) => Err(d),
        }
    }
}

/// Parses a bracketed `[k, k, ...]` list of key identifiers. The list may
/// be empty.
#[verifier::loop_isolation(false)]
pub fn parse_key_ident_list(ts: &mut TokenStream) -> (r: Result<
    Vec<Spanned<KeyIdent>>,
    Diagnostic,
>)
    requires
        old(ts).wf(),
    ensures
        ({
            let toks = old(ts).upcoming();
            match spec_parse_key_ident_list(toks) {
                Some((v, rest)) => r matches Ok(x) && x@ == v && final(ts).upcoming() == rest
                    && stream_progress(*old(ts), *final(ts)),
                None => r matches Err(d) && d.is_error() && stream_intact(
                    *old(ts),
                    *final(ts),
                ),
            }
        }),
{
    let ghost pre = *old(ts);
    let ghost toks = old(ts).upcoming();
    let mut items: Vec<Spanned<KeyIdent>> = Vec::new();
    match expect_token(ts, TokenType::LSquare) {
        Ok(_) => (),
        Err(d) => {
            return Err(d);
        },
    }
    let ghost after = toks.skip(1);
    if !matches!(ts.peek_type(), Some(TokenType::RSquare)) {
        loop
            invariant
                ts.wf(),
                ts.measure() < pre.measure(),
                ts.lexer.bytes@ == pre.lexer.bytes@,
                ts.start_cur == pre.start_cur,
                spec_key_ident_items_from(Seq::empty(), after) == spec_key_ident_items_from(
                    items@,
                    ts.upcoming(),
                ),
            decreases ts.measure(),
        {
            let ghost up_pre = ts.upcoming();
            let ghost items_pre = items@;
            match KeyIdent::parse_spanned(ts) {
                Ok(k) => items.push(k),
                Err(d) => {
                    return Err(d);
                },
            }
            if !matches!(ts.peek_type(), Some(TokenType::Comma)) {
                proof {
                    assert(ts.upcoming() == up_pre.skip(1));
                    assert(spec_key_ident_items_from(Seq::empty(), after) == Some(
                        (items@, ts.upcoming()),
                    ));
                }
                break;
            }
            match expect_token(ts, TokenType::Comma) {
                Ok(_) => (),
                Err(d) => {
                    return Err(d);
                },
            }
            proof {
                assert(up_pre.skip(1)[0] == up_pre[1]);
                assert(up_pre.skip(1).skip(1) =~= up_pre.skip(2));
                assert(ts.upcoming() =~= up_pre.skip(2));
            }
        }
    } else {
        proof {
            assert(spec_key_ident_items_from(Seq::empty(), after) == spec_key_ident_items_from(
                items@,
                ts.upcoming(),
            ));
        }
    }
    proof {
        if ts.upcoming().len() > 0 {
            assert(ts.upcoming().skip(1) =~= ts.upcoming().drop_first());
        }
    }
    match expect_token(ts, TokenType::RSquare) {
        Ok(_) => (),
        Err(d) => {
            return Err(d);
        },
    }
    Ok(items)
}

/// Parses a bracketed `[k, k, ...]` list of optionally marked keys. The
/// list may be empty.
#[verifier::loop_isolation(false)]
pub fn parse_key_list(ts: &mut TokenStream) -> (r: Result<Vec<Spanned<Key>>, Diagnostic>)
    requires
        old(ts).wf(),
    ensures
        ({
            let toks = old(ts).upcoming();
            match spec_parse_key_list(toks) {
                Some((v, rest)) => r matches Ok(x) && x@ == v && final(ts).upcoming() == rest
                    && stream_progress(*old(ts), *final(ts)),
                None => r matches Err(d) && d.is_error() && stream_intact(
                    *old(ts),
                    *final(ts),
                ),
            }
        }),
{
    let ghost pre = *old(ts);
    let ghost toks = old(ts).upcoming();
    let mut items: Vec<Spanned<Key>> = Vec::new();
    match expect_token(ts, TokenType::LSquare) {
        Ok(_) => (),
        Err(d) => {
            return Err(d);
        },
    }
    let ghost after = toks.skip(1);
    if !matches!(ts.peek_type(), Some(TokenType::RSquare)) {
        loop
            invariant
                ts.wf(),
                ts.measure() < pre.measure(),
                ts.lexer.bytes@ == pre.lexer.bytes@,
                ts.start_cur == pre.start_cur,
                spec_key_items_from(Seq::empty(), after) == spec_key_items_from(
                    items@,
                    ts.upcoming(),
                ),
            decreases ts.measure(),
        {
            let ghost up_pre = ts.upcoming();
            match Key::parse_spanned(ts) {
                Ok(k) => items.push(k),
                Err(d) => {
                    return Err(d);
                },
            }
            if !matches!(ts.peek_type(), Some(TokenType::Comma)) {
                proof {
                    match spec_parse_key(up_pre) {
                        Some((kv, n)) => {
                            assert(ts.upcoming() == up_pre.skip(n));
                        },
                        None => {},
                    }
                    assert(spec_key_items_from(Seq::empty(), after) == Some(
                        (items@, ts.upcoming()),
                    ));
                }
                break;
            }
            match expect_token(ts, TokenType::Comma) {
                Ok(_) => (),
                Err(d) => {
                    return Err(d);
                },
            }
            proof {
                match spec_parse_key(up_pre) {
                    Some((kv, n)) => {
                        assert(up_pre.skip(n)[0] == up_pre[n]);
                        assert(up_pre.skip(n).skip(1) =~= up_pre.skip(n + 1));
                        assert(ts.upcoming() =~= up_pre.skip(n + 1));
                    },
                    None => {},
                }
            }
        }
    } else {
        proof {
            assert(spec_key_items_from(Seq::empty(), after) == spec_key_items_from(
                items@,
                ts.upcoming(),
            ));
        }
    }
    proof {
        if ts.upcoming().len() > 0 {
            assert(ts.upcoming().skip(1) =~= ts.upcoming().drop_first());
        }
    }
    match expect_token(ts, TokenType::RSquare) {
        Ok(_) => (),
        Err(d) => {
            return Err(d);
        },
    }
    Ok(items)
}

/// Parses the optional trailing `, behavior`, `, timeout` arguments of a
/// composite trigger, consuming the closing parenthesis. A single optional
/// argument is always the behavior, never the timeout.
pub fn parse_optional_trigger_args(ts: &mut TokenStream) -> (r: Result<
    (Option<Spanned<Behavior>>, Option<Spanned<usize>>),
    Diagnostic,
>)
    requires
        old(ts).wf(),
    ensures
        ({
            let toks = old(ts).upcoming();
            match spec_parse_opt_args(toks) {
                Some((v, n)) => r matches Ok(x) && x == v && consumed_exactly(
                    *old(ts),
                    *final(ts),
                    n,
                ),
                None => r matches Err(d) && d.is_error() && stream_intact(
                    *old(ts),
                    *final(ts),
                ),
            }
        }),
{
    let ghost toks = old(ts).upcoming();
    let mut behavior: Option<Spanned<Behavior>> = None;
    let mut timeout: Option<Spanned<usize>> = None;
    let ghost mut used: int = 0;
    if !matches!(ts.peek_type(), Some(TokenType::RParen)) {
        match expect_token(ts, TokenType::Comma) {
            Ok(_) => (),
            Err(d) => {
                return Err(d);
            },
        }
        proof {
            assert(ts.upcoming() == toks.skip(1));
        }
        match Behavior::parse_spanned(ts) {
            Ok(b) => {
                behavior = Some(b);
                proof {
                    // The behavior keyword is one token.
                    assert(ts.upcoming() =~= toks.skip(2));
                    used = 2;
                }
            },
            Err(d) => {
                return Err(d);
            },
        }
    }
    if !matches!(ts.peek_type(), Some(TokenType::RParen)) {
        proof {
            if used == 2 && used < toks.len() {
                assert(toks.skip(2)[0] == toks[2]);
            }
        }
        match expect_token(ts, TokenType::Comma) {
            Ok(_) => (),
            Err(d) => {
                return Err(d);
            },
        }
        proof {
            assert(ts.upcoming() =~= toks.skip(used + 1));
            if used == 2 {
                assert(toks.skip(2).skip(1) =~= toks.skip(3));
            }
        }
        match parse_integer_spanned(ts) {
            Ok(t) => {
                timeout = Some(t);
                proof {
                    assert(toks.skip(used + 1).skip(1) =~= toks.skip(used + 2));
                    assert(ts.upcoming() =~= toks.skip(used + 2));
                    used = used + 2;
                }
            },
            Err(d) => {
                return Err(d);
            },
        }
    }
    proof {
        assert(ts.upcoming() =~= toks.skip(used));
        if used < toks.len() {
            assert(toks.skip(used)[0] == toks[used]);
        }
    }
    match expect_token(ts, TokenType::RParen) {
        Ok(_) => (),
        Err(d) => {
            return Err(d);
        },
    }
    proof {
        assert(ts.upcoming() =~= toks.skip(used + 1));
        match spec_parse_opt_args(toks) {
            Some((v, n)) => {
                assert(n == used + 1);
                if n - 1 < toks.len() {
                    assert(toks.skip(n - 1)[0] == toks[n - 1]);
                }
                assert(toks[n - 1].kind == TokenType::RParen);
            },
            None => {},
        }
    }
    Ok((behavior, timeout))
}

impl Trigger {
    /// Parses the left side of a statement: a key, an `app_focused(...)`
    /// match, or one of the five timed composite forms.
    #[verifier::rlimit(100)]
    #[verifier::spinoff_prover]
    pub fn parse(ts: &mut TokenStream) -> (r: Result<Trigger, Diagnostic>)
        requires
            old(ts).wf(),
        ensures
            ({
                let toks = old(ts).upcoming();
                match spec_parse_trigger(toks) {
                    Some((v, rest)) => r matches Ok(x) && trigger_model(x) == v
                        && final(ts).upcoming() == rest && stream_progress(
                        *old(ts),
                        *final(ts),
                    ),
                    None => r matches Err(d) && d.is_error() && stream_intact(
                        *old(ts),
                        *final(ts),
                    ),
                }
            }),
    {
        let ghost toks = old(ts).upcoming();
        match ts.peek_type() {
            Some(TokenType::Variable) | Some(TokenType::StringLit) | Some(TokenType::IntLit)
                | Some(TokenType::Caret) | Some(TokenType::Underscore) => {
                match Key::parse_spanned(ts) {
                    Ok(k) => Ok(Trigger::Key(k)),
                    Err(d) => Err(d),
                }
            },
            Some(TokenType::AppFocused) => {
                match expect_token(ts, TokenType::AppFocused) {
                    Ok(_) => (),
                    Err(d) => {
                        return Err(d);
                    },
                }
                proof {
                    assert(ts.upcoming() == toks.skip(1));
                    if toks.len() > 1 {
                        assert(toks.skip(1)[0] == toks[1]);
                    }
                }
                match expect_token(ts, TokenType::LParen) {
                    Ok(_) => (),
                    Err(d) => {
                        return Err(d);
                    },
                }
                proof {
                    assert(toks.skip(1).skip(1) =~= toks.skip(2));
                    assert(ts.upcoming() =~= toks.skip(2));
                }
                let app_name = match parse_string_spanned(ts) {
                    Ok(n) => n,
                    Err(d) => {
                        return Err(d);
                    },
                };
                proof {
                    assert(toks.skip(2).skip(1) =~= toks.skip(3));
                    assert(ts.upcoming() =~= toks.skip(3));
                    if toks.len() > 3 {
                        assert(toks.skip(3)[0] == toks[3]);
                    }
                }
                match expect_token(ts, TokenType::RParen) {
                    Ok(_) => (),
                    Err(d) => {
                        return Err(d);
                    },
                }
                proof {
                    assert(toks.skip(3).skip(1) =~= toks.skip(3).drop_first());
                }
                Ok(Trigger::AppFocused(app_name))
            },
            Some(TokenType::Chord) => {
                match expect_token(ts, TokenType::Chord) {
                    Ok(_) => (),
                    Err(d) => {
                        return Err(d);
                    },
                }
                proof {
                    assert(ts.upcoming() == toks.skip(1));
                    if toks.len() > 1 {
                        assert(toks.skip(1)[0] == toks[1]);
                    }
                }
                match expect_token(ts, TokenType::LParen) {
                    Ok(_) => (),
                    Err(d) => {
                        return Err(d);
                    },
                }
                proof {
                    assert(toks.skip(1).skip(1) =~= toks.skip(2));
                    assert(ts.upcoming() =~= toks.skip(2));
                }
                let keys = match parse_key_ident_list(ts) {
                    Ok(k) => k,
                    Err(d) => {
                        return Err(d);
                    },
                };
                match parse_optional_trigger_args(ts) {
                    Ok((behavior, timeout)) => Ok(Trigger::Chord(keys, behavior, timeout)),
                    Err(d) => Err(d),
                }
            },
            Some(TokenType::Sequence) => {
                match expect_token(ts, TokenType::Sequence) {
                    Ok(_) => (),
                    Err(d) => {
                        return Err(d);
                    },
                }
                proof {
                    assert(ts.upcoming() == toks.skip(1));
                    if toks.len() > 1 {
                        assert(toks.skip(1)[0] == toks[1]);
                    }
                }
                match expect_token(ts, TokenType::LParen) {
                    Ok(_) => (),
                    Err(d) => {
                        return Err(d);
                    },
                }
                proof {
                    assert(toks.skip(1).skip(1) =~= toks.skip(2));
                    assert(ts.upcoming() =~= toks.skip(2));
                }
                let keys = match parse_key_ident_list(ts) {
                    Ok(k) => k,
                    Err(d) => {
                        return Err(d);
                    },
                };
                match parse_optional_trigger_args(ts) {
                    Ok((behavior, timeout)) => Ok(Trigger::Sequence(keys, behavior, timeout)),
                    Err(d) => Err(d),
                }
            },
            Some(TokenType::Tap) => {
                match expect_token(ts, TokenType::Tap) {
                    Ok(_) => (),
                    Err(d) => {
                        return Err(d);
                    },
                }
                proof {
                    assert(ts.upcoming() == toks.skip(1));
                    if toks.len() > 1 {
                        assert(toks.skip(1)[0] == toks[1]);
                    }
                }
                match expect_token(ts, TokenType::LParen) {
                    Ok(_) => (),
                    Err(d) => {
                        return Err(d);
                    },
                }
                proof {
                    assert(toks.skip(1).skip(1) =~= toks.skip(2));
                    assert(ts.upcoming() =~= toks.skip(2));
                }
                let key = match KeyIdent::parse_spanned(ts) {
                    Ok(k) => k,
                    Err(d) => {
                        return Err(d);
                    },
                };
                proof {
                    assert(toks.skip(2).skip(1) =~= toks.skip(3));
                    assert(ts.upcoming() =~= toks.skip(3));
                }
                match parse_optional_trigger_args(ts) {
                    Ok((behavior, timeout)) => Ok(Trigger::Tap(key, behavior, timeout)),
                    Err(d) => Err(d),
                }
            },
            Some(TokenType::Hold) => {
                match expect_token(ts, TokenType::Hold) {
                    Ok(_) => (),
                    Err(d) => {
                        return Err(d);
                    },
                }
                proof {
                    assert(ts.upcoming() == toks.skip(1));
                    if toks.len() > 1 {
                        assert(toks.skip(1)[0] == toks[1]);
                    }
                }
                match expect_token(ts, TokenType::LParen) {
                    Ok(_) => (),
                    Err(d) => {
                        return Err(d);
                    },
                }
                proof {
                    assert(toks.skip(1).skip(1) =~= toks.skip(2));
                    assert(ts.upcoming() =~= toks.skip(2));
                }
                let key = match KeyIdent::parse_spanned(ts) {
                    Ok(k) => k,
                    Err(d) => {
                        return Err(d);
                    },
                };
                proof {
                    assert(toks.skip(2).skip(1) =~= toks.skip(3));
                    assert(ts.upcoming() =~= toks.skip(3));
                }
                match parse_optional_trigger_args(ts) {
                    Ok((behavior, timeout)) => Ok(Trigger::Hold(key, behavior, timeout)),
                    Err(d) => Err(d),
                }
            },
            Some(TokenType::Combo) => {
                match expect_token(ts, TokenType::Combo) {
                    Ok(_) => (),
                    Err(d) => {
                        return Err(d);
                    },
                }
                proof {
                    assert(ts.upcoming() == toks.skip(1));
                    if toks.len() > 1 {
                        assert(toks.skip(1)[0] == toks[1]);
                    }
                }
                match expect_token(ts, TokenType::LParen) {
                    Ok(_) => (),
                    Err(d) => {
                        return Err(d);
                    },
                }
                proof {
                    assert(toks.skip(1).skip(1) =~= toks.skip(2));
                    assert(ts.upcoming() =~= toks.skip(2));
                }
                let keys = match parse_key_list(ts) {
                    Ok(k) => k,
                    Err(d) => {
                        return Err(d);
                    },
                };
                match parse_optional_trigger_args(ts) {
                    Ok((behavior, timeout)) => Ok(Trigger::Combo(keys, behavior, timeout)),
                    Err(d) => Err(d),
                }
            },
            Some(_) => {
                let t = match ts.peek() {
                    Some(t) => t,
                    None => {
                        return Err(Diagnostic::new1(
                            DiagKind::MissingToken,
                            Severity::Error,
                            msg("Missing expected statement"),
                            msg("expected: left side of statement"),
                            Span::new(ts.src_end(), 0),
                        ));
                    },
                };
                let mut label = msg("expected: left side of statement, found: ");
                msg_append(&mut label, &msg(t.kind().name()));
                Err(Diagnostic::new1(
                    DiagKind::UnexpectedToken,
                    Severity::Error,
                    msg("Unexpected token found"),
                    label,
                    t.loc(),
                ))
            },
            None => Err(Diagnostic::new1(
                DiagKind::MissingToken,
                Severity::Error,
                msg("Missing expected statement"),
                msg("expected: left side of statement"),
                Span::new(ts.src_end(), 0),
            )),
        }
    }

    /// Parses a trigger with its span.
    pub fn parse_spanned(ts: &mut TokenStream) -> (r: Result<Spanned<Trigger>, Diagnostic>)
        requires
            old(ts).wf(),
        ensures
            ({
                let toks = old(ts).upcoming();
                match spec_parse_trigger(toks) {
                    Some((v, rest)) => r matches Ok(x) && trigger_model(x.value) == v
                        && final(ts).upcoming() == rest && stream_progress(
                        *old(ts),
                        *final(ts),
                    ),
                    None => r matches Err(d) && d.is_error() && stream_intact(
                        *old(ts),
                        *final(ts),
                    ),
                }
            }),
    {
        let start = span_begin(ts);
        match Trigger::parse(ts) {
            Ok(v) => {
                let span = span_close(ts, start);
                Ok(Spanned::new(v, span))
            },
            Err(d) => Err(d),
        }
    }
}

impl Bind {
    /// Parses the right side of a statement: a key, `none`, `layer(...)`,
    /// `run(...)` or `open_app(...)`.
    #[verifier::rlimit(100)]
    #[verifier::spinoff_prover]
    pub fn parse(ts: &mut TokenStream) -> (r: Result<Bind, Diagnostic>)
        requires
            old(ts).wf(),
        ensures
            ({
                let toks = old(ts).upcoming();
                match spec_parse_bind(toks) {
                    Some((v, n)) => r matches Ok(x) && bind_model(x) == v && consumed_exactly(
                        *old(ts),
                        *final(ts),
                        n,
                    ),
                    None => r matches Err(d) && d.is_error() && stream_intact(
                        *old(ts),
                        *final(ts),
                    ),
                }
            }),
    {
        let ghost toks = old(ts).upcoming();
        match ts.peek_type() {
            Some(TokenType::Variable) | Some(TokenType::StringLit) | Some(TokenType::Caret)
                | Some(TokenType::Underscore) => {
                match Key::parse_spanned(ts) {
                    Ok(k) => Ok(Bind::Key(k)),
                    Err(d) => Err(d),
                }
            },
            Some(TokenType::NoneKw) => {
                match expect_token(ts, TokenType::NoneKw) {
                    Ok(_) => Ok(Bind::NoOp),
                    Err(d) => Err(d),
                }
            },
            Some(TokenType::Layer) => {
                match expect_token(ts, TokenType::Layer) {
                    Ok(_) => (),
                    Err(d) => {
                        return Err(d);
                    },
                }
                proof {
                    assert(ts.upcoming() == toks.skip(1));
                    if toks.len() > 1 {
                        assert(toks.skip(1)[0] == toks[1]);
                    }
                }
                match expect_token(ts, TokenType::LParen) {
                    Ok(_) => (),
                    Err(d) => {
                        return Err(d);
                    },
                }
                proof {
                    assert(toks.skip(1).skip(1) =~= toks.skip(2));
                    assert(ts.upcoming() =~= toks.skip(2));
                }
                let new_layer = match parse_string_spanned(ts) {
                    Ok(n) => n,
                    Err(d) => {
                        return Err(d);
                    },
                };
                proof {
                    assert(toks.skip(2).skip(1) =~= toks.skip(3));
                    assert(ts.upcoming() =~= toks.skip(3));
                    if toks.len() > 3 {
                        assert(toks.skip(3)[0] == toks[3]);
                    }
                }
                match expect_token(ts, TokenType::RParen) {
                    Ok(_) => (),
                    Err(d) => {
                        return Err(d);
                    },
                }
                proof {
                    assert(toks.skip(3).skip(1) =~= toks.skip(4));
                    assert(ts.upcoming() =~= toks.skip(4));
                }
                Ok(Bind::ChangeLayer(new_layer))
            },
            Some(TokenType::Run) => {
                match expect_token(ts, TokenType::Run) {
                    Ok(_) => (),
                    Err(d) => {
                        return Err(d);
                    },
                }
                proof {
                    assert(ts.upcoming() == toks.skip(1));
                    if toks.len() > 1 {
                        assert(toks.skip(1)[0] == toks[1]);
                    }
                }
                match expect_token(ts, TokenType::LParen) {
                    Ok(_) => (),
                    Err(d) => {
                        return Err(d);
                    },
                }
                proof {
                    assert(toks.skip(1).skip(1) =~= toks.skip(2));
                    assert(ts.upcoming() =~= toks.skip(2));
                }
                let interpreter = match parse_string_spanned(ts) {
                    Ok(n) => n,
                    Err(d) => {
                        return Err(d);
                    },
                };
                proof {
                    assert(toks.skip(2).skip(1) =~= toks.skip(3));
                    assert(ts.upcoming() =~= toks.skip(3));
                    if toks.len() > 3 {
                        assert(toks.skip(3)[0] == toks[3]);
                    }
                }
                match expect_token(ts, TokenType::Comma) {
                    Ok(_) => (),
                    Err(d) => {
                        return Err(d);
                    },
                }
                proof {
                    assert(toks.skip(3).skip(1) =~= toks.skip(4));
                    assert(ts.upcoming() =~= toks.skip(4));
                }
                let script = match parse_string_spanned(ts) {
                    Ok(n) => n,
                    Err(d) => {
                        return Err(d);
                    },
                };
                proof {
                    assert(toks.skip(4).skip(1) =~= toks.skip(5));
                    assert(ts.upcoming() =~= toks.skip(5));
                    if toks.len() > 5 {
                        assert(toks.skip(5)[0] == toks[5]);
                    }
                }
                match expect_token(ts, TokenType::RParen) {
                    Ok(_) => (),
                    Err(d) => {
                        return Err(d);
                    },
                }
                proof {
                    assert(toks.skip(5).skip(1) =~= toks.skip(6));
                    assert(ts.upcoming() =~= toks.skip(6));
                }
                Ok(Bind::Run { interpreter, script })
            },
            Some(TokenType::OpenApp) => {
                match expect_token(ts, TokenType::OpenApp) {
                    Ok(_) => (),
                    Err(d) => {
                        return Err(d);
                    },
                }
                proof {
                    assert(ts.upcoming() == toks.skip(1));
                    if toks.len() > 1 {
                        assert(toks.skip(1)[0] == toks[1]);
                    }
                }
                match expect_token(ts, TokenType::LParen) {
                    Ok(_) => (),
                    Err(d) => {
                        return Err(d);
                    },
                }
                proof {
                    assert(toks.skip(1).skip(1) =~= toks.skip(2));
                    assert(ts.upcoming() =~= toks.skip(2));
                }
                let app_name = match parse_string_spanned(ts) {
                    Ok(n) => n,
                    Err(d) => {
                        return Err(d);
                    },
                };
                proof {
                    assert(toks.skip(2).skip(1) =~= toks.skip(3));
                    assert(ts.upcoming() =~= toks.skip(3));
                    if toks.len() > 3 {
                        assert(toks.skip(3)[0] == toks[3]);
                    }
                }
                match expect_token(ts, TokenType::RParen) {
                    Ok(_) => (),
                    Err(d) => {
                        return Err(d);
                    },
                }
                proof {
                    assert(toks.skip(3).skip(1) =~= toks.skip(4));
                    assert(ts.upcoming() =~= toks.skip(4));
                }
                Ok(Bind::OpenApp(app_name))
            },
            Some(_) => {
                let t = match ts.peek() {
                    Some(t) => t,
                    None => {
                        return Err(Diagnostic::new1(
                            DiagKind::MissingToken,
                            Severity::Error,
                            msg("Missing expected statement"),
                            msg("expected: right side of statement"),
                            Span::new(ts.src_end(), 0),
                        ));
                    },
                };
                let mut label = msg("expected: right side of statement, found: ");
                msg_append(&mut label, &msg(t.kind().name()));
                Err(Diagnostic::new1(
                    DiagKind::UnexpectedToken,
                    Severity::Error,
                    msg("Unexpected token found"),
                    label,
                    t.loc(),
                ))
            },
            None => Err(Diagnostic::new1(
                DiagKind::MissingToken,
                Severity::Error,
                msg("Missing expected statement"),
                msg("expected: right side of statement"),
                Span::new(ts.src_end(), 0),
            )),
        }
    }

    /// Parses a bind with its span.
    pub fn parse_spanned(ts: &mut TokenStream) -> (r: Result<Spanned<Bind>, Diagnostic>)
        requires
            old(ts).wf(),
        ensures
            ({
                let toks = old(ts).upcoming();
                match spec_parse_bind(toks) {
                    Some((v, n)) => r matches Ok(x) && bind_model(x.value) == v && x.span
                        == spec_rule_span(toks, n) && consumed_exactly(*old(ts), *final(ts), n),
                    None => r matches Err(d) && d.is_error() && stream_intact(
                        *old(ts),
                        *final(ts),
                    ),
                }
            }),
    {
        let start = span_begin(ts);
        match Bind::parse(ts) {
            Ok(v) => {
                let span = span_close(ts, start);
                proof {
                    let toks = old(ts).upcoming();
                    match spec_parse_bind(toks) {
                        Some((bv, n)) => {
                            assert(toks.skip(n).len() == toks.len() - n);
                            if n < toks.len() {
                                assert(toks.skip(n)[0] == toks[n]);
                            }
                        },
                        None => {},
                    }
                }
                Ok(Spanned::new(v, span))
            },
            Err(d) => Err(d),
        }
    }
}

/// Parses a bracketed `[bind, bind, ...]` list. The list may be empty.
#[verifier::loop_isolation(false)]
#[verifier::rlimit(100)]
#[verifier::spinoff_prover]
pub fn parse_bind_list(ts: &mut TokenStream) -> (r: Result<Vec<Spanned<Bind>>, Diagnostic>)
    requires
        old(ts).wf(),
    ensures
        ({
            let toks = old(ts).upcoming();
            match spec_parse_bind_list(toks) {
                Some((v, rest)) => r matches Ok(x) && x@.map_values(
                    |b: Spanned<Bind>| bind_model(b.value),
                ) == v && final(ts).upcoming() == rest && stream_progress(*old(ts), *final(ts)),
                None => r matches Err(d) && d.is_error() && stream_intact(
                    *old(ts),
                    *final(ts),
                ),
            }
        }),
{
    let ghost pre = *old(ts);
    let ghost toks = old(ts).upcoming();
    let mut items: Vec<Spanned<Bind>> = Vec::new();
    match expect_token(ts, TokenType::LSquare) {
        Ok(_) => (),
        Err(d) => {
            return Err(d);
        },
    }
    let ghost after = toks.skip(1);
    proof {
        assert(items@.map_values(|b: Spanned<Bind>| bind_model(b.value)) =~= Seq::<
            BindM,
        >::empty());
    }
    if !matches!(ts.peek_type(), Some(TokenType::RSquare)) {
        loop
            invariant
                ts.wf(),
                ts.measure() < pre.measure(),
                ts.lexer.bytes@ == pre.lexer.bytes@,
                ts.start_cur == pre.start_cur,
                spec_bind_items_from(Seq::empty(), after) == spec_bind_items_from(
                    items@.map_values(|b: Spanned<Bind>| bind_model(b.value)),
                    ts.upcoming(),
                ),
            decreases ts.measure(),
        {
            let ghost up_pre = ts.upcoming();
            let ghost items_pre = items@;
            match Bind::parse_spanned(ts) {
                Ok(b) => items.push(b),
                Err(d) => {
                    return Err(d);
                },
            }
            proof {
                assert(items@.map_values(|b: Spanned<Bind>| bind_model(b.value))
                    =~= items_pre.map_values(|b: Spanned<Bind>| bind_model(b.value)).push(
                    bind_model(items@.last().value),
                ));
            }
            if !matches!(ts.peek_type(), Some(TokenType::Comma)) {
                proof {
                    match spec_parse_bind(up_pre) {
                        Some((bv, n)) => {
                            assert(ts.upcoming() == up_pre.skip(n));
                        },
                        None => {},
                    }
                    assert(spec_bind_items_from(Seq::empty(), after) == Some(
                        (
                            items@.map_values(|b: Spanned<Bind>| bind_model(b.value)),
                            ts.upcoming(),
                        ),
                    ));
                }
                break;
            }
            match expect_token(ts, TokenType::Comma) {
                Ok(_) => (),
                Err(d) => {
                    return Err(d);
                },
            }
            proof {
                match spec_parse_bind(up_pre) {
                    Some((bv, n)) => {
                        assert(up_pre.skip(n)[0] == up_pre[n]);
                        assert(up_pre.skip(n).skip(1) =~= up_pre.skip(n + 1));
                        assert(ts.upcoming() =~= up_pre.skip(n + 1));
                    },
                    None => {},
                }
            }
        }
    } else {
        proof {
            assert(spec_bind_items_from(Seq::empty(), after) == spec_bind_items_from(
                items@.map_values(|b: Spanned<Bind>| bind_model(b.value)),
                ts.upcoming(),
            ));
            assert(items@.map_values(|b: Spanned<Bind>| bind_model(b.value)) =~= Seq::<
                BindM,
            >::empty());
        }
    }
    proof {
        if ts.upcoming().len() > 0 {
            assert(ts.upcoming().skip(1) =~= ts.upcoming().drop_first());
        }
    }
    match expect_token(ts, TokenType::RSquare) {
        Ok(_) => (),
        Err(d) => {
            return Err(d);
        },
    }
    Ok(items)
}

impl Statement {
    /// Parses one `trigger = bind` or `trigger = [bind, ...]` line.
    #[verifier::rlimit(100)]
    #[verifier::spinoff_prover]
    pub fn parse(ts: &mut TokenStream) -> (r: Result<Statement, Diagnostic>)
        requires
            old(ts).wf(),
        ensures
            ({
                let toks = old(ts).upcoming();
                match spec_parse_statement(toks) {
                    Some((v, rest)) => r matches Ok(x) && trigger_model(x.lhs.value) == v.lhs
                        && x.rhs@.map_values(|b: Spanned<Bind>| bind_model(b.value)) == v.rhs
                        && final(ts).upcoming() == rest && stream_progress(
                        *old(ts),
                        *final(ts),
                    ),
                    None => r matches Err(d) && d.is_error() && stream_intact(
                        *old(ts),
                        *final(ts),
                    ),
                }
            }),
    {
        let ghost toks = old(ts).upcoming();
        let lhs = match Trigger::parse_spanned(ts) {
            Ok(t) => t,
            Err(d) => {
                return Err(d);
            },
        };
        let ghost rest1 = ts.upcoming();
        match expect_token(ts, TokenType::Equals) {
            Ok(_) => (),
            Err(d) => {
                return Err(d);
            },
        }
        proof {
            assert(ts.upcoming() == rest1.skip(1));
        }
        let rhs = if matches!(ts.peek_type(), Some(TokenType::LSquare)) {
            match parse_bind_list(ts) {
                Ok(b) => b,
                Err(d) => {
                    return Err(d);
                },
            }
        } else {
            let b = match Bind::parse_spanned(ts) {
                Ok(b) => b,
                Err(d) => {
                    return Err(d);
                },
            };
            let mut v: Vec<Spanned<Bind>> = Vec::new();
            v.push(b);
            proof {
                match spec_parse_bind(rest1.skip(1)) {
                    Some((bm, n)) => {
                        assert(v@.map_values(|x: Spanned<Bind>| bind_model(x.value)) =~= seq![
                            bm,
                        ]);
                    },
                    None => {},
                }
            }
            v
        };
        Ok(Statement { lhs, rhs })
    }

    /// Parses a statement with its span.
    pub fn parse_spanned(ts: &mut TokenStream) -> (r: Result<Spanned<Statement>, Diagnostic>)
        requires
            old(ts).wf(),
        ensures
            ({
                let toks = old(ts).upcoming();
                match spec_parse_statement(toks) {
                    Some((v, rest)) => r matches Ok(x) && trigger_model(x.value.lhs.value)
                        == v.lhs && x.value.rhs@.map_values(
                        |b: Spanned<Bind>| bind_model(b.value),
                    ) == v.rhs && final(ts).upcoming() == rest && stream_progress(
                        *old(ts),
                        *final(ts),
                    ),
                    None => r matches Err(d) && d.is_error() && stream_intact(
                        *old(ts),
                        *final(ts),
                    ),
                }
            }),
    {
        let start = span_begin(ts);
        match Statement::parse(ts) {
            Ok(v) => {
                let span = span_close(ts, start);
                Ok(Spanned::new(v, span))
            },
            Err(d) => Err(d),
        }
    }
}

impl ConfigEntry {
    /// Parses one `name = value` configuration entry, rejecting unknown
    /// entry names.
    #[verifier::rlimit(100)]
    #[verifier::spinoff_prover]
    pub fn parse(ts: &mut TokenStream) -> (r: Result<ConfigEntry, Diagnostic>)
        requires
            old(ts).wf(),
        ensures
            ({
                let toks = old(ts).upcoming();
                match spec_parse_config_entry(toks) {
                    Some((v, n)) => r matches Ok(x) && config_entry_model(x) == v
                        && consumed_exactly(*old(ts), *final(ts), n),
                    None => r matches Err(d) && d.is_error() && stream_intact(
                        *old(ts),
                        *final(ts),
                    ),
                }
            }),
    {
        let ghost toks = old(ts).upcoming();
        let name_token = match expect_token(ts, TokenType::Variable) {
            Ok(t) => t,
            Err(d) => {
                return Err(d);
            },
        };
        proof {
            assert(ts.upcoming() == toks.skip(1));
            if toks.len() > 1 {
                assert(toks.skip(1)[0] == toks[1]);
            }
        }
        match expect_token(ts, TokenType::Equals) {
            Ok(_) => (),
            Err(d) => {
                return Err(d);
            },
        }
        proof {
            assert(toks.skip(1).skip(1) =~= toks.skip(2));
            assert(ts.upcoming() =~= toks.skip(2));
            if toks.len() > 2 {
                assert(toks.skip(2)[0] == toks[2]);
                assert(toks.skip(2).skip(1) =~= toks.skip(3));
                assert(toks.skip(2).drop_first() =~= toks.skip(3));
            }
            assert(name_token.bytes@ == toks[0].bytes);
        }
        if bytes_is(&name_token.bytes, "default_layer") {
            match parse_string_spanned(ts) {
                Ok(v) => Ok(ConfigEntry::DefaultLayer(v)),
                Err(d) => Err(d),
            }
        } else if bytes_is(&name_token.bytes, "default_behavior") {
            match Behavior::parse_spanned(ts) {
                Ok(v) => Ok(ConfigEntry::DefaultBehavior(v)),
                Err(d) => Err(d),
            }
        } else if bytes_is(&name_token.bytes, "tap_timeout") {
            match parse_integer_spanned(ts) {
                Ok(v) => Ok(ConfigEntry::TapTimeout(v)),
                Err(d) => Err(d),
            }
        } else if bytes_is(&name_token.bytes, "hold_time") {
            match parse_integer_spanned(ts) {
                Ok(v) => Ok(ConfigEntry::HoldTime(v)),
                Err(d) => Err(d),
            }
        } else if bytes_is(&name_token.bytes, "chord_timeout") {
            match parse_integer_spanned(ts) {
                Ok(v) => Ok(ConfigEntry::ChordTimeout(v)),
                Err(d) => Err(d),
            }
        } else if bytes_is(&name_token.bytes, "sequence_timeout") {
            match parse_integer_spanned(ts) {
                Ok(v) => Ok(ConfigEntry::SequenceTimeout(v)),
                Err(d) => Err(d),
            }
        } else if bytes_is(&name_token.bytes, "combo_timeout") {
            match parse_integer_spanned(ts) {
                Ok(v) => Ok(ConfigEntry::ComboTimeout(v)),
                Err(d) => Err(d),
            }
        } else if bytes_is(&name_token.bytes, "advanced") {
            proof {
                if toks.len() > 2 {
                    assert(toks.skip(2).drop_first() =~= toks.skip(3));
                }
            }
            match ts.next() {
                Some(t) => match t.kind() {
                    TokenType::True => Ok(ConfigEntry::Advanced(true)),
                    TokenType::False => Ok(ConfigEntry::Advanced(false)),
                    _ => {
                        let mut label = msg("expected: boolean, found: ");
                        msg_append(&mut label, &msg(t.kind().name()));
                        Err(Diagnostic::new1(
                            DiagKind::UnexpectedToken,
                            Severity::Error,
                            msg("Unexpected token found"),
                            label,
                            t.loc(),
                        ))
                    },
                },
                None => Err(Diagnostic::new1(
                    DiagKind::MissingToken,
                    Severity::Error,
                    msg("Missing expected token"),
                    msg("expected: boolean"),
                    Span::new(ts.src_end(), 0),
                )),
            }
        } else {
            let mut label = msg("invalid config entry ");
            msg_append(&mut label, &name_token.bytes);
            Err(Diagnostic::new1(
                DiagKind::UnknownConfigEntry,
                Severity::Error,
                msg("Unexpected configuration entry"),
                label,
                name_token.loc(),
            ))
        }
    }

    /// Parses a configuration entry with its span.
    pub fn parse_spanned(ts: &mut TokenStream) -> (r: Result<Spanned<ConfigEntry>, Diagnostic>)
        requires
            old(ts).wf(),
        ensures
            ({
                let toks = old(ts).upcoming();
                match spec_parse_config_entry(toks) {
                    Some((v, n)) => r matches Ok(x) && config_entry_model(x.value) == v && x.span
                        == spec_rule_span(toks, n) && consumed_exactly(*old(ts), *final(ts), n),
                    None => r matches Err(d) && d.is_error() && stream_intact(
                        *old(ts),
                        *final(ts),
                    ),
                }
            }),
    {
        let start = span_begin(ts);
        match ConfigEntry::parse(ts) {
            Ok(v) => {
                let span = span_close(ts, start);
                proof {
                    let toks = old(ts).upcoming();
                    match spec_parse_config_entry(toks) {
                        Some((cv, n)) => {
                            assert(toks.skip(n).len() == toks.len() - n);
                            if n < toks.len() {
                                assert(toks.skip(n)[0] == toks[n]);
                            }
                        },
                        None => {},
                    }
                }
                Ok(Spanned::new(v, span))
            },
            Err(d) => Err(d),
        }
    }
}

impl Config {
    /// Parses the `config { ... }` block: one entry per line.
    #[verifier::loop_isolation(false)]
    #[verifier::rlimit(100)]
    #[verifier::spinoff_prover]
    pub fn parse(ts: &mut TokenStream) -> (r: Result<Config, Diagnostic>)
        requires
            old(ts).wf(),
        ensures
            ({
                let toks = old(ts).upcoming();
                match spec_parse_config(toks) {
                    Some((v, rest)) => r matches Ok(x) && x.entries@.map_values(
                        |e: Spanned<ConfigEntry>| config_entry_model(e.value),
                    ) == v && final(ts).upcoming() == rest && stream_progress(
                        *old(ts),
                        *final(ts),
                    ),
                    None => r matches Err(d) && d.is_error() && stream_intact(
                        *old(ts),
                        *final(ts),
                    ),
                }
            }),
    {
        let ghost pre = *old(ts);
        let ghost toks = old(ts).upcoming();
        match expect_token(ts, TokenType::Config) {
            Ok(_) => (),
            Err(d) => {
                return Err(d);
            },
        }
        proof {
            assert(ts.upcoming() == toks.skip(1));
            if toks.len() > 1 {
                assert(toks.skip(1)[0] == toks[1]);
            }
        }
        match expect_token(ts, TokenType::LCurly) {
            Ok(_) => (),
            Err(d) => {
                return Err(d);
            },
        }
        proof {
            assert(toks.skip(1).skip(1) =~= toks.skip(2));
            assert(ts.upcoming() =~= toks.skip(2));
            if toks.len() > 2 {
                assert(toks.skip(2)[0] == toks[2]);
            }
        }
        match expect_token(ts, TokenType::Newline) {
            Ok(_) => (),
            Err(d) => {
                return Err(d);
            },
        }
        proof {
            assert(toks.skip(2).skip(1) =~= toks.skip(3));
            assert(ts.upcoming() =~= toks.skip(3));
        }
        let ghost after = toks.skip(3);
        let mut entries: Vec<Spanned<ConfigEntry>> = Vec::new();
        proof {
            assert(entries@.map_values(|e: Spanned<ConfigEntry>| config_entry_model(e.value))
                =~= Seq::<ConfigEntryM>::empty());
        }
        while !matches!(ts.peek_type(), Some(TokenType::RCurly))
            invariant
                ts.wf(),
                ts.measure() < pre.measure(),
                ts.lexer.bytes@ == pre.lexer.bytes@,
                ts.start_cur == pre.start_cur,
                spec_config_entries_from(Seq::empty(), after) == spec_config_entries_from(
                    entries@.map_values(|e: Spanned<ConfigEntry>| config_entry_model(e.value)),
                    ts.upcoming(),
                ),
                !(ts.upcoming().len() > 0 && ts.upcoming()[0].kind == TokenType::RCurly)
                    || spec_config_entries_from(Seq::empty(), after) == Some(
                    (
                        entries@.map_values(
                            |e: Spanned<ConfigEntry>| config_entry_model(e.value),
                        ),
                        ts.upcoming(),
                    ),
                ),
            decreases ts.measure(),
        {
            let ghost up_pre = ts.upcoming();
            let ghost items_pre = entries@;
            match ConfigEntry::parse_spanned(ts) {
                Ok(e) => entries.push(e),
                Err(d) => {
                    return Err(d);
                },
            }
            proof {
                assert(entries@.map_values(|e: Spanned<ConfigEntry>| config_entry_model(e.value))
                    =~= items_pre.map_values(
                    |e: Spanned<ConfigEntry>| config_entry_model(e.value),
                ).push(config_entry_model(entries@.last().value)));
                match spec_parse_config_entry(up_pre) {
                    Some((ev, n)) => {
                        assert(ts.upcoming() == up_pre.skip(n));
                        if n < up_pre.len() {
                            assert(up_pre.skip(n)[0] == up_pre[n]);
                        }
                    },
                    None => {},
                }
            }
            match expect_token(ts, TokenType::Newline) {
                Ok(_) => (),
                Err(d) => {
                    return Err(d);
                },
            }
            proof {
                match spec_parse_config_entry(up_pre) {
                    Some((ev, n)) => {
                        assert(up_pre.skip(n).skip(1) =~= up_pre.skip(n + 1));
                        assert(ts.upcoming() =~= up_pre.skip(n).skip(1));
                    },
                    None => {},
                }
            }
        }
        proof {
            assert(spec_config_entries_from(Seq::empty(), after) == Some(
                (
                    entries@.map_values(|e: Spanned<ConfigEntry>| config_entry_model(e.value)),
                    ts.upcoming(),
                ),
            ));
            if ts.upcoming().len() > 0 {
                assert(ts.upcoming().skip(1) =~= ts.upcoming().drop_first());
            }
        }
        match expect_token(ts, TokenType::RCurly) {
            Ok(_) => (),
            Err(d) => {
                return Err(d);
            },
        }
        Ok(Config { entries })
    }

    /// Parses the configuration block with its span.
    pub fn parse_spanned(ts: &mut TokenStream) -> (r: Result<Spanned<Config>, Diagnostic>)
        requires
            old(ts).wf(),
        ensures
            ({
                let toks = old(ts).upcoming();
                match spec_parse_config(toks) {
                    Some((v, rest)) => r matches Ok(x) && x.value.entries@.map_values(
                        |e: Spanned<ConfigEntry>| config_entry_model(e.value),
                    ) == v && final(ts).upcoming() == rest && stream_progress(
                        *old(ts),
                        *final(ts),
                    ),
                    None => r matches Err(d) && d.is_error() && stream_intact(
                        *old(ts),
                        *final(ts),
                    ),
                }
            }),
    {
        let start = span_begin(ts);
        match Config::parse(ts) {
            Ok(v) => {
                let span = span_close(ts, start);
                Ok(Spanned::new(v, span))
            },
            Err(d) => Err(d),
        }
    }
}

impl Layer {
    /// Parses one `layer "name" { ... }` block: one statement per line.
    #[verifier::loop_isolation(false)]
    #[verifier::rlimit(100)]
    #[verifier::spinoff_prover]
    pub fn parse(ts: &mut TokenStream) -> (r: Result<Layer, Diagnostic>)
        requires
            old(ts).wf(),
        ensures
            ({
                let toks = old(ts).upcoming();
                match spec_parse_layer(toks) {
                    Some((v, rest)) => r matches Ok(x) && layer_model(x) == v
                        && final(ts).upcoming() == rest && stream_progress(
                        *old(ts),
                        *final(ts),
                    ),
                    None => r matches Err(d) && d.is_error() && stream_intact(
                        *old(ts),
                        *final(ts),
                    ),
                }
            }),
    {
        let ghost pre = *old(ts);
        let ghost toks = old(ts).upcoming();
        match expect_token(ts, TokenType::Layer) {
            Ok(_) => (),
            Err(d) => {
                return Err(d);
            },
        }
        proof {
            assert(ts.upcoming() == toks.skip(1));
        }
        let name = match parse_string_spanned(ts) {
            Ok(n) => n,
            Err(d) => {
                return Err(d);
            },
        };
        proof {
            assert(toks.skip(1).skip(1) =~= toks.skip(2));
            assert(ts.upcoming() =~= toks.skip(2));
            if toks.len() > 2 {
                assert(toks.skip(2)[0] == toks[2]);
            }
            if toks.len() > 3 {
                assert(toks.skip(2)[1] == toks[3]);
            }
        }
        match expect_token(ts, TokenType::LCurly) {
            Ok(_) => (),
            Err(d) => {
                return Err(d);
            },
        }
        proof {
            assert(toks.skip(2).skip(1) =~= toks.skip(3));
            assert(ts.upcoming() =~= toks.skip(3));
        }
        match expect_token(ts, TokenType::Newline) {
            Ok(_) => (),
            Err(d) => {
                return Err(d);
            },
        }
        proof {
            assert(toks.skip(3).skip(1) =~= toks.skip(4));
            assert(ts.upcoming() =~= toks.skip(4));
            assert(toks.skip(2).skip(2) =~= toks.skip(4));
        }
        let ghost after = toks.skip(4);
        let mut statements: Vec<Spanned<Statement>> = Vec::new();
        proof {
            assert(statements@.map_values(
                |s: Spanned<Statement>| StatementM {
                    lhs: trigger_model(s.value.lhs.value),
                    rhs: s.value.rhs@.map_values(|b: Spanned<Bind>| bind_model(b.value)),
                },
            ) =~= Seq::<StatementM>::empty());
        }
        while !matches!(ts.peek_type(), Some(TokenType::RCurly))
            invariant
                ts.wf(),
                ts.measure() < pre.measure(),
                ts.lexer.bytes@ == pre.lexer.bytes@,
                ts.start_cur == pre.start_cur,
                spec_layer_stmts_from(Seq::empty(), after) == spec_layer_stmts_from(
                    statements@.map_values(
                        |s: Spanned<Statement>| StatementM {
                            lhs: trigger_model(s.value.lhs.value),
                            rhs: s.value.rhs@.map_values(
                                |b: Spanned<Bind>| bind_model(b.value),
                            ),
                        },
                    ),
                    ts.upcoming(),
                ),
                !(ts.upcoming().len() > 0 && ts.upcoming()[0].kind == TokenType::RCurly)
                    || spec_layer_stmts_from(Seq::empty(), after) == Some(
                    (
                        statements@.map_values(
                            |s: Spanned<Statement>| StatementM {
                                lhs: trigger_model(s.value.lhs.value),
                                rhs: s.value.rhs@.map_values(
                                    |b: Spanned<Bind>| bind_model(b.value),
                                ),
                            },
                        ),
                        ts.upcoming(),
                    ),
                ),
            decreases ts.measure(),
        {
            let ghost up_pre = ts.upcoming();
            let ghost items_pre = statements@;
            match Statement::parse_spanned(ts) {
                Ok(s) => statements.push(s),
                Err(d) => {
                    return Err(d);
                },
            }
            proof {
                let m = |s: Spanned<Statement>| StatementM {
                    lhs: trigger_model(s.value.lhs.value),
                    rhs: s.value.rhs@.map_values(|b: Spanned<Bind>| bind_model(b.value)),
                };
                assert(statements@.map_values(m) =~= items_pre.map_values(m).push(
                    m(statements@.last()),
                ));
            }
            match expect_token(ts, TokenType::Newline) {
                Ok(_) => (),
                Err(d) => {
                    return Err(d);
                },
            }
            proof {
                match spec_parse_statement(up_pre) {
                    Some((sv, rest)) => {
                        assert(ts.upcoming() =~= rest.skip(1));
                    },
                    None => {},
                }
            }
        }
        proof {
            assert(spec_layer_stmts_from(Seq::empty(), after) == Some(
                (
                    statements@.map_values(
                        |s: Spanned<Statement>| StatementM {
                            lhs: trigger_model(s.value.lhs.value),
                            rhs: s.value.rhs@.map_values(|b: Spanned<Bind>| bind_model(b.value)),
                        },
                    ),
                    ts.upcoming(),
                ),
            ));
            if ts.upcoming().len() > 0 {
                assert(ts.upcoming().skip(1) =~= ts.upcoming().drop_first());
            }
        }
        match expect_token(ts, TokenType::RCurly) {
            Ok(_) => (),
            Err(d) => {
                return Err(d);
            },
        }
        Ok(Layer { name, statements })
    }

    /// Parses a layer with its span.
    pub fn parse_spanned(ts: &mut TokenStream) -> (r: Result<Spanned<Layer>, Diagnostic>)
        requires
            old(ts).wf(),
        ensures
            ({
                let toks = old(ts).upcoming();
                match spec_parse_layer(toks) {
                    Some((v, rest)) => r matches Ok(x) && layer_model(x.value) == v
                        && final(ts).upcoming() == rest && stream_progress(
                        *old(ts),
                        *final(ts),
                    ),
                    None => r matches Err(d) && d.is_error() && stream_intact(
                        *old(ts),
                        *final(ts),
                    ),
                }
            }),
    {
        let start = span_begin(ts);
        match Layer::parse(ts) {
            Ok(v) => {
                let span = span_close(ts, start);
                Ok(Spanned::new(v, span))
            },
            Err(d) => Err(d),
        }
    }
}

impl Profile {
    /// Parses a whole profile: the `profile` line, the configuration block,
    /// and every layer block until the end of input.
    #[verifier::loop_isolation(false)]
    #[verifier::rlimit(100)]
    #[verifier::spinoff_prover]
    pub fn parse(ts: &mut TokenStream) -> (r: Result<Profile, Diagnostic>)
        requires
            old(ts).wf(),
        ensures
            ({
                let toks = old(ts).upcoming();
                match spec_parse_profile(toks) {
                    Some(m) => r matches Ok(p) && profile_model(p) == m
                        && final(ts).upcoming().len() == 0 && stream_intact(
                        *old(ts),
                        *final(ts),
                    ),
                    None => r matches Err(d) && d.is_error() && stream_intact(
                        *old(ts),
                        *final(ts),
                    ),
                }
            }),
    {
        let ghost pre = *old(ts);
        let ghost toks = old(ts).upcoming();
        if matches!(ts.peek_type(), Some(TokenType::Newline)) {
            match expect_token(ts, TokenType::Newline) {
                Ok(_) => (),
                Err(d) => {
                    return Err(d);
                },
            }
        }
        let ghost t1 = ts.upcoming();
        match expect_token(ts, TokenType::Profile) {
            Ok(_) => (),
            Err(d) => {
                return Err(d);
            },
        }
        proof {
            assert(ts.upcoming() == t1.skip(1));
        }
        let name = match parse_string_spanned(ts) {
            Ok(n) => n,
            Err(d) => {
                return Err(d);
            },
        };
        proof {
            assert(t1.skip(1).skip(1) =~= t1.skip(2));
            assert(ts.upcoming() =~= t1.skip(2));
            if t1.len() > 2 {
                assert(t1.skip(2)[0] == t1[2]);
            }
        }
        match expect_token(ts, TokenType::Newline) {
            Ok(_) => (),
            Err(d) => {
                return Err(d);
            },
        }
        proof {
            assert(t1.skip(2).skip(1) =~= t1.skip(3));
            assert(ts.upcoming() =~= t1.skip(3));
        }
        let config = match Config::parse_spanned(ts) {
            Ok(c) => c,
            Err(d) => {
                return Err(d);
            },
        };
        let ghost rest2 = ts.upcoming();
        match expect_token(ts, TokenType::Newline) {
            Ok(_) => (),
            Err(d) => {
                return Err(d);
            },
        }
        proof {
            assert(ts.upcoming() == rest2.skip(1));
        }
        let ghost after = rest2.skip(1);
        let mut layers: Vec<Spanned<Layer>> = Vec::new();
        proof {
            assert(layers@.map_values(|l: Spanned<Layer>| layer_model(l.value)) =~= Seq::<
                LayerM,
            >::empty());
        }
        loop
            invariant
                ts.wf(),
                ts.measure() < pre.measure(),
                ts.lexer.bytes@ == pre.lexer.bytes@,
                ts.start_cur == pre.start_cur,
                spec_profile_layers_from(Seq::empty(), after) == spec_profile_layers_from(
                    layers@.map_values(|l: Spanned<Layer>| layer_model(l.value)),
                    ts.upcoming(),
                ),
            decreases ts.measure(),
        {
            if matches!(ts.peek_type(), None::<TokenType>) {
                proof {
                    assert(ts.upcoming().len() == 0);
                }
                break;
            }
            let ghost up_pre = ts.upcoming();
            let ghost items_pre = layers@;
            match Layer::parse_spanned(ts) {
                Ok(l) => layers.push(l),
                Err(d) => {
                    return Err(d);
                },
            }
            proof {
                assert(layers@.map_values(|l: Spanned<Layer>| layer_model(l.value))
                    =~= items_pre.map_values(|l: Spanned<Layer>| layer_model(l.value)).push(
                    layer_model(layers@.last().value),
                ));
            }
            if matches!(ts.peek_type(), None::<TokenType>) {
                proof {
                    assert(ts.upcoming().len() == 0);
                }
                break;
            }
            match expect_token(ts, TokenType::Newline) {
                Ok(_) => (),
                Err(d) => {
                    return Err(d);
                },
            }
            proof {
                match spec_parse_layer(up_pre) {
                    Some((lv, rest)) => {
                        assert(ts.upcoming() =~= rest.skip(1));
                    },
                    None => {},
                }
            }
        }
        proof {
            assert(spec_profile_layers_from(Seq::empty(), after) == Some(
                layers@.map_values(|l: Spanned<Layer>| layer_model(l.value)),
            ));
        }
        let p = Profile { name, config, layers };
        proof {
            match spec_parse_profile(toks) {
                Some(m) => {
                    assert(profile_model(p) =~~= m);
                },
                None => {},
            }
        }
        Ok(p)
    }
}

} // verus!
