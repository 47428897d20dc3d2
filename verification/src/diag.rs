//! Diagnostic data produced by the pipeline.
//!
//! Only the data shape matters here: a severity, a machine-readable kind, a
//! human-readable message, and labeled source ranges. Rendering diagnostics
//! to a terminal is a caller's concern.

use crate::utils::Span;
use vstd::prelude::*;
use vstd::string::StringSliceAdditionalSpecFns;

verus! {

/// How serious a diagnostic is. Only errors make a profile invalid.
#[derive(Clone, Copy, Debug, PartialEq, Eq, Structural)]
pub enum Severity {
    Error,
    Warning,
}

/// The machine-readable category of a diagnostic.
#[derive(Clone, Copy, Debug, PartialEq, Eq, Structural)]
pub enum DiagKind {
    /// A string literal is not closed before the end of its line.
    UnterminatedString,
    /// A byte that can never appear in a profile (carriage return, high bit set).
    InvalidCharacter,
    /// A byte outside the recognized token set.
    UnexpectedCharacter,
    /// A token of the wrong kind where another was expected.
    UnexpectedToken,
    /// The input ended where a token was expected.
    MissingToken,
    /// Text that does not name a physical key.
    InvalidKey,
    /// An integer literal that does not fit the target type.
    IntegerOutOfRange,
    /// A configuration entry name that is not recognized.
    UnknownConfigEntry,
    /// A configuration entry kind that appears more than once.
    DuplicateConfigEntry,
    /// A timeout at or above the recommended threshold.
    LargeTimeout,
    /// The configured default layer names no existing layer.
    MissingDefaultLayer,
    /// A profile with no layers at all.
    EmptyProfile,
    /// Two layers with the same name.
    DuplicateLayer,
    /// A switch-layer bind naming no existing layer.
    UnknownLayer,
    /// A layer that no chain of switch-layer binds can reach.
    UnreachableLayer,
    /// A composite trigger that desugars to no key event at all.
    EmptySequence,
    /// Two statements whose compiled trigger paths collide.
    ConflictingStatements,
}

/// A message attached to a span of the source.
#[derive(Clone, Debug)]
pub struct Label {
    pub message: Vec<u8>,
    pub span: Span,
}

/// One diagnostic: severity, kind, message and labeled source ranges.
#[derive(Clone, Debug)]
pub struct Diagnostic {
    pub kind: DiagKind,
    pub severity: Severity,
    pub message: Vec<u8>,
    pub labels: Vec<Label>,
    pub help: Option<Vec<u8>>,
}

/// The contract-relevant shape of a diagnostic: its kind, severity and the
/// spans it points at (messages are free-form text).
pub struct DiagSig {
    pub kind: DiagKind,
    pub severity: Severity,
    pub spans: Seq<Span>,
}

impl Diagnostic {
    /// The contract-relevant shape of this diagnostic.
    pub open spec fn sig(&self) -> DiagSig {
        DiagSig {
            kind: self.kind,
            severity: self.severity,
            spans: self.labels@.map_values(|l: Label| l.span),
        }
    }

    /// Whether this diagnostic is an error (as opposed to a warning).
    pub open spec fn is_error(&self) -> bool {
        self.severity == Severity::Error
    }

    /// A diagnostic with no labels.
    pub fn new0(kind: DiagKind, severity: Severity, message: Vec<u8>) -> (d: Diagnostic)
        ensures
            d.sig() == (DiagSig { kind, severity, spans: Seq::<Span>::empty() }),
    {
        let d = Diagnostic { kind, severity, message, labels: Vec::new(), help: None };
        proof {
            assert(d.sig().spans =~= Seq::<Span>::empty());
        }
        d
    }

    /// A diagnostic with one labeled span.
    pub fn new1(
        kind: DiagKind,
        severity: Severity,
        message: Vec<u8>,
        label: Vec<u8>,
        span: Span,
    ) -> (d: Diagnostic)
        ensures
            d.sig() == (DiagSig { kind, severity, spans: seq![span] }),
    {
        let mut labels: Vec<Label> = Vec::new();
        labels.push(Label { message: label, span });
        let d = Diagnostic { kind, severity, message, labels, help: None };
        proof {
            assert(d.sig().spans =~= seq![span]);
        }
        d
    }

    /// A diagnostic with two labeled spans.
    pub fn new2(
        kind: DiagKind,
        severity: Severity,
        message: Vec<u8>,
        label_a: Vec<u8>,
        span_a: Span,
        label_b: Vec<u8>,
        span_b: Span,
    ) -> (d: Diagnostic)
        ensures
            d.sig() == (DiagSig { kind, severity, spans: seq![span_a, span_b] }),
    {
        let mut labels: Vec<Label> = Vec::new();
        labels.push(Label { message: label_a, span: span_a });
        labels.push(Label { message: label_b, span: span_b });
        let d = Diagnostic { kind, severity, message, labels, help: None };
        proof {
            assert(d.sig().spans =~= seq![span_a, span_b]);
        }
        d
    }
}

/// The bytes of a message text.
pub fn msg(s: &str) -> (r: Vec<u8>)
    ensures
        r@ == s.spec_bytes(),
{
    vstd::slice::slice_to_vec(s.as_bytes())
}

/// Appends one message to another, separated by nothing.
pub fn msg_append(m: &mut Vec<u8>, tail: &Vec<u8>)
    ensures
        final(m)@ == old(m)@ + tail@,
{
    m.extend_from_slice(tail.as_slice());
}

/// The decimal digits of a number, most significant first: the unique digit
/// string without leading zeros (one `0` for zero itself) whose value is the
/// number.
pub fn msg_number(n: usize) -> (r: Vec<u8>)
    ensures
        r@.len() > 0,
        crate::parse::all_digits(r@),
        crate::parse::spec_digits_value(r@) == n,
        r@[0] != '0' as u8 || r@.len() == 1,
{
    let mut digits: Vec<u8> = Vec::new();
    let mut rest: usize = n;
    digits.push((rest % 10) as u8 + '0' as u8);
    proof {
        reveal_with_fuel(spec_digits_rev_value, 2);
        reveal_with_fuel(pow10, 2);
        assert(digits@.len() == 1);
        assert(digits@.drop_first() =~= Seq::<u8>::empty());
        assert(pow10(1nat) == 10);
        assert(spec_digits_rev_value(digits@) == n % 10);
        assert(n % 10 + 10 * (n / 10) == n);
        assert(crate::lex::is_digit_byte(digits@[0]));
    }
    rest = rest / 10;
    while rest > 0
        invariant
            digits@.len() > 0,
            crate::parse::all_digits(digits@),
            spec_digits_rev_value(digits@) + rest * pow10(digits@.len() as nat) == n,
            rest > 0 || digits@[digits@.len() - 1] != '0' as u8 || digits@.len() == 1,
        decreases rest,
    {
        let ghost digits_pre = digits@;
        let ghost rest_pre = rest as int;
        digits.push((rest % 10) as u8 + '0' as u8);
        rest = rest / 10;
        proof {
            lemma_digits_rev_push(digits_pre, ((rest_pre % 10) as u8 + '0' as u8) as u8);
            assert(rest_pre % 10 + 10 * (rest_pre / 10) == rest_pre) by (nonlinear_arith)
                requires
                    rest_pre > 0,
            {
            }
            assert((rest_pre % 10) * pow10(digits_pre.len() as nat) + (rest_pre / 10) * (10 * pow10(
                digits_pre.len() as nat,
            )) == rest_pre * pow10(digits_pre.len() as nat)) by (nonlinear_arith)
                requires
                    rest_pre > 0,
            {
            }
        }
    }
    let mut r: Vec<u8> = Vec::new();
    let mut i: usize = digits.len();
    while i > 0
        invariant
            i <= digits@.len(),
            r@ =~= digits@.subrange(i as int, digits@.len() as int).reverse(),
        decreases i,
    {
        i = i - 1;
        r.push(digits[i]);
        proof {
            assert(r@ =~= digits@.subrange(i as int, digits@.len() as int).reverse());
        }
    }
    proof {
        assert(r@ =~= digits@.reverse());
        lemma_digits_rev_reverse(digits@);
        assert(crate::parse::spec_digits_value(r@) == spec_digits_rev_value(digits@));
        assert(r@[0] == digits@[digits@.len() - 1]);
    }
    r
}

/// Ten to the given power.
pub open spec fn pow10(k: nat) -> int
    decreases k,
{
    if k == 0 {
        1
    } else {
        10 * pow10((k - 1) as nat)
    }
}

/// The value of a digit string written least significant digit first.
pub open spec fn spec_digits_rev_value(s: Seq<u8>) -> int
    decreases s.len(),
{
    if s.len() == 0 {
        0
    } else {
        (s.first() - ('0' as u8)) + 10 * spec_digits_rev_value(s.drop_first())
    }
}

/// Appending a digit adds its value at the next power of ten.
proof fn lemma_digits_rev_push(s: Seq<u8>, d: u8)
    ensures
        spec_digits_rev_value(s.push(d)) == spec_digits_rev_value(s) + (d - ('0' as u8)) * pow10(
            s.len() as nat,
        ),
    decreases s.len(),
{
    reveal_with_fuel(spec_digits_rev_value, 2);
    if s.len() == 0 {
        assert(s.push(d).first() == d);
        assert(s.push(d).drop_first() =~= Seq::<u8>::empty());
    } else {
        assert(s.push(d).first() == s.first());
        assert(s.push(d).drop_first() =~= s.drop_first().push(d));
        lemma_digits_rev_push(s.drop_first(), d);
        assert((d - ('0' as u8)) * pow10(s.len() as nat) == 10 * ((d - ('0' as u8)) * pow10(
            (s.len() - 1) as nat,
        ))) by (nonlinear_arith)
            requires
                pow10(s.len() as nat) == 10 * pow10((s.len() - 1) as nat),
        {
        }
    }
}

/// Reversing a least-significant-first digit string gives the usual
/// most-significant-first value.
proof fn lemma_digits_rev_reverse(s: Seq<u8>)
    ensures
        crate::parse::spec_digits_value(s.reverse()) == spec_digits_rev_value(s),
    decreases s.len(),
{
    reveal_with_fuel(spec_digits_rev_value, 2);
    if s.len() > 0 {
        lemma_digits_rev_reverse(s.drop_first());
        assert(s.reverse().drop_last() =~= s.drop_first().reverse());
        assert(s.reverse().last() == s.first());
    }
}

/// The contract-relevant shapes of a list of diagnostics.
pub open spec fn sigs(ds: Seq<Diagnostic>) -> Seq<DiagSig> {
    ds.map_values(|d: Diagnostic| d.sig())
}

/// How many of the diagnostics are errors.
pub open spec fn spec_error_count(ds: Seq<Diagnostic>) -> nat {
    ds.filter(|d: Diagnostic| d.is_error()).len()
}

/// Whether any of the diagnostics is an error.
pub open spec fn has_error(ds: Seq<Diagnostic>) -> bool {
    exists|i: int| 0 <= i < ds.len() && ds[i].is_error()
}

/// Counts the error-severity diagnostics in a list.
pub fn count_errors(ds: &Vec<Diagnostic>) -> (n: usize)
    ensures
        n == spec_error_count(ds@),
        (n > 0) == has_error(ds@),
{
    let mut n: usize = 0;
    let mut i: usize = 0;
    proof {
        assert(ds@.take(0int).filter(|d: Diagnostic| d.is_error()) =~= Seq::<
            Diagnostic,
        >::empty());
    }
    while i < ds.len()
        invariant
            0 <= i <= ds@.len(),
            n == ds@.take(i as int).filter(|d: Diagnostic| d.is_error()).len(),
            n <= i,
        decreases ds@.len() - i,
    {
        proof {
            assert(ds@.take(i + 1int).drop_last() =~= ds@.take(i as int));
            reveal_with_fuel(Seq::filter, 2);
            assert(ds@.take(i + 1int).last() == ds@[i as int]);
        }
        if matches!(ds[i].severity, Severity::Error) {
            n = n + 1;
        }
        i = i + 1;
    }
    proof {
        assert(ds@.take(ds@.len() as int) =~= ds@);
        if n > 0 {
            lemma_filter_error_nonempty(ds@);
        }
        if has_error(ds@) {
            let j = choose|j: int| 0 <= j < ds@.len() && ds@[j].is_error();
            lemma_error_filter_count(ds@, j);
        }
    }
    n
}

/// If the error filter of a list is nonempty, the list has an error.
proof fn lemma_filter_error_nonempty(ds: Seq<Diagnostic>)
    requires
        ds.filter(|d: Diagnostic| d.is_error()).len() > 0,
    ensures
        has_error(ds),
    decreases ds.len(),
{
    reveal_with_fuel(Seq::filter, 2);
    if ds.len() > 0 {
        if ds.last().is_error() {
            assert(ds[ds.len() - 1].is_error());
        } else {
            lemma_filter_error_nonempty(ds.drop_last());
            let j = choose|j: int| 0 <= j < ds.drop_last().len() && ds.drop_last()[j].is_error();
            assert(ds[j].is_error());
        }
    }
}

/// If some element of a list is an error, the error filter is nonempty.
proof fn lemma_error_filter_count(ds: Seq<Diagnostic>, j: int)
    requires
        0 <= j < ds.len(),
        ds[j].is_error(),
    ensures
        ds.filter(|d: Diagnostic| d.is_error()).len() > 0,
    decreases ds.len(),
{
    reveal_with_fuel(Seq::filter, 2);
    if j == ds.len() - 1 {
        assert(ds.last().is_error());
    } else {
        lemma_error_filter_count(ds.drop_last(), j);
    }
}

} // verus!
