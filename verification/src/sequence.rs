//! Sequencing combinators: transforming a value, running parsers in a row, and
//! demanding that the whole input is accounted for.
//!
//! None of these combinators backtracks: when a later parser in a row fails
//! after an earlier one consumed input, that consumption is permanent. Callers
//! who need rollback wrap the relevant part in `maybe`, `not` or `peek`.

use vstd::prelude::*;
use crate::parser::{ParseResult, Parser, consumes_suffix, empty, lemma_suffix_trans};

verus! {

/// A transformation of produced values. `spec_apply` is the transformation as
/// a mathematical function over the views of the two value types; `apply`
/// computes it.
pub trait Transform {
    /// The type of values taken.
    type In: DeepView;

    /// The type of values produced.
    type Out: DeepView;

    /// The transformation, at the specification level.
    spec fn spec_apply(&self, v: <Self::In as DeepView>::V) -> <Self::Out as DeepView>::V;

    /// Transform one value.
    fn apply(&self, v: Self::In) -> (r: Self::Out)
        ensures
            r.deep_view() == self.spec_apply(v.deep_view()),
    ;
}

/// The transformation that maps a byte sequence to how many bytes it holds.
pub struct LengthOf;

impl Transform for LengthOf {
    type In = Vec<u8>;

    type Out = usize;

    open spec fn spec_apply(&self, v: Seq<u8>) -> usize {
        v.len() as usize
    }

    fn apply(&self, v: Vec<u8>) -> (r: usize) {
        proof {
            assert(v.deep_view().len() == v@.len());
        }
        v.len()
    }
}

/// Applies a parser and transforms its value on success; the remaining input,
/// and any failure, pass through unchanged.
pub struct Mapped<P, F> {
    pub parser: P,
    pub transform: F,
}

impl<P: Parser, F: Transform<In = P::Out>> Parser for Mapped<P, F> {
    type Out = F::Out;

    open spec fn ok(&self, s: Seq<u8>) -> bool {
        self.parser.ok(s)
    }

    open spec fn rem(&self, s: Seq<u8>) -> Seq<u8> {
        self.parser.rem(s)
    }

    open spec fn val(&self, s: Seq<u8>) -> <F::Out as DeepView>::V {
        self.transform.spec_apply(self.parser.val(s))
    }

    fn parse<'a>(&self, input: &'a [u8]) -> (r: ParseResult<'a, F::Out>) {
        match self.parser.parse(input) {
            Ok((rest, value)) => Ok((rest, self.transform.apply(value))),
            Err(e) => Err(e),
        }
    }
}

/// Builds the parser that applies `parser` and transforms its value with `f`.
pub fn map<P: Parser, F: Transform<In = P::Out>>(parser: P, f: F) -> (p: Mapped<P, F>)
    ensures
        p.parser == parser,
        p.transform == f,
{
    Mapped { parser, transform: f }
}

/// Runs two parsers in a row and keeps only the second value.
pub struct Prefixed<P1, P2> {
    pub prefix: P1,
    pub parser: P2,
}

impl<P1: Parser, P2: Parser> Parser for Prefixed<P1, P2> {
    type Out = P2::Out;

    open spec fn ok(&self, s: Seq<u8>) -> bool {
        self.prefix.ok(s) && self.parser.ok(self.prefix.rem(s))
    }

    open spec fn rem(&self, s: Seq<u8>) -> Seq<u8> {
        self.parser.rem(self.prefix.rem(s))
    }

    open spec fn val(&self, s: Seq<u8>) -> <P2::Out as DeepView>::V {
        self.parser.val(self.prefix.rem(s))
    }

    fn parse<'a>(&self, input: &'a [u8]) -> (r: ParseResult<'a, P2::Out>) {
        let rest = match self.prefix.parse(input) {
            Ok(t) => t.0,
            Err(e) => {
                return Err(e);
            },
        };
        match self.parser.parse(rest) {
            Ok(t) => Ok(t),
            Err(e) => Err(e),
        }
    }
}

/// Builds the parser that applies `prefix`, then `parser`, and produces only
/// `parser`'s value; it fails as soon as either fails.
pub fn prefixed<P1: Parser, P2: Parser>(prefix: P1, parser: P2) -> (p: Prefixed<P1, P2>)
    ensures
        p.prefix == prefix,
        p.parser == parser,
{
    Prefixed { prefix, parser }
}

/// Runs two parsers in a row and keeps only the first value.
pub struct Suffixed<P1, P2> {
    pub parser: P1,
    pub suffix: P2,
}

impl<P1: Parser, P2: Parser> Parser for Suffixed<P1, P2> {
    type Out = P1::Out;

    open spec fn ok(&self, s: Seq<u8>) -> bool {
        self.parser.ok(s) && self.suffix.ok(self.parser.rem(s))
    }

    open spec fn rem(&self, s: Seq<u8>) -> Seq<u8> {
        self.suffix.rem(self.parser.rem(s))
    }

    open spec fn val(&self, s: Seq<u8>) -> <P1::Out as DeepView>::V {
        self.parser.val(s)
    }

    fn parse<'a>(&self, input: &'a [u8]) -> (r: ParseResult<'a, P1::Out>) {
        let (rest, value) = match self.parser.parse(input) {
            Ok(t) => t,
            Err(e) => {
                return Err(e);
            },
        };
        match self.suffix.parse(rest) {
            Ok(t) => Ok((t.0, value)),
            Err(e) => Err(e),
        }
    }
}

/// Builds the parser that applies `parser`, then `suffix`, and produces only
/// `parser`'s value; it fails as soon as either fails.
pub fn suffixed<P1: Parser, P2: Parser>(parser: P1, suffix: P2) -> (p: Suffixed<P1, P2>)
    ensures
        p.parser == parser,
        p.suffix == suffix,
{
    Suffixed { parser, suffix }
}

/// Runs three parsers strictly in order over the shrinking input and keeps the
/// first and third values, discarding the middle one.
pub struct Divided<L, M, R> {
    pub left: L,
    pub middle: M,
    pub right: R,
}

impl<L: Parser, M: Parser, R: Parser> Parser for Divided<L, M, R> {
    type Out = (L::Out, R::Out);

    open spec fn ok(&self, s: Seq<u8>) -> bool {
        &&& self.left.ok(s)
        &&& self.middle.ok(self.left.rem(s))
        &&& self.right.ok(self.middle.rem(self.left.rem(s)))
    }

    open spec fn rem(&self, s: Seq<u8>) -> Seq<u8> {
        self.right.rem(self.middle.rem(self.left.rem(s)))
    }

    open spec fn val(&self, s: Seq<u8>) -> (<L::Out as DeepView>::V, <R::Out as DeepView>::V) {
        (self.left.val(s), self.right.val(self.middle.rem(self.left.rem(s))))
    }

    fn parse<'a>(&self, input: &'a [u8]) -> (r: ParseResult<'a, (L::Out, R::Out)>) {
        let (rest, v1) = match self.left.parse(input) {
            Ok(t) => t,
            Err(e) => {
                return Err(e);
            },
        };
        let rest = match self.middle.parse(rest) {
            Ok(t) => t.0,
            Err(e) => {
                return Err(e);
            },
        };
        match self.right.parse(rest) {
            Ok(t) => Ok((t.0, (v1, t.1))),
            Err(e) => Err(e),
        }
    }
}

/// Builds the parser that applies `left`, `middle` and `right` in order and
/// produces the pair of `left`'s and `right`'s values; it fails at the first
/// failing part, and consumption up to that point is not undone.
pub fn divided<L: Parser, M: Parser, R: Parser>(left: L, middle: M, right: R) -> (p: Divided<
    L,
    M,
    R,
>)
    ensures
        p.left == left,
        p.middle == middle,
        p.right == right,
{
    Divided { left, middle, right }
}

/// Applies a parser and then requires that nothing of the input remains.
pub struct FullyConsumed<P> {
    pub parser: P,
}

impl<P: Parser> Parser for FullyConsumed<P> {
    type Out = P::Out;

    open spec fn ok(&self, s: Seq<u8>) -> bool {
        self.parser.ok(s) && self.parser.rem(s).len() == 0
    }

    open spec fn rem(&self, s: Seq<u8>) -> Seq<u8> {
        self.parser.rem(s)
    }

    open spec fn val(&self, s: Seq<u8>) -> <P::Out as DeepView>::V {
        self.parser.val(s)
    }

    fn parse<'a>(&self, input: &'a [u8]) -> (r: ParseResult<'a, P::Out>) {
        let (rest, value) = match self.parser.parse(input) {
            Ok(t) => t,
            Err(e) => {
                return Err(e);
            },
        };
        match empty(rest) {
            Ok(_) => Ok((rest, value)),
            Err(e) => Err(e),
        }
    }
}

/// Builds the parser that succeeds exactly when `parser` succeeds and accounts
/// for the whole input, leaving nothing unconsumed.
pub fn fully_consumed<P: Parser>(parser: P) -> (p: FullyConsumed<P>)
    ensures
        p.parser == parser,
{
    FullyConsumed { parser }
}

/// When a parser leaves suffixes, so does the same parser with its value
/// transformed.
pub proof fn lemma_mapped_consumes_suffix<P: Parser, F: Transform<In = P::Out>>(p: &Mapped<P, F>)
    requires
        consumes_suffix(&p.parser),
    ensures
        consumes_suffix(p),
{
}

/// When both parts leave suffixes, a [`Prefixed`] pair leaves suffixes.
pub proof fn lemma_prefixed_consumes_suffix<P1: Parser, P2: Parser>(p: &Prefixed<P1, P2>)
    requires
        consumes_suffix(&p.prefix),
        consumes_suffix(&p.parser),
    ensures
        consumes_suffix(p),
{
    assert forall|s: Seq<u8>| p.ok(s) implies (#[trigger] p.rem(s)).is_suffix_of(s) by {
        lemma_suffix_trans(p.rem(s), p.prefix.rem(s), s);
    }
}

/// When both parts leave suffixes, a [`Suffixed`] pair leaves suffixes.
pub proof fn lemma_suffixed_consumes_suffix<P1: Parser, P2: Parser>(p: &Suffixed<P1, P2>)
    requires
        consumes_suffix(&p.parser),
        consumes_suffix(&p.suffix),
    ensures
        consumes_suffix(p),
{
    assert forall|s: Seq<u8>| p.ok(s) implies (#[trigger] p.rem(s)).is_suffix_of(s) by {
        lemma_suffix_trans(p.rem(s), p.parser.rem(s), s);
    }
}

/// When all three parts leave suffixes, a [`Divided`] triple leaves suffixes.
pub proof fn lemma_divided_consumes_suffix<L: Parser, M: Parser, R: Parser>(p: &Divided<L, M, R>)
    requires
        consumes_suffix(&p.left),
        consumes_suffix(&p.middle),
        consumes_suffix(&p.right),
    ensures
        consumes_suffix(p),
{
    assert forall|s: Seq<u8>| p.ok(s) implies (#[trigger] p.rem(s)).is_suffix_of(s) by {
        lemma_suffix_trans(p.middle.rem(p.left.rem(s)), p.left.rem(s), s);
        lemma_suffix_trans(p.rem(s), p.middle.rem(p.left.rem(s)), s);
    }
}

/// When the wrapped parser leaves suffixes, [`FullyConsumed`] leaves suffixes.
pub proof fn lemma_fully_consumed_consumes_suffix<P: Parser>(p: &FullyConsumed<P>)
    requires
        consumes_suffix(&p.parser),
    ensures
        consumes_suffix(p),
{
}

} // verus!
