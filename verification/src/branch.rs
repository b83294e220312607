//! Optionality, negation, lookahead, and ordered alternation.
//!
//! These are the only combinators that restore the original input: `maybe` on
//! its failure path, and `not` and `peek` always.

use vstd::prelude::*;
use crate::parser::{ParseResult, Parser, consumes_suffix};

verus! {

/// Applies a parser; a success keeps its value and remaining input, a failure
/// turns into a success with no value and the original, unconsumed input.
pub struct Maybe<P> {
    pub parser: P,
}

impl<P: Parser> Parser for Maybe<P> {
    type Out = Option<P::Out>;

    open spec fn ok(&self, s: Seq<u8>) -> bool {
        true
    }

    open spec fn rem(&self, s: Seq<u8>) -> Seq<u8> {
        if self.parser.ok(s) {
            self.parser.rem(s)
        } else {
            s
        }
    }

    open spec fn val(&self, s: Seq<u8>) -> Option<<P::Out as DeepView>::V> {
        if self.parser.ok(s) {
            Some(self.parser.val(s))
        } else {
            None
        }
    }

    fn parse<'a>(&self, input: &'a [u8]) -> (r: ParseResult<'a, Option<P::Out>>) {
        match self.parser.parse(input) {
            Ok((rest, value)) => Ok((rest, Some(value))),
            Err(_) => Ok((input, None)),
        }
    }
}

/// Builds the parser that applies `parser` and succeeds either way: with
/// `Some` of its value on success, or with `None` and the input rolled back on
/// failure.
pub fn maybe<P: Parser>(parser: P) -> (p: Maybe<P>)
    ensures
        p.parser == parser,
{
    Maybe { parser }
}

/// Negative lookahead: succeeds with `()` exactly when the wrapped parser
/// fails, and never consumes anything.
pub struct Not<P> {
    pub parser: P,
}

impl<P: Parser> Parser for Not<P> {
    type Out = ();

    open spec fn ok(&self, s: Seq<u8>) -> bool {
        !self.parser.ok(s)
    }

    open spec fn rem(&self, s: Seq<u8>) -> Seq<u8> {
        s
    }

    open spec fn val(&self, s: Seq<u8>) -> () {
        ()
    }

    fn parse<'a>(&self, input: &'a [u8]) -> (r: ParseResult<'a, ()>) {
        match self.parser.parse(input) {
            Ok(_) => Err("parser succeeded"),
            Err(_) => Ok((input, ())),
        }
    }
}

/// Builds the parser that fails when `parser` succeeds and succeeds, consuming
/// nothing, when `parser` fails.
pub fn not<P: Parser>(parser: P) -> (p: Not<P>)
    ensures
        p.parser == parser,
{
    Not { parser }
}

/// Lookahead: applies the wrapped parser and produces its value, but always
/// hands back the original input; a failure passes through as it is.
pub struct Peek<P> {
    pub parser: P,
}

impl<P: Parser> Parser for Peek<P> {
    type Out = P::Out;

    open spec fn ok(&self, s: Seq<u8>) -> bool {
        self.parser.ok(s)
    }

    open spec fn rem(&self, s: Seq<u8>) -> Seq<u8> {
        s
    }

    open spec fn val(&self, s: Seq<u8>) -> <P::Out as DeepView>::V {
        self.parser.val(s)
    }

    fn parse<'a>(&self, input: &'a [u8]) -> (r: ParseResult<'a, P::Out>) {
        match self.parser.parse(input) {
            Ok((_, value)) => Ok((input, value)),
            Err(e) => Err(e),
        }
    }
}

/// Builds the parser that reads ahead with `parser` without consuming any
/// input.
pub fn peek<P: Parser>(parser: P) -> (p: Peek<P>)
    ensures
        p.parser == parser,
{
    Peek { parser }
}

/// The position of the first parser in `ps` that succeeds on `s`, or
/// `ps.len()` when none does.
pub open spec fn first_ok<P: Parser>(ps: Seq<P>, s: Seq<u8>) -> int
    decreases ps.len(),
{
    if ps.len() == 0 {
        0
    } else if ps[0].ok(s) {
        0
    } else {
        1 + first_ok(ps.skip(1), s)
    }
}

/// `first_ok` always lies between 0 and the number of parsers, and when it is
/// a position, the parser at that position succeeds.
pub proof fn lemma_first_ok_bounds<P: Parser>(ps: Seq<P>, s: Seq<u8>)
    ensures
        0 <= first_ok(ps, s) <= ps.len(),
        first_ok(ps, s) < ps.len() ==> ps[first_ok(ps, s)].ok(s),
    decreases ps.len(),
{
    if ps.len() == 0 {
    } else if ps[0].ok(s) {
    } else {
        lemma_first_ok_bounds(ps.skip(1), s);
        if first_ok(ps, s) < ps.len() {
            assert(ps.skip(1)[first_ok(ps.skip(1), s)] == ps[first_ok(ps, s)]);
        }
    }
}

/// Alternation is order-sensitive, first match wins: every parser before the
/// chosen position fails, and any parser that succeeds stands at or after it.
pub proof fn lemma_first_ok_is_first<P: Parser>(ps: Seq<P>, s: Seq<u8>, i: int)
    requires
        0 <= i < ps.len(),
    ensures
        i < first_ok(ps, s) ==> !ps[i].ok(s),
        ps[i].ok(s) ==> first_ok(ps, s) <= i,
    decreases ps.len(),
{
    if ps.len() == 0 {
    } else if ps[0].ok(s) {
    } else if i > 0 {
        lemma_first_ok_is_first(ps.skip(1), s, i - 1);
        assert(ps.skip(1)[i - 1] == ps[i]);
    }
}

/// Ordered alternation: tries each parser in order and behaves exactly as the
/// first one that succeeds; fails only when every parser fails.
pub struct AnyOf<P> {
    pub parsers: Vec<P>,
}

impl<P: Parser> Parser for AnyOf<P> {
    type Out = P::Out;

    open spec fn ok(&self, s: Seq<u8>) -> bool {
        first_ok(self.parsers@, s) < self.parsers@.len()
    }

    open spec fn rem(&self, s: Seq<u8>) -> Seq<u8> {
        self.parsers@[first_ok(self.parsers@, s)].rem(s)
    }

    open spec fn val(&self, s: Seq<u8>) -> <P::Out as DeepView>::V {
        self.parsers@[first_ok(self.parsers@, s)].val(s)
    }

    fn parse<'a>(&self, input: &'a [u8]) -> (r: ParseResult<'a, P::Out>) {
        let n = self.parsers.len();
        proof {
            assert(self.parsers@.skip(0) =~= self.parsers@);
        }
        let mut i: usize = 0;
        while i < n
            invariant
                0 <= i <= n,
                n == self.parsers@.len(),
                i + first_ok(self.parsers@.skip(i as int), input@) == first_ok(
                    self.parsers@,
                    input@,
                ),
            decreases n - i,
        {
            proof {
                assert(self.parsers@.skip(i as int)[0] == self.parsers@[i as int]);
            }
            match self.parsers[i].parse(input) {
                Ok(t) => {
                    return Ok(t);
                },
                Err(_) => {},
            }
            proof {
                assert(self.parsers@.skip(i as int).skip(1) =~= self.parsers@.skip(i as int + 1));
            }
            i = i + 1;
        }
        Err("no parser succeeded")
    }
}

/// Builds the parser that tries `parsers` in order on the same input and
/// reports the first success unmodified — first match wins, with no
/// longest-match policy.
pub fn any_of<P: Parser>(parsers: Vec<P>) -> (p: AnyOf<P>)
    ensures
        p.parsers == parsers,
{
    AnyOf { parsers }
}

/// Rollback: whenever a parser fails on an input, `maybe` of that parser
/// succeeds on it with no value and the input exactly unchanged.
pub proof fn lemma_maybe_rollback<P: Parser>(p: &Maybe<P>, s: Seq<u8>)
    requires
        !p.parser.ok(s),
    ensures
        p.ok(s),
        p.rem(s) == s,
        p.val(s) is None,
{
}

/// Non-consumption: `not` of any parser, whenever it succeeds, leaves the
/// input exactly unchanged.
pub proof fn lemma_not_consumes_nothing<P: Parser>(p: &Not<P>, s: Seq<u8>)
    ensures
        p.rem(s) == s,
{
}

/// Non-consumption: `peek` of any parser, whenever it succeeds, leaves the
/// input exactly unchanged while producing the wrapped parser's value.
pub proof fn lemma_peek_consumes_nothing<P: Parser>(p: &Peek<P>, s: Seq<u8>)
    ensures
        p.rem(s) == s,
        p.ok(s) ==> p.val(s) == p.parser.val(s),
{
}

/// When the wrapped parser leaves suffixes, [`Maybe`] leaves suffixes.
pub proof fn lemma_maybe_consumes_suffix<P: Parser>(p: &Maybe<P>)
    requires
        consumes_suffix(&p.parser),
    ensures
        consumes_suffix(p),
{
    assert forall|s: Seq<u8>| p.ok(s) implies (#[trigger] p.rem(s)).is_suffix_of(s) by {
        if !p.parser.ok(s) {
            assert(s =~= s.subrange(0, s.len() as int));
        }
    }
}

/// [`Not`] leaves suffixes: the whole input is a suffix of itself.
pub proof fn lemma_not_consumes_suffix<P: Parser>(p: &Not<P>)
    ensures
        consumes_suffix(p),
{
    assert forall|s: Seq<u8>| p.ok(s) implies (#[trigger] p.rem(s)).is_suffix_of(s) by {
        assert(s =~= s.subrange(0, s.len() as int));
    }
}

/// [`Peek`] leaves suffixes: the whole input is a suffix of itself.
pub proof fn lemma_peek_consumes_suffix<P: Parser>(p: &Peek<P>)
    ensures
        consumes_suffix(p),
{
    assert forall|s: Seq<u8>| p.ok(s) implies (#[trigger] p.rem(s)).is_suffix_of(s) by {
        assert(s =~= s.subrange(0, s.len() as int));
    }
}

/// When every alternative leaves suffixes, [`AnyOf`] leaves suffixes.
pub proof fn lemma_any_of_consumes_suffix<P: Parser>(p: &AnyOf<P>)
    requires
        forall|i: int| 0 <= i < p.parsers@.len() ==> consumes_suffix(&p.parsers@[i]),
    ensures
        consumes_suffix(p),
{
    assert forall|s: Seq<u8>| p.ok(s) implies (#[trigger] p.rem(s)).is_suffix_of(s) by {
        lemma_first_ok_bounds(p.parsers@, s);
        assert(consumes_suffix(&p.parsers@[first_ok(p.parsers@, s)]));
    }
}

} // verus!
