//! Repetition combinators: applying one parser again and again against the
//! shrinking input.
//!
//! A repetition step that succeeds without consuming anything would repeat
//! forever. Every repetition here therefore stops at the first step that
//! either fails or consumes nothing; a non-consuming success contributes no
//! value and ends the run.

use vstd::prelude::*;
use vstd::slice::{slice_subrange, slice_to_vec};
use crate::parser::{ParseResult, Parser, consumes_suffix, lemma_suffix_trans};

verus! {

/// The input left after applying `p` repeatedly, stopping at the first step
/// that fails or consumes nothing.
pub open spec fn many_rem<P: Parser>(p: &P, s: Seq<u8>) -> Seq<u8>
    decreases s.len(),
{
    if p.ok(s) && p.rem(s).len() < s.len() {
        many_rem(p, p.rem(s))
    } else {
        s
    }
}

/// The ordered values produced by applying `p` repeatedly, stopping at the
/// first step that fails or consumes nothing.
pub open spec fn many_vals<P: Parser>(p: &P, s: Seq<u8>) -> Seq<<P::Out as DeepView>::V>
    decreases s.len(),
{
    if p.ok(s) && p.rem(s).len() < s.len() {
        seq![p.val(s)] + many_vals(p, p.rem(s))
    } else {
        Seq::empty()
    }
}

/// Applies a parser repeatedly against the shrinking input and collects the
/// produced values in order; fails when no application succeeds.
pub struct OneOrMore<P> {
    pub parser: P,
}

impl<P: Parser> Parser for OneOrMore<P> {
    type Out = Vec<P::Out>;

    open spec fn ok(&self, s: Seq<u8>) -> bool {
        self.parser.ok(s) && self.parser.rem(s).len() < s.len()
    }

    open spec fn rem(&self, s: Seq<u8>) -> Seq<u8> {
        many_rem(&self.parser, s)
    }

    open spec fn val(&self, s: Seq<u8>) -> Seq<<P::Out as DeepView>::V> {
        many_vals(&self.parser, s)
    }

    fn parse<'a>(&self, input: &'a [u8]) -> (r: ParseResult<'a, Vec<P::Out>>) {
        let mut results: Vec<P::Out> = Vec::new();
        let mut cur: &'a [u8] = input;
        proof {
            assert(results.deep_view() =~= Seq::<<P::Out as DeepView>::V>::empty());
        }
        loop
            invariant
                many_rem(&self.parser, cur@) == many_rem(&self.parser, input@),
                many_vals(&self.parser, input@) == results.deep_view() + many_vals(
                    &self.parser,
                    cur@,
                ),
                results.len() > 0 ==> self.ok(input@),
                results.len() == 0 ==> cur@ == input@,
            ensures
                many_rem(&self.parser, input@) == cur@,
                many_vals(&self.parser, input@) == results.deep_view(),
                results.len() > 0 ==> self.ok(input@),
                results.len() == 0 ==> !self.ok(input@),
            decreases cur@.len(),
        {
            match self.parser.parse(cur) {
                Ok((rest, value)) => {
                    if rest.len() < cur.len() {
                        let ghost prev = results.deep_view();
                        let ghost before = cur@;
                        results.push(value);
                        cur = rest;
                        proof {
                            assert(results.deep_view() =~= prev + seq![value.deep_view()]);
                            assert((prev + seq![value.deep_view()]) + many_vals(
                                &self.parser,
                                cur@,
                            ) =~= prev + (seq![value.deep_view()] + many_vals(&self.parser, cur@)));
                        }
                    } else {
                        proof {
                            assert(many_vals(&self.parser, cur@) =~= Seq::<
                                <P::Out as DeepView>::V,
                            >::empty());
                            assert(results.deep_view() + many_vals(&self.parser, cur@)
                                =~= results.deep_view());
                        }
                        break;
                    }
                },
                Err(_) => {
                    proof {
                        assert(many_vals(&self.parser, cur@) =~= Seq::<
                            <P::Out as DeepView>::V,
                        >::empty());
                        assert(results.deep_view() + many_vals(&self.parser, cur@)
                            =~= results.deep_view());
                    }
                    break;
                },
            }
        }
        if results.len() == 0 {
            Err("parser never succeeded")
        } else {
            Ok((cur, results))
        }
    }
}

/// Builds the parser that applies `parser` as often as it succeeds and
/// consumes, produces the collected values in order, and fails when there was
/// not a single such application.
pub fn one_or_more<P: Parser>(parser: P) -> (p: OneOrMore<P>)
    ensures
        p.parser == parser,
{
    OneOrMore { parser }
}

/// As [`OneOrMore`], but never fails: with no successful application it
/// produces an empty collection and leaves the input unchanged.
pub struct ZeroOrMore<P> {
    pub inner: OneOrMore<P>,
}

impl<P: Parser> Parser for ZeroOrMore<P> {
    type Out = Vec<P::Out>;

    open spec fn ok(&self, s: Seq<u8>) -> bool {
        true
    }

    open spec fn rem(&self, s: Seq<u8>) -> Seq<u8> {
        many_rem(&self.inner.parser, s)
    }

    open spec fn val(&self, s: Seq<u8>) -> Seq<<P::Out as DeepView>::V> {
        many_vals(&self.inner.parser, s)
    }

    fn parse<'a>(&self, input: &'a [u8]) -> (r: ParseResult<'a, Vec<P::Out>>) {
        match self.inner.parse(input) {
            Ok(t) => Ok(t),
            Err(_) => {
                let results: Vec<P::Out> = Vec::new();
                proof {
                    assert(results.deep_view() =~= Seq::<<P::Out as DeepView>::V>::empty());
                }
                Ok((input, results))
            },
        }
    }
}

/// Builds the parser that applies `parser` as often as it succeeds and
/// consumes, and succeeds even when that is never — then with an empty
/// collection and the input unchanged.
pub fn zero_or_more<P: Parser>(parser: P) -> (p: ZeroOrMore<P>)
    ensures
        p.inner.parser == parser,
{
    ZeroOrMore { inner: OneOrMore { parser } }
}

/// How many bytes repeated probing of `p` consumes from the head of `w`: each
/// successful probe advances by what it consumed, and the scan stops at the
/// first probe that fails or consumes nothing.
pub open spec fn scan_len<P: Parser>(p: &P, w: Seq<u8>) -> int
    decreases w.len(),
{
    if p.ok(w) && p.rem(w).len() < w.len() {
        let c = w.len() - p.rem(w).len();
        c + scan_len(p, w.skip(c))
    } else {
        0
    }
}

/// `scan_len` always lies between 0 and the window length.
pub proof fn lemma_scan_len_bounds<P: Parser>(p: &P, w: Seq<u8>)
    ensures
        0 <= scan_len(p, w) <= w.len(),
    decreases w.len(),
{
    if p.ok(w) && p.rem(w).len() < w.len() {
        let c = w.len() - p.rem(w).len();
        lemma_scan_len_bounds(p, w.skip(c));
    }
}

/// Consumes the prefix over which a parser keeps succeeding: the parser is
/// probed at ever later offsets, each success advances by what it consumed,
/// and the accumulated prefix is the value. Fails only on empty input; a first
/// probe that fails at once yields an empty value and an unchanged input.
pub struct TakeWhile<P> {
    pub parser: P,
}

impl<P: Parser> Parser for TakeWhile<P> {
    type Out = Vec<u8>;

    open spec fn ok(&self, s: Seq<u8>) -> bool {
        s.len() > 0
    }

    open spec fn rem(&self, s: Seq<u8>) -> Seq<u8> {
        s.skip(scan_len(&self.parser, s))
    }

    open spec fn val(&self, s: Seq<u8>) -> Seq<u8> {
        s.take(scan_len(&self.parser, s))
    }

    fn parse<'a>(&self, input: &'a [u8]) -> (r: ParseResult<'a, Vec<u8>>) {
        if input.len() == 0 {
            return Err("empty input");
        }
        let len = input.len();
        proof {
            assert(input@.skip(0) =~= input@);
        }
        let mut i: usize = 0;
        loop
            invariant
                0 <= i <= len,
                len == input@.len(),
                i + scan_len(&self.parser, input@.skip(i as int)) == scan_len(
                    &self.parser,
                    input@,
                ),
            ensures
                0 <= i <= len,
                len == input@.len(),
                i as int == scan_len(&self.parser, input@),
            decreases len - i,
        {
            if i == len {
                break;
            }
            let window = slice_subrange(input, i, len);
            proof {
                assert(window@ =~= input@.skip(i as int));
            }
            match self.parser.parse(window) {
                Ok((rest, _)) => {
                    if rest.len() < window.len() {
                        let consumed = window.len() - rest.len();
                        proof {
                            assert(input@.skip(i as int).skip(consumed as int) =~= input@.skip(
                                i as int + consumed as int,
                            ));
                        }
                        i = i + consumed;
                    } else {
                        break;
                    }
                },
                Err(_) => break,
            }
        }
        let value = slice_to_vec(slice_subrange(input, 0, i));
        proof {
            assert(value.deep_view() =~= input@.take(i as int));
            assert(input@.subrange(i as int, len as int) =~= input@.skip(i as int));
        }
        Ok((slice_subrange(input, i, len), value))
    }
}

/// Builds the parser that consumes the prefix over which `parser` keeps
/// succeeding and consuming; the prefix, possibly empty, is the value. Only an
/// empty input is a failure.
pub fn take_while<P: Parser>(parser: P) -> (p: TakeWhile<P>)
    ensures
        p.parser == parser,
{
    TakeWhile { parser }
}

/// As [`TakeWhile`], but fails when the consumed prefix would be empty, so
/// that a success always makes progress.
pub struct TakeWhile1<P> {
    pub inner: TakeWhile<P>,
}

impl<P: Parser> Parser for TakeWhile1<P> {
    type Out = Vec<u8>;

    open spec fn ok(&self, s: Seq<u8>) -> bool {
        s.len() > 0 && scan_len(&self.inner.parser, s) > 0
    }

    open spec fn rem(&self, s: Seq<u8>) -> Seq<u8> {
        self.inner.rem(s)
    }

    open spec fn val(&self, s: Seq<u8>) -> Seq<u8> {
        self.inner.val(s)
    }

    fn parse<'a>(&self, input: &'a [u8]) -> (r: ParseResult<'a, Vec<u8>>) {
        proof {
            lemma_scan_len_bounds(&self.inner.parser, input@);
        }
        match self.inner.parse(input) {
            Ok((rest, value)) => {
                proof {
                    assert(value.deep_view().len() == value@.len());
                }
                if value.len() == 0 {
                    Err("did not consume any byte")
                } else {
                    Ok((rest, value))
                }
            },
            Err(e) => Err(e),
        }
    }
}

/// Builds the parser of [`take_while`] that must make progress: it fails when
/// the very first probe of `parser` fails or consumes nothing, and on empty
/// input.
pub fn take_while_1<P: Parser>(parser: P) -> (p: TakeWhile1<P>)
    ensures
        p.inner.parser == parser,
{
    TakeWhile1 { inner: TakeWhile { parser } }
}

/// Relationship of the two repetitions: `zero_or_more` always succeeds; it
/// yields an empty collection and an unchanged input exactly when
/// `one_or_more` of the same parser fails, and otherwise both report the same
/// collected values and the same remaining input.
pub proof fn lemma_zero_or_more_agrees<P: Parser>(z: &ZeroOrMore<P>, s: Seq<u8>)
    ensures
        z.ok(s),
        !z.inner.ok(s) ==> z.rem(s) == s && z.val(s) == Seq::<<P::Out as DeepView>::V>::empty(),
        z.inner.ok(s) ==> z.rem(s) == z.inner.rem(s) && z.val(s) == z.inner.val(s),
{
}

/// Relationship of the two scans: `take_while_1` succeeds exactly when
/// `take_while` succeeds with a non-empty consumed prefix, and both report the
/// same split whenever both succeed.
pub proof fn lemma_take_while_1_agrees<P: Parser>(p: &TakeWhile1<P>, s: Seq<u8>)
    ensures
        p.ok(s) <==> p.inner.ok(s) && p.inner.val(s).len() > 0,
        p.rem(s) == p.inner.rem(s),
        p.val(s) == p.inner.val(s),
{
    lemma_scan_len_bounds(&p.inner.parser, s);
}

/// When a parser leaves suffixes, so does its repeated application.
pub proof fn lemma_many_rem_suffix<P: Parser>(p: &P, s: Seq<u8>)
    requires
        consumes_suffix(p),
    ensures
        many_rem(p, s).is_suffix_of(s),
    decreases s.len(),
{
    if p.ok(s) && p.rem(s).len() < s.len() {
        lemma_many_rem_suffix(p, p.rem(s));
        lemma_suffix_trans(many_rem(p, s), p.rem(s), s);
    } else {
        assert(s =~= s.subrange(0, s.len() as int));
    }
}

/// When the repeated parser leaves suffixes, [`OneOrMore`] leaves suffixes.
pub proof fn lemma_one_or_more_consumes_suffix<P: Parser>(p: &OneOrMore<P>)
    requires
        consumes_suffix(&p.parser),
    ensures
        consumes_suffix(p),
{
    assert forall|s: Seq<u8>| p.ok(s) implies (#[trigger] p.rem(s)).is_suffix_of(s) by {
        lemma_many_rem_suffix(&p.parser, s);
    }
}

/// When the repeated parser leaves suffixes, [`ZeroOrMore`] leaves suffixes.
pub proof fn lemma_zero_or_more_consumes_suffix<P: Parser>(p: &ZeroOrMore<P>)
    requires
        consumes_suffix(&p.inner.parser),
    ensures
        consumes_suffix(p),
{
    assert forall|s: Seq<u8>| p.ok(s) implies (#[trigger] p.rem(s)).is_suffix_of(s) by {
        lemma_many_rem_suffix(&p.inner.parser, s);
    }
}

/// What [`TakeWhile`] leaves is always a suffix of the input, whatever the
/// probed parser does.
pub proof fn lemma_take_while_consumes_suffix<P: Parser>(p: &TakeWhile<P>)
    ensures
        consumes_suffix(p),
{
    assert forall|s: Seq<u8>| p.ok(s) implies (#[trigger] p.rem(s)).is_suffix_of(s) by {
        lemma_scan_len_bounds(&p.parser, s);
        assert(p.rem(s) =~= s.subrange(scan_len(&p.parser, s), s.len() as int));
    }
}

/// What [`TakeWhile1`] leaves is always a suffix of the input, whatever the
/// probed parser does.
pub proof fn lemma_take_while_1_consumes_suffix<P: Parser>(p: &TakeWhile1<P>)
    ensures
        consumes_suffix(p),
{
    assert forall|s: Seq<u8>| p.ok(s) implies (#[trigger] p.rem(s)).is_suffix_of(s) by {
        lemma_scan_len_bounds(&p.inner.parser, s);
        assert(p.rem(s) =~= s.subrange(scan_len(&p.inner.parser, s), s.len() as int));
    }
}

} // verus!
