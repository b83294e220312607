//! The core protocol: what a parser is, and the two base predicates on input.

use vstd::prelude::*;

verus! {

/// The reason a parse failed: a short, static, human-readable string. It carries
/// no position information and is informational only; callers branch on success
/// or failure, not on the text.
pub type ParseError = &'static str;

/// The outcome of applying a parser: on success, the remaining input (borrowed
/// from the original input) together with the produced value; on failure, a
/// reason.
pub type ParseResult<'a, T> = Result<(&'a [u8], T), ParseError>;

/// A parser maps an input byte slice to either a success — a value plus the
/// rest of the input — or a failure.
///
/// Three specification functions describe a parser completely: `ok` says on
/// which inputs it succeeds, `rem` what input a success leaves, and `val` what
/// value a success produces, as the mathematical view of the value type. The
/// executable `parse` is bound to all three by its contract, so the whole
/// outcome of a parse is a function of the parser and the input alone.
pub trait Parser {
    /// The type of produced values.
    type Out: DeepView;

    /// Whether the parser succeeds on this input.
    spec fn ok(&self, s: Seq<u8>) -> bool;

    /// The input a successful parse leaves unconsumed. Meaningful only when
    /// `ok(s)` holds.
    spec fn rem(&self, s: Seq<u8>) -> Seq<u8>;

    /// The value a successful parse produces, as a mathematical value.
    /// Meaningful only when `ok(s)` holds.
    spec fn val(&self, s: Seq<u8>) -> <Self::Out as DeepView>::V;

    /// Apply the parser to an input slice. The input is only ever borrowed,
    /// never changed.
    fn parse<'a>(&self, input: &'a [u8]) -> (r: ParseResult<'a, Self::Out>)
        ensures
            r is Ok <==> self.ok(input@),
            r matches Ok(t) ==> t.0@ == self.rem(input@) && t.1.deep_view() == self.val(input@),
    ;
}

/// Holds when `succeeds`, `remaining` and `value` describe an outcome that
/// `parse` is allowed to report for parser `p` on input `s`.
pub open spec fn outcome_of<P: Parser>(
    p: &P,
    s: Seq<u8>,
    succeeds: bool,
    remaining: Seq<u8>,
    value: <P::Out as DeepView>::V,
) -> bool {
    &&& succeeds == p.ok(s)
    &&& succeeds ==> remaining == p.rem(s)
    &&& succeeds ==> value == p.val(s)
}

/// Purity: a parser's outcome is a function of the parser and the input alone.
/// Any two outcomes of the same parser on the same input are identical — they
/// agree on success, and on success also on the remaining input and the value.
pub proof fn lemma_purity<P: Parser>(
    p: &P,
    s: Seq<u8>,
    ok1: bool,
    rem1: Seq<u8>,
    val1: <P::Out as DeepView>::V,
    ok2: bool,
    rem2: Seq<u8>,
    val2: <P::Out as DeepView>::V,
)
    requires
        outcome_of(p, s, ok1, rem1, val1),
        outcome_of(p, s, ok2, rem2, val2),
    ensures
        ok1 == ok2,
        ok1 ==> rem1 == rem2 && val1 == val2,
{
}

/// A parser that, whenever it succeeds, leaves a byte-identical suffix of its
/// input as the remaining input.
pub open spec fn consumes_suffix<P: Parser>(p: &P) -> bool {
    forall|s: Seq<u8>| p.ok(s) ==> (#[trigger] p.rem(s)).is_suffix_of(s)
}

/// A suffix of a suffix of `c` is a suffix of `c`.
pub proof fn lemma_suffix_trans(a: Seq<u8>, b: Seq<u8>, c: Seq<u8>)
    requires
        a.is_suffix_of(b),
        b.is_suffix_of(c),
    ensures
        a.is_suffix_of(c),
{
    assert(a =~= c.subrange(c.len() - a.len(), c.len() as int));
}

/// Succeeds with `()` exactly when the input is empty; the input is left as it
/// is.
pub fn empty<'a>(input: &'a [u8]) -> (r: ParseResult<'a, ()>)
    ensures
        r is Ok <==> input@.len() == 0,
        r matches Ok(t) ==> t.0@ == input@,
{
    if input.len() == 0 {
        Ok((input, ()))
    } else {
        Err("not empty")
    }
}

/// Succeeds with `()` exactly when the input is not empty; consumes nothing.
/// This is the negation of [`empty`].
pub fn not_empty<'a>(input: &'a [u8]) -> (r: ParseResult<'a, ()>)
    ensures
        r is Ok <==> input@.len() > 0,
        r matches Ok(t) ==> t.0@ == input@,
{
    match empty(input) {
        Ok(_) => Err("parser succeeded"),
        Err(_) => Ok((input, ())),
    }
}

} // verus!
