//! Byte-level matchers and scanners: fixed bytes, counted takes, and
//! predicate-driven scans from the front or the back of the input.

use vstd::prelude::*;
use vstd::slice::{slice_index_get, slice_subrange, slice_to_vec};
use crate::parser::{ParseResult, Parser, consumes_suffix};

verus! {

/// A test on a single byte. `spec_test` is the test as a mathematical
/// predicate; `test` decides it.
pub trait BytePredicate {
    /// What the test holds of, at the specification level.
    spec fn spec_test(&self, b: u8) -> bool;

    /// Decide whether `b` satisfies the test.
    fn test(&self, b: u8) -> (r: bool)
        ensures
            r == self.spec_test(b),
    ;
}

/// The predicate that holds exactly on one byte.
pub struct IsByte {
    pub target: u8,
}

impl BytePredicate for IsByte {
    open spec fn spec_test(&self, b: u8) -> bool {
        b == self.target
    }

    fn test(&self, b: u8) -> (r: bool) {
        b == self.target
    }
}

/// Builds the predicate that holds exactly on `byte`.
pub fn is_byte(byte: u8) -> (q: IsByte)
    ensures
        q.target == byte,
{
    IsByte { target: byte }
}

/// The position of the first byte of `s` satisfying `q`, or `s.len()` when no
/// byte does.
pub open spec fn first_match<Q: BytePredicate>(q: &Q, s: Seq<u8>) -> int
    decreases s.len(),
{
    if s.len() == 0 {
        0
    } else if q.spec_test(s[0]) {
        0
    } else {
        1 + first_match(q, s.skip(1))
    }
}

/// `first_match` always lies between 0 and the input length; no byte before
/// it satisfies the predicate, and the byte at it, when there is one, does.
pub proof fn lemma_first_match_bounds<Q: BytePredicate>(q: &Q, s: Seq<u8>)
    ensures
        0 <= first_match(q, s) <= s.len(),
        forall|j: int| 0 <= j < first_match(q, s) ==> !q.spec_test(s[j]),
        first_match(q, s) < s.len() ==> q.spec_test(s[first_match(q, s)]),
    decreases s.len(),
{
    if s.len() == 0 {
    } else if q.spec_test(s[0]) {
    } else {
        lemma_first_match_bounds(q, s.skip(1));
        assert forall|j: int| 0 <= j < first_match(q, s) implies !q.spec_test(s[j]) by {
            if j > 0 {
                assert(s.skip(1)[j - 1] == s[j]);
            }
        }
        if first_match(q, s) < s.len() {
            assert(s.skip(1)[first_match(q, s.skip(1))] == s[first_match(q, s)]);
        }
    }
}

/// The position of the last byte of `s` satisfying `q`, or `-1` when no byte
/// does.
pub open spec fn last_match<Q: BytePredicate>(q: &Q, s: Seq<u8>) -> int
    decreases s.len(),
{
    if s.len() == 0 {
        -1
    } else if q.spec_test(s.last()) {
        s.len() - 1
    } else {
        last_match(q, s.take(s.len() - 1))
    }
}

/// `last_match` always lies between -1 and the last position of the input; no
/// byte after it satisfies the predicate, and the byte at it, when there is
/// one, does.
pub proof fn lemma_last_match_bounds<Q: BytePredicate>(q: &Q, s: Seq<u8>)
    ensures
        -1 <= last_match(q, s) < s.len(),
        forall|j: int| last_match(q, s) < j < s.len() ==> !q.spec_test(s[j]),
        last_match(q, s) >= 0 ==> q.spec_test(s[last_match(q, s)]),
    decreases s.len(),
{
    if s.len() == 0 {
    } else if q.spec_test(s.last()) {
    } else {
        lemma_last_match_bounds(q, s.take(s.len() - 1));
        assert forall|j: int| last_match(q, s) < j < s.len() implies !q.spec_test(s[j]) by {
            if j < s.len() - 1 {
                assert(s.take(s.len() - 1)[j] == s[j]);
            }
        }
        if last_match(q, s) >= 0 {
            assert(s.take(s.len() - 1)[last_match(q, s)] == s[last_match(q, s)]);
        }
    }
}

/// Matches one fixed byte at the head of the input and consumes it.
pub struct Byte {
    pub target: u8,
}

impl Parser for Byte {
    type Out = u8;

    open spec fn ok(&self, s: Seq<u8>) -> bool {
        s.len() > 0 && s[0] == self.target
    }

    open spec fn rem(&self, s: Seq<u8>) -> Seq<u8> {
        s.skip(1)
    }

    open spec fn val(&self, s: Seq<u8>) -> u8 {
        self.target
    }

    fn parse<'a>(&self, input: &'a [u8]) -> (r: ParseResult<'a, u8>) {
        if input.len() == 0 {
            Err("empty input")
        } else if *slice_index_get(input, 0) == self.target {
            Ok((slice_subrange(input, 1, input.len()), self.target))
        } else {
            Err("wrong byte")
        }
    }
}

/// The parser for the single byte `byte`: fails on empty input and on any
/// other first byte, otherwise consumes that byte and produces it.
pub fn byte(target: u8) -> (p: Byte)
    ensures
        p.target == target,
{
    Byte { target }
}

/// Consumes exactly `cnt` bytes. A count of zero is a usage error and always
/// fails.
pub struct Take {
    pub cnt: usize,
}

impl Parser for Take {
    type Out = Vec<u8>;

    open spec fn ok(&self, s: Seq<u8>) -> bool {
        0 < self.cnt <= s.len()
    }

    open spec fn rem(&self, s: Seq<u8>) -> Seq<u8> {
        s.skip(self.cnt as int)
    }

    open spec fn val(&self, s: Seq<u8>) -> Seq<u8> {
        s.take(self.cnt as int)
    }

    fn parse<'a>(&self, input: &'a [u8]) -> (r: ParseResult<'a, Vec<u8>>) {
        if self.cnt == 0 {
            Err("cannot take zero bytes")
        } else if self.cnt > input.len() {
            Err("not enough bytes")
        } else {
            let value = slice_to_vec(slice_subrange(input, 0, self.cnt));
            proof {
                assert(value.deep_view() =~= input@.take(self.cnt as int));
            }
            Ok((slice_subrange(input, self.cnt, input.len()), value))
        }
    }
}

/// The parser that consumes exactly `cnt` bytes and produces them: fails when
/// `cnt` is zero or when fewer than `cnt` bytes remain.
pub fn take(cnt: usize) -> (p: Take)
    ensures
        p.cnt == cnt,
{
    Take { cnt }
}

/// Exactness of [`Take`]: a count of zero always fails, a count beyond the
/// input length fails, and any other count succeeds consuming exactly that
/// many bytes, which are the value.
pub proof fn lemma_take_exactness(p: &Take, s: Seq<u8>)
    ensures
        p.cnt == 0 ==> !p.ok(s),
        p.cnt > s.len() ==> !p.ok(s),
        0 < p.cnt <= s.len() ==> {
            &&& p.ok(s)
            &&& p.val(s) == s.take(p.cnt as int)
            &&& p.val(s).len() == p.cnt
            &&& p.rem(s).len() == s.len() - p.cnt
        },
{
}

/// Matches a fixed byte sequence at the head of the input, byte-exact.
pub struct Bytes {
    pub literal: Vec<u8>,
}

impl Parser for Bytes {
    type Out = Vec<u8>;

    open spec fn ok(&self, s: Seq<u8>) -> bool {
        s.len() > 0 && self.literal@.len() <= s.len() && s.take(self.literal@.len() as int)
            == self.literal@
    }

    open spec fn rem(&self, s: Seq<u8>) -> Seq<u8> {
        s.skip(self.literal@.len() as int)
    }

    open spec fn val(&self, s: Seq<u8>) -> Seq<u8> {
        s.take(self.literal@.len() as int)
    }

    fn parse<'a>(&self, input: &'a [u8]) -> (r: ParseResult<'a, Vec<u8>>) {
        let n = self.literal.len();
        if input.len() == 0 {
            return Err("empty input");
        }
        if input.len() < n {
            return Err("not enough bytes");
        }
        let mut k: usize = 0;
        while k < n
            invariant
                0 <= k <= n,
                n == self.literal@.len(),
                n <= input@.len(),
                forall|j: int| 0 <= j < k ==> input@[j] == self.literal@[j],
            decreases n - k,
        {
            if *slice_index_get(input, k) != self.literal[k] {
                proof {
                    assert(input@.take(n as int)[k as int] == input@[k as int]);
                }
                return Err("wrong bytes");
            }
            k = k + 1;
        }
        proof {
            assert(input@.take(n as int) =~= self.literal@);
        }
        let value = slice_to_vec(slice_subrange(input, 0, n));
        proof {
            assert(value.deep_view() =~= input@.take(n as int));
        }
        Ok((slice_subrange(input, n, input.len()), value))
    }
}

/// The parser for the fixed sequence `bytes`: fails on empty input, on input
/// shorter than `bytes`, and on a prefix mismatch; otherwise consumes exactly
/// that prefix and produces it.
pub fn bytes(literal: &[u8]) -> (p: Bytes)
    ensures
        p.literal@ == literal@,
{
    Bytes { literal: slice_to_vec(literal) }
}

/// Consumes the prefix before the first byte satisfying the predicate; never
/// fails. When no byte matches, the whole input is consumed.
pub struct TakeUntilByte<Q> {
    pub predicate: Q,
}

impl<Q: BytePredicate> Parser for TakeUntilByte<Q> {
    type Out = Vec<u8>;

    open spec fn ok(&self, s: Seq<u8>) -> bool {
        true
    }

    open spec fn rem(&self, s: Seq<u8>) -> Seq<u8> {
        s.skip(first_match(&self.predicate, s))
    }

    open spec fn val(&self, s: Seq<u8>) -> Seq<u8> {
        s.take(first_match(&self.predicate, s))
    }

    fn parse<'a>(&self, input: &'a [u8]) -> (r: ParseResult<'a, Vec<u8>>) {
        let len = input.len();
        proof {
            assert(input@.skip(0) =~= input@);
        }
        let mut i: usize = 0;
        while i < len
            invariant_except_break
                0 <= i <= len,
                len == input@.len(),
                i + first_match(&self.predicate, input@.skip(i as int)) == first_match(
                    &self.predicate,
                    input@,
                ),
            ensures
                0 <= i <= len,
                len == input@.len(),
                i as int == first_match(&self.predicate, input@),
            decreases len - i,
        {
            proof {
                assert(input@.skip(i as int)[0] == input@[i as int]);
            }
            if self.predicate.test(*slice_index_get(input, i)) {
                break;
            }
            proof {
                assert(input@.skip(i as int).skip(1) =~= input@.skip(i as int + 1));
            }
            i = i + 1;
        }
        let value = slice_to_vec(slice_subrange(input, 0, i));
        proof {
            assert(value.deep_view() =~= input@.take(i as int));
        }
        Ok((slice_subrange(input, i, len), value))
    }
}

/// The scanner that consumes up to, and not including, the first byte
/// satisfying `predicate`; the consumed prefix (possibly empty) is the value.
pub fn take_until_byte<Q: BytePredicate>(predicate: Q) -> (p: TakeUntilByte<Q>)
    ensures
        p.predicate == predicate,
{
    TakeUntilByte { predicate }
}

/// As [`TakeUntilByte`], but fails when the consumed prefix would be empty.
pub struct TakeUntilByte1<Q> {
    pub inner: TakeUntilByte<Q>,
}

impl<Q: BytePredicate> Parser for TakeUntilByte1<Q> {
    type Out = Vec<u8>;

    open spec fn ok(&self, s: Seq<u8>) -> bool {
        first_match(&self.inner.predicate, s) > 0
    }

    open spec fn rem(&self, s: Seq<u8>) -> Seq<u8> {
        self.inner.rem(s)
    }

    open spec fn val(&self, s: Seq<u8>) -> Seq<u8> {
        self.inner.val(s)
    }

    fn parse<'a>(&self, input: &'a [u8]) -> (r: ParseResult<'a, Vec<u8>>) {
        proof {
            lemma_first_match_bounds(&self.inner.predicate, input@);
        }
        match self.inner.parse(input) {
            Ok((rest, value)) => {
                proof {
                    assert(value.deep_view().len() == value@.len());
                }
                if value.len() == 0 {
                    Err("did not consume any byte")
                } else {
                    Ok((rest, value))
                }
            },
            Err(e) => Err(e),
        }
    }
}

/// The scanner of [`take_until_byte`] that must make progress: it fails when
/// the first byte already satisfies `predicate`, and on empty input.
pub fn take_until_byte_1<Q: BytePredicate>(predicate: Q) -> (p: TakeUntilByte1<Q>)
    ensures
        p.inner.predicate == predicate,
{
    TakeUntilByte1 { inner: TakeUntilByte { predicate } }
}

/// The mirror image of [`TakeUntilByte`]: splits the input at the last byte
/// satisfying the predicate. The suffix after that byte is the value;
/// everything up to and including that byte is reported as the left-over
/// portion. When no byte matches, the whole input is the value and nothing is
/// left over. The left-over portion is a prefix of the input here, not a
/// suffix.
pub struct RtakeUntilByte<Q> {
    pub predicate: Q,
}

impl<Q: BytePredicate> Parser for RtakeUntilByte<Q> {
    type Out = Vec<u8>;

    open spec fn ok(&self, s: Seq<u8>) -> bool {
        true
    }

    open spec fn rem(&self, s: Seq<u8>) -> Seq<u8> {
        s.take(last_match(&self.predicate, s) + 1)
    }

    open spec fn val(&self, s: Seq<u8>) -> Seq<u8> {
        s.skip(last_match(&self.predicate, s) + 1)
    }

    fn parse<'a>(&self, input: &'a [u8]) -> (r: ParseResult<'a, Vec<u8>>) {
        let len = input.len();
        proof {
            assert(input@.take(len as int) =~= input@);
        }
        let mut j: usize = len;
        while j > 0
            invariant_except_break
                0 <= j <= len,
                len == input@.len(),
                last_match(&self.predicate, input@.take(j as int)) == last_match(
                    &self.predicate,
                    input@,
                ),
            ensures
                0 <= j <= len,
                len == input@.len(),
                j as int == last_match(&self.predicate, input@) + 1,
            decreases j,
        {
            proof {
                assert(input@.take(j as int).last() == input@[j as int - 1]);
            }
            if self.predicate.test(*slice_index_get(input, j - 1)) {
                break;
            }
            proof {
                assert(input@.take(j as int).take(j as int - 1) =~= input@.take(j as int - 1));
            }
            j = j - 1;
        }
        let value = slice_to_vec(slice_subrange(input, j, len));
        proof {
            assert(value.deep_view() =~= input@.skip(j as int));
        }
        Ok((slice_subrange(input, 0, j), value))
    }
}

/// The scanner that splits the input at the last byte satisfying `predicate`:
/// the trailing suffix after that byte is the value, and everything up to and
/// including that byte is reported as left over.
pub fn rtake_until_byte<Q: BytePredicate>(predicate: Q) -> (p: RtakeUntilByte<Q>)
    ensures
        p.predicate == predicate,
{
    RtakeUntilByte { predicate }
}

/// As [`RtakeUntilByte`], but fails when the matched suffix would be empty.
pub struct RtakeUntilByte1<Q> {
    pub inner: RtakeUntilByte<Q>,
}

impl<Q: BytePredicate> Parser for RtakeUntilByte1<Q> {
    type Out = Vec<u8>;

    open spec fn ok(&self, s: Seq<u8>) -> bool {
        last_match(&self.inner.predicate, s) + 1 < s.len()
    }

    open spec fn rem(&self, s: Seq<u8>) -> Seq<u8> {
        self.inner.rem(s)
    }

    open spec fn val(&self, s: Seq<u8>) -> Seq<u8> {
        self.inner.val(s)
    }

    fn parse<'a>(&self, input: &'a [u8]) -> (r: ParseResult<'a, Vec<u8>>) {
        proof {
            lemma_last_match_bounds(&self.inner.predicate, input@);
        }
        match self.inner.parse(input) {
            Ok((rest, value)) => {
                proof {
                    assert(value.deep_view().len() == value@.len());
                }
                if value.len() == 0 {
                    Err("did not consume any byte")
                } else {
                    Ok((rest, value))
                }
            },
            Err(e) => Err(e),
        }
    }
}

/// The scanner of [`rtake_until_byte`] that must make progress: it fails when
/// the last byte already satisfies `predicate`, and on empty input.
pub fn rtake_until_byte_1<Q: BytePredicate>(predicate: Q) -> (p: RtakeUntilByte1<Q>)
    ensures
        p.inner.predicate == predicate,
{
    RtakeUntilByte1 { inner: RtakeUntilByte { predicate } }
}

/// Whenever [`Byte`] succeeds, what remains is a suffix of the input.
pub proof fn lemma_byte_consumes_suffix(p: &Byte)
    ensures
        consumes_suffix(p),
{
    assert forall|s: Seq<u8>| p.ok(s) implies (#[trigger] p.rem(s)).is_suffix_of(s) by {
        assert(p.rem(s) =~= s.subrange(1, s.len() as int));
    }
}

/// Whenever [`Take`] succeeds, what remains is a suffix of the input.
pub proof fn lemma_take_consumes_suffix(p: &Take)
    ensures
        consumes_suffix(p),
{
    assert forall|s: Seq<u8>| p.ok(s) implies (#[trigger] p.rem(s)).is_suffix_of(s) by {
        assert(p.rem(s) =~= s.subrange(p.cnt as int, s.len() as int));
    }
}

/// Whenever [`Bytes`] succeeds, what remains is a suffix of the input.
pub proof fn lemma_bytes_consumes_suffix(p: &Bytes)
    ensures
        consumes_suffix(p),
{
    assert forall|s: Seq<u8>| p.ok(s) implies (#[trigger] p.rem(s)).is_suffix_of(s) by {
        assert(p.rem(s) =~= s.subrange(p.literal@.len() as int, s.len() as int));
    }
}

/// What [`TakeUntilByte`] leaves is always a suffix of the input.
pub proof fn lemma_take_until_byte_consumes_suffix<Q: BytePredicate>(p: &TakeUntilByte<Q>)
    ensures
        consumes_suffix(p),
{
    assert forall|s: Seq<u8>| p.ok(s) implies (#[trigger] p.rem(s)).is_suffix_of(s) by {
        lemma_first_match_bounds(&p.predicate, s);
        assert(p.rem(s) =~= s.subrange(first_match(&p.predicate, s), s.len() as int));
    }
}

/// What [`TakeUntilByte1`] leaves is always a suffix of the input.
pub proof fn lemma_take_until_byte_1_consumes_suffix<Q: BytePredicate>(p: &TakeUntilByte1<Q>)
    ensures
        consumes_suffix(p),
{
    assert forall|s: Seq<u8>| p.ok(s) implies (#[trigger] p.rem(s)).is_suffix_of(s) by {
        lemma_first_match_bounds(&p.inner.predicate, s);
        assert(p.rem(s) =~= s.subrange(first_match(&p.inner.predicate, s), s.len() as int));
    }
}

/// What [`RtakeUntilByte`] reports as left over is never longer than the
/// input. It is a prefix of the input rather than a suffix, so this scanner is
/// the one place where only the length half of the suffix invariant holds.
pub proof fn lemma_rtake_until_byte_rem_len<Q: BytePredicate>(p: &RtakeUntilByte<Q>, s: Seq<u8>)
    ensures
        p.rem(s).len() <= s.len(),
        p.rem(s).is_prefix_of(s),
{
    lemma_last_match_bounds(&p.predicate, s);
    assert(p.rem(s) =~= s.subrange(0, last_match(&p.predicate, s) + 1));
}

/// What [`RtakeUntilByte1`] reports as left over is likewise a prefix of the
/// input, never longer than the input.
pub proof fn lemma_rtake_until_byte_1_rem_len<Q: BytePredicate>(p: &RtakeUntilByte1<Q>, s: Seq<u8>)
    ensures
        p.rem(s).len() <= s.len(),
        p.rem(s).is_prefix_of(s),
{
    lemma_rtake_until_byte_rem_len(&p.inner, s);
}

} // verus!
