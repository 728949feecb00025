//! Combinators: parsers built from other parsers.
//!
//! Only [`Or`] and [`Opt`] rewind to the input they were given; every
//! sequencing combinator commits as it goes and reports a failure at the
//! position where the failing part left it.

use vstd::prelude::*;
use std::marker::PhantomData;
use vstd::string::StringExecFns;
use crate::outcome::{
    is_tail_of, lemma_tail_of_self, lemma_tail_of_tail, Outcome, ParseResult, Parser,
};
use crate::primitives::{literal_message, Literal};

verus! {

/// `p` made optional: its success with the value present, and in place of its
/// failure a success on the untouched input with the value absent.
pub open spec fn spec_option<T, M, P: Parser<T, M>>(p: &P, input: Seq<char>) -> Outcome<Option<M>> {
    match p.spec_parse(input) {
        Outcome::Success { rest, value } => Outcome::Success { rest, value: Some(value) },
        Outcome::Failure { .. } => Outcome::Success { rest: input, value: None },
    }
}

/// Tries a parser and turns its failure into an absent value.
pub struct Opt<P> {
    pub inner: P,
}

impl<T, M, P: Parser<T, M>> Parser<Option<T>, Option<M>> for Opt<P> {
    open spec fn wf(&self) -> bool {
        self.inner.wf()
    }

    open spec fn model(&self, value: Option<T>) -> Option<M> {
        match value {
            Some(v) => Some(self.inner.model(v)),
            None => None,
        }
    }

    open spec fn spec_parse(&self, input: Seq<char>) -> Outcome<Option<M>> {
        spec_option(&self.inner, input)
    }

    open spec fn produces(&self, input: Seq<char>, value: Option<T>) -> bool {
        match value {
            Some(v) => self.inner.produces(input, v),
            None => true,
        }
    }

    proof fn lemma_position_is_tail(&self, input: Seq<char>) {
        self.inner.lemma_position_is_tail(input);
        lemma_tail_of_self(input);
    }

    fn parse<'a>(&self, input: &'a str) -> (r: ParseResult<'a, Option<T>>) {
        match self.inner.parse(input) {
            ParseResult::Success(rest, value) => ParseResult::Success(rest, Some(value)),
            ParseResult::Failure(_, _) => ParseResult::Success(input, None),
        }
    }
}

/// Makes `p` optional: the result never fails, and where `p` fails nothing is
/// consumed.
pub fn option<T, M, P: Parser<T, M>>(p: P) -> (r: Opt<P>)
    ensures
        r == (Opt { inner: p }),
        r.wf() == p.wf(),
        forall|input: Seq<char>| #[trigger] r.spec_parse(input) == spec_option(&p, input),
        forall|v: Option<T>| #[trigger]
            r.model(v) == (match v {
                Some(x) => Some(p.model(x)),
                None => None::<M>,
            }),
        forall|input: Seq<char>, v: Option<T>| #[trigger]
            r.produces(input, v) == (match v {
                Some(x) => p.produces(input, x),
                None => true,
            }),
{
    Opt { inner: p }
}

/// `pa`, then `pb` on what `pa` left. The failure of either is the failure of
/// the whole, at the position where that parser left it.
pub open spec fn spec_and<A, MA, B, MB, PA: Parser<A, MA>, PB: Parser<B, MB>>(pa: &PA, pb: &PB, input: Seq<char>) -> Outcome<
    (MA, MB),
> {
    match pa.spec_parse(input) {
        Outcome::Success { rest: middle, value: a } => match pb.spec_parse(middle) {
            Outcome::Success { rest, value: b } => Outcome::Success { rest, value: (a, b) },
            Outcome::Failure { at, message } => Outcome::Failure { at, message },
        },
        Outcome::Failure { at, message } => Outcome::Failure { at, message },
    }
}

/// Runs two parsers one after the other and pairs their values.
pub struct And<PA, PB> {
    pub first: PA,
    pub second: PB,
}

impl<A, MA, B, MB, PA: Parser<A, MA>, PB: Parser<B, MB>> Parser<(A, B), (MA, MB)> for And<PA, PB> {
    open spec fn wf(&self) -> bool {
        self.first.wf() && self.second.wf()
    }

    open spec fn model(&self, value: (A, B)) -> (MA, MB) {
        (self.first.model(value.0), self.second.model(value.1))
    }

    open spec fn spec_parse(&self, input: Seq<char>) -> Outcome<(MA, MB)> {
        spec_and(&self.first, &self.second, input)
    }

    open spec fn produces(&self, input: Seq<char>, value: (A, B)) -> bool {
        &&& self.first.produces(input, value.0)
        &&& self.second.produces(self.first.spec_parse(input).position(), value.1)
    }

    proof fn lemma_position_is_tail(&self, input: Seq<char>) {
        self.first.lemma_position_is_tail(input);
        if let Outcome::Success { rest: middle, .. } = self.first.spec_parse(input) {
            self.second.lemma_position_is_tail(middle);
            lemma_tail_of_tail(self.second.spec_parse(middle).position(), middle, input);
        }
    }

    fn parse<'a>(&self, input: &'a str) -> (r: ParseResult<'a, (A, B)>) {
        match self.first.parse(input) {
            ParseResult::Success(middle, a) => match self.second.parse(middle) {
                ParseResult::Success(rest, b) => ParseResult::Success(rest, (a, b)),
                ParseResult::Failure(at, message) => ParseResult::Failure(at, message),
            },
            ParseResult::Failure(at, message) => ParseResult::Failure(at, message),
        }
    }
}

/// `a` followed by `b`. A failure of either is handed on as it is; what `a`
/// consumed before `b` failed is not given back.
pub fn and<A, MA, B, MB, PA: Parser<A, MA>, PB: Parser<B, MB>>(a: PA, b: PB) -> (r: And<PA, PB>)
    ensures
        r == (And { first: a, second: b }),
        r.wf() == (a.wf() && b.wf()),
        forall|input: Seq<char>| #[trigger] r.spec_parse(input) == spec_and(&a, &b, input),
        forall|v: (A, B)| #[trigger] r.model(v) == (a.model(v.0), b.model(v.1)),
        forall|input: Seq<char>, v: (A, B)| #[trigger]
            r.produces(input, v) == (a.produces(input, v.0) && b.produces(
                a.spec_parse(input).position(),
                v.1,
            )),
{
    And { first: a, second: b }
}

/// Both parsers read an output as the same mathematical value.
pub open spec fn same_models<T, M, P1: Parser<T, M>, P2: Parser<T, M>>(p1: &P1, p2: &P2) -> bool {
    forall|v: T| #[trigger] p1.model(v) == p2.model(v)
}

/// `p1`, and where it fails `p2` on the same input: the outcome of the first
/// that succeeds, else the failure of `p2`.
pub open spec fn spec_or<T, M, P1: Parser<T, M>, P2: Parser<T, M>>(
    p1: &P1,
    p2: &P2,
    input: Seq<char>,
) -> Outcome<M> {
    match p1.spec_parse(input) {
        Outcome::Success { rest, value } => Outcome::Success { rest, value },
        Outcome::Failure { .. } => p2.spec_parse(input),
    }
}

/// Tries one parser and, where it fails, another on the same input.
pub struct Or<P1, P2> {
    pub first: P1,
    pub second: P2,
}

impl<T, M, P1: Parser<T, M>, P2: Parser<T, M>> Parser<T, M> for Or<P1, P2> {
    open spec fn wf(&self) -> bool {
        &&& self.first.wf()
        &&& self.second.wf()
        &&& same_models(&self.first, &self.second)
    }

    open spec fn model(&self, value: T) -> M {
        self.first.model(value)
    }

    open spec fn spec_parse(&self, input: Seq<char>) -> Outcome<M> {
        spec_or(&self.first, &self.second, input)
    }

    open spec fn produces(&self, input: Seq<char>, value: T) -> bool {
        if self.first.spec_parse(input) is Success {
            self.first.produces(input, value)
        } else {
            self.second.produces(input, value)
        }
    }

    proof fn lemma_position_is_tail(&self, input: Seq<char>) {
        self.first.lemma_position_is_tail(input);
        self.second.lemma_position_is_tail(input);
    }

    fn parse<'a>(&self, input: &'a str) -> (r: ParseResult<'a, T>) {
        match self.first.parse(input) {
            ParseResult::Success(rest, value) => ParseResult::Success(rest, value),
            ParseResult::Failure(_, _) => match self.second.parse(input) {
                ParseResult::Success(rest, value) => {
                    assert(self.first.model(value) == self.second.model(value));
                    ParseResult::Success(rest, value)
                },
                ParseResult::Failure(at, message) => ParseResult::Failure(at, message),
            },
        }
    }
}

/// `parser1`, or else `parser2` on the same input. Where both fail the
/// failure of `parser2` is reported and that of `parser1` is dropped.
pub fn or<T, M, P1: Parser<T, M>, P2: Parser<T, M>>(
    parser1: P1,
    parser2: P2,
) -> (r: Or<P1, P2>)
    ensures
        r == (Or { first: parser1, second: parser2 }),
        r.wf() == (parser1.wf() && parser2.wf() && same_models(&parser1, &parser2)),
        forall|input: Seq<char>| #[trigger]
            r.spec_parse(input) == spec_or(&parser1, &parser2, input),
        forall|v: T| #[trigger] r.model(v) == parser1.model(v),
        forall|input: Seq<char>, v: T| #[trigger]
            r.produces(input, v) == (if parser1.spec_parse(input) is Success {
                parser1.produces(input, v)
            } else {
                parser2.produces(input, v)
            }),
{
    Or { first: parser1, second: parser2 }
}

/// Every success of the parser consumes at least one character.
pub open spec fn always_advances<T, M, P: Parser<T, M>>(p: &P) -> bool {
    forall|input: Seq<char>| (#[trigger] p.spec_parse(input)).advances_on(input)
}

/// The models of a sequence of outputs.
pub open spec fn models_of<T, M, P: Parser<T, M>>(p: &P, values: Seq<T>) -> Seq<M> {
    values.map_values(|v: T| p.model(v))
}

/// Repetition of `p` from `input` until its first failure: the values of the
/// successes in order, and the input on which `p` failed. A success that
/// consumed nothing would end the repetition too; a parser that is fit for
/// repetition has none.
pub open spec fn spec_many<T, M, P: Parser<T, M>>(p: &P, input: Seq<char>) -> (Seq<M>, Seq<char>)
    decreases input.len(),
{
    match p.spec_parse(input) {
        Outcome::Success { rest, value } => if rest.len() < input.len() {
            let (values, end) = spec_many(p, rest);
            (seq![value] + values, end)
        } else {
            (Seq::empty(), input)
        },
        Outcome::Failure { .. } => (Seq::empty(), input),
    }
}

/// The input on which the repetition of `p` from `input` makes attempt
/// number `k`, counted from zero.
pub open spec fn position_after<T, M, P: Parser<T, M>>(p: &P, input: Seq<char>, k: nat) -> Seq<char>
    decreases k,
{
    if k == 0 {
        input
    } else {
        p.spec_parse(position_after(p, input, (k - 1) as nat)).position()
    }
}

/// Each of the collected outputs was produced by `p` on the input of its own
/// attempt.
pub open spec fn produces_each<T, M, P: Parser<T, M>>(p: &P, input: Seq<char>, values: Seq<T>) -> bool {
    forall|k: int|
        0 <= k < values.len() ==> p.produces(position_after(p, input, k as nat), #[trigger] values[k])
}

/// A repetition ends on a tail of the input it started from.
pub proof fn lemma_many_ends_on_tail<T, M, P: Parser<T, M>>(p: &P, input: Seq<char>)
    requires
        p.wf(),
    ensures
        is_tail_of(spec_many(p, input).1, input),
    decreases input.len(),
{
    lemma_tail_of_self(input);
    if let Outcome::Success { rest, .. } = p.spec_parse(input) {
        if rest.len() < input.len() {
            p.lemma_position_is_tail(input);
            lemma_many_ends_on_tail(p, rest);
            lemma_tail_of_tail(spec_many(p, rest).1, rest, input);
        }
    }
}

/// The loop that both repetitions share.
fn parse_many<'a, T, M, P: Parser<T, M>>(p: &P, input: &'a str) -> (r: (&'a str, Vec<T>))
    requires
        p.wf(),
        always_advances(p),
    ensures
        spec_many(p, input@) == (models_of(p, r.1@), r.0@),
        produces_each(p, input@, r.1@),
{
    let mut values: Vec<T> = Vec::new();
    let mut cur: &'a str = input;
    let mut open: bool = true;
    assert(models_of(p, values@) + spec_many(p, cur@).0 =~= spec_many(p, cur@).0);
    while open
        invariant
            p.wf(),
            always_advances(p),
            spec_many(p, input@).1 == spec_many(p, cur@).1,
            spec_many(p, input@).0 == models_of(p, values@) + spec_many(p, cur@).0,
            !open ==> spec_many(p, cur@) == (Seq::<M>::empty(), cur@),
            cur@ == position_after(p, input@, values@.len()),
            produces_each(p, input@, values@),
        decreases cur@.len() + (if open { 1int } else { 0int }),
    {
        let ghost before = cur@;
        let ghost done = values@;
        match p.parse(cur) {
            ParseResult::Success(rest, value) => {
                assert(p.spec_parse(before).advances_on(before));
                values.push(value);
                cur = rest;
                assert(models_of(p, values@) =~= models_of(p, done) + seq![p.model(value)]);
                assert(models_of(p, done) + (seq![p.model(value)] + spec_many(p, rest@).0)
                    =~= models_of(p, values@) + spec_many(p, rest@).0);
                assert(position_after(p, input@, (done.len() + 1) as nat) == rest@);
                assert forall|k: int| 0 <= k < values@.len() implies p.produces(
                    position_after(p, input@, k as nat),
                    #[trigger] values@[k],
                ) by {
                    if k < done.len() {
                        assert(values@[k] == done[k]);
                    }
                }
            },
            ParseResult::Failure(_, _) => {
                open = false;
            },
        }
    }
    assert(models_of(p, values@) + Seq::<M>::empty() =~= models_of(p, values@));
    (cur, values)
}

/// The repetition as a parser that never fails.
pub open spec fn spec_zero_or_more<T, M, P: Parser<T, M>>(p: &P, input: Seq<char>) -> Outcome<Seq<M>> {
    let (values, end) = spec_many(p, input);
    Outcome::Success { rest: end, value: values }
}

/// The repetition as a parser that fails, at the input it was given, where
/// nothing was collected.
pub open spec fn spec_one_or_more<T, M, P: Parser<T, M>>(p: &P, input: Seq<char>) -> Outcome<Seq<M>> {
    let (values, end) = spec_many(p, input);
    if values.len() == 0 {
        Outcome::Failure { at: input, message: none_found_message() }
    } else {
        Outcome::Success { rest: end, value: values }
    }
}

/// Repeats a parser until it fails and collects the values.
pub struct ZeroOrMore<P> {
    pub inner: P,
}

impl<T, M, P: Parser<T, M>> Parser<Vec<T>, Seq<M>> for ZeroOrMore<P> {
    open spec fn wf(&self) -> bool {
        self.inner.wf() && always_advances(&self.inner)
    }

    open spec fn model(&self, value: Vec<T>) -> Seq<M> {
        models_of(&self.inner, value@)
    }

    open spec fn spec_parse(&self, input: Seq<char>) -> Outcome<Seq<M>> {
        spec_zero_or_more(&self.inner, input)
    }

    open spec fn produces(&self, input: Seq<char>, value: Vec<T>) -> bool {
        produces_each(&self.inner, input, value@)
    }

    proof fn lemma_position_is_tail(&self, input: Seq<char>) {
        lemma_many_ends_on_tail(&self.inner, input);
    }

    fn parse<'a>(&self, input: &'a str) -> (r: ParseResult<'a, Vec<T>>) {
        let (rest, values) = parse_many(&self.inner, input);
        ParseResult::Success(rest, values)
    }
}

/// Zero or more repetitions of `p`. The result never fails; the position of
/// the attempt that ended the repetition is not reported.
pub fn zero_or_more<T, M, P: Parser<T, M>>(p: P) -> (r: ZeroOrMore<P>)
    ensures
        r == (ZeroOrMore { inner: p }),
        r.wf() == (p.wf() && always_advances(&p)),
        forall|input: Seq<char>| #[trigger] r.spec_parse(input) == spec_zero_or_more(&p, input),
        forall|v: Vec<T>| #[trigger] r.model(v) == models_of(&p, v@),
        forall|input: Seq<char>, v: Vec<T>| #[trigger]
            r.produces(input, v) == produces_each(&p, input, v@),
{
    ZeroOrMore { inner: p }
}

/// Repeats a parser until it fails and insists on one success at least.
pub struct OneOrMore<P> {
    pub inner: P,
}

/// The diagnostic of a repetition that found nothing.
pub open spec fn none_found_message() -> Seq<char> {
    "none of pattern found in 'one_or_more'"@
}

impl<T, M, P: Parser<T, M>> Parser<Vec<T>, Seq<M>> for OneOrMore<P> {
    open spec fn wf(&self) -> bool {
        self.inner.wf() && always_advances(&self.inner)
    }

    open spec fn model(&self, value: Vec<T>) -> Seq<M> {
        models_of(&self.inner, value@)
    }

    open spec fn spec_parse(&self, input: Seq<char>) -> Outcome<Seq<M>> {
        spec_one_or_more(&self.inner, input)
    }

    open spec fn produces(&self, input: Seq<char>, value: Vec<T>) -> bool {
        produces_each(&self.inner, input, value@)
    }

    proof fn lemma_position_is_tail(&self, input: Seq<char>) {
        lemma_many_ends_on_tail(&self.inner, input);
        lemma_tail_of_self(input);
    }

    fn parse<'a>(&self, input: &'a str) -> (r: ParseResult<'a, Vec<T>>) {
        let (rest, values) = parse_many(&self.inner, input);
        if values.len() == 0 {
            ParseResult::Failure(input, String::from_str("none of pattern found in 'one_or_more'"))
        } else {
            ParseResult::Success(rest, values)
        }
    }
}

/// One or more repetitions of `p`: as [`zero_or_more`], but an empty
/// collection is a failure at the input that was given.
pub fn one_or_more<T, M, P: Parser<T, M>>(p: P) -> (r: OneOrMore<P>)
    ensures
        r == (OneOrMore { inner: p }),
        r.wf() == (p.wf() && always_advances(&p)),
        forall|input: Seq<char>| #[trigger] r.spec_parse(input) == spec_one_or_more(&p, input),
        forall|v: Vec<T>| #[trigger] r.model(v) == models_of(&p, v@),
        forall|input: Seq<char>, v: Vec<T>| #[trigger]
            r.produces(input, v) == produces_each(&p, input, v@),
{
    OneOrMore { inner: p }
}

/// The literal, then `p` on what follows it; the literal's own failure where
/// the input does not start with it.
pub open spec fn spec_prefix<T, M, P: Parser<T, M>>(lit: Seq<char>, p: &P, input: Seq<char>) -> Outcome<
    M,
> {
    if lit.is_prefix_of(input) {
        p.spec_parse(input.skip(lit.len() as int))
    } else {
        Outcome::Failure { at: input, message: literal_message(lit) }
    }
}

/// `p`, then the literal on what `p` left; the value is that of `p`.
pub open spec fn spec_suffix<T, M, P: Parser<T, M>>(lit: Seq<char>, p: &P, input: Seq<char>) -> Outcome<
    M,
> {
    match p.spec_parse(input) {
        Outcome::Success { rest: middle, value } => if lit.is_prefix_of(middle) {
            Outcome::Success { rest: middle.skip(lit.len() as int), value }
        } else {
            Outcome::Failure { at: middle, message: literal_message(lit) }
        },
        Outcome::Failure { at, message } => Outcome::Failure { at, message },
    }
}

/// Matches a literal, drops it, then runs a parser.
pub struct Prefix<'l, P> {
    pub lit: &'l str,
    pub inner: P,
}

impl<'l, T, M, P: Parser<T, M>> Parser<T, M> for Prefix<'l, P> {
    open spec fn wf(&self) -> bool {
        self.inner.wf()
    }

    open spec fn model(&self, value: T) -> M {
        self.inner.model(value)
    }

    open spec fn spec_parse(&self, input: Seq<char>) -> Outcome<M> {
        spec_prefix(self.lit@, &self.inner, input)
    }

    open spec fn produces(&self, input: Seq<char>, value: T) -> bool {
        self.inner.produces(input.skip(self.lit@.len() as int), value)
    }

    proof fn lemma_position_is_tail(&self, input: Seq<char>) {
        let head = Literal { lit: self.lit };
        head.lemma_position_is_tail(input);
        if let Outcome::Success { rest, .. } = head.spec_parse(input) {
            self.inner.lemma_position_is_tail(rest);
            lemma_tail_of_tail(self.inner.spec_parse(rest).position(), rest, input);
        }
    }

    fn parse<'a>(&self, input: &'a str) -> (r: ParseResult<'a, T>) {
        let head = Literal { lit: self.lit };
        match head.parse(input) {
            ParseResult::Success(rest, _) => self.inner.parse(rest),
            ParseResult::Failure(at, message) => ParseResult::Failure(at, message),
        }
    }
}

/// The literal `s`, then `p`; only the value of `p` is kept.
pub fn prefix<'l, T, M, P: Parser<T, M>>(s: &'l str, p: P) -> (r: Prefix<'l, P>)
    ensures
        r == (Prefix { lit: s, inner: p }),
        r.wf() == p.wf(),
        forall|input: Seq<char>| #[trigger] r.spec_parse(input) == spec_prefix(s@, &p, input),
        forall|v: T| #[trigger] r.model(v) == p.model(v),
        forall|input: Seq<char>, v: T| #[trigger]
            r.produces(input, v) == p.produces(input.skip(s@.len() as int), v),
{
    Prefix { lit: s, inner: p }
}

/// Runs a parser, then matches a literal and drops it.
pub struct Suffix<'l, P> {
    pub lit: &'l str,
    pub inner: P,
}

impl<'l, T, M, P: Parser<T, M>> Parser<T, M> for Suffix<'l, P> {
    open spec fn wf(&self) -> bool {
        self.inner.wf()
    }

    open spec fn model(&self, value: T) -> M {
        self.inner.model(value)
    }

    open spec fn spec_parse(&self, input: Seq<char>) -> Outcome<M> {
        spec_suffix(self.lit@, &self.inner, input)
    }

    open spec fn produces(&self, input: Seq<char>, value: T) -> bool {
        self.inner.produces(input, value)
    }

    proof fn lemma_position_is_tail(&self, input: Seq<char>) {
        let tail = Literal { lit: self.lit };
        self.inner.lemma_position_is_tail(input);
        if let Outcome::Success { rest: middle, .. } = self.inner.spec_parse(input) {
            tail.lemma_position_is_tail(middle);
            lemma_tail_of_tail(tail.spec_parse(middle).position(), middle, input);
        }
    }

    fn parse<'a>(&self, input: &'a str) -> (r: ParseResult<'a, T>) {
        let tail = Literal { lit: self.lit };
        match self.inner.parse(input) {
            ParseResult::Success(middle, value) => match tail.parse(middle) {
                ParseResult::Success(rest, _) => ParseResult::Success(rest, value),
                ParseResult::Failure(at, message) => ParseResult::Failure(at, message),
            },
            ParseResult::Failure(at, message) => ParseResult::Failure(at, message),
        }
    }
}

/// `p`, then the literal `s`; only the value of `p` is kept.
pub fn suffix<'l, T, M, P: Parser<T, M>>(s: &'l str, p: P) -> (r: Suffix<'l, P>)
    ensures
        r == (Suffix { lit: s, inner: p }),
        r.wf() == p.wf(),
        forall|input: Seq<char>| #[trigger] r.spec_parse(input) == spec_suffix(s@, &p, input),
        forall|v: T| #[trigger] r.model(v) == p.model(v),
        forall|input: Seq<char>, v: T| #[trigger] r.produces(input, v) == p.produces(input, v),
{
    Suffix { lit: s, inner: p }
}

/// The opening literal, then `p`, then the closing literal: a failure of any
/// of the three is the failure of the whole.
pub open spec fn spec_surround<T, M, P: Parser<T, M>>(
    open: Seq<char>,
    close: Seq<char>,
    p: &P,
    input: Seq<char>,
) -> Outcome<M> {
    if open.is_prefix_of(input) {
        spec_suffix(close, p, input.skip(open.len() as int))
    } else {
        Outcome::Failure { at: input, message: literal_message(open) }
    }
}

/// `p` between the literals `a` and `b`, both of which are dropped.
pub fn surround<'l, T, M, P: Parser<T, M>>(a: &'l str, b: &'l str, p: P) -> (r: Prefix<'l, Suffix<'l, P>>)
    ensures
        r == (Prefix { lit: a, inner: Suffix { lit: b, inner: p } }),
        r.wf() == p.wf(),
        forall|input: Seq<char>| #[trigger]
            r.spec_parse(input) == spec_surround(a@, b@, &p, input),
        forall|v: T| #[trigger] r.model(v) == p.model(v),
        forall|input: Seq<char>, v: T| #[trigger]
            r.produces(input, v) == p.produces(input.skip(a@.len() as int), v),
{
    prefix(a, suffix(b, p))
}

/// The function may return `b` on some output whose model is `m`.
pub open spec fn may_return<A, M, B, P: Parser<A, M>, F: Fn(A) -> B>(
    p: &P,
    f: &F,
    m: M,
    b: B,
) -> bool {
    exists|a: A| p.model(a) == m && #[trigger] f.ensures((a,), b)
}

/// The value that the function returns on the outputs with model `m`.
pub open spec fn spec_apply<A, M, B, P: Parser<A, M>, F: Fn(A) -> B>(p: &P, f: &F, m: M) -> B {
    choose|b: B| may_return(p, f, m, b)
}

/// The function can be applied to every output of the parser, and what it
/// returns is determined by the model of what it is given.
pub open spec fn is_pure_on<A, M, B, P: Parser<A, M>, F: Fn(A) -> B>(p: &P, f: &F) -> bool {
    &&& forall|a: A| #[trigger] f.requires((a,))
    &&& forall|a1: A, a2: A, b1: B, b2: B|
        p.model(a1) == p.model(a2) && #[trigger] f.ensures((a1,), b1) && #[trigger] f.ensures(
            (a2,),
            b2,
        ) ==> b1 == b2
}

/// Where a pure function returned `b` on `a`, it stands for `b` on the model
/// of `a`.
pub proof fn lemma_apply_is_exact<A, M, B, P: Parser<A, M>, F: Fn(A) -> B>(
    p: &P,
    f: &F,
    a: A,
    b: B,
)
    requires
        is_pure_on(p, f),
        f.ensures((a,), b),
    ensures
        spec_apply(p, f, p.model(a)) == b,
{
    let m = p.model(a);
    assert(may_return(p, f, m, b));
    let chosen = spec_apply(p, f, m);
    assert(may_return(p, f, m, chosen));
    let a2 = choose|a2: A| p.model(a2) == m && #[trigger] f.ensures((a2,), chosen);
    assert(f.ensures((a2,), chosen));
}

/// The function returned `b` on an output that the parser produced on
/// `input`.
pub open spec fn produced_by_map<A, M, B, P: Parser<A, M>, F: Fn(A) -> B>(
    p: &P,
    f: &F,
    input: Seq<char>,
    b: B,
) -> bool {
    exists|a: A|
        p.produces(input, a) && p.spec_parse(input) is Success && p.model(a) == p.spec_parse(
            input,
        )->value && #[trigger] f.ensures((a,), b)
}

/// A parser with a function applied to the value of each success; a failure
/// is handed on with its position and message.
pub open spec fn spec_map<A, M, B, P: Parser<A, M>, F: Fn(A) -> B>(
    p: &P,
    f: &F,
    input: Seq<char>,
) -> Outcome<B> {
    match p.spec_parse(input) {
        Outcome::Success { rest, value } => Outcome::Success { rest, value: spec_apply(p, f, value) },
        Outcome::Failure { at, message } => Outcome::Failure { at, message },
    }
}

/// Passes the value of a success through a function.
pub struct Mapped<P, F, A, M> {
    pub parser: P,
    pub functor: F,
    pub marker: PhantomData<(A, M)>,
}

impl<A, M, B, P: Parser<A, M>, F: Fn(A) -> B> Parser<B, B> for Mapped<P, F, A, M> {
    open spec fn wf(&self) -> bool {
        self.parser.wf() && is_pure_on(&self.parser, &self.functor)
    }

    open spec fn model(&self, value: B) -> B {
        value
    }

    open spec fn spec_parse(&self, input: Seq<char>) -> Outcome<B> {
        spec_map(&self.parser, &self.functor, input)
    }

    open spec fn produces(&self, input: Seq<char>, value: B) -> bool {
        produced_by_map(&self.parser, &self.functor, input, value)
    }

    proof fn lemma_position_is_tail(&self, input: Seq<char>) {
        self.parser.lemma_position_is_tail(input);
    }

    fn parse<'a>(&self, input: &'a str) -> (r: ParseResult<'a, B>) {
        match self.parser.parse(input) {
            ParseResult::Success(rest, value) => {
                let out = (self.functor)(value);
                proof {
                    lemma_apply_is_exact(&self.parser, &self.functor, value, out);
                    assert(self.functor.ensures((value,), out));
                }
                ParseResult::Success(rest, out)
            },
            ParseResult::Failure(at, message) => ParseResult::Failure(at, message),
        }
    }
}

/// `parser` with `functor` applied to the value of each success; a failure
/// passes through unchanged.
pub fn map<A, M, B, P: Parser<A, M>, F: Fn(A) -> B>(parser: P, functor: F) -> (r: Mapped<P, F, A, M>)
    ensures
        r == (Mapped::<P, F, A, M> { parser, functor, marker: PhantomData }),
        r.wf() == (parser.wf() && is_pure_on(&parser, &functor)),
        forall|value: B| #[trigger] r.model(value) == value,
        forall|input: Seq<char>| #[trigger] r.spec_parse(input) == spec_map(&parser, &functor, input),
        forall|input: Seq<char>, value: B| #[trigger]
            r.produces(input, value) == produced_by_map(&parser, &functor, input, value),
{
    Mapped { parser, functor, marker: PhantomData }
}

} // verus!
