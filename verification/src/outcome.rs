//! The result model and the parser capability.

use vstd::prelude::*;

verus! {

/// What a parser hands back: the unconsumed input with a value, or the input
/// at the point where parsing gave up with an advisory message.
#[derive(Debug, PartialEq, Eq)]
pub enum ParseResult<'a, T> {
    Success(&'a str, T),
    Failure(&'a str, String),
}

/// The mathematical counterpart of [`ParseResult`]: input as a sequence of
/// characters and the value as its model.
pub enum Outcome<M> {
    Success { rest: Seq<char>, value: M },
    Failure { at: Seq<char>, message: Seq<char> },
}

impl<M> Outcome<M> {
    /// The input position that the outcome carries, whichever variant it is.
    pub open spec fn position(self) -> Seq<char> {
        match self {
            Outcome::Success { rest, .. } => rest,
            Outcome::Failure { at, .. } => at,
        }
    }

    /// True when the outcome is a success that consumed at least one character
    /// of `input`, or a failure.
    pub open spec fn advances_on(self, input: Seq<char>) -> bool {
        self is Success ==> self.position().len() < input.len()
    }
}

/// `rest` is what remains of `input` after dropping some characters from its
/// front.
pub open spec fn is_tail_of(rest: Seq<char>, input: Seq<char>) -> bool {
    rest.len() <= input.len() && rest == input.skip(input.len() - rest.len())
}

/// Being a tail is transitive.
pub proof fn lemma_tail_of_tail(a: Seq<char>, b: Seq<char>, c: Seq<char>)
    requires
        is_tail_of(a, b),
        is_tail_of(b, c),
    ensures
        is_tail_of(a, c),
{
    assert(a =~= c.skip(c.len() - a.len()));
}

/// Every sequence is a tail of itself.
pub proof fn lemma_tail_of_self(a: Seq<char>)
    ensures
        is_tail_of(a, a),
{
    assert(a =~= a.skip(0));
}

/// Anything that can be invoked with input and yields a [`ParseResult`] with
/// values of type `T`.
///
/// `M` is the mathematical value that a `T` stands for, and `spec_parse` is
/// the function that `parse` computes.
pub trait Parser<T, M> {
    /// The conditions under which the parser may be invoked.
    spec fn wf(&self) -> bool;

    /// The mathematical value that an output stands for.
    spec fn model(&self, value: T) -> M;

    /// The parser as a function of its input.
    spec fn spec_parse(&self, input: Seq<char>) -> Outcome<M>;

    /// What is known of an output of a success on `input` beyond its model:
    /// which calls of the functions inside the parser it came from.
    spec fn produces(&self, input: Seq<char>, value: T) -> bool;

    /// A parser never fabricates input: the position it reports, on success
    /// and on failure alike, is a tail of the input it was given.
    proof fn lemma_position_is_tail(&self, input: Seq<char>)
        requires
            self.wf(),
        ensures
            is_tail_of(self.spec_parse(input).position(), input),
    ;

    fn parse<'a>(&self, input: &'a str) -> (r: ParseResult<'a, T>)
        requires
            self.wf(),
        ensures
            match r {
                ParseResult::Success(rest, value) => self.spec_parse(input@) == (Outcome::<M>::Success { rest: rest@, value: self.model(value) }) && self.produces(
                    input@,
                    value,
                ),
                ParseResult::Failure(at, message) => self.spec_parse(input@) == (Outcome::<M>::Failure {
                    at: at@,
                    message: message@,
                }),
            },
    ;
}

} // verus!
