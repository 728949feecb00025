//! Laws that relate the parsers to each other, stated over their
//! mathematical descriptions and proved once for all inputs.

use vstd::prelude::*;
use std::marker::PhantomData;
use crate::outcome::{Outcome, Parser};
use crate::primitives::{
    accepted_by, is_identifier_char, is_number_char, lemma_token_consumes, spec_literal,
    Identifier, Literal, NumberToken, Token,
};
use crate::combinators::{
    always_advances, is_pure_on, lemma_apply_is_exact, lemma_many_ends_on_tail, may_return,
    position_after, spec_many, spec_map, spec_one_or_more, spec_option, spec_surround,
    spec_zero_or_more, And, Mapped, OneOrMore, Or, Prefix, Suffix,
};

verus! {

/// A literal succeeds exactly on the inputs that start with it; it then
/// yields itself and leaves the input without the literal's characters.
/// Otherwise it fails at the input it was given, with nothing consumed.
pub proof fn lemma_literal_matches_prefix(s: Seq<char>, input: Seq<char>)
    ensures
        spec_literal(s, input) is Success <==> s.is_prefix_of(input),
        s.is_prefix_of(input) ==> spec_literal(s, input) == (Outcome::Success {
            rest: input.skip(s.len() as int),
            value: s,
        }),
        !s.is_prefix_of(input) ==> spec_literal(s, input) is Failure && spec_literal(
            s,
            input,
        ).position() == input,
{
}

/// An optional parser never fails. Where the inner parser fails, the value
/// is absent and the whole input remains; where it succeeds, its value and its
/// remaining input are kept.
pub proof fn lemma_option_never_fails<T, M, P: Parser<T, M>>(p: P, input: Seq<char>)
    ensures
        spec_option(&p, input) is Success,
        p.spec_parse(input) is Failure ==> spec_option(&p, input) == (Outcome::Success {
            rest: input,
            value: None::<M>,
        }),
        p.spec_parse(input) matches Outcome::Success { rest, value } ==> spec_option(&p, input) == (
        Outcome::Success { rest, value: Some(value) }),
{
}

/// Repeating a parser never fails, and where the parser fails at once the
/// collection is empty and the input is left as it was.
pub proof fn lemma_zero_or_more_of_failure<T, M, P: Parser<T, M>>(p: P, input: Seq<char>)
    ensures
        spec_zero_or_more(&p, input) is Success,
        p.spec_parse(input) is Failure ==> spec_zero_or_more(&p, input) == (Outcome::Success {
            rest: input,
            value: Seq::<M>::empty(),
        }),
{
}

/// The input of attempt `k + 1` from `input` is the input of attempt `k`
/// from where the first attempt left off.
pub proof fn lemma_position_shift<T, M, P: Parser<T, M>>(p: &P, input: Seq<char>, k: nat)
    ensures
        position_after(p, input, k + 1) == position_after(p, p.spec_parse(input).position(), k),
    decreases k,
{
    let rest = p.spec_parse(input).position();
    if k == 0 {
        assert(position_after(p, input, 0) == input);
        assert(position_after(p, input, 1) == p.spec_parse(
            position_after(p, input, 0),
        ).position());
    } else {
        lemma_position_shift(p, input, (k - 1) as nat);
        assert(position_after(p, input, k + 1) == p.spec_parse(
            position_after(p, input, k),
        ).position());
        assert(position_after(p, rest, k) == p.spec_parse(
            position_after(p, rest, (k - 1) as nat),
        ).position());
    }
}

/// What a repetition collects, attempt by attempt: each value is the value of
/// a success of the parser on the input that the attempt before it left, in
/// order; the repetition ends on the first input on which the parser fails,
/// and that input is what remains.
pub proof fn lemma_many_step_by_step<T, M, P: Parser<T, M>>(p: &P, input: Seq<char>)
    requires
        always_advances(p),
    ensures
        spec_many(p, input).1 == position_after(p, input, spec_many(p, input).0.len()),
        p.spec_parse(spec_many(p, input).1) is Failure,
        forall|k: int|
            0 <= k < spec_many(p, input).0.len() ==> #[trigger] p.spec_parse(
                position_after(p, input, k as nat),
            ) == (Outcome::Success {
                rest: position_after(p, input, (k + 1) as nat),
                value: spec_many(p, input).0[k],
            }),
    decreases input.len(),
{
    assert(p.spec_parse(input).advances_on(input));
    if let Outcome::Success { rest, value } = p.spec_parse(input) {
        lemma_many_step_by_step(p, rest);
        let values = spec_many(p, input).0;
        let later = spec_many(p, rest).0;
        assert(values =~= seq![value] + later);
        lemma_position_shift(p, input, later.len());
        assert forall|k: int| 0 <= k < values.len() implies #[trigger] p.spec_parse(
            position_after(p, input, k as nat),
        ) == (Outcome::Success {
            rest: position_after(p, input, (k + 1) as nat),
            value: values[k],
        }) by {
            if k > 0 {
                lemma_position_shift(p, input, (k - 1) as nat);
                lemma_position_shift(p, input, k as nat);
                assert(values[k] == later[k - 1]);
            } else {
                assert(position_after(p, input, 1) == p.spec_parse(
                    position_after(p, input, 0),
                ).position());
            }
        }
    }
}

/// `one_or_more` fails exactly where `zero_or_more` collects nothing, and
/// the failure stands at the input that was given. Everywhere else the two
/// give the same values and the same remaining input. For a parser that is
/// fit for repetition, nothing is collected exactly where the parser fails on
/// the input itself.
pub proof fn lemma_one_or_more_agrees<T, M, P: Parser<T, M>>(p: P, input: Seq<char>)
    ensures
        spec_one_or_more(&p, input) is Failure <==> spec_zero_or_more(&p, input)->value.len() == 0,
        spec_one_or_more(&p, input) is Failure ==> spec_one_or_more(&p, input).position() == input,
        spec_one_or_more(&p, input) is Success ==> spec_one_or_more(&p, input) == spec_zero_or_more(
            &p,
            input,
        ),
        always_advances(&p) ==> (spec_one_or_more(&p, input) is Failure <==> p.spec_parse(
            input,
        ) is Failure),
{
    if always_advances(&p) {
        assert(p.spec_parse(input).advances_on(input));
    }
}

/// Mapping twice is mapping once through the composition: where `h` returns
/// what `g` returns on what `f` returns, `map(map(p, f), g)` and `map(p, h)`
/// are the same parser. On a success of `p` the law asks that the value is
/// one that the composition can be applied to.
pub proof fn lemma_map_composes<
    A,
    M,
    B,
    C,
    P: Parser<A, M>,
    F: Fn(A) -> B,
    G: Fn(B) -> C,
    H: Fn(A) -> C,
>(p: P, f: F, g: G, h: H, input: Seq<char>)
    requires
        is_pure_on(&p, &f),
        is_pure_on(&Mapped { parser: p, functor: f, marker: PhantomData::<(A, M)> }, &g),
        is_pure_on(&p, &h),
        forall|a: A, c: C| #[trigger]
            h.ensures((a,), c) <==> exists|b: B| #[trigger]
                f.ensures((a,), b) && g.ensures((b,), c),
        p.spec_parse(input) matches Outcome::Success { value, .. } ==> exists|c: C|
            #[trigger] may_return(&p, &h, value, c),
    ensures
        spec_map(&Mapped { parser: p, functor: f, marker: PhantomData::<(A, M)> }, &g, input)
            == spec_map(&p, &h, input),
{
    if let Outcome::Success { rest, value: m } = p.spec_parse(input) {
        let inner = Mapped { parser: p, functor: f, marker: PhantomData::<(A, M)> };
        let c = choose|c: C| #[trigger] may_return(&p, &h, m, c);
        let a = choose|a: A| p.model(a) == m && #[trigger] h.ensures((a,), c);
        assert(h.ensures((a,), c));
        let b = choose|b: B| #[trigger] f.ensures((a,), b) && g.ensures((b,), c);
        assert(f.ensures((a,), b) && g.ensures((b,), c));
        lemma_apply_is_exact(&p, &h, a, c);
        lemma_apply_is_exact(&p, &f, a, b);
        assert(inner.model(b) == b);
        lemma_apply_is_exact(&inner, &g, b, c);
    }
}

/// A parser between two literals: on the opening literal, then a text that
/// the parser matches exactly, then the closing literal, then anything, the
/// result is the parser's value and what follows the closing literal.
pub proof fn lemma_surround_strips_both<T, M, P: Parser<T, M>>(
    a: Seq<char>,
    b: Seq<char>,
    p: P,
    x: Seq<char>,
    rest: Seq<char>,
    value: M,
)
    requires
        p.spec_parse(x + b + rest) == (Outcome::Success { rest: b + rest, value }),
    ensures
        spec_surround(a, b, &p, a + x + b + rest) == (Outcome::Success { rest, value }),
{
    let whole = a + x + b + rest;
    assert(a =~= whole.subrange(0, a.len() as int));
    assert(whole.skip(a.len() as int) =~= x + b + rest);
    assert(b =~= (b + rest).subrange(0, b.len() as int));
    assert((b + rest).skip(b.len() as int) =~= rest);
}

/// A literal that is not empty consumes input whenever it succeeds, so it
/// may be repeated.
pub proof fn lemma_literal_advances(s: &str)
    requires
        s@.len() > 0,
    ensures
        always_advances(&Literal { lit: s }),
{
}

/// A token consumes input whenever it succeeds, so it may be repeated.
pub proof fn lemma_token_advances<R: Fn(char) -> bool>(rule: R)
    ensures
        always_advances(&Token { rule }),
{
    let scanner = Token { rule };
    assert forall|input: Seq<char>| (#[trigger] scanner.spec_parse(input)).advances_on(input) by {
        lemma_token_consumes(accepted_by(&scanner.rule), input);
    }
}

/// An identifier and the token of a number consume input whenever they
/// succeed, so they may be repeated.
pub proof fn lemma_words_advance()
    ensures
        always_advances(&Identifier {}),
        always_advances(&NumberToken {}),
{
    assert forall|input: Seq<char>| (#[trigger] (Identifier {}).spec_parse(input)).advances_on(
        input,
    ) by {
        lemma_token_consumes(|c: char| is_identifier_char(c), input);
    }
    assert forall|input: Seq<char>| (#[trigger] (NumberToken {}).spec_parse(input)).advances_on(
        input,
    ) by {
        lemma_token_consumes(|c: char| is_number_char(c), input);
    }
}

/// A sequence consumes input whenever it succeeds if one of its parts does.
pub proof fn lemma_and_advances<A, MA, B, MB, PA: Parser<A, MA>, PB: Parser<B, MB>>(a: PA, b: PB)
    requires
        a.wf(),
        b.wf(),
        always_advances(&a) || always_advances(&b),
    ensures
        always_advances(&And { first: a, second: b }),
{
    let both = And { first: a, second: b };
    assert forall|input: Seq<char>| (#[trigger] both.spec_parse(input)).advances_on(input) by {
        a.lemma_position_is_tail(input);
        if let Outcome::Success { rest: middle, .. } = a.spec_parse(input) {
            b.lemma_position_is_tail(middle);
            assert(a.spec_parse(input).advances_on(input) || b.spec_parse(middle).advances_on(
                middle,
            ));
        }
    }
}

/// An alternative consumes input whenever it succeeds if both sides do.
pub proof fn lemma_or_advances<T, M, P1: Parser<T, M>, P2: Parser<T, M>>(p1: P1, p2: P2)
    requires
        always_advances(&p1),
        always_advances(&p2),
    ensures
        always_advances(&Or { first: p1, second: p2 }),
{
    let either = Or { first: p1, second: p2 };
    assert forall|input: Seq<char>| (#[trigger] either.spec_parse(input)).advances_on(input) by {
        assert(p1.spec_parse(input).advances_on(input));
        assert(p2.spec_parse(input).advances_on(input));
    }
}

/// A repetition that insists on one success consumes input whenever it
/// succeeds.
pub proof fn lemma_one_or_more_advances<T, M, P: Parser<T, M>>(p: P)
    requires
        (OneOrMore { inner: p }).wf(),
    ensures
        always_advances(&OneOrMore { inner: p }),
{
    let many = OneOrMore { inner: p };
    assert forall|input: Seq<char>| (#[trigger] many.spec_parse(input)).advances_on(input) by {
        assert(p.spec_parse(input).advances_on(input));
        if let Outcome::Success { rest, .. } = p.spec_parse(input) {
            lemma_many_ends_on_tail(&p, rest);
        }
    }
}

/// A parser behind a literal consumes input whenever it succeeds if the
/// literal is not empty or the parser itself does.
pub proof fn lemma_prefix_advances<T, M, P: Parser<T, M>>(s: &str, p: P)
    requires
        p.wf(),
        s@.len() > 0 || always_advances(&p),
    ensures
        always_advances(&Prefix { lit: s, inner: p }),
{
    let whole = Prefix { lit: s, inner: p };
    assert forall|input: Seq<char>| (#[trigger] whole.spec_parse(input)).advances_on(input) by {
        if s@.is_prefix_of(input) {
            let rest = input.skip(s@.len() as int);
            p.lemma_position_is_tail(rest);
            assert(s@.len() > 0 || p.spec_parse(rest).advances_on(rest));
        }
    }
}

/// A parser before a literal consumes input whenever it succeeds if the
/// literal is not empty or the parser itself does.
pub proof fn lemma_suffix_advances<T, M, P: Parser<T, M>>(s: &str, p: P)
    requires
        p.wf(),
        s@.len() > 0 || always_advances(&p),
    ensures
        always_advances(&Suffix { lit: s, inner: p }),
{
    let whole = Suffix { lit: s, inner: p };
    assert forall|input: Seq<char>| (#[trigger] whole.spec_parse(input)).advances_on(input) by {
        p.lemma_position_is_tail(input);
        assert(s@.len() > 0 || p.spec_parse(input).advances_on(input));
    }
}

/// A mapped parser consumes input whenever the parser under it does.
pub proof fn lemma_map_advances<A, M, B, P: Parser<A, M>, F: Fn(A) -> B>(p: P, f: F)
    requires
        always_advances(&p),
    ensures
        always_advances(&Mapped { parser: p, functor: f, marker: PhantomData::<(A, M)> }),
{
    let mapped = Mapped { parser: p, functor: f, marker: PhantomData::<(A, M)> };
    assert forall|input: Seq<char>| (#[trigger] mapped.spec_parse(input)).advances_on(input) by {
        assert(p.spec_parse(input).advances_on(input));
    }
}

} // verus!
