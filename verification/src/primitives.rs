//! Leaf parsers: the ones that inspect characters.

use vstd::prelude::*;
use vstd::std_specs::iter::IteratorSpec;
use vstd::string::StringExecFns;
use crate::outcome::{is_tail_of, Outcome, ParseResult, Parser};
use crate::text::{same_text, skip_chars, starts_with, take_chars};

verus! {

broadcast use vstd::string::group_string_axioms;

/// Matches one fixed piece of text at the front of the input.
pub struct Literal<'l> {
    pub lit: &'l str,
}

/// The diagnostic of a literal that was not found.
pub open spec fn literal_message(lit: Seq<char>) -> Seq<char> {
    "Literal '"@ + lit + "' not found"@
}

/// What a literal does on an input: where the input starts with it, it yields
/// itself and leaves what follows; elsewhere it fails at the input, with
/// nothing consumed.
pub open spec fn spec_literal(lit: Seq<char>, input: Seq<char>) -> Outcome<Seq<char>> {
    if lit.is_prefix_of(input) {
        Outcome::Success { rest: input.skip(lit.len() as int), value: lit }
    } else {
        Outcome::Failure { at: input, message: literal_message(lit) }
    }
}

impl<'l> Parser<&'l str, Seq<char>> for Literal<'l> {
    open spec fn wf(&self) -> bool {
        true
    }

    open spec fn model(&self, value: &'l str) -> Seq<char> {
        value@
    }

    open spec fn spec_parse(&self, input: Seq<char>) -> Outcome<Seq<char>> {
        spec_literal(self.lit@, input)
    }

    open spec fn produces(&self, input: Seq<char>, value: &'l str) -> bool {
        true
    }

    proof fn lemma_position_is_tail(&self, input: Seq<char>) {
        assert(input =~= input.skip(0));
    }

    fn parse<'a>(&self, input: &'a str) -> (r: ParseResult<'a, &'l str>) {
        if starts_with(input, self.lit) {
            let n: usize = self.lit.unicode_len();
            ParseResult::Success(skip_chars(input, n), self.lit)
        } else {
            let message = String::from_str("Literal '").concat(self.lit).concat("' not found");
            ParseResult::Failure(input, message)
        }
    }
}

/// A parser for the literal `lit`: it succeeds exactly on inputs that start
/// with `lit`, yields `lit` and consumes its characters.
pub fn parse_literal<'l>(lit: &'l str) -> (p: Literal<'l>)
    ensures
        p == (Literal { lit }),
        p.wf(),
        forall|input: Seq<char>| #[trigger] p.spec_parse(input) == spec_literal(lit@, input),
{
    Literal { lit }
}

/// Matches the first literal of an ordered list that the input starts with.
pub struct Literals<'l> {
    pub lits: Vec<&'l str>,
}

/// The literals of a list as character sequences.
pub open spec fn texts(lits: Seq<&str>) -> Seq<Seq<char>> {
    lits.map_values(|l: &str| l@)
}

/// `i` is the first position in `lits` whose literal `input` starts with.
pub open spec fn is_first_match(lits: Seq<Seq<char>>, input: Seq<char>, i: int) -> bool {
    &&& 0 <= i < lits.len()
    &&& lits[i].is_prefix_of(input)
    &&& forall|j: int| 0 <= j < i ==> !(#[trigger] lits[j]).is_prefix_of(input)
}

/// How the standard library prints a list of string slices with `{:?}`.
pub uninterp spec fn debug_text(lits: Seq<Seq<char>>) -> Seq<char>;

/// Calls the standard library's `Debug` formatting (`format!` with `{:?}`) on
/// a vector of string slices. The text depends on the slices' characters
/// alone; it is given the name [`debug_text`] and not spelled out.
#[verifier::external_body]
fn debug_format(lits: &Vec<&str>) -> (s: String)
    ensures
        s@ == debug_text(texts(lits@)),
{
    format!("{:?}", lits)
}

/// The diagnostic for an input that starts with none of the literals.
pub open spec fn literals_message(lits: Seq<Seq<char>>) -> Seq<char> {
    "Literal '"@ + debug_text(lits) + "' not found"@
}

/// What a list of literals does on an input: the first literal in list order
/// that is a prefix of the input wins, whether or not a later one is longer.
pub open spec fn spec_literals(lits: Seq<Seq<char>>, input: Seq<char>) -> Outcome<Seq<char>> {
    if exists|i: int| is_first_match(lits, input, i) {
        let i = choose|i: int| is_first_match(lits, input, i);
        Outcome::Success { rest: input.skip(lits[i].len() as int), value: lits[i] }
    } else {
        Outcome::Failure { at: input, message: literals_message(lits) }
    }
}

impl<'l> Parser<&'l str, Seq<char>> for Literals<'l> {
    open spec fn wf(&self) -> bool {
        true
    }

    open spec fn model(&self, value: &'l str) -> Seq<char> {
        value@
    }

    open spec fn spec_parse(&self, input: Seq<char>) -> Outcome<Seq<char>> {
        spec_literals(texts(self.lits@), input)
    }

    open spec fn produces(&self, input: Seq<char>, value: &'l str) -> bool {
        true
    }

    proof fn lemma_position_is_tail(&self, input: Seq<char>) {
        assert(input =~= input.skip(0));
    }

    fn parse<'a>(&self, input: &'a str) -> (r: ParseResult<'a, &'l str>) {
        let ghost lits = texts(self.lits@);
        let mut k: usize = 0;
        while k < self.lits.len()
            invariant
                k <= self.lits.len(),
                lits == texts(self.lits@),
                forall|j: int| 0 <= j < k ==> !(#[trigger] lits[j]).is_prefix_of(input@),
            decreases self.lits.len() - k,
        {
            let lit: &'l str = self.lits[k];
            assert(lits[k as int] == lit@);
            if starts_with(input, lit) {
                let n: usize = lit.unicode_len();
                proof {
                    assert(is_first_match(lits, input@, k as int));
                    let i = choose|i: int| is_first_match(lits, input@, i);
                    assert(i == k) by {
                        if i < k {
                            assert(!lits[i].is_prefix_of(input@));
                        }
                        if k < i {
                            assert(!lits[k as int].is_prefix_of(input@));
                        }
                    }
                }
                return ParseResult::Success(skip_chars(input, n), lit);
            }
            k += 1;
        }
        proof {
            assert forall|i: int| !is_first_match(lits, input@, i) by {
                if 0 <= i < lits.len() {
                    assert(!lits[i].is_prefix_of(input@));
                }
            }
        }
        let listed = debug_format(&self.lits);
        let message = String::from_str("Literal '").concat(listed.as_str()).concat("' not found");
        ParseResult::Failure(input, message)
    }
}

/// A parser that tries each literal of `lits` in order and yields the first
/// one that the input starts with.
pub fn parse_literals<'l>(lits: Vec<&'l str>) -> (p: Literals<'l>)
    ensures
        p == (Literals { lits }),
        p.wf(),
        forall|input: Seq<char>| #[trigger]
            p.spec_parse(input) == spec_literals(texts(lits@), input),
{
    Literals { lits }
}

/// The number of leading characters of `s` that `accept` holds of.
pub open spec fn run_len(accept: spec_fn(char) -> bool, s: Seq<char>) -> nat
    decreases s.len(),
{
    if s.len() > 0 && accept(s[0]) {
        1 + run_len(accept, s.skip(1))
    } else {
        0
    }
}

/// A run is the longest accepted prefix: it lies within the input, every
/// character in it is accepted, and the character after it, if any, is not.
pub proof fn lemma_run_len(accept: spec_fn(char) -> bool, s: Seq<char>)
    ensures
        run_len(accept, s) <= s.len(),
        forall|i: int| 0 <= i < run_len(accept, s) ==> accept(#[trigger] s[i]),
        run_len(accept, s) < s.len() ==> !accept(s[run_len(accept, s) as int]),
    decreases s.len(),
{
    if s.len() > 0 && accept(s[0]) {
        let t = s.skip(1);
        lemma_run_len(accept, t);
        assert forall|i: int| 0 <= i < run_len(accept, s) implies accept(#[trigger] s[i]) by {
            if i > 0 {
                assert(s[i] == t[i - 1]);
            }
        }
        if run_len(accept, s) < s.len() {
            assert(s[run_len(accept, s) as int] == t[run_len(accept, t) as int]);
        }
    }
}

/// The diagnostic of a token whose first character was refused.
pub open spec fn token_message() -> Seq<char> {
    "First character does not satisfy rule"@
}

/// Greedy scan of one token: the longest non-empty prefix of the input whose
/// characters are all accepted. An empty run is a failure, never an empty
/// token.
pub open spec fn spec_token(accept: spec_fn(char) -> bool, input: Seq<char>) -> Outcome<Seq<char>> {
    let n = run_len(accept, input) as int;
    if n == 0 {
        Outcome::Failure { at: input, message: token_message() }
    } else {
        Outcome::Success { rest: input.skip(n), value: input.take(n) }
    }
}

/// A token is never empty and always consumes what it returns.
pub proof fn lemma_token_consumes(accept: spec_fn(char) -> bool, input: Seq<char>)
    ensures
        spec_token(accept, input).advances_on(input),
        is_tail_of(spec_token(accept, input).position(), input),
        spec_token(accept, input) matches Outcome::Success { rest, value } ==> value.len() > 0
            && value + rest == input,
{
    lemma_run_len(accept, input);
    let n = run_len(accept, input) as int;
    assert(input =~= input.skip(0));
    assert(input.take(n) + input.skip(n) =~= input);
}

/// The character class that an executable rule stands for.
pub open spec fn accepted_by<R: Fn(char) -> bool>(rule: &R) -> spec_fn(char) -> bool {
    |c: char| rule.ensures((c,), true)
}

/// A rule can be asked about every character and never gives two answers for
/// the same one.
pub open spec fn is_character_rule<R: Fn(char) -> bool>(rule: &R) -> bool {
    &&& forall|c: char| #[trigger] rule.requires((c,))
    &&& forall|c: char| !(#[trigger] rule.ensures((c,), true) && rule.ensures((c,), false))
}

/// Scans one token by a per-character rule.
pub struct Token<R> {
    pub rule: R,
}

impl<R: Fn(char) -> bool> Parser<String, Seq<char>> for Token<R> {
    open spec fn wf(&self) -> bool {
        is_character_rule(&self.rule)
    }

    open spec fn model(&self, value: String) -> Seq<char> {
        value@
    }

    open spec fn spec_parse(&self, input: Seq<char>) -> Outcome<Seq<char>> {
        spec_token(accepted_by(&self.rule), input)
    }

    open spec fn produces(&self, input: Seq<char>, value: String) -> bool {
        true
    }

    proof fn lemma_position_is_tail(&self, input: Seq<char>) {
        lemma_token_consumes(accepted_by(&self.rule), input);
    }

    fn parse<'a>(&self, input: &'a str) -> (r: ParseResult<'a, String>) {
        scan_token(self, input, Ghost(accepted_by(&self.rule)))
    }
}

/// The scan behind every token parser, for a rule that decides the class
/// `accept`.
fn scan_token<'a, R: Fn(char) -> bool>(
    scanner: &Token<R>,
    input: &'a str,
    Ghost(accept): Ghost<spec_fn(char) -> bool>,
) -> (r: ParseResult<'a, String>)
    requires
        forall|c: char| #[trigger] scanner.rule.requires((c,)),
        forall|c: char, b: bool| #[trigger] scanner.rule.ensures((c,), b) ==> b == accept(c),
    ensures
        match r {
            ParseResult::Success(rest, value) => spec_token(accept, input@) == (Outcome::Success {
                rest: rest@,
                value: value@,
            }),
            ParseResult::Failure(at, message) => spec_token(accept, input@) == (Outcome::<
                Seq<char>,
            >::Failure { at: at@, message: message@ }),
        },
{
    let m: usize = input.unicode_len();
    let mut chars = input.chars();
    let mut n: usize = 0;
    let mut open: bool = true;
    assert(input@.skip(0) =~= input@);
    while open
        invariant
            n <= m,
            m == input@.len(),
            open ==> chars.remaining() == input@.skip(n as int),
            forall|c: char| #[trigger] scanner.rule.requires((c,)),
            forall|c: char, b: bool| #[trigger] scanner.rule.ensures((c,), b) ==> b == accept(c),
            run_len(accept, input@) == n + (if open {
                run_len(accept, input@.skip(n as int))
            } else {
                0
            }),
        decreases (m - n) + (if open { 1int } else { 0int }),
    {
        let ghost tail = input@.skip(n as int);
        match chars.next() {
            Some(c) => {
                assert(tail[0] == c);
                if (scanner.rule)(c) {
                    assert(accept(c));
                    assert(tail.drop_first() =~= input@.skip(n + 1));
                    n += 1;
                } else {
                    assert(!accept(c));
                    open = false;
                }
            },
            None => {
                open = false;
            },
        }
    }
    if n == 0 {
        ParseResult::Failure(input, String::from_str("First character does not satisfy rule"))
    } else {
        ParseResult::Success(skip_chars(input, n), String::from_str(take_chars(input, n)))
    }
}

/// A parser for one token of characters that satisfy `rule`: the first
/// character must satisfy it, and the token extends as far as the rule holds.
pub fn parse_tok_with_rule<R: Fn(char) -> bool>(rule: R) -> (p: Token<R>)
    ensures
        p == (Token { rule }),
        p.wf() == is_character_rule(&rule),
        forall|value: String| #[trigger] p.model(value) == value@,
        forall|input: Seq<char>, value: String| #[trigger] p.produces(input, value),
        forall|input: Seq<char>| #[trigger]
            p.spec_parse(input) == spec_token(accepted_by(&rule), input),
{
    Token { rule }
}

/// The ASCII digits `0` to `9`.
pub open spec fn is_digit(c: char) -> bool {
    '0' <= c && c <= '9'
}

/// Whether `c` is an ASCII digit.
pub fn is_ascii_digit(c: char) -> (b: bool)
    ensures
        b == is_digit(c),
{
    '0' <= c && c <= '9'
}

/// The characters of a number token: a digit or a dot.
pub open spec fn is_number_char(c: char) -> bool {
    is_digit(c) || c == '.'
}

/// Scans the text of a number: a token of digits and dots. Whether the token
/// denotes a number is for the caller to decide, so `"1.2.3"` is a token.
pub struct NumberToken {}

impl Parser<String, Seq<char>> for NumberToken {
    open spec fn wf(&self) -> bool {
        true
    }

    open spec fn model(&self, value: String) -> Seq<char> {
        value@
    }

    open spec fn spec_parse(&self, input: Seq<char>) -> Outcome<Seq<char>> {
        spec_token(|c: char| is_number_char(c), input)
    }

    open spec fn produces(&self, input: Seq<char>, value: String) -> bool {
        true
    }

    proof fn lemma_position_is_tail(&self, input: Seq<char>) {
        lemma_token_consumes(|c: char| is_number_char(c), input);
    }

    fn parse<'a>(&self, input: &'a str) -> (r: ParseResult<'a, String>) {
        let rule = |c: char| -> (b: bool)
            ensures
                b == is_number_char(c),
            { is_ascii_digit(c) || c == '.' };
        let scanner = Token { rule };
        scan_token(&scanner, input, Ghost(|c: char| is_number_char(c)))
    }
}

/// A parser for the token of a number, before it is read as a value.
pub fn parse_number_token() -> (p: NumberToken)
    ensures
        p == (NumberToken {}),
        p.wf(),
        forall|input: Seq<char>| #[trigger]
            p.spec_parse(input) == spec_token(|c: char| is_number_char(c), input),
{
    NumberToken {}
}

/// Whether the standard library counts `c` as alphanumeric.
pub uninterp spec fn char_is_alphanumeric(c: char) -> bool;

/// Calls `char::is_alphanumeric`, whose answer depends on the character alone
/// (alphabetic or numeric by the Unicode tables that the standard library
/// carries). The answer is given the name [`char_is_alphanumeric`].
#[verifier::external_body]
fn is_alphanumeric(c: char) -> (b: bool)
    ensures
        b == char_is_alphanumeric(c),
{
    c.is_alphanumeric()
}

/// The characters of an identifier: alphanumeric or an underscore.
pub open spec fn is_identifier_char(c: char) -> bool {
    char_is_alphanumeric(c) || c == '_'
}

/// The reserved words, in their fixed order.
pub open spec fn keywords() -> Seq<Seq<char>> {
    seq!["true"@, "false"@, "if"@, "eval"@]
}

/// Whether `word` is one of the reserved words.
pub fn is_keyword(word: &str) -> (b: bool)
    ensures
        b == keywords().contains(word@),
{
    let b = same_text(word, "true") || same_text(word, "false") || same_text(word, "if")
        || same_text(word, "eval");
    proof {
        let k = keywords();
        assert(k[0] == "true"@ && k[1] == "false"@ && k[2] == "if"@ && k[3] == "eval"@);
        assert(k.len() == 4);
    }
    b
}

/// The diagnostic of an identifier that starts with a digit.
pub open spec fn leading_digit_message() -> Seq<char> {
    "identifier cannot start with digit"@
}

/// The diagnostic of an identifier that is a reserved word.
pub open spec fn keyword_message() -> Seq<char> {
    "found keyword, cannot be used as identifier"@
}

/// What the identifier parser does: one token of identifier characters, then
/// the two checks on the whole token. A token that fails a check is consumed
/// all the same: the failure stands after it.
pub open spec fn spec_identifier(input: Seq<char>) -> Outcome<Seq<char>> {
    match spec_token(|c: char| is_identifier_char(c), input) {
        Outcome::Success { rest, value } => if is_digit(value[0]) {
            Outcome::Failure { at: rest, message: leading_digit_message() }
        } else if keywords().contains(value) {
            Outcome::Failure { at: rest, message: keyword_message() }
        } else {
            Outcome::Success { rest, value }
        },
        Outcome::Failure { at, message } => Outcome::Failure { at, message },
    }
}

/// Scans an identifier.
pub struct Identifier {}

impl Parser<String, Seq<char>> for Identifier {
    open spec fn wf(&self) -> bool {
        true
    }

    open spec fn model(&self, value: String) -> Seq<char> {
        value@
    }

    open spec fn spec_parse(&self, input: Seq<char>) -> Outcome<Seq<char>> {
        spec_identifier(input)
    }

    open spec fn produces(&self, input: Seq<char>, value: String) -> bool {
        true
    }

    proof fn lemma_position_is_tail(&self, input: Seq<char>) {
        lemma_token_consumes(|c: char| is_identifier_char(c), input);
    }

    fn parse<'a>(&self, input: &'a str) -> (r: ParseResult<'a, String>) {
        let rule = |c: char| -> (b: bool)
            ensures
                b == is_identifier_char(c),
            { is_alphanumeric(c) || c == '_' };
        let scanner = Token { rule };
        let ghost accept = |c: char| is_identifier_char(c);
        match scan_token(&scanner, input, Ghost(accept)) {
            ParseResult::Success(rest, token) => {
                proof {
                    lemma_token_consumes(accept, input@);
                }
                let first: char = token.as_str().get_char(0);
                if is_ascii_digit(first) {
                    ParseResult::Failure(rest, String::from_str("identifier cannot start with digit"))
                } else if is_keyword(token.as_str()) {
                    ParseResult::Failure(
                        rest,
                        String::from_str("found keyword, cannot be used as identifier"),
                    )
                } else {
                    ParseResult::Success(rest, token)
                }
            },
            ParseResult::Failure(at, message) => ParseResult::Failure(at, message),
        }
    }
}

/// A parser for an identifier: a token of alphanumeric characters and
/// underscores that does not start with a digit and is no reserved word.
pub fn parse_identifier() -> (p: Identifier)
    ensures
        p == (Identifier {}),
        p.wf(),
        forall|input: Seq<char>| #[trigger] p.spec_parse(input) == spec_identifier(input),
{
    Identifier {}
}

} // verus!
