use vstd::prelude::*;

verus! {

/// Why a parse failed. The context variants wrap the failure of an inner stage, so
/// that the whole chain of causes is kept.
#[derive(Debug, PartialEq, Eq)]
pub enum ParseError {
    /// The input does not start with this literal.
    LiteralMismatch(&'static str),
    /// The next character does not satisfy the predicate.
    PredicateMismatch(char),
    /// A character was required but the input is exhausted.
    UnexpectedEndOfInput,
    /// None of the candidates of an alternation matched.
    NoAlternativeMatched,
    /// A repetition that needs at least one value found none.
    EmptyRepetition,
    /// Input is left where its end was required.
    TrailingInput,
    /// The digits read do not form a `u64`.
    InvalidInteger,
    /// The first parser of a sequence failed.
    FirstParserUnsuccessful(Box<ParseError>),
    /// The second parser of a sequence failed after the first succeeded.
    SecondParserUnsuccessful(Box<ParseError>),
    /// The text is not a duration.
    NotADuration(Box<ParseError>),
}

/// What a spec-level parse gives: the remaining input and the view of the output, or
/// the error.
pub type SpecResult<V> = Result<(Seq<char>, V), ParseError>;

/// Something that consumes a prefix of its input and yields a value, or fails.
///
/// `spec_parse` is the meaning of the parser on the characters of the input; `parse`
/// computes exactly that.
pub trait Parser<'a>: Sized {
    type Output: DeepView;

    spec fn spec_parse(&self, input: Seq<char>) -> SpecResult<<Self::Output as DeepView>::V>;

    /// What remains after a successful parse is a suffix of the input.
    proof fn lemma_rest_is_suffix(&self, input: Seq<char>)
        ensures
            self.spec_parse(input) matches Ok((rest, _)) ==> rest.is_suffix_of(input),
    ;

    fn parse(&self, input: &'a str) -> (r: Result<(&'a str, Self::Output), ParseError>)
        ensures
            match r {
                Ok((rest, out)) => self.spec_parse(input@) == Ok::<
                    _,
                    ParseError,
                >((rest@, out.deep_view())),
                Err(e) => self.spec_parse(input@) == Err::<
                    (Seq<char>, <Self::Output as DeepView>::V),
                    ParseError,
                >(e),
            },
    ;

    /// Runs `self` and requires that it leaves no input.
    fn end(self) -> (r: Ended<Self>)
        ensures
            r.parser == self,
    {
        Ended { parser: self }
    }
}

/// The combinators, as methods on every parser.
pub trait Combine<'a>: Parser<'a> {
    /// Runs `self`, then `next` on what `self` left.
    fn followed_by<Q: Parser<'a>>(self, next: Q) -> (r: FollowedBy<Self, Q>)
        ensures
            r.first == self,
            r.second == next,
    {
        FollowedBy { first: self, second: next }
    }

    /// Applies `transform` to the output of `self`.
    fn map<F: Transform<Self::Output>>(self, transform: F) -> (r: Mapped<Self, F>)
        ensures
            r.parser == self,
            r.transform == transform,
    {
        Mapped { parser: self, transform }
    }
}

impl<'a, P: Parser<'a>> Combine<'a> for P {
}

/// The outcome that `parse` returns, as its contract states it.
pub open spec fn parse_post<'a, P: Parser<'a>>(
    p: P,
    input: Seq<char>,
    r: Result<(&'a str, P::Output), ParseError>,
) -> bool {
    match r {
        Ok((rest, out)) => p.spec_parse(input) == Ok::<_, ParseError>((rest@, out.deep_view())),
        Err(e) => p.spec_parse(input) == Err::<
            (Seq<char>, <P::Output as DeepView>::V),
            ParseError,
        >(e),
    }
}

/// Parsing is a function of the parser and the input: two runs of one parser on one
/// input give the same remaining input, the same output and the same error.
pub proof fn lemma_parse_deterministic<'a, P: Parser<'a>>(
    p: P,
    input: Seq<char>,
    r1: Result<(&'a str, P::Output), ParseError>,
    r2: Result<(&'a str, P::Output), ParseError>,
)
    requires
        parse_post(p, input, r1),
        parse_post(p, input, r2),
    ensures
        r1 is Ok <==> r2 is Ok,
        r1 matches Ok((rest1, out1)) ==> (r2 matches Ok((rest2, out2)) && rest1@ == rest2@
            && out1.deep_view() == out2.deep_view()),
        r1 matches Err(e1) ==> (r2 matches Err(e2) && e1 == e2),
{
}

/// A total function from one output to another, for `map`.
pub trait Transform<I: DeepView> {
    type Output: DeepView;

    spec fn spec_apply(&self, input: I::V) -> <Self::Output as DeepView>::V;

    fn apply(&self, input: I) -> (r: Self::Output)
        ensures
            r.deep_view() == self.spec_apply(input.deep_view()),
    ;
}

/// A test on single characters, for `match_char_where`.
pub trait CharPredicate {
    spec fn spec_test(&self, c: char) -> bool;

    fn test(&self, c: char) -> (r: bool)
        ensures
            r == self.spec_test(c),
    ;
}

proof fn lemma_suffix_trans(a: Seq<char>, b: Seq<char>, c: Seq<char>)
    requires
        a.is_suffix_of(b),
        b.is_suffix_of(c),
    ensures
        a.is_suffix_of(c),
{
    assert(a =~= c.subrange(c.len() - a.len(), c.len() as int)) by {
        assert forall|i: int| 0 <= i < a.len() implies a[i] == c[c.len() - a.len() + i] by {
            assert(a[i] == b[b.len() - a.len() + i]);
            assert(b[b.len() - a.len() + i] == c[c.len() - b.len() + (b.len() - a.len() + i)]);
        }
    }
}

proof fn lemma_skip_is_suffix(s: Seq<char>, n: int)
    requires
        0 <= n <= s.len(),
    ensures
        s.skip(n).is_suffix_of(s),
{
    assert(s.skip(n) =~= s.subrange(n, s.len() as int));
}

/// Relies on `str::strip_prefix`: `Some` of what follows `prefix` exactly when `text`
/// starts with it.
#[verifier::external_body]
fn strip_prefix<'a>(text: &'a str, prefix: &str) -> (r: Option<&'a str>)
    ensures
        r is Some <==> prefix@.is_prefix_of(text@),
        r matches Some(rest) ==> rest@ == text@.skip(prefix@.len() as int),
{
    text.strip_prefix(prefix)
}

/// Matches `expected` exactly at the start of the input, and yields it.
pub struct Literal {
    pub expected: &'static str,
}

impl<'a> Parser<'a> for Literal {
    type Output = &'a str;

    open spec fn spec_parse(&self, input: Seq<char>) -> SpecResult<Seq<char>> {
        if self.expected@.is_prefix_of(input) {
            Ok((input.skip(self.expected@.len() as int), self.expected@))
        } else {
            Err(ParseError::LiteralMismatch(self.expected))
        }
    }

    proof fn lemma_rest_is_suffix(&self, input: Seq<char>) {
        if self.expected@.is_prefix_of(input) {
            lemma_skip_is_suffix(input, self.expected@.len() as int);
        }
    }

    fn parse(&self, input: &'a str) -> (r: Result<(&'a str, &'a str), ParseError>) {
        match strip_prefix(input, self.expected) {
            Some(rest) => Ok((rest, self.expected)),
            None => Err(ParseError::LiteralMismatch(self.expected)),
        }
    }
}

/// A string literal is itself a parser: the one of `literal`.
impl<'a> Parser<'a> for &'static str {
    type Output = &'a str;

    open spec fn spec_parse(&self, input: Seq<char>) -> SpecResult<Seq<char>> {
        Literal { expected: *self }.spec_parse(input)
    }

    proof fn lemma_rest_is_suffix(&self, input: Seq<char>) {
        Literal { expected: *self }.lemma_rest_is_suffix(input);
    }

    fn parse(&self, input: &'a str) -> (r: Result<(&'a str, &'a str), ParseError>) {
        Literal { expected: *self }.parse(input)
    }
}

/// A parser that matches `expected` exactly at the start of the input and yields it.
pub fn literal(expected: &'static str) -> (r: Literal)
    ensures
        r == (Literal { expected }),
{
    Literal { expected }
}

/// Matches one character that satisfies `pred`.
pub struct MatchCharWhere<F> {
    pub pred: F,
}

impl<'a, F: CharPredicate> Parser<'a> for MatchCharWhere<F> {
    type Output = &'a str;

    open spec fn spec_parse(&self, input: Seq<char>) -> SpecResult<Seq<char>> {
        if input.len() == 0 {
            Err(ParseError::UnexpectedEndOfInput)
        } else if self.pred.spec_test(input[0]) {
            Ok((input.skip(1), input.take(1)))
        } else {
            Err(ParseError::PredicateMismatch(input[0]))
        }
    }

    proof fn lemma_rest_is_suffix(&self, input: Seq<char>) {
        if input.len() > 0 {
            lemma_skip_is_suffix(input, 1);
        }
    }

    fn parse(&self, input: &'a str) -> (r: Result<(&'a str, &'a str), ParseError>) {
        let len = input.unicode_len();
        if len == 0 {
            return Err(ParseError::UnexpectedEndOfInput);
        }
        let c = input.get_char(0);
        if self.pred.test(c) {
            let found = input.substring_char(0, 1);
            let rest = input.substring_char(1, len);
            assert(rest@ =~= input@.skip(1));
            assert(found@ =~= input@.take(1));
            assert(found.deep_view() == found@);
            Ok((rest, found))
        } else {
            Err(ParseError::PredicateMismatch(c))
        }
    }
}

/// A parser of one character that satisfies `pred`; it yields that character as text.
pub fn match_char_where<F: CharPredicate>(pred: F) -> (r: MatchCharWhere<F>)
    ensures
        r.pred == pred,
{
    MatchCharWhere { pred }
}

/// Whether `c` is in one of Unicode's general categories for numbers.
pub uninterp spec fn is_numeric_char(c: char) -> bool;

/// Relies on `char::is_numeric`: whether `c` has one of Unicode's general categories
/// for numbers.
#[verifier::external_body]
fn char_is_numeric(c: char) -> (r: bool)
    ensures
        r == is_numeric_char(c),
{
    c.is_numeric()
}

/// Whether `c` is numeric: among ASCII characters the ten decimal digits, beyond them
/// what Unicode classes as a number.
pub open spec fn numeric_char(c: char) -> bool {
    if (c as u32) < 128 {
        is_ascii_digit(c)
    } else {
        is_numeric_char(c)
    }
}

/// The Unicode numeric characters.
pub struct IsNumeric;

impl CharPredicate for IsNumeric {
    open spec fn spec_test(&self, c: char) -> bool {
        numeric_char(c)
    }

    fn test(&self, c: char) -> (r: bool) {
        if (c as u32) < 128 {
            '0' <= c && c <= '9'
        } else {
            char_is_numeric(c)
        }
    }
}

/// A parser of one numeric character.
pub fn numeric() -> (r: MatchCharWhere<IsNumeric>)
    ensures
        r == (MatchCharWhere { pred: IsNumeric }),
{
    match_char_where(IsNumeric)
}

/// Matches only the empty input.
pub struct EndOfInput;

impl<'a> Parser<'a> for EndOfInput {
    type Output = ();

    open spec fn spec_parse(&self, input: Seq<char>) -> SpecResult<()> {
        if input.len() == 0 {
            Ok((input, ()))
        } else {
            Err(ParseError::TrailingInput)
        }
    }

    proof fn lemma_rest_is_suffix(&self, input: Seq<char>) {
        assert(input =~= input.subrange(0, input.len() as int));
    }

    fn parse(&self, input: &'a str) -> (r: Result<(&'a str, ()), ParseError>) {
        if input.unicode_len() == 0 {
            Ok((input, ()))
        } else {
            Err(ParseError::TrailingInput)
        }
    }
}

/// A parser that succeeds, consuming nothing, exactly on the empty input.
pub fn end() -> (r: EndOfInput) {
    EndOfInput
}

/// `first`, then `second` on what `first` left; yields both outputs.
pub struct FollowedBy<A, B> {
    pub first: A,
    pub second: B,
}

impl<'a, A: Parser<'a>, B: Parser<'a>> Parser<'a> for FollowedBy<A, B> {
    type Output = (A::Output, B::Output);

    open spec fn spec_parse(&self, input: Seq<char>) -> SpecResult<
        (<A::Output as DeepView>::V, <B::Output as DeepView>::V),
    > {
        match self.first.spec_parse(input) {
            Err(e) => Err(ParseError::FirstParserUnsuccessful(Box::new(e))),
            Ok((rest, o1)) => match self.second.spec_parse(rest) {
                Err(e) => Err(ParseError::SecondParserUnsuccessful(Box::new(e))),
                Ok((rest2, o2)) => Ok((rest2, (o1, o2))),
            },
        }
    }

    proof fn lemma_rest_is_suffix(&self, input: Seq<char>) {
        self.first.lemma_rest_is_suffix(input);
        if let Ok((rest, _)) = self.first.spec_parse(input) {
            self.second.lemma_rest_is_suffix(rest);
            if let Ok((rest2, _)) = self.second.spec_parse(rest) {
                lemma_suffix_trans(rest2, rest, input);
            }
        }
    }

    fn parse(&self, input: &'a str) -> (r: Result<(&'a str, (A::Output, B::Output)), ParseError>) {
        let (rest, o1) = match self.first.parse(input) {
            Ok(v) => v,
            Err(e) => return Err(ParseError::FirstParserUnsuccessful(Box::new(e))),
        };
        let (rest2, o2) = match self.second.parse(rest) {
            Ok(v) => v,
            Err(e) => return Err(ParseError::SecondParserUnsuccessful(Box::new(e))),
        };
        Ok((rest2, (o1, o2)))
    }
}

/// `parser`, with `transform` applied to its output.
pub struct Mapped<P, F> {
    pub parser: P,
    pub transform: F,
}

impl<'a, P: Parser<'a>, F: Transform<P::Output>> Parser<'a> for Mapped<P, F> {
    type Output = F::Output;

    open spec fn spec_parse(&self, input: Seq<char>) -> SpecResult<
        <F::Output as DeepView>::V,
    > {
        match self.parser.spec_parse(input) {
            Ok((rest, o)) => Ok((rest, self.transform.spec_apply(o))),
            Err(e) => Err(e),
        }
    }

    proof fn lemma_rest_is_suffix(&self, input: Seq<char>) {
        self.parser.lemma_rest_is_suffix(input);
    }

    fn parse(&self, input: &'a str) -> (r: Result<(&'a str, F::Output), ParseError>) {
        match self.parser.parse(input) {
            Ok((rest, o)) => Ok((rest, self.transform.apply(o))),
            Err(e) => Err(e),
        }
    }
}

/// `parser`, succeeding only where it leaves no input.
pub struct Ended<P> {
    pub parser: P,
}

impl<'a, P: Parser<'a>> Parser<'a> for Ended<P> {
    type Output = P::Output;

    open spec fn spec_parse(&self, input: Seq<char>) -> SpecResult<<P::Output as DeepView>::V> {
        match self.parser.spec_parse(input) {
            Ok((rest, o)) => if rest.len() == 0 {
                Ok((rest, o))
            } else {
                Err(ParseError::TrailingInput)
            },
            Err(e) => Err(e),
        }
    }

    proof fn lemma_rest_is_suffix(&self, input: Seq<char>) {
        self.parser.lemma_rest_is_suffix(input);
    }

    fn parse(&self, input: &'a str) -> (r: Result<(&'a str, P::Output), ParseError>) {
        match self.parser.parse(input) {
            Ok((rest, o)) => if rest.unicode_len() == 0 {
                Ok((rest, o))
            } else {
                Err(ParseError::TrailingInput)
            },
            Err(e) => Err(e),
        }
    }
}

/// The limit of repetitions that is left after `count` of them.
pub open spec fn limit_left(limit: Option<usize>, count: nat) -> Option<nat> {
    match limit {
        Some(n) => Some((n - count) as nat),
        None => None,
    }
}

/// Applies `p` to successive remainders, at most `limit` times, until it fails or
/// consumes nothing; yields the outputs of the applications that consumed input, and
/// what the last of them left.
pub open spec fn repeat<'a, P: Parser<'a>>(p: P, input: Seq<char>, limit: Option<nat>) -> (
    Seq<<P::Output as DeepView>::V>,
    Seq<char>,
)
    decreases input.len(),
{
    if limit == Some(0nat) {
        (Seq::empty(), input)
    } else {
        match p.spec_parse(input) {
            Ok((rest, out)) => if rest.len() < input.len() {
                let next_limit = match limit {
                    Some(k) => Some((k - 1) as nat),
                    None => None,
                };
                let (more, last) = repeat(p, rest, next_limit);
                (seq![out] + more, last)
            } else {
                (Seq::empty(), input)
            },
            Err(_) => (Seq::empty(), input),
        }
    }
}

proof fn lemma_repeat_rest_is_suffix<'a, P: Parser<'a>>(
    p: P,
    input: Seq<char>,
    limit: Option<nat>,
)
    ensures
        repeat(p, input, limit).1.is_suffix_of(input),
    decreases input.len(),
{
    p.lemma_rest_is_suffix(input);
    if limit != Some(0nat) {
        if let Ok((rest, _)) = p.spec_parse(input) {
            if rest.len() < input.len() {
                let next_limit = match limit {
                    Some(k) => Some((k - 1) as nat),
                    None => None,
                };
                lemma_repeat_rest_is_suffix(p, rest, next_limit);
                lemma_suffix_trans(repeat(p, rest, next_limit).1, rest, input);
                return;
            }
        }
    }
    assert(input =~= input.subrange(0, input.len() as int));
}

/// `parser` applied repeatedly: at most `limit` times where there is a limit, and
/// failing where `at_least_one` holds and no application consumed input.
pub struct Repeat<P> {
    pub parser: P,
    pub limit: Option<usize>,
    pub at_least_one: bool,
}

impl<'a, P: Parser<'a>> Parser<'a> for Repeat<P> {
    type Output = Vec<P::Output>;

    open spec fn spec_parse(&self, input: Seq<char>) -> SpecResult<Seq<<P::Output as DeepView>::V>> {
        let (outs, rest) = repeat(self.parser, input, limit_left(self.limit, 0));
        if self.at_least_one && outs.len() == 0 {
            Err(ParseError::EmptyRepetition)
        } else {
            Ok((rest, outs))
        }
    }

    proof fn lemma_rest_is_suffix(&self, input: Seq<char>) {
        lemma_repeat_rest_is_suffix(self.parser, input, limit_left(self.limit, 0));
    }

    fn parse(&self, input: &'a str) -> (r: Result<(&'a str, Vec<P::Output>), ParseError>) {
        let mut outs: Vec<P::Output> = Vec::new();
        let mut rest: &'a str = input;
        let mut rest_len: usize = input.unicode_len();
        let mut count: usize = 0;
        let ghost whole = repeat(self.parser, input@, limit_left(self.limit, 0));
        assert(outs.deep_view() + repeat(self.parser, rest@, limit_left(self.limit, 0)).0
            =~= whole.0);
        loop
            invariant
                rest_len == rest@.len(),
                count == outs.len(),
                count + rest_len <= input@.len(),
                input@.len() <= usize::MAX,
                self.limit matches Some(n) ==> count <= n,
                whole == repeat(self.parser, input@, limit_left(self.limit, 0)),
                whole.0 == outs.deep_view() + repeat(
                    self.parser,
                    rest@,
                    limit_left(self.limit, count as nat),
                ).0,
                whole.1 == repeat(self.parser, rest@, limit_left(self.limit, count as nat)).1,
            ensures
                whole.0 == outs.deep_view(),
                whole.1 == rest@,
            decreases rest_len,
        {
            if let Some(n) = self.limit {
                if count >= n {
                    assert(outs.deep_view() + Seq::empty() =~= outs.deep_view());
                    break;
                }
            }
            match self.parser.parse(rest) {
                Ok((next, out)) => {
                    let next_len = next.unicode_len();
                    if next_len < rest_len {
                        let ghost old_dv = outs.deep_view();
                        let ghost out_dv = out.deep_view();
                        outs.push(out);
                        assert(outs.deep_view() =~= old_dv.push(out_dv));
                        assert(limit_left(self.limit, count as nat) matches Some(k) ==> (k - 1) as nat
                            == limit_left(self.limit, (count + 1) as nat)->0);
                        let ghost tail = repeat(self.parser, next@, limit_left(self.limit, (count + 1) as nat));
                        assert(old_dv + (seq![out_dv] + tail.0) =~= old_dv.push(out_dv) + tail.0);
                        rest = next;
                        rest_len = next_len;
                        count = count + 1;
                    } else {
                        assert(outs.deep_view() + Seq::empty() =~= outs.deep_view());
                        break;
                    }
                },
                Err(_) => {
                    assert(outs.deep_view() + Seq::empty() =~= outs.deep_view());
                    break;
                },
            }
        }
        if self.at_least_one && outs.len() == 0 {
            Err(ParseError::EmptyRepetition)
        } else {
            Ok((rest, outs))
        }
    }
}

/// `parser` as many times as it consumes input; never fails.
pub fn zero_or_more<P>(parser: P) -> (r: Repeat<P>)
    ensures
        r == (Repeat { parser, limit: None, at_least_one: false }),
{
    Repeat { parser, limit: None, at_least_one: false }
}

/// `parser` as many times as it consumes input; fails where that is no time at all.
pub fn one_or_more<P>(parser: P) -> (r: Repeat<P>)
    ensures
        r == (Repeat { parser, limit: None, at_least_one: true }),
{
    Repeat { parser, limit: None, at_least_one: true }
}

/// `parser` at most `times` times, stopping early where it fails; fails where it
/// consumed input no time at all.
pub fn n_or_more<P>(times: usize, parser: P) -> (r: Repeat<P>)
    ensures
        r == (Repeat { parser, limit: Some(times), at_least_one: true }),
{
    Repeat { parser, limit: Some(times), at_least_one: true }
}

/// The first of `options` whose literal starts `input`.
pub open spec fn first_match<T>(options: Seq<(&'static str, T)>, input: Seq<char>) -> Option<
    (&'static str, T),
>
    decreases options.len(),
{
    if options.len() == 0 {
        None
    } else if options[0].0@.is_prefix_of(input) {
        Some(options[0])
    } else {
        first_match(options.drop_first(), input)
    }
}

/// Alternation over literals: the first of `options` whose literal starts the input
/// matches, and its value is the output.
pub struct OneOf<T> {
    pub options: Vec<(&'static str, T)>,
}

impl<'a, T: Copy + DeepView> Parser<'a> for OneOf<T> {
    type Output = T;

    open spec fn spec_parse(&self, input: Seq<char>) -> SpecResult<T::V> {
        match first_match(self.options@, input) {
            Some((lit, value)) => Ok((input.skip(lit@.len() as int), value.deep_view())),
            None => Err(ParseError::NoAlternativeMatched),
        }
    }

    proof fn lemma_rest_is_suffix(&self, input: Seq<char>) {
        if let Some((lit, _)) = first_match(self.options@, input) {
            lemma_first_match_is_prefix(self.options@, input);
            lemma_skip_is_suffix(input, lit@.len() as int);
        }
    }

    fn parse(&self, input: &'a str) -> (r: Result<(&'a str, T), ParseError>) {
        let mut i: usize = 0;
        assert(self.options@.skip(0) =~= self.options@);
        while i < self.options.len()
            invariant
                i <= self.options@.len(),
                first_match(self.options@, input@) == first_match(self.options@.skip(i as int), input@),
            decreases self.options@.len() - i,
        {
            let (lit, value) = self.options[i];
            assert(self.options@.skip(i as int).drop_first() =~= self.options@.skip(i + 1));
            if let Some(rest) = strip_prefix(input, lit) {
                return Ok((rest, value));
            }
            i = i + 1;
        }
        Err(ParseError::NoAlternativeMatched)
    }
}

/// The literal that `first_match` picks starts the input.
pub proof fn lemma_first_match_is_prefix<T>(options: Seq<(&'static str, T)>, input: Seq<char>)
    ensures
        first_match(options, input) matches Some((lit, _)) ==> lit@.is_prefix_of(input),
    decreases options.len(),
{
    if options.len() > 0 && !options[0].0@.is_prefix_of(input) {
        lemma_first_match_is_prefix(options.drop_first(), input);
    }
}

/// Alternation over `literals`, tried in order; the literal that matched is the output.
pub fn one_of(literals: Vec<&'static str>) -> (r: OneOf<&'static str>)
    ensures
        r.options@.len() == literals@.len(),
        forall|i: int| 0 <= i < literals@.len() ==> #[trigger] r.options@[i] == (literals@[i], literals@[i]),
{
    let mut options: Vec<(&'static str, &'static str)> = Vec::new();
    let mut i: usize = 0;
    while i < literals.len()
        invariant
            i <= literals@.len(),
            options@.len() == i,
            forall|j: int| 0 <= j < i ==> #[trigger] options@[j] == (literals@[j], literals@[j]),
        decreases literals@.len() - i,
    {
        options.push((literals[i], literals[i]));
        i = i + 1;
    }
    OneOf { options }
}

/// Alternation over the literals of `options`, tried in order; the value paired with
/// the literal that matched is the output.
pub fn map_one_of<T: Copy + DeepView>(options: Vec<(&'static str, T)>) -> (r: OneOf<T>)
    ensures
        r.options == options,
{
    OneOf { options }
}

/// Whether `c` is one of the ten ASCII decimal digits.
pub open spec fn is_ascii_digit(c: char) -> bool {
    '0' <= c && c <= '9'
}

/// The value of the ASCII decimal digit `c`.
pub open spec fn digit_value(c: char) -> nat {
    (c as u32 - '0' as u32) as nat
}

/// The number that `spans` write in decimal, each span one digit, most significant
/// first; `None` where a span is not a single ASCII decimal digit.
pub open spec fn spans_value(spans: Seq<Seq<char>>) -> Option<nat>
    decreases spans.len(),
{
    if spans.len() == 0 {
        Some(0)
    } else {
        let last = spans.last();
        match spans_value(spans.drop_last()) {
            Some(v) => if last.len() == 1 && is_ascii_digit(last[0]) {
                Some(v * 10 + digit_value(last[0]))
            } else {
                None
            },
            None => None,
        }
    }
}

proof fn lemma_spans_value_prefix(spans: Seq<Seq<char>>, j: int)
    requires
        0 <= j <= spans.len(),
    ensures
        spans_value(spans.take(j)) is None ==> spans_value(spans) is None,
        spans_value(spans.take(j)) matches Some(w) ==> (spans_value(spans) matches Some(v) ==> v
            >= w),
    decreases spans.len(),
{
    if j == spans.len() {
        assert(spans.take(j) =~= spans);
    } else {
        lemma_spans_value_prefix(spans.drop_last(), j);
        assert(spans.drop_last().take(j) =~= spans.take(j));
    }
}

/// The digits that `uint` reads: one or more numeric characters.
pub open spec fn digits_parser() -> Repeat<MatchCharWhere<IsNumeric>> {
    Repeat { parser: MatchCharWhere { pred: IsNumeric }, limit: None, at_least_one: true }
}

/// An unsigned integer: one or more numeric characters, read as a decimal `u64`.
pub struct UInt;

impl<'a> Parser<'a> for UInt {
    type Output = u64;

    open spec fn spec_parse(&self, input: Seq<char>) -> SpecResult<u64> {
        match digits_parser().spec_parse(input) {
            Err(e) => Err(e),
            Ok((rest, spans)) => match spans_value(spans) {
                Some(v) => if v <= u64::MAX {
                    Ok((rest, v as u64))
                } else {
                    Err(ParseError::InvalidInteger)
                },
                None => Err(ParseError::InvalidInteger),
            },
        }
    }

    proof fn lemma_rest_is_suffix(&self, input: Seq<char>) {
        digits_parser().lemma_rest_is_suffix(input);
    }

    fn parse(&self, input: &'a str) -> (r: Result<(&'a str, u64), ParseError>) {
        let digits = one_or_more(numeric());
        let (rest, spans) = match digits.parse(input) {
            Ok(v) => v,
            Err(e) => return Err(e),
        };
        let ghost all = spans.deep_view();
        let mut value: u64 = 0;
        let mut i: usize = 0;
        assert(all.take(0) =~= Seq::<Seq<char>>::empty());
        while i < spans.len()
            invariant
                i <= spans@.len(),
                all == spans.deep_view(),
                digits_parser().spec_parse(input@) == Ok::<_, ParseError>((rest@, all)),
                spans_value(all.take(i as int)) == Some(value as nat),
            decreases spans@.len() - i,
        {
            let span = spans[i];
            assert(all.take(i + 1).drop_last() =~= all.take(i as int));
            assert(all[i as int] == span@);
            if span.unicode_len() != 1 {
                proof { lemma_spans_value_prefix(all, i + 1); }
                return Err(ParseError::InvalidInteger);
            }
            let c = span.get_char(0);
            if !('0' <= c && c <= '9') {
                proof { lemma_spans_value_prefix(all, i + 1); }
                return Err(ParseError::InvalidInteger);
            }
            let d = (c as u32 - '0' as u32) as u64;
            let next = match value.checked_mul(10) {
                Some(t) => t.checked_add(d),
                None => None,
            };
            match next {
                Some(v) => {
                    value = v;
                },
                None => {
                    proof { lemma_spans_value_prefix(all, i + 1); }
                    return Err(ParseError::InvalidInteger);
                },
            }
            i = i + 1;
        }
        assert(all.take(i as int) =~= all);
        Ok((rest, value))
    }
}

/// A parser of an unsigned integer written in decimal digits.
pub fn uint() -> (r: UInt) {
    UInt
}

/// The length of the longest prefix of `s` whose characters are numeric.
pub open spec fn numeric_prefix_len(s: Seq<char>) -> nat
    decreases s.len(),
{
    if s.len() > 0 && numeric_char(s[0]) {
        1 + numeric_prefix_len(s.drop_first())
    } else {
        0
    }
}

/// Every character of `s` is an ASCII decimal digit.
pub open spec fn all_ascii_digits(s: Seq<char>) -> bool {
    forall|i: int| 0 <= i < s.len() ==> is_ascii_digit(#[trigger] s[i])
}

/// The number that the ASCII decimal digits `s` write, most significant first.
pub open spec fn decimal_value(s: Seq<char>) -> nat
    decreases s.len(),
{
    if s.len() == 0 {
        0
    } else {
        decimal_value(s.drop_last()) * 10 + digit_value(s.last())
    }
}

/// The ASCII digit of `d`, below ten.
pub open spec fn digit_char(d: nat) -> char {
    ((d + 48) as u8) as char
}

/// `n` written in decimal, without leading zeros.
pub open spec fn decimal(n: nat) -> Seq<char>
    decreases n,
{
    if n < 10 {
        seq![digit_char(n)]
    } else {
        decimal(n / 10).push(digit_char(n % 10))
    }
}

proof fn lemma_digits_repeat(s: Seq<char>)
    ensures
        ({
            let k = numeric_prefix_len(s);
            let (outs, rest) = repeat(MatchCharWhere { pred: IsNumeric }, s, None);
            &&& k <= s.len()
            &&& rest == s.skip(k as int)
            &&& outs.len() == k
            &&& forall|i: int| 0 <= i < k ==> #[trigger] outs[i] == seq![s[i]]
        }),
    decreases s.len(),
{
    let p = MatchCharWhere { pred: IsNumeric };
    if s.len() > 0 && numeric_char(s[0]) {
        let tail = s.skip(1);
        assert(tail =~= s.drop_first());
        lemma_digits_repeat(tail);
        let k = numeric_prefix_len(s);
        let (more, last) = repeat(p, tail, None);
        assert(s.take(1) =~= seq![s[0]]);
        assert(tail.skip(k - 1) =~= s.skip(k as int));
        let (outs, rest) = repeat(p, s, None);
        assert(outs == seq![s.take(1)] + more);
        assert forall|i: int| 0 <= i < k implies #[trigger] outs[i] == seq![s[i]] by {
            if i > 0 {
                assert(outs[i] == more[i - 1]);
                assert(tail[i - 1] == s[i]);
            }
        }
    } else {
        assert(s.skip(0) =~= s);
    }
}

proof fn lemma_spans_of_chars(spans: Seq<Seq<char>>, d: Seq<char>)
    requires
        spans.len() == d.len(),
        forall|i: int| 0 <= i < d.len() ==> #[trigger] spans[i] == seq![d[i]],
    ensures
        spans_value(spans) == if all_ascii_digits(d) {
            Some(decimal_value(d))
        } else {
            None::<nat>
        },
    decreases d.len(),
{
    if d.len() > 0 {
        let sd = spans.drop_last();
        let dd = d.drop_last();
        assert forall|i: int| 0 <= i < dd.len() implies #[trigger] sd[i] == seq![dd[i]] by {
            assert(spans[i] == seq![d[i]]);
        }
        lemma_spans_of_chars(sd, dd);
        assert(spans.last() == seq![d.last()]);
        assert(all_ascii_digits(d) <==> (all_ascii_digits(dd) && is_ascii_digit(d.last()))) by {
            if all_ascii_digits(dd) && is_ascii_digit(d.last()) {
                assert forall|i: int| 0 <= i < d.len() implies is_ascii_digit(#[trigger] d[i]) by {
                    if i < dd.len() {
                        assert(dd[i] == d[i]);
                    }
                }
            }
            if all_ascii_digits(d) {
                assert forall|i: int| 0 <= i < dd.len() implies is_ascii_digit(#[trigger] dd[i]) by {
                    assert(dd[i] == d[i]);
                }
                assert(is_ascii_digit(d[d.len() - 1]));
            }
        }
    }
}

/// What `uint` does, in terms of the characters of the input: it reads the longest
/// numeric prefix, and succeeds where that prefix is not empty and its ASCII decimal
/// digits write a number that fits a `u64`.
pub proof fn lemma_uint_reads_numeric_prefix(s: Seq<char>)
    ensures
        ({
            let k = numeric_prefix_len(s);
            let digits = s.take(k as int);
            UInt.spec_parse(s) == if k == 0 {
                Err(ParseError::EmptyRepetition)
            } else if all_ascii_digits(digits) && decimal_value(digits) <= u64::MAX {
                Ok((s.skip(k as int), decimal_value(digits) as u64))
            } else {
                Err::<(Seq<char>, u64), ParseError>(ParseError::InvalidInteger)
            }
        }),
{
    lemma_digits_repeat(s);
    let k = numeric_prefix_len(s);
    let digits = s.take(k as int);
    let (outs, rest) = repeat(MatchCharWhere { pred: IsNumeric }, s, None);
    assert forall|i: int| 0 <= i < k implies #[trigger] outs[i] == seq![digits[i]] by {
        assert(outs[i] == seq![s[i]]);
    }
    lemma_spans_of_chars(outs, digits);
}

/// `decimal(n)` is a non-empty sequence of ASCII decimal digits that writes `n`.
pub proof fn lemma_decimal(n: nat)
    ensures
        decimal(n).len() > 0,
        all_ascii_digits(decimal(n)),
        decimal_value(decimal(n)) == n,
    decreases n,
{
    if n < 10 {
        assert(digit_value(digit_char(n)) == n);
        assert(decimal(n).drop_last() =~= Seq::<char>::empty());
        assert(decimal_value(Seq::<char>::empty()) == 0);
        assert(decimal_value(decimal(n)) == decimal_value(decimal(n).drop_last()) * 10 + digit_value(
            digit_char(n),
        ));
    } else {
        lemma_decimal(n / 10);
        assert(digit_value(digit_char(n % 10)) == n % 10);
        assert(n == (n / 10) * 10 + n % 10);
        let d = decimal(n);
        assert(d.drop_last() =~= decimal(n / 10));
        assert(decimal_value(d) == decimal_value(decimal(n / 10)) * 10 + digit_value(
            digit_char(n % 10),
        ));
        assert forall|i: int| 0 <= i < d.len() implies is_ascii_digit(#[trigger] d[i]) by {
            if i < d.len() - 1 {
                assert(d[i] == decimal(n / 10)[i]);
            }
        }
    }
}

} // verus!
