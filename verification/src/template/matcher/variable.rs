//! Variable templates: what the text that stands for a variable may look like.
use vstd::prelude::*;
use vstd::utf8::*;

use crate::lookup;
use crate::scan::{ScanResult, ScanToken, Token, TokenCatalog};
use crate::template::parser::{self, Parser, Part, PartView};
use crate::text;

verus! {

/// How many characters of agreement are shown in front of a divergence.
pub const CONTEXT_CHARS: usize = 20;

/// The tokens that make up an array constructor around its elements.
#[derive(Clone, Copy, Debug, PartialEq, Eq, Structural)]
pub struct ArrayTokens {
    pub keyword: Token,
    pub open: Token,
    pub separator: Token,
    pub close: Token,
}

/// Why a rule does not match.
#[derive(Clone, Copy, Debug, PartialEq, Eq, Structural)]
pub enum MatchErrorReason {
    /// The query has no text from the position on at which the rule would match.
    QueryEof,
    /// The query ends before the expected token.
    TokenMissing(Token),
    /// The query goes on with another text.
    ExactMismatch,
    /// A token of another type stands there.
    WrongTokenType(Token),
    /// The query ends inside an array constructor.
    ArrayNotTerminated,
}

/// One rule of a variable template.
#[derive(Debug)]
pub enum PatternRule {
    Exact(String),
    Token(Token),
    TokenAny(Vec<Token>),
    Array(Token, ArrayTokens),
}

/// A rule, its text taken as a sequence of characters.
pub enum RuleView {
    Exact(Seq<char>),
    Token(Token),
    TokenAny(Seq<Token>),
    Array(Token, ArrayTokens),
}

impl View for PatternRule {
    type V = RuleView;

    open spec fn view(&self) -> RuleView {
        match self {
            PatternRule::Exact(text) => RuleView::Exact(text@),
            PatternRule::Token(token) => RuleView::Token(*token),
            PatternRule::TokenAny(tokens) => RuleView::TokenAny(tokens@),
            PatternRule::Array(element, marks) => RuleView::Array(*element, *marks),
        }
    }
}

impl Clone for PatternRule {
    fn clone(&self) -> (res: Self)
        ensures
            res@ == self@,
    {
        match self {
            PatternRule::Exact(text) => PatternRule::Exact(text.clone()),
            PatternRule::Token(token) => PatternRule::Token(*token),
            PatternRule::TokenAny(tokens) => {
                let copy = tokens.clone();
                assert(copy@ =~= tokens@);
                PatternRule::TokenAny(copy)
            },
            PatternRule::Array(element, marks) => PatternRule::Array(*element, *marks),
        }
    }
}

/// The views of a template's rules.
pub open spec fn rule_views(rules: Seq<PatternRule>) -> Seq<RuleView> {
    rules.map_values(|r: PatternRule| r@)
}

/// A rule that does not match, the text at which it was tried, and why it failed.
#[derive(Debug)]
pub struct MatchError {
    pub expected: PatternRule,
    pub actual: String,
    pub reason: MatchErrorReason,
}

/// A match error, its strings taken as sequences of characters.
pub struct MatchErrorView {
    pub expected: RuleView,
    pub actual: Seq<char>,
    pub reason: MatchErrorReason,
}

impl View for MatchError {
    type V = MatchErrorView;

    open spec fn view(&self) -> MatchErrorView {
        MatchErrorView { expected: self.expected@, actual: self.actual@, reason: self.reason }
    }
}

/// How many characters two texts have in common from their beginning on.
pub open spec fn common_chars(a: Seq<char>, b: Seq<char>) -> nat
    decreases a.len(),
{
    if a.len() > 0 && b.len() > 0 && a.first() == b.first() {
        1 + common_chars(a.drop_first(), b.drop_first())
    } else {
        0
    }
}

/// `s` with a marker before its character number `at`, and with no more than the last
/// `CONTEXT_CHARS` characters in front of the marker.
pub open spec fn mark_divergence(s: Seq<char>, at: int) -> Seq<char> {
    let start = if at > CONTEXT_CHARS {
        at - CONTEXT_CHARS
    } else {
        0
    };
    s.subrange(start, at) + "<DIVERGENCE>"@ + s.skip(at)
}

/// Both texts, marked where they part.
pub open spec fn divergence(expected: Seq<char>, actual: Seq<char>) -> (Seq<char>, Seq<char>) {
    let at = common_chars(expected, actual) as int;
    (mark_divergence(expected, at), mark_divergence(actual, at))
}

pub proof fn lemma_common_chars(a: Seq<char>, b: Seq<char>, n: int)
    requires
        0 <= n <= a.len(),
        n <= b.len(),
        a.take(n) == b.take(n),
        n < a.len() && n < b.len() ==> a[n] != b[n],
    ensures
        common_chars(a, b) == n,
    decreases n,
{
    if n > 0 {
        assert(a[0] == a.take(n)[0] && b[0] == b.take(n)[0]);
        assert(a.drop_first().take(n - 1) =~= a.take(n).drop_first());
        assert(b.drop_first().take(n - 1) =~= b.take(n).drop_first());
        lemma_common_chars(a.drop_first(), b.drop_first(), n - 1);
    }
}

/// `s` with the divergence marker before its character number `at`.
fn marked(s: &str, at: usize) -> (res: String)
    requires
        at <= s@.len(),
    ensures
        res@ == mark_divergence(s@, at as int),
{
    let start: usize = if at > CONTEXT_CHARS {
        at - CONTEXT_CHARS
    } else {
        0
    };
    let mut res = s.substring_char(start, at).to_owned();
    res.append("<DIVERGENCE>");
    res.append(s.substring_char(at, s.unicode_len()));
    assert(s@.subrange(at as int, s@.len() as int) =~= s@.skip(at as int));
    res
}

/// Nothing if `actual` begins with `expected`; else both, each marked where they part and with
/// a bounded context in front of that.
pub fn divergent_suffixes(expected: &str, actual: &str) -> (res: Option<(String, String)>)
    ensures
        match res {
            None => expected@.is_prefix_of(actual@),
            Some((e, a)) => !expected@.is_prefix_of(actual@) && (e@, a@) == divergence(
                expected@,
                actual@,
            ),
        },
{
    if text::starts_with(actual, expected) {
        return None;
    }
    let e = text::chars(expected);
    let a = text::chars(actual);
    let mut common: usize = 0;
    while common < e.len() && common < a.len() && e[common] == a[common]
        invariant
            common <= e@.len(),
            common <= a@.len(),
            e@.take(common as int) == a@.take(common as int),
        decreases e@.len() - common,
    {
        assert(e@.take(common + 1) =~= e@.take(common as int).push(e@[common as int]));
        assert(a@.take(common + 1) =~= a@.take(common as int).push(a@[common as int]));
        common = common + 1;
    }
    proof {
        lemma_common_chars(e@, a@, common as int);
    }
    Some((marked(expected, common), marked(actual, common)))
}

/// The first token from number `i` on that begins at byte `pos` or later, with no earlier token
/// looked at again.
pub open spec fn skip_before(tokens: Seq<ScanToken>, i: int, pos: int) -> int
    decreases tokens.len() - i,
{
    if 0 <= i < tokens.len() && tokens[i].start < pos {
        skip_before(tokens, i + 1, pos)
    } else {
        i
    }
}

/// The number of the token at which a rule tried at byte `pos` begins to look.
pub open spec fn first_token(tokens: Seq<ScanToken>, pos: int) -> int {
    skip_before(tokens, 0, pos)
}

/// The last of the tokens of the types `expected`, in that order, that stand from number `from`
/// on; or why they do not stand there.
pub open spec fn consumed(tokens: Seq<ScanToken>, from: int, expected: Seq<Token>) -> Result<
    ScanToken,
    MatchErrorReason,
>
    decreases expected.len(),
{
    if from >= tokens.len() {
        Err(MatchErrorReason::TokenMissing(expected[0]))
    } else if tokens[from].token != expected[0] {
        Err(MatchErrorReason::WrongTokenType(tokens[from].token))
    } else if expected.len() <= 1 {
        Ok(tokens[from])
    } else {
        consumed(tokens, from + 1, expected.drop_first())
    }
}

/// The first token from number `from` on whose type is not among `allowed`.
pub open spec fn first_other(tokens: Seq<ScanToken>, from: int, allowed: Seq<Token>) -> Option<
    ScanToken,
>
    decreases tokens.len() - from,
{
    if !(0 <= from < tokens.len()) {
        None
    } else if allowed.contains(tokens[from].token) {
        first_other(tokens, from + 1, allowed)
    } else {
        Some(tokens[from])
    }
}

/// The token that closes the array whose next element stands at number `from`: elements of the
/// one type, a separator between each two.
pub open spec fn elements_end(
    tokens: Seq<ScanToken>,
    from: int,
    element: Token,
    marks: ArrayTokens,
) -> Result<ScanToken, MatchErrorReason>
    decreases tokens.len() - from,
{
    if !(0 <= from < tokens.len()) {
        Err(MatchErrorReason::ArrayNotTerminated)
    } else if tokens[from].token != element {
        Err(MatchErrorReason::WrongTokenType(tokens[from].token))
    } else if from + 1 >= tokens.len() {
        Err(MatchErrorReason::ArrayNotTerminated)
    } else if tokens[from + 1].token == marks.close {
        Ok(tokens[from + 1])
    } else if tokens[from + 1].token == marks.separator {
        elements_end(tokens, from + 2, element, marks)
    } else {
        Err(MatchErrorReason::WrongTokenType(tokens[from + 1].token))
    }
}

/// The token that closes the array constructor that begins at number `from`.
pub open spec fn array_end(
    tokens: Seq<ScanToken>,
    from: int,
    element: Token,
    marks: ArrayTokens,
) -> Result<ScanToken, MatchErrorReason> {
    match consumed(tokens, from, seq![marks.keyword, marks.open]) {
        Err(reason) => Err(reason),
        Ok(_) => if from + 2 >= tokens.len() {
            Err(MatchErrorReason::ArrayNotTerminated)
        } else if tokens[from + 2].token == marks.close {
            Ok(tokens[from + 2])
        } else {
            elements_end(tokens, from + 2, element, marks)
        },
    }
}

/// Where the query goes on after `rule` has matched at byte `pos`; or why it does not match.
pub open spec fn rule_step(
    rule: RuleView,
    query: Seq<char>,
    tokens: Seq<ScanToken>,
    pos: int,
) -> Result<int, MatchErrorView> {
    match text::suffix_at(query, pos) {
        None => Err(
            MatchErrorView { expected: rule, actual: seq![], reason: MatchErrorReason::QueryEof },
        ),
        Some(rest) => match rule {
            RuleView::Exact(text) => if text.is_prefix_of(rest) {
                Ok(pos + encode_utf8(text).len())
            } else {
                let (expected, actual) = divergence(text, rest);
                Err(
                    MatchErrorView {
                        expected: RuleView::Exact(expected),
                        actual,
                        reason: MatchErrorReason::ExactMismatch,
                    },
                )
            },
            RuleView::Token(token) => match consumed(
                tokens,
                first_token(tokens, pos),
                seq![token],
            ) {
                Ok(last) => Ok(last.end as int),
                Err(reason) => Err(MatchErrorView { expected: rule, actual: rest, reason }),
            },
            RuleView::TokenAny(allowed) => match first_other(
                tokens,
                first_token(tokens, pos),
                allowed,
            ) {
                Some(other) => Ok(other.start as int),
                None => Ok(pos),
            },
            RuleView::Array(element, marks) => match array_end(
                tokens,
                first_token(tokens, pos),
                element,
                marks,
            ) {
                Ok(last) => Ok(last.end as int),
                Err(reason) => Err(MatchErrorView { expected: rule, actual: rest, reason }),
            },
        },
    }
}

/// What comes of matching `rules` one after the other from byte `pos` on: success or the first
/// rule's failure, and the position that was reached.
pub open spec fn run_rules(
    rules: Seq<RuleView>,
    query: Seq<char>,
    tokens: Seq<ScanToken>,
    pos: int,
) -> (Result<(), MatchErrorView>, int)
    decreases rules.len(),
{
    if rules.len() == 0 {
        (Ok(()), pos)
    } else {
        match rule_step(rules.first(), query, tokens, pos) {
            Ok(next) => run_rules(rules.drop_first(), query, tokens, next),
            Err(error) => (Err(error), pos),
        }
    }
}

/// The number of the first token that begins at byte `pos` or later.
fn find_first_token(tokens: &Vec<ScanToken>, pos: usize) -> (res: usize)
    ensures
        res == first_token(tokens@, pos as int),
        res <= tokens@.len(),
{
    let mut i: usize = 0;
    while i < tokens.len() && tokens[i].start < pos
        invariant
            i <= tokens@.len(),
            skip_before(tokens@, i as int, pos as int) == first_token(tokens@, pos as int),
        decreases tokens@.len() - i,
    {
        i = i + 1;
    }
    i
}

/// Goes through tokens from number `from` on, which must be of the types `expected`, and returns
/// the last one.
fn consume_tokens(tokens: &Vec<ScanToken>, from: usize, expected: &Vec<Token>) -> (res: Result<
    ScanToken,
    MatchErrorReason,
>)
    requires
        from <= tokens@.len(),
        expected@.len() > 0,
    ensures
        res == consumed(tokens@, from as int, expected@),
        res is Ok ==> from + expected@.len() <= tokens@.len(),
{
    let size: usize = tokens.len();
    let mut i: usize = 0;
    assert(expected@.skip(0) =~= expected@);
    loop
        invariant
            size == tokens@.len(),
            i < expected@.len(),
            from + i <= size,
            consumed(tokens@, from + i, expected@.skip(i as int)) == consumed(
                tokens@,
                from as int,
                expected@,
            ),
        decreases expected@.len() - i,
    {
        if from + i >= size {
            return Err(MatchErrorReason::TokenMissing(expected[i]));
        }
        let actual = tokens[from + i];
        if actual.token != expected[i] {
            return Err(MatchErrorReason::WrongTokenType(actual.token));
        }
        if i + 1 == expected.len() {
            return Ok(actual);
        }
        assert(expected@.skip(i as int).drop_first() =~= expected@.skip(i + 1));
        i = i + 1;
    }
}

/// Whether `token` is among `allowed`.
fn is_among(token: Token, allowed: &Vec<Token>) -> (res: bool)
    ensures
        res == allowed@.contains(token),
{
    for i in 0..allowed.len()
        invariant
            forall|j: int| 0 <= j < i ==> allowed@[j] != token,
    {
        if allowed[i] == token {
            return true;
        }
    }
    false
}

/// The first token from number `from` on whose type is not among `allowed`.
fn find_other(tokens: &Vec<ScanToken>, from: usize, allowed: &Vec<Token>) -> (res: Option<ScanToken>)
    requires
        from <= tokens@.len(),
    ensures
        res == first_other(tokens@, from as int, allowed@),
{
    let mut i: usize = from;
    while i < tokens.len()
        invariant
            i <= tokens@.len(),
            first_other(tokens@, i as int, allowed@) == first_other(
                tokens@,
                from as int,
                allowed@,
            ),
        decreases tokens@.len() - i,
    {
        if !is_among(tokens[i].token, allowed) {
            return Some(tokens[i]);
        }
        i = i + 1;
    }
    None
}

/// The token that closes the array constructor that begins at number `from`.
fn find_array_end(
    tokens: &Vec<ScanToken>,
    from: usize,
    element: Token,
    marks: ArrayTokens,
) -> (res: Result<ScanToken, MatchErrorReason>)
    requires
        from <= tokens@.len(),
    ensures
        res == array_end(tokens@, from as int, element, marks),
{
    let size: usize = tokens.len();
    let mut opening: Vec<Token> = Vec::new();
    opening.push(marks.keyword);
    opening.push(marks.open);
    assert(opening@ =~= seq![marks.keyword, marks.open]);
    match consume_tokens(tokens, from, &opening) {
        Ok(_) => {},
        Err(reason) => {
            return Err(reason);
        },
    }
    let mut i: usize = from + 2;
    if i >= size {
        return Err(MatchErrorReason::ArrayNotTerminated);
    }
    if tokens[i].token == marks.close {
        return Ok(tokens[i]);
    }
    loop
        invariant
            size == tokens@.len(),
            i <= size,
            elements_end(tokens@, i as int, element, marks) == array_end(
                tokens@,
                from as int,
                element,
                marks,
            ),
        decreases size - i,
    {
        if i >= size {
            return Err(MatchErrorReason::ArrayNotTerminated);
        }
        let item = tokens[i];
        if item.token != element {
            return Err(MatchErrorReason::WrongTokenType(item.token));
        }
        if i + 1 >= size {
            return Err(MatchErrorReason::ArrayNotTerminated);
        }
        let next = tokens[i + 1];
        if next.token == marks.close {
            return Ok(next);
        }
        if next.token != marks.separator {
            return Err(MatchErrorReason::WrongTokenType(next.token));
        }
        i = i + 2;
    }
}

/// The tokens of array constructors, by the names that the scanner gives them; or the first of
/// these names that it does not know.
pub open spec fn array_marks(catalog: TokenCatalog) -> Result<ArrayTokens, Seq<char>> {
    match (
        catalog.named("ARRAY"@),
        catalog.named("ASCII_91"@),
        catalog.named("ASCII_44"@),
        catalog.named("ASCII_93"@),
    ) {
        (None, _, _, _) => Err("ARRAY"@),
        (_, None, _, _) => Err("ASCII_91"@),
        (_, _, None, _) => Err("ASCII_44"@),
        (_, _, _, None) => Err("ASCII_93"@),
        (Some(keyword), Some(open), Some(separator), Some(close)) => Ok(
            ArrayTokens { keyword, open, separator, close },
        ),
    }
}

/// The token types called `names`, or the first name that the scanner does not know.
pub open spec fn named_tokens(names: Seq<Seq<char>>, catalog: TokenCatalog) -> Result<
    Seq<Token>,
    Seq<char>,
>
    decreases names.len(),
{
    if names.len() == 0 {
        Ok(seq![])
    } else {
        match named_tokens(names.drop_last(), catalog) {
            Err(name) => Err(name),
            Ok(tokens) => match catalog.named(names.last()) {
                None => Err(names.last()),
                Some(token) => Ok(tokens.push(token)),
            },
        }
    }
}

/// The rule that a template's part stands for, or the name in it that the scanner does not know.
pub open spec fn part_rule(part: PartView, catalog: TokenCatalog) -> Result<RuleView, Seq<char>> {
    match part {
        PartView::Text(text) => Ok(RuleView::Exact(text)),
        PartView::Token(name) => match catalog.named(name) {
            None => Err(name),
            Some(token) => Ok(RuleView::Token(token)),
        },
        PartView::TokenAny(names) => match named_tokens(names, catalog) {
            Err(name) => Err(name),
            Ok(tokens) => Ok(RuleView::TokenAny(tokens)),
        },
        PartView::Array(name) => match catalog.named(name) {
            None => Err(name),
            Some(element) => match array_marks(catalog) {
                Err(name) => Err(name),
                Ok(marks) => Ok(RuleView::Array(element, marks)),
            },
        },
    }
}

/// The rules that a template's parts stand for, or the first name in them that the scanner does
/// not know.
pub open spec fn part_rules(parts: Seq<PartView>, catalog: TokenCatalog) -> Result<
    Seq<RuleView>,
    Seq<char>,
>
    decreases parts.len(),
{
    if parts.len() == 0 {
        Ok(seq![])
    } else {
        match part_rules(parts.drop_last(), catalog) {
            Err(name) => Err(name),
            Ok(rules) => match part_rule(parts.last(), catalog) {
                Err(name) => Err(name),
                Ok(rule) => Ok(rules.push(rule)),
            },
        }
    }
}

proof fn lemma_named_tokens_error(names: Seq<Seq<char>>, n: int, catalog: TokenCatalog)
    requires
        0 <= n <= names.len(),
        named_tokens(names.take(n), catalog) is Err,
    ensures
        named_tokens(names, catalog) == named_tokens(names.take(n), catalog),
    decreases names.len(),
{
    if n < names.len() {
        assert(names.drop_last().take(n) =~= names.take(n));
        lemma_named_tokens_error(names.drop_last(), n, catalog);
    } else {
        assert(names.take(n) =~= names);
    }
}

proof fn lemma_part_rules_error(parts: Seq<PartView>, n: int, catalog: TokenCatalog)
    requires
        0 <= n <= parts.len(),
        part_rules(parts.take(n), catalog) is Err,
    ensures
        part_rules(parts, catalog) == part_rules(parts.take(n), catalog),
    decreases parts.len(),
{
    if n < parts.len() {
        assert(parts.drop_last().take(n) =~= parts.take(n));
        lemma_part_rules_error(parts.drop_last(), n, catalog);
    } else {
        assert(parts.take(n) =~= parts);
    }
}

/// A template names a token type that the scanner does not know.
#[derive(Debug, PartialEq, Eq)]
pub struct UnknownToken {
    pub name: String,
}

/// The token type called `name`.
fn find_token(name: &str, catalog: &TokenCatalog) -> (res: Result<Token, UnknownToken>)
    ensures
        match res {
            Ok(token) => catalog.named(name@) == Some(token),
            Err(error) => catalog.named(name@) is None && error.name@ == name@,
        },
{
    match catalog.token(name) {
        Some(token) => Ok(token),
        None => Err(UnknownToken { name: name.to_owned() }),
    }
}

/// The tokens of array constructors.
fn find_array_marks(catalog: &TokenCatalog) -> (res: Result<ArrayTokens, UnknownToken>)
    ensures
        match res {
            Ok(marks) => array_marks(*catalog) == Ok::<ArrayTokens, Seq<char>>(marks),
            Err(error) => array_marks(*catalog) == Err::<ArrayTokens, Seq<char>>(error.name@),
        },
{
    let keyword = find_token("ARRAY", catalog)?;
    let open = find_token("ASCII_91", catalog)?;
    let separator = find_token("ASCII_44", catalog)?;
    let close = find_token("ASCII_93", catalog)?;
    Ok(ArrayTokens { keyword, open, separator, close })
}

/// The token types called `names`.
fn find_tokens(names: &Vec<String>, catalog: &TokenCatalog) -> (res: Result<
    Vec<Token>,
    UnknownToken,
>)
    ensures
        match res {
            Ok(tokens) => named_tokens(text::string_views(names@), *catalog) == Ok::<
                Seq<Token>,
                Seq<char>,
            >(tokens@),
            Err(error) => named_tokens(text::string_views(names@), *catalog) == Err::<
                Seq<Token>,
                Seq<char>,
            >(error.name@),
        },
{
    let ghost views = text::string_views(names@);
    let mut tokens: Vec<Token> = Vec::new();
    for i in 0..names.len()
        invariant
            views == text::string_views(names@),
            named_tokens(views.take(i as int), *catalog) == Ok::<Seq<Token>, Seq<char>>(tokens@),
    {
        proof {
            assert(views.take(i + 1).drop_last() =~= views.take(i as int));
        }
        match find_token(names[i].as_str(), catalog) {
            Ok(token) => {
                tokens.push(token);
            },
            Err(error) => {
                proof {
                    lemma_named_tokens_error(views, i + 1, *catalog);
                }
                return Err(error);
            },
        }
    }
    assert(views.take(views.len() as int) =~= views);
    Ok(tokens)
}

/// The rule that a template's part stands for.
fn find_rule(part: &Part, catalog: &TokenCatalog) -> (res: Result<PatternRule, UnknownToken>)
    ensures
        match res {
            Ok(rule) => part_rule(part@, *catalog) == Ok::<RuleView, Seq<char>>(rule@),
            Err(error) => part_rule(part@, *catalog) == Err::<RuleView, Seq<char>>(error.name@),
        },
{
    match part {
        Part::Text(text) => Ok(PatternRule::Exact(text.clone())),
        Part::Token(name) => Ok(PatternRule::Token(find_token(name.as_str(), catalog)?)),
        Part::TokenAny(names) => Ok(PatternRule::TokenAny(find_tokens(names, catalog)?)),
        Part::Array(name) => {
            let element = find_token(name.as_str(), catalog)?;
            let marks = find_array_marks(catalog)?;
            Ok(PatternRule::Array(element, marks))
        },
    }
}

/// A variable template, ready to be matched against queries. Its view is the list of its rules.
#[derive(Debug)]
pub struct VariableTemplateMatcher {
    pattern: Vec<PatternRule>,
}

impl View for VariableTemplateMatcher {
    type V = Seq<RuleView>;

    closed spec fn view(&self) -> Seq<RuleView> {
        rule_views(self.pattern@)
    }
}

impl VariableTemplateMatcher {
    /// The matcher for `template`, whose token names are those of `catalog`.
    pub fn parse(template: &str, catalog: &TokenCatalog) -> (res: Result<Self, UnknownToken>)
        ensures
            match res {
                Ok(matcher) => part_rules(parser::template_parts(template@), *catalog) == Ok::<
                    Seq<RuleView>,
                    Seq<char>,
                >(matcher@),
                Err(error) => part_rules(parser::template_parts(template@), *catalog) == Err::<
                    Seq<RuleView>,
                    Seq<char>,
                >(error.name@),
            },
    {
        let parts = Parser::parse(template);
        let ghost views = parser::part_views(parts@);
        let mut pattern: Vec<PatternRule> = Vec::new();
        assert(rule_views(pattern@) =~= seq![]);
        for i in 0..parts.len()
            invariant
                views == parser::part_views(parts@),
                views == parser::template_parts(template@),
                part_rules(views.take(i as int), *catalog) == Ok::<Seq<RuleView>, Seq<char>>(
                    rule_views(pattern@),
                ),
        {
            proof {
                assert(views.take(i + 1).drop_last() =~= views.take(i as int));
            }
            let ghost before = rule_views(pattern@);
            match find_rule(&parts[i], catalog) {
                Ok(rule) => {
                    let ghost view = rule@;
                    pattern.push(rule);
                    assert(rule_views(pattern@) =~= before.push(view));
                },
                Err(error) => {
                    proof {
                        lemma_part_rules_error(views, i + 1, *catalog);
                    }
                    return Err(error);
                },
            }
        }
        assert(views.take(views.len() as int) =~= views);
        Ok(VariableTemplateMatcher { pattern })
    }

    /// Matches the template's rules one after the other against `query` from byte `pos` on, and
    /// moves `pos` behind what was matched. `scan_result` holds the tokens of `query`.
    ///
    /// What follows in the query is left alone: a caller that wants the whole query to match has
    /// to look at `pos`.
    pub fn match_query(&self, query: &str, scan_result: &ScanResult, pos: &mut usize) -> (res:
        Result<(), MatchError>)
        ensures
            ({
                let (outcome, reached) = run_rules(
                    self@,
                    query@,
                    scan_result.tokens@,
                    *old(pos) as int,
                );
                &&& *final(pos) == reached
                &&& match res {
                    Ok(()) => outcome is Ok,
                    Err(error) => outcome == Err::<(), MatchErrorView>(error@),
                }
            }),
    {
        let tokens = &scan_result.tokens;
        let ghost start = *pos as int;
        assert(self@.skip(0) =~= self@);
        for i in 0..self.pattern.len()
            invariant
                tokens@ == scan_result.tokens@,
                self@ == rule_views(self.pattern@),
                start == *old(pos),
                run_rules(self@.skip(i as int), query@, tokens@, *pos as int) == run_rules(
                    self@,
                    query@,
                    tokens@,
                    start,
                ),
        {
            let rule = &self.pattern[i];
            proof {
                assert(self@.skip(i as int).first() == rule@);
                assert(self@.skip(i as int).drop_first() =~= self@.skip(i + 1));
            }
            let rest = match text::suffix(query, *pos) {
                Some(rest) => rest,
                None => {
                    let error = MatchError {
                        expected: rule.clone(),
                        actual: String::new(),
                        reason: MatchErrorReason::QueryEof,
                    };
                    return Err(error);
                },
            };
            match rule {
                PatternRule::Exact(expected) => {
                    if let Some((expected, actual)) = divergent_suffixes(expected.as_str(), rest) {
                        let error = MatchError {
                            expected: PatternRule::Exact(expected),
                            actual,
                            reason: MatchErrorReason::ExactMismatch,
                        };
                        return Err(error);
                    }
                    *pos = text::advance(query, *pos, expected.as_str());
                },
                PatternRule::Token(expected) => {
                    let mut wanted: Vec<Token> = Vec::new();
                    wanted.push(*expected);
                    assert(wanted@ =~= seq![*expected]);
                    match consume_tokens(tokens, find_first_token(tokens, *pos), &wanted) {
                        Ok(last) => {
                            *pos = last.end;
                        },
                        Err(reason) => {
                            return Err(
                                MatchError {
                                    expected: rule.clone(),
                                    actual: rest.to_owned(),
                                    reason,
                                },
                            );
                        },
                    }
                },
                PatternRule::TokenAny(allowed) => {
                    if let Some(other) = find_other(tokens, find_first_token(tokens, *pos), allowed) {
                        *pos = other.start;
                    }
                },
                PatternRule::Array(element, marks) => {
                    match find_array_end(tokens, find_first_token(tokens, *pos), *element, *marks) {
                        Ok(last) => {
                            *pos = last.end;
                        },
                        Err(reason) => {
                            return Err(
                                MatchError {
                                    expected: rule.clone(),
                                    actual: rest.to_owned(),
                                    reason,
                                },
                            );
                        },
                    }
                },
            }
        }
        assert(self@.skip(self@.len() as int) =~= seq![]);
        Ok(())
    }
}

/// What is shown of two texts that part: the last characters that they have in common, at most
/// `CONTEXT_CHARS` of them and the same in both; a marker; and what follows, which begins with
/// different characters unless one of the texts ends there.
pub proof fn law_divergence_is_shown_in_context(expected: Seq<char>, actual: Seq<char>)
    ensures
        ({
            let at = common_chars(expected, actual) as int;
            let start = if at > CONTEXT_CHARS {
                at - CONTEXT_CHARS
            } else {
                0
            };
            let context = expected.subrange(start, at);
            &&& at <= expected.len() && at <= actual.len()
            &&& expected.take(at) == actual.take(at)
            &&& at < expected.len() && at < actual.len() ==> expected[at] != actual[at]
            &&& context.len() <= CONTEXT_CHARS
            &&& divergence(expected, actual) == (
                context + "<DIVERGENCE>"@ + expected.skip(at),
                context + "<DIVERGENCE>"@ + actual.skip(at),
            )
        }),
{
    let at = common_chars(expected, actual) as int;
    lemma_common_prefix(expected, actual);
    let start = if at > CONTEXT_CHARS {
        at - CONTEXT_CHARS
    } else {
        0
    };
    assert(expected.subrange(start, at) =~= expected.take(at).skip(start));
    assert(actual.subrange(start, at) =~= actual.take(at).skip(start));
}

proof fn lemma_common_prefix(a: Seq<char>, b: Seq<char>)
    ensures
        common_chars(a, b) <= a.len(),
        common_chars(a, b) <= b.len(),
        a.take(common_chars(a, b) as int) == b.take(common_chars(a, b) as int),
        common_chars(a, b) < a.len() && common_chars(a, b) < b.len() ==> a[common_chars(a, b) as int]
            != b[common_chars(a, b) as int],
    decreases a.len(),
{
    let n = common_chars(a, b) as int;
    if n > 0 {
        let (x, y) = (a.drop_first(), b.drop_first());
        lemma_common_prefix(x, y);
        assert(a.take(n) =~= seq![a.first()] + x.take(n - 1));
        assert(b.take(n) =~= seq![b.first()] + y.take(n - 1));
        if n < a.len() && n < b.len() {
            assert(x[n - 1] == a[n] && y[n - 1] == b[n]);
        }
    } else {
        assert(a.take(0) =~= b.take(0));
    }
}

/// The names of token types that a part of a template asks for, in the order in which they are
/// looked up.
pub open spec fn names_in_part(part: PartView) -> Seq<Seq<char>> {
    match part {
        PartView::Text(_) => seq![],
        PartView::Token(name) => seq![name],
        PartView::TokenAny(names) => names,
        PartView::Array(name) => seq![name, "ARRAY"@, "ASCII_91"@, "ASCII_44"@, "ASCII_93"@],
    }
}

/// The names of token types that the parts of a template ask for, in order.
pub open spec fn names_in_parts(parts: Seq<PartView>) -> Seq<Seq<char>>
    decreases parts.len(),
{
    if parts.len() == 0 {
        seq![]
    } else {
        names_in_parts(parts.drop_last()) + names_in_part(parts.last())
    }
}

/// Whether the scanner calls the token type `token` by `name`, as the first of that name.
pub open spec fn is_called(token: Token, name: Seq<char>, catalog: TokenCatalog) -> bool {
    exists|i: int| #[trigger]
        lookup::is_first_named(catalog.entries@, name, i) && i < catalog.entries@.len()
            && catalog.entries@[i].1 == token
}

/// Whether a rule is what a part of a template says, its names being those of the scanner.
pub open spec fn is_rule_of(rule: RuleView, part: PartView, catalog: TokenCatalog) -> bool {
    match part {
        PartView::Text(text) => rule == RuleView::Exact(text),
        PartView::Token(name) => rule matches RuleView::Token(token) && is_called(
            token,
            name,
            catalog,
        ),
        PartView::TokenAny(names) => rule matches RuleView::TokenAny(tokens) && tokens.len()
            == names.len() && forall|i: int|
            0 <= i < names.len() ==> is_called(#[trigger] tokens[i], names[i], catalog),
        PartView::Array(name) => rule matches RuleView::Array(element, marks) && is_called(
            element,
            name,
            catalog,
        ) && is_called(marks.keyword, "ARRAY"@, catalog) && is_called(
            marks.open,
            "ASCII_91"@,
            catalog,
        ) && is_called(marks.separator, "ASCII_44"@, catalog) && is_called(
            marks.close,
            "ASCII_93"@,
            catalog,
        ),
    }
}

proof fn lemma_called(token: Token, name: Seq<char>, catalog: TokenCatalog)
    ensures
        catalog.named(name) == Some(token) <==> is_called(token, name, catalog),
{
    let i = lemma_first_place(catalog.entries@, name);
    lookup::lemma_first_named(catalog.entries@, name, i);
    if is_called(token, name, catalog) {
        let j = choose|j: int| #[trigger]
            lookup::is_first_named(catalog.entries@, name, j) && j < catalog.entries@.len()
                && catalog.entries@[j].1 == token;
        lookup::lemma_first_named(catalog.entries@, name, j);
    }
    if catalog.named(name) == Some(token) {
        assert(lookup::is_first_named(catalog.entries@, name, i));
    }
}

proof fn lemma_first_place(entries: Seq<(String, Token)>, name: Seq<char>) -> (i: int)
    ensures
        lookup::is_first_named(entries, name, i),
    decreases entries.len(),
{
    if entries.len() == 0 {
        0
    } else if entries[0].0@ == name {
        0
    } else {
        let rest = entries.drop_first();
        let i = lemma_first_place(rest, name);
        assert forall|j: int| 0 <= j < i + 1 implies (#[trigger] entries[j]).0@ != name by {
            if j > 0 {
                assert(rest[j - 1] == entries[j]);
            }
        }
        if i < rest.len() {
            assert(rest[i] == entries[i + 1]);
        }
        i + 1
    }
}

proof fn lemma_named_tokens(names: Seq<Seq<char>>, catalog: TokenCatalog)
    ensures
        match named_tokens(names, catalog) {
            Ok(tokens) => tokens.len() == names.len() && forall|i: int|
                0 <= i < names.len() ==> catalog.named(names[i]) == Some(#[trigger] tokens[i]),
            Err(name) => exists|i: int|
                0 <= i < names.len() && catalog.named(#[trigger] names[i]) is None,
        },
    decreases names.len(),
{
    if names.len() > 0 {
        let before = names.drop_last();
        lemma_named_tokens(before, catalog);
        assert(names.last() == names[names.len() - 1]);
        match named_tokens(before, catalog) {
            Ok(tokens) => {
                if let Ok(all) = named_tokens(names, catalog) {
                    assert forall|i: int| 0 <= i < names.len() implies catalog.named(names[i])
                        == Some(#[trigger] all[i]) by {
                        if i < before.len() {
                            assert(all[i] == tokens[i] && before[i] == names[i]);
                        }
                    }
                }
            },
            Err(_) => {
                let i = choose|i: int|
                    0 <= i < before.len() && catalog.named(#[trigger] before[i]) is None;
                assert(catalog.named(names[i]) is None);
            },
        }
    }
}

proof fn lemma_rule_of_part(part: PartView, rule: RuleView, catalog: TokenCatalog)
    ensures
        (part_rule(part, catalog) matches Ok(found) && found == rule) <==> is_rule_of(
            rule,
            part,
            catalog,
        ),
{
    match part {
        PartView::Text(_) => {},
        PartView::Token(name) => {
            if let Some(token) = catalog.named(name) {
                lemma_called(token, name, catalog);
            }
            if let RuleView::Token(token) = rule {
                lemma_called(token, name, catalog);
            }
        },
        PartView::TokenAny(names) => {
            lemma_named_tokens(names, catalog);
            if let Ok(RuleView::TokenAny(tokens)) = part_rule(part, catalog) {
                assert forall|i: int| 0 <= i < names.len() implies is_called(
                    #[trigger] tokens[i],
                    names[i],
                    catalog,
                ) by {
                    lemma_called(tokens[i], names[i], catalog);
                }
            }
            if let RuleView::TokenAny(tokens) = rule {
                if is_rule_of(rule, part, catalog) {
                    assert forall|i: int| 0 <= i < names.len() implies catalog.named(
                        #[trigger] names[i],
                    ) == Some(tokens[i]) by {
                        assert(is_called(tokens[i], names[i], catalog));
                        lemma_called(tokens[i], names[i], catalog);
                    }
                    if let Ok(found) = named_tokens(names, catalog) {
                        assert forall|i: int| 0 <= i < names.len() implies found[i] == tokens[i] by {
                            assert(catalog.named(names[i]) == Some(found[i]));
                        }
                        assert(found =~= tokens);
                    }
                }
            }
        },
        PartView::Array(name) => {
            if let Ok(RuleView::Array(element, marks)) = part_rule(part, catalog) {
                lemma_called(element, name, catalog);
                lemma_called(marks.keyword, "ARRAY"@, catalog);
                lemma_called(marks.open, "ASCII_91"@, catalog);
                lemma_called(marks.separator, "ASCII_44"@, catalog);
                lemma_called(marks.close, "ASCII_93"@, catalog);
            }
            if let RuleView::Array(element, marks) = rule {
                lemma_called(element, name, catalog);
                lemma_called(marks.keyword, "ARRAY"@, catalog);
                lemma_called(marks.open, "ASCII_91"@, catalog);
                lemma_called(marks.separator, "ASCII_44"@, catalog);
                lemma_called(marks.close, "ASCII_93"@, catalog);
            }
        },
    }
}

/// A template's rules are, part by part, what its parts say, the names in them being those that the
/// scanner gives to token types.
pub proof fn law_parts_become_rules(
    parts: Seq<PartView>,
    rules: Seq<RuleView>,
    catalog: TokenCatalog,
)
    ensures
        (part_rules(parts, catalog) matches Ok(found) && found == rules) <==> rules.len()
            == parts.len() && forall|i: int|
            0 <= i < parts.len() ==> is_rule_of(#[trigger] rules[i], parts[i], catalog),
    decreases parts.len(),
{
    if parts.len() > 0 {
        let before = parts.drop_last();
        let last = parts.len() - 1;
        assert(parts.last() == parts[last]);
        let all = rules.len() == parts.len() && forall|i: int|
            0 <= i < parts.len() ==> is_rule_of(#[trigger] rules[i], parts[i], catalog);
        if rules.len() == parts.len() {
            let front = rules.drop_last();
            law_parts_become_rules(before, front, catalog);
            lemma_rule_of_part(parts.last(), rules.last(), catalog);
            assert(rules =~= front.push(rules.last()));
            if all {
                assert forall|i: int| 0 <= i < before.len() implies is_rule_of(
                    #[trigger] front[i],
                    before[i],
                    catalog,
                ) by {
                    assert(rules[i] == front[i]);
                }
                assert(is_rule_of(rules[last], parts[last], catalog));
            }
            if part_rules(parts, catalog) matches Ok(found) && found == rules {
                let so_far = part_rules(before, catalog)->Ok_0;
                assert(so_far =~= rules.drop_last());
                assert forall|i: int| 0 <= i < parts.len() implies is_rule_of(
                    #[trigger] rules[i],
                    parts[i],
                    catalog,
                ) by {
                    if i < last {
                        assert(rules[i] == front[i] && before[i] == parts[i]);
                    }
                }
            }
        } else {
            if let Ok(found) = part_rules(parts, catalog) {
                let so_far = part_rules(before, catalog)->Ok_0;
                law_parts_become_rules(before, so_far, catalog);
            }
        }
    } else {
        if rules.len() == 0 {
            assert(rules =~= seq![]);
        }
    }
}

proof fn lemma_unknown_token(names: Seq<Seq<char>>, i: int, catalog: TokenCatalog)
    requires
        0 <= i <= names.len(),
        forall|j: int| 0 <= j < i ==> catalog.named(#[trigger] names[j]) is Some,
        i < names.len() ==> catalog.named(names[i]) is None,
    ensures
        i < names.len() ==> named_tokens(names, catalog) == Err::<Seq<Token>, Seq<char>>(names[i]),
        i == names.len() ==> named_tokens(names, catalog) is Ok,
    decreases names.len(),
{
    if names.len() > 0 {
        let before = names.drop_last();
        assert(names.last() == names[names.len() - 1]);
        assert forall|j: int| 0 <= j < i && j < before.len() implies catalog.named(
            #[trigger] before[j],
        ) is Some by {
            assert(before[j] == names[j]);
        }
        if i < before.len() {
            assert(before[i] == names[i]);
            lemma_unknown_token(before, i, catalog);
        } else {
            lemma_unknown_token(before, before.len() as int, catalog);
        }
    }
}

/// A template has rules just if the scanner knows every name in it; otherwise the first name that
/// it does not know is reported.
pub proof fn law_first_unknown_name_is_reported(
    parts: Seq<PartView>,
    i: int,
    catalog: TokenCatalog,
)
    requires
        0 <= i <= names_in_parts(parts).len(),
        forall|j: int|
            0 <= j < i ==> catalog.named(#[trigger] names_in_parts(parts)[j]) is Some,
        i < names_in_parts(parts).len() ==> catalog.named(names_in_parts(parts)[i]) is None,
    ensures
        i < names_in_parts(parts).len() ==> part_rules(parts, catalog) == Err::<
            Seq<RuleView>,
            Seq<char>,
        >(names_in_parts(parts)[i]),
        i == names_in_parts(parts).len() ==> part_rules(parts, catalog) is Ok,
    decreases parts.len(),
{
    if parts.len() > 0 {
        let before = parts.drop_last();
        let part = parts.last();
        let names = names_in_parts(parts);
        let front = names_in_parts(before);
        let own = names_in_part(part);
        let n = front.len() as int;
        assert forall|j: int| 0 <= j < i && j < n implies catalog.named(#[trigger] front[j]) is Some by {
            assert(front[j] == names[j]);
        }
        if i < n {
            assert(front[i] == names[i]);
            law_first_unknown_name_is_reported(before, i, catalog);
        } else {
            law_first_unknown_name_is_reported(before, n, catalog);
            assert forall|j: int| 0 <= j < i - n implies catalog.named(#[trigger] own[j]) is Some by {
                assert(own[j] == names[n + j]);
            }
            if i < names.len() {
                assert(own[i - n] == names[i]);
            }
            if let PartView::TokenAny(list) = part {
                lemma_unknown_token(list, i - n, catalog);
            }
            if let PartView::Array(name) = part {
                assert(own[0] == name && own[1] == "ARRAY"@ && own[2] == "ASCII_91"@ && own[3]
                    == "ASCII_44"@ && own[4] == "ASCII_93"@);
            }
            if let PartView::Token(name) = part {
                assert(own[0] == name);
            }
        }
    }
}

} // verus!
