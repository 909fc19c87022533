//! Query templates: the queries that a dashboard may send, with variables in them.
use std::sync::Arc;

use aho_corasick::BuildError;
use vstd::prelude::*;
use vstd::utf8::*;

use crate::scan::{ScanError, ScanResult, ScanToken};
use crate::search;
use crate::template::matcher::variable::{self, divergent_suffixes};
use crate::template::pattern::{self, QueryPatternRule, QueryRuleView};
use crate::template::variables::{self, VariableTemplates, VariableViews};
use crate::text;

verus! {

/// The text in front of the first line break, or the whole text if there is none.
pub open spec fn first_line(s: Seq<char>) -> Seq<char>
    decreases s.len(),
{
    if s.len() == 0 || s.first() == '\n' {
        seq![]
    } else {
        seq![s.first()] + first_line(s.drop_first())
    }
}

/// The name of a query: what its first line says, where that is a comment.
pub open spec fn name_of_query(query: Seq<char>) -> Option<Seq<char>> {
    let line = text::trimmed(first_line(query));
    if "--"@.is_prefix_of(line) {
        Some(text::trimmed(line.skip(2)))
    } else {
        None
    }
}

proof fn lemma_first_line(s: Seq<char>, n: int)
    requires
        0 <= n <= s.len(),
        forall|i: int| 0 <= i < n ==> #[trigger] s[i] != '\n',
        n < s.len() ==> s[n] == '\n',
    ensures
        first_line(s) == s.take(n),
    decreases n,
{
    if n > 0 {
        assert(s[0] != '\n');
        let rest = s.drop_first();
        assert forall|i: int| 0 <= i < n - 1 implies #[trigger] rest[i] != '\n' by {
            assert(rest[i] == s[i + 1]);
        }
        lemma_first_line(rest, n - 1);
        assert(first_line(s) =~= s.take(n));
    } else {
        assert(s.take(0) =~= seq![]);
    }
}

/// The text of `query` in front of its first line break.
fn find_first_line(query: &str) -> (res: &str)
    ensures
        res@ == first_line(query@),
{
    let size: usize = query.as_bytes().len();
    let mut pos: usize = 0;
    let mut ended = false;
    let ghost mut end: int = 0;
    for c in it: query.chars()
        invariant
            it.seq() == query@,
            size == encode_utf8(query@).len(),
            0 <= end <= it.index(),
            pos == text::offset(query@, end),
            !ended ==> end == it.index(),
            ended ==> end < it.index() && query@[end] == '\n',
            forall|i: int| 0 <= i < end ==> #[trigger] query@[i] != '\n',
    {
        proof {
            assert(c == query@[it.index() as int]);
            text::lemma_offset_step(query@, it.index() as int);
            text::lemma_cut(query@, it.index() + 1);
        }
        if !ended {
            if c == '\n' {
                ended = true;
            } else {
                pos = pos + text::char_width(c);
                proof {
                    end = end + 1;
                }
            }
        }
    }
    proof {
        lemma_first_line(query@, end);
        assert(query@.take(0) =~= Seq::<char>::empty());
        assert(text::offset(query@, 0) == 0);
        assert(query@.subrange(0, end) =~= query@.take(end));
    }
    text::slice(query, 0, pos)
}

/// Why a rule of a query template does not match.
#[derive(Debug)]
pub enum MatchErrorReason {
    /// The query could not be split into tokens.
    QueryScanFailed(String),
    /// The query has no text from the position on at which the rule would match.
    QueryEof,
    /// The query goes on with another text.
    ExactMismatch,
    /// The rule names a variable that does not exist.
    UnknownVariable(String),
    /// The text does not match the variable's template.
    VariableMismatch(variable::MatchError),
    /// The query goes on behind the last rule.
    UnmatchedSuffix,
}

/// A reason, its strings taken as sequences of characters.
pub enum ReasonView {
    QueryScanFailed(Seq<char>),
    QueryEof,
    ExactMismatch,
    UnknownVariable(Seq<char>),
    VariableMismatch(variable::MatchErrorView),
    UnmatchedSuffix,
}

impl View for MatchErrorReason {
    type V = ReasonView;

    open spec fn view(&self) -> ReasonView {
        match self {
            MatchErrorReason::QueryScanFailed(message) => ReasonView::QueryScanFailed(message@),
            MatchErrorReason::QueryEof => ReasonView::QueryEof,
            MatchErrorReason::ExactMismatch => ReasonView::ExactMismatch,
            MatchErrorReason::UnknownVariable(name) => ReasonView::UnknownVariable(name@),
            MatchErrorReason::VariableMismatch(error) => ReasonView::VariableMismatch(error@),
            MatchErrorReason::UnmatchedSuffix => ReasonView::UnmatchedSuffix,
        }
    }
}

/// A rule that does not match, the text at which it was tried, and why it failed.
#[derive(Debug)]
pub struct MatchError {
    pub expected: QueryPatternRule,
    pub actual: String,
    pub reason: MatchErrorReason,
}

/// A match error, its strings taken as sequences of characters.
pub struct MatchErrorView {
    pub expected: QueryRuleView,
    pub actual: Seq<char>,
    pub reason: ReasonView,
}

impl View for MatchError {
    type V = MatchErrorView;

    open spec fn view(&self) -> MatchErrorView {
        MatchErrorView { expected: self.expected@, actual: self.actual@, reason: self.reason@ }
    }
}

/// Why a query does not match a template.
#[derive(Debug)]
pub enum MatchQueryError {
    Match(MatchError),
    Scan(ScanError),
}

/// A failed match, its strings taken as sequences of characters.
pub enum MatchQueryErrorView {
    Match(MatchErrorView),
    Scan(Seq<char>),
}

impl View for MatchQueryError {
    type V = MatchQueryErrorView;

    open spec fn view(&self) -> MatchQueryErrorView {
        match self {
            MatchQueryError::Match(error) => MatchQueryErrorView::Match(error@),
            MatchQueryError::Scan(error) => MatchQueryErrorView::Scan(error.message@),
        }
    }
}

/// Where the query goes on after `rule` has matched at byte `pos`; or why it does not match.
pub open spec fn query_step(
    rule: QueryRuleView,
    variables: VariableViews,
    query: Seq<char>,
    tokens: Seq<ScanToken>,
    pos: int,
) -> Result<int, MatchErrorView> {
    match text::suffix_at(query, pos) {
        None => Err(
            MatchErrorView { expected: rule, actual: seq![], reason: ReasonView::QueryEof },
        ),
        Some(rest) => match rule {
            QueryRuleView::Exact(text) => if text.is_prefix_of(rest) {
                Ok(pos + encode_utf8(text).len())
            } else {
                let (expected, actual) = variable::divergence(text, rest);
                Err(
                    MatchErrorView {
                        expected: QueryRuleView::Exact(expected),
                        actual,
                        reason: ReasonView::ExactMismatch,
                    },
                )
            },
            QueryRuleView::Variable(name) => match variables::rules_of(variables, name) {
                None => Err(
                    MatchErrorView {
                        expected: rule,
                        actual: rest,
                        reason: ReasonView::UnknownVariable(name),
                    },
                ),
                Some(rules) => match variable::run_rules(rules, query, tokens, pos) {
                    (Ok(()), next) => Ok(next),
                    (Err(error), _) => Err(
                        MatchErrorView {
                            expected: rule,
                            actual: rest,
                            reason: ReasonView::VariableMismatch(error),
                        },
                    ),
                },
            },
        },
    }
}

/// The position behind what `pattern` matches from byte `pos` on; or the first rule's failure.
pub open spec fn run_pattern(
    pattern: Seq<QueryRuleView>,
    variables: VariableViews,
    query: Seq<char>,
    tokens: Seq<ScanToken>,
    pos: int,
) -> Result<int, MatchErrorView>
    decreases pattern.len(),
{
    if pattern.len() == 0 {
        Ok(pos)
    } else {
        match query_step(pattern.first(), variables, query, tokens, pos) {
            Ok(next) => run_pattern(pattern.drop_first(), variables, query, tokens, next),
            Err(error) => Err(error),
        }
    }
}

/// Whether the whole of `query`, which has the given tokens, matches `pattern`; or why it does
/// not.
pub open spec fn match_outcome(
    pattern: Seq<QueryRuleView>,
    variables: VariableViews,
    query: Seq<char>,
    tokens: Seq<ScanToken>,
) -> Result<(), MatchErrorView> {
    match run_pattern(pattern, variables, query, tokens, 0) {
        Err(error) => Err(error),
        Ok(end) => match text::suffix_at(query, end) {
            Some(rest) => if rest.len() > 0 {
                Err(
                    MatchErrorView {
                        expected: QueryRuleView::Exact(seq![]),
                        actual: rest,
                        reason: ReasonView::UnmatchedSuffix,
                    },
                )
            } else {
                Ok(())
            },
            None => Ok(()),
        },
    }
}

/// Why a query template cannot be used.
#[derive(Debug)]
pub enum TemplateError {
    /// A variable has the empty name.
    EmptyVariableName,
    /// The variables are too many or too long to be searched for.
    Searcher(BuildError),
}

/// A query template, its strings taken as sequences of characters.
pub struct QueryTemplateView {
    pub name: Option<Seq<char>>,
    pub pattern: Seq<QueryRuleView>,
    pub variables: VariableViews,
}

/// The characters of an optional string.
pub open spec fn option_view(s: Option<String>) -> Option<Seq<char>> {
    match s {
        Some(s) => Some(s@),
        None => None,
    }
}

/// What the text of a template says, given the variables that may stand in it.
pub open spec fn template_view(template: Seq<char>, variables: VariableViews) -> QueryTemplateView {
    QueryTemplateView {
        name: name_of_query(text::trimmed(template)),
        pattern: pattern::template_pattern(variables::variable_names(variables), text::trimmed(template)),
        variables,
    }
}

/// What comes of matching `query` against a template, given what the scanner says of the query
/// without the white space around it.
pub open spec fn query_outcome(
    template: QueryTemplateView,
    query: Seq<char>,
    scan: Result<ScanResult, ScanError>,
) -> Result<(), MatchQueryErrorView> {
    match scan {
        Err(error) => Err(MatchQueryErrorView::Scan(error.message@)),
        Ok(result) => match match_outcome(
            template.pattern,
            template.variables,
            text::trimmed(query),
            result.tokens@,
        ) {
            Err(error) => Err(MatchQueryErrorView::Match(error)),
            Ok(()) => Ok(()),
        },
    }
}

/// A query template, ready to be matched against queries.
#[derive(Debug)]
pub struct QueryTemplateMatcher {
    name: Option<String>,
    pattern: Vec<QueryPatternRule>,
    variables: Arc<VariableTemplates>,
}

impl View for QueryTemplateMatcher {
    type V = QueryTemplateView;

    closed spec fn view(&self) -> QueryTemplateView {
        QueryTemplateView {
            name: option_view(self.name),
            pattern: pattern::query_rule_views(self.pattern@),
            variables: self.variables@,
        }
    }
}

impl QueryTemplateMatcher {
    /// The matcher for `template`. White space around the template does not count.
    pub fn parse(template: &str, variable_templates: Arc<VariableTemplates>) -> (res: Result<
        Self,
        TemplateError,
    >)
        ensures
            ({
                let names = variables::variable_names(variable_templates@);
                match res {
                    Ok(matcher) => matcher@ == template_view(template@, variable_templates@) && (
                    names.len() == 0 || !names.contains(seq![]) && search::searcher_builds(names)),
                    Err(TemplateError::EmptyVariableName) => names.contains(seq![]),
                    Err(TemplateError::Searcher(_)) => names.len() > 0 && !names.contains(seq![])
                        && !search::searcher_builds(names),
                }
            }),
    {
        let template = text::trim(template);
        let name = match Self::query_name(template) {
            Some(name) => Some(name.to_owned()),
            None => None,
        };
        let ghost names_view = variables::variable_names(variable_templates@);
        if variable_templates.len() == 0 {
            let mut pattern: Vec<QueryPatternRule> = Vec::new();
            pattern.push(QueryPatternRule::Exact(template.to_owned()));
            assert(pattern::query_rule_views(pattern@) =~= seq![QueryRuleView::Exact(template@)]);
            return Ok(QueryTemplateMatcher { name, pattern, variables: variable_templates });
        }
        let names = variable_templates.names();
        for i in 0..names.len()
            invariant
                names_view == variables::variable_names(variable_templates@),
                text::string_views(names@) == names_view,
                forall|j: int| 0 <= j < i ==> (#[trigger] names@[j])@.len() > 0,
        {
            if names[i].as_str().is_empty() {
                assert(names_view[i as int] =~= seq![]);
                return Err(TemplateError::EmptyVariableName);
            }
        }
        assert(!names_view.contains(seq![])) by {
            if names_view.contains(seq![]) {
                let j = choose|j: int| 0 <= j < names_view.len() && names_view[j] == Seq::<char>::empty();
                assert(names@[j]@.len() > 0);
            }
        }
        match search::build_searcher(&names) {
            Ok(searcher) => {
                assert forall|n: int| 0 <= n < names_view.len() implies (
                #[trigger] names_view[n]).len() > 0 by {
                    assert(names@[n]@.len() > 0);
                }
                let found = search::find_all(&searcher, template);
                let pattern = pattern::build_pattern(template, &names, &found);
                Ok(QueryTemplateMatcher { name, pattern, variables: variable_templates })
            },
            Err(error) => Err(TemplateError::Searcher(error)),
        }
    }

    /// The template's name, if it has one.
    pub fn name(&self) -> (res: Option<&str>)
        ensures
            match res {
                Some(name) => self@.name == Some(name@),
                None => self@.name is None,
            },
    {
        match &self.name {
            Some(name) => Some(name.as_str()),
            None => None,
        }
    }

    /// The name that a query gives itself in a comment on its first line.
    pub fn query_name(query: &str) -> (res: Option<&str>)
        ensures
            match res {
                Some(name) => name_of_query(query@) == Some(name@),
                None => name_of_query(query@) is None,
            },
    {
        let line = text::trim(find_first_line(query));
        if text::starts_with(line, "--") {
            proof {
                reveal_strlit("--");
                text::lemma_cut(line@, 0);
                assert(line@.take(0) =~= Seq::<char>::empty());
                assert(line@.skip(0) =~= line@);
                text::lemma_advance(line@, 0, "--"@);
                assert(vstd::utf8::is_ascii_chars("--"@));
                vstd::utf8::is_ascii_chars_encode_utf8("--"@);
            }
            match text::suffix(line, 2) {
                Some(name) => Some(text::trim(name)),
                None => None,
            }
        } else {
            None
        }
    }

    /// Whether the whole of `query` matches the template. White space around the query does not
    /// count; `scan` is what the scanner says of the query without it.
    pub fn match_query(&self, query: &str, scan: &Result<ScanResult, ScanError>) -> (res: Result<
        (),
        MatchQueryError,
    >)
        ensures
            match res {
                Ok(()) => query_outcome(self@, query@, *scan) is Ok,
                Err(error) => query_outcome(self@, query@, *scan) == Err::<(), MatchQueryErrorView>(
                    error@,
                ),
            },
    {
        match scan {
            Err(error) => Err(
                MatchQueryError::Scan(ScanError { message: error.message.clone() }),
            ),
            Ok(result) => match self.match_scanned(text::trim(query), result) {
                Ok(()) => Ok(()),
                Err(error) => Err(MatchQueryError::Match(error)),
            },
        }
    }

    /// Whether the whole of `query`, whose tokens are `scan_result`, matches the template.
    pub fn match_scanned(&self, query: &str, scan_result: &ScanResult) -> (res: Result<
        (),
        MatchError,
    >)
        ensures
            match res {
                Ok(()) => match_outcome(
                    self@.pattern,
                    self@.variables,
                    query@,
                    scan_result.tokens@,
                ) is Ok,
                Err(error) => match_outcome(
                    self@.pattern,
                    self@.variables,
                    query@,
                    scan_result.tokens@,
                ) == Err::<(), MatchErrorView>(error@),
            },
    {
        let ghost pattern = self@.pattern;
        let ghost variables = self@.variables;
        let ghost tokens = scan_result.tokens@;
        let mut pos: usize = 0;
        assert(pattern.skip(0) =~= pattern);
        for i in 0..self.pattern.len()
            invariant
                pattern == pattern::query_rule_views(self.pattern@),
                variables == self.variables@,
                tokens == scan_result.tokens@,
                run_pattern(pattern.skip(i as int), variables, query@, tokens, pos as int)
                    == run_pattern(pattern, variables, query@, tokens, 0),
                pattern == self@.pattern,
                variables == self@.variables,
        {
            let rule = &self.pattern[i];
            proof {
                assert(pattern.skip(i as int).first() == rule@);
                assert(pattern.skip(i as int).drop_first() =~= pattern.skip(i + 1));
            }
            let rest = match text::suffix(query, pos) {
                Some(rest) => rest,
                None => {
                    let error = MatchError {
                        expected: rule.clone(),
                        actual: String::new(),
                        reason: MatchErrorReason::QueryEof,
                    };
                    return Err(error);
                },
            };
            match rule {
                QueryPatternRule::Exact(expected) => {
                    if let Some((expected, actual)) = divergent_suffixes(expected.as_str(), rest) {
                        let error = MatchError {
                            expected: QueryPatternRule::Exact(expected),
                            actual,
                            reason: MatchErrorReason::ExactMismatch,
                        };
                        return Err(error);
                    }
                    pos = text::advance(query, pos, expected.as_str());
                },
                QueryPatternRule::Variable(name) => {
                    let matcher = match self.variables.get(name.as_str()) {
                        Some(matcher) => matcher,
                        None => {
                            let error = MatchError {
                                expected: rule.clone(),
                                actual: rest.to_owned(),
                                reason: MatchErrorReason::UnknownVariable(name.clone()),
                            };
                            return Err(error);
                        },
                    };
                    match matcher.match_query(query, scan_result, &mut pos) {
                        Ok(()) => {},
                        Err(error) => {
                            let error = MatchError {
                                expected: rule.clone(),
                                actual: rest.to_owned(),
                                reason: MatchErrorReason::VariableMismatch(error),
                            };
                            return Err(error);
                        },
                    }
                },
            }
        }
        assert(pattern.skip(pattern.len() as int) =~= seq![]);
        match text::suffix(query, pos) {
            Some(rest) => if rest.is_empty() {
                Ok(())
            } else {
                Err(
                    MatchError {
                        expected: QueryPatternRule::Exact(String::new()),
                        actual: rest.to_owned(),
                        reason: MatchErrorReason::UnmatchedSuffix,
                    },
                )
            },
            None => Ok(()),
        }
    }
}

/// White space around a template or a query does not count.
pub proof fn law_space_around_does_not_count(
    template: Seq<char>,
    variables: VariableViews,
    query: Seq<char>,
    scan: Result<ScanResult, ScanError>,
)
    ensures
        template_view(text::trimmed(template), variables) == template_view(template, variables),
        query_outcome(template_view(template, variables), text::trimmed(query), scan)
            == query_outcome(template_view(template, variables), query, scan),
{
    text::law_trimming_twice_changes_nothing(template);
    text::law_trimming_twice_changes_nothing(query);
}

/// Every variable in a template's rules is one of those that it was made with, so that it is never
/// unknown when a query is matched.
pub proof fn law_variables_in_templates_are_known(
    template: Seq<char>,
    variables: VariableViews,
    i: int,
)
    requires
        0 <= i < template_view(template, variables).pattern.len(),
    ensures
        template_view(template, variables).pattern[i] matches QueryRuleView::Variable(name)
            ==> variables::rules_of(variables, name) is Some,
{
    let names = variables::variable_names(variables);
    pattern::law_leftmost_longest_name_is_taken(names, text::trimmed(template), i);
    if let QueryRuleView::Variable(name) = template_view(template, variables).pattern[i] {
        variables::law_named_variables_have_rules(variables, name);
    }
}

/// Whether `s` holds no line break.
pub open spec fn is_one_line(s: Seq<char>) -> bool {
    forall|i: int| 0 <= i < s.len() ==> #[trigger] s[i] != '\n'
}

/// Whether `s` is nothing, or begins with a line break.
pub open spec fn is_past_line(s: Seq<char>) -> bool {
    s.len() > 0 ==> s[0] == '\n'
}

/// Whether `s` is white space without a line break.
pub open spec fn is_gap(s: Seq<char>) -> bool {
    text::is_blank(s) && is_one_line(s)
}

proof fn lemma_line_in_front(line: Seq<char>, rest: Seq<char>)
    requires
        is_one_line(line),
        is_past_line(rest),
    ensures
        first_line(line + rest) == line,
{
    let s = line + rest;
    let n = line.len() as int;
    assert forall|i: int| 0 <= i < n implies #[trigger] s[i] != '\n' by {
        assert(s[i] == line[i]);
    }
    if n < s.len() {
        assert(s[n] == rest[0]);
    }
    lemma_first_line(s, n);
    assert(s.take(n) =~= line);
}

/// A query is named by a comment on its first line: whatever name is written there, with any white
/// space around it and around the comment, and whatever follows, that is the query's name.
pub proof fn law_comment_on_the_first_line_names_the_query(
    margin: Seq<char>,
    gap: Seq<char>,
    name: Seq<char>,
    end: Seq<char>,
    rest: Seq<char>,
)
    requires
        is_gap(margin),
        is_gap(gap),
        is_one_line(name),
        text::has_bare_ends(name),
        is_gap(end),
        is_past_line(rest),
    ensures
        name_of_query(margin + "--"@ + gap + name + end + rest) == Some(name),
{
    reveal_strlit("--");
    let line = margin + "--"@ + gap + name + end;
    assert(is_one_line(line)) by {
        assert forall|i: int| 0 <= i < line.len() implies #[trigger] line[i] != '\n' by {
            let a = margin.len() as int;
            let b = a + 2;
            let c = b + gap.len();
            let d = c + name.len();
            if i < a {
                assert(line[i] == margin[i]);
            } else if i < b {
                assert(line[i] == "--"@[i - a]);
            } else if i < c {
                assert(line[i] == gap[i - b]);
            } else if i < d {
                assert(line[i] == name[i - c]);
            } else {
                assert(line[i] == end[i - d]);
            }
        }
    }
    lemma_line_in_front(line, rest);
    let none = Seq::<char>::empty();
    if name.len() > 0 {
        let core = "--"@ + gap + name;
        assert(core.first() == '-' && core.last() == name.last());
        assert(line =~= margin + core + end);
        text::law_trimming_takes_the_space_around(margin, core, end);
        assert("--"@ =~= core.subrange(0, 2));
        assert(core.skip(2) =~= gap + name + none);
        text::law_trimming_takes_the_space_around(gap, name, none);
    } else {
        let core = "--"@;
        assert(core.first() == '-' && core.last() == '-');
        let after = gap + end;
        assert(text::is_blank(after)) by {
            assert forall|i: int| 0 <= i < after.len() implies text::is_space(
                #[trigger] after[i],
            ) by {
                if i < gap.len() {
                    assert(after[i] == gap[i]);
                } else {
                    assert(after[i] == end[i - gap.len()]);
                }
            }
        }
        assert(line =~= margin + core + after);
        text::law_trimming_takes_the_space_around(margin, core, after);
        assert("--"@ =~= core.subrange(0, 2));
        assert(core.skip(2) =~= none + name + none);
        text::law_trimming_takes_the_space_around(none, name, none);
    }
}

/// A query whose first line is no comment has no name.
pub proof fn law_other_queries_have_no_name(margin: Seq<char>, line: Seq<char>, rest: Seq<char>)
    requires
        is_gap(margin),
        is_one_line(line),
        line.len() > 0 ==> !text::is_space(line[0]),
        !"--"@.is_prefix_of(line),
        is_past_line(rest),
    ensures
        name_of_query(margin + line + rest) is None,
{
    reveal_strlit("--");
    let whole = margin + line;
    assert(is_one_line(whole)) by {
        assert forall|i: int| 0 <= i < whole.len() implies #[trigger] whole[i] != '\n' by {
            if i < margin.len() {
                assert(whole[i] == margin[i]);
            } else {
                assert(whole[i] == line[i - margin.len()]);
            }
        }
    }
    lemma_line_in_front(whole, rest);
    let (before, after) = text::law_trimmed_text_is_the_core(line);
    let core = text::trimmed(line);
    if before.len() > 0 {
        assert(line[0] == before[0]);
    }
    assert(line =~= core + after);
    assert(whole =~= margin + core + after);
    text::law_trimming_takes_the_space_around(margin, core, after);
    if "--"@.is_prefix_of(core) {
        assert("--"@ =~= core.subrange(0, 2));
        assert("--"@ =~= line.subrange(0, 2));
    }
}

/// Two queries whose first lines are comments have one name just if the comments say the same.
pub proof fn law_different_comments_are_different_names(
    one: Seq<char>,
    other: Seq<char>,
    rest: Seq<char>,
    other_rest: Seq<char>,
)
    requires
        is_one_line(one),
        text::has_bare_ends(one),
        is_one_line(other),
        text::has_bare_ends(other),
        is_past_line(rest),
        is_past_line(other_rest),
    ensures
        name_of_query("-- "@ + one + rest) == name_of_query("-- "@ + other + other_rest) <==> one
            == other,
{
    reveal_strlit("--");
    reveal_strlit("-- ");
    let none = Seq::<char>::empty();
    let gap = seq![' '];
    law_comment_on_the_first_line_names_the_query(none, gap, one, none, rest);
    law_comment_on_the_first_line_names_the_query(none, gap, other, none, other_rest);
    assert(none + "--"@ + gap + one + none + rest =~= "-- "@ + one + rest);
    assert(none + "--"@ + gap + other + none + other_rest =~= "-- "@ + other + other_rest);
}

/// A query that the scanner could not split fails with the scanner's message.
pub proof fn law_scan_errors_are_passed_on(
    template: QueryTemplateView,
    query: Seq<char>,
    error: ScanError,
)
    ensures
        query_outcome(template, query, Err(error)) == Err::<(), MatchQueryErrorView>(
            MatchQueryErrorView::Scan(error.message@),
        ),
{
}

/// A template has the name that its text, the white space around it aside, would have as a query,
/// keeps the variables that it was made with, and has rules that spell just that text.
pub proof fn law_templates_say_what_their_text_says(
    template: Seq<char>,
    variables: VariableViews,
    i: int,
)
    ensures
        ({
            let view = template_view(template, variables);
            let text = text::trimmed(template);
            let names = variables::variable_names(variables);
            &&& view.name == name_of_query(text)
            &&& view.variables == variables
            &&& pattern::pattern_text(view.pattern) == text
            &&& 0 <= i < view.pattern.len() ==> pattern::is_rule_at(
                view.pattern[i],
                names,
                text,
                pattern::rule_start(view.pattern, i),
            )
            &&& 0 <= i < view.pattern.len() - 1 ==> !(view.pattern[i] is Exact
                && view.pattern[i + 1] is Exact)
            &&& 0 <= i < view.pattern.len() && names.len() > 0 ==> pattern::rule_text(
                view.pattern[i],
            ).len() > 0
            &&& names.len() == 0 ==> view.pattern == seq![QueryRuleView::Exact(text)]
        }),
{
    let text = text::trimmed(template);
    let names = variables::variable_names(variables);
    let rules = pattern::template_pattern(names, text);
    pattern::law_pattern_spells_the_template(names, text);
    if 0 <= i < rules.len() {
        pattern::law_leftmost_longest_name_is_taken(names, text, i);
    }
    pattern::law_rules_are_not_split(names, text, i);
}

} // verus!
