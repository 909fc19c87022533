//! What it means that a query matches: the query falls into segments, one for each rule.
use vstd::prelude::*;
use vstd::utf8::*;

use crate::scan::{ScanResult, ScanToken, Token};
use crate::template::matcher::query::{self, QueryTemplateView};
use crate::template::matcher::variable::{self, ArrayTokens, RuleView};
use crate::template::pattern::QueryRuleView;
use crate::template::variables::{self, VariableViews};
use crate::text;

verus! {

/// Whether characters begin at byte `pos` of a text, or the text ends there.
pub open spec fn is_cut(s: Seq<char>, pos: int) -> bool {
    text::suffix_at(s, pos) is Some
}

/// Whether `part` stands in `s` between the bytes `from` and `to`.
pub open spec fn stands_between(s: Seq<char>, part: Seq<char>, from: int, to: int) -> bool {
    &&& 0 <= from <= to <= encode_utf8(s).len()
    &&& encode_utf8(s).subrange(from, to) == encode_utf8(part)
}

/// Whether tokens can be those of a text: they lie in it one after the other, and their ends are
/// places where the text can be cut.
pub open spec fn tokens_fit(s: Seq<char>, tokens: Seq<ScanToken>) -> bool {
    &&& forall|i: int|
        0 <= i < tokens.len() ==> {
            &&& (#[trigger] tokens[i]).start <= tokens[i].end
            &&& is_cut(s, tokens[i].start as int)
            &&& is_cut(s, tokens[i].end as int)
        }
    &&& forall|i: int, j: int|
        0 <= i < j < tokens.len() ==> (#[trigger] tokens[i]).end <= (#[trigger] tokens[j]).start
}

/// Whether token number `k` is the first that begins at byte `pos` or later; where no token does,
/// `k` is the number of tokens.
pub open spec fn is_first_from(tokens: Seq<ScanToken>, k: int, pos: int) -> bool {
    &&& 0 <= k <= tokens.len()
    &&& forall|i: int| 0 <= i < k ==> (#[trigger] tokens[i]).start < pos
    &&& k < tokens.len() ==> tokens[k].start >= pos
}

/// Whether `n` elements of one type stand from token number `k` on, a separator between each two,
/// and the first closing token behind the last.
pub open spec fn elements_at(
    tokens: Seq<ScanToken>,
    k: int,
    n: int,
    element: Token,
    marks: ArrayTokens,
) -> bool {
    &&& 0 <= k && 1 <= n && k + 2 * n - 1 < tokens.len()
    &&& forall|j: int|
        k <= j < k + 2 * n - 1 ==> (#[trigger] tokens[j]).token == if (j - k) % 2 == 0 {
            element
        } else {
            marks.separator
        }
    &&& forall|j: int| k <= j < k + 2 * n - 1 ==> (#[trigger] tokens[j]).token != marks.close
    &&& tokens[k + 2 * n - 1].token == marks.close
}

/// The number of the token that closes an array constructor of `n` elements that begins with token
/// number `k`.
pub open spec fn array_close(k: int, n: int) -> int {
    if n == 0 {
        k + 2
    } else {
        k + 2 * n + 1
    }
}

/// Whether an array constructor of `n` elements of one type begins with token number `k`.
pub open spec fn array_at(
    tokens: Seq<ScanToken>,
    k: int,
    n: int,
    element: Token,
    marks: ArrayTokens,
) -> bool {
    &&& 0 <= k && 0 <= n && array_close(k, n) < tokens.len()
    &&& tokens[k].token == marks.keyword
    &&& tokens[k + 1].token == marks.open
    &&& if n == 0 {
        tokens[k + 2].token == marks.close
    } else {
        elements_at(tokens, k + 2, n, element, marks)
    }
}

/// Whether the tokens from number `k` up to number `m` are of the types `allowed`, and the one
/// behind them, if there is one, is not.
pub open spec fn run_of(tokens: Seq<ScanToken>, k: int, m: int, allowed: Seq<Token>) -> bool {
    &&& 0 <= k <= m <= tokens.len()
    &&& forall|i: int| k <= i < m ==> allowed.contains((#[trigger] tokens[i]).token)
    &&& m < tokens.len() ==> !allowed.contains(tokens[m].token)
}

/// Whether what lies between the bytes `from` and `to` is what `rule` asks for: its text; one token
/// of its type, the next one; the next array constructor of its type; or the tokens of its types
/// up to the next token of another.
pub open spec fn rule_spans(
    rule: RuleView,
    s: Seq<char>,
    tokens: Seq<ScanToken>,
    from: int,
    to: int,
) -> bool {
    match rule {
        RuleView::Exact(text) => stands_between(s, text, from, to),
        RuleView::Token(token) => exists|k: int| #[trigger]
            is_first_from(tokens, k, from) && k < tokens.len() && tokens[k].token == token && to
                == tokens[k].end,
        RuleView::TokenAny(allowed) => exists|k: int, m: int| #[trigger]
            is_first_from(tokens, k, from) && #[trigger] run_of(tokens, k, m, allowed) && to == if m
                < tokens.len() {
                tokens[m].start as int
            } else {
                from
            },
        RuleView::Array(element, marks) => exists|k: int, n: int| #[trigger]
            is_first_from(tokens, k, from) && #[trigger] array_at(tokens, k, n, element, marks)
                && to == tokens[array_close(k, n)].end,
    }
}

/// Whether `cuts` cuts a text into one segment for each of `rules`.
pub open spec fn rule_segments(
    rules: Seq<RuleView>,
    s: Seq<char>,
    tokens: Seq<ScanToken>,
    cuts: Seq<int>,
) -> bool {
    &&& cuts.len() == rules.len() + 1
    &&& forall|i: int| 0 <= i < cuts.len() ==> is_cut(s, #[trigger] cuts[i])
    &&& forall|i: int, j: int| 0 <= i <= j < cuts.len() ==> #[trigger] cuts[i] <= #[trigger] cuts[j]
    &&& forall|i: int|
        0 <= i < rules.len() ==> rule_spans(#[trigger] rules[i], s, tokens, cuts[i], cuts[i + 1])
}

/// Whether what lies between the bytes `from` and `to` falls into one segment for each of `rules`.
pub open spec fn rules_span(
    rules: Seq<RuleView>,
    s: Seq<char>,
    tokens: Seq<ScanToken>,
    from: int,
    to: int,
) -> bool {
    exists|cuts: Seq<int>| #[trigger]
        rule_segments(rules, s, tokens, cuts) && cuts.first() == from && cuts.last() == to
}

/// Whether what lies between the bytes `from` and `to` is what a rule of a query template asks
/// for: its text, or segments for the rules of its variable's template.
pub open spec fn query_rule_spans(
    rule: QueryRuleView,
    variables: VariableViews,
    s: Seq<char>,
    tokens: Seq<ScanToken>,
    from: int,
    to: int,
) -> bool {
    match rule {
        QueryRuleView::Exact(text) => stands_between(s, text, from, to),
        QueryRuleView::Variable(name) => variables::rules_of(variables, name) matches Some(rules)
            && rules_span(rules, s, tokens, from, to),
    }
}

/// Whether `cuts` cuts a text into one segment for each rule of a query template.
pub open spec fn query_segments(
    pattern: Seq<QueryRuleView>,
    variables: VariableViews,
    s: Seq<char>,
    tokens: Seq<ScanToken>,
    cuts: Seq<int>,
) -> bool {
    &&& cuts.len() == pattern.len() + 1
    &&& forall|i: int| 0 <= i < cuts.len() ==> is_cut(s, #[trigger] cuts[i])
    &&& forall|i: int, j: int| 0 <= i <= j < cuts.len() ==> #[trigger] cuts[i] <= #[trigger] cuts[j]
    &&& forall|i: int|
        0 <= i < pattern.len() ==> query_rule_spans(
            #[trigger] pattern[i],
            variables,
            s,
            tokens,
            cuts[i],
            cuts[i + 1],
        )
}

proof fn lemma_skip_before(tokens: Seq<ScanToken>, i: int, pos: int)
    requires
        0 <= i <= tokens.len(),
        forall|j: int| 0 <= j < i ==> (#[trigger] tokens[j]).start < pos,
    ensures
        is_first_from(tokens, variable::skip_before(tokens, i, pos), pos),
    decreases tokens.len() - i,
{
    if i < tokens.len() && tokens[i].start < pos {
        lemma_skip_before(tokens, i + 1, pos);
    }
}

proof fn lemma_first_other(tokens: Seq<ScanToken>, k: int, allowed: Seq<Token>) -> (m: int)
    requires
        0 <= k <= tokens.len(),
    ensures
        run_of(tokens, k, m, allowed),
        variable::first_other(tokens, k, allowed) == if m < tokens.len() {
            Some(tokens[m])
        } else {
            None
        },
    decreases tokens.len() - k,
{
    if k < tokens.len() && allowed.contains(tokens[k].token) {
        lemma_first_other(tokens, k + 1, allowed)
    } else {
        k
    }
}

proof fn lemma_elements_end(
    tokens: Seq<ScanToken>,
    k: int,
    element: Token,
    marks: ArrayTokens,
) -> (n: int)
    requires
        element != marks.close,
        variable::elements_end(tokens, k, element, marks) is Ok,
    ensures
        elements_at(tokens, k, n, element, marks),
        variable::elements_end(tokens, k, element, marks)->Ok_0 == tokens[k + 2 * n - 1],
    decreases tokens.len() - k,
{
    if tokens[k + 1].token == marks.close {
        1
    } else {
        let n = lemma_elements_end(tokens, k + 2, element, marks);
        assert forall|j: int| k <= j < k + 2 * n + 1 implies (#[trigger] tokens[j]).token == if (j
            - k) % 2 == 0 {
            element
        } else {
            marks.separator
        } by {
            assert((j - k) % 2 == (j - (k + 2)) % 2);
        }
        n + 1
    }
}

proof fn lemma_array_end(tokens: Seq<ScanToken>, k: int, element: Token, marks: ArrayTokens) -> (n:
    int)
    requires
        0 <= k <= tokens.len(),
        variable::array_end(tokens, k, element, marks) is Ok,
    ensures
        array_at(tokens, k, n, element, marks),
        variable::array_end(tokens, k, element, marks)->Ok_0 == tokens[array_close(k, n)],
{
    let opening = seq![marks.keyword, marks.open];
    reveal_with_fuel(variable::consumed, 2);
    assert(opening.drop_first() =~= seq![marks.open]);
    if tokens[k + 2].token == marks.close {
        0
    } else {
        lemma_elements_end(tokens, k + 2, element, marks)
    }
}

proof fn lemma_stands_between(s: Seq<char>, pos: int, part: Seq<char>)
    requires
        is_cut(s, pos),
    ensures
        part.is_prefix_of(text::suffix_at(s, pos)->0) <==> stands_between(
            s,
            part,
            pos,
            pos + encode_utf8(part).len(),
        ),
        part.is_prefix_of(text::suffix_at(s, pos)->0) ==> is_cut(s, pos + encode_utf8(part).len()),
{
    let k = text::lemma_boundary_is_cut(s, pos);
    text::lemma_cut(s, k);
    let rest = s.skip(k);
    let (bytes, wanted) = (encode_utf8(s), encode_utf8(part));
    text::lemma_prefix(rest, part);
    assert(encode_utf8(rest) == bytes.skip(pos));
    if part.is_prefix_of(rest) {
        text::lemma_advance(s, pos, part);
        assert(bytes.subrange(pos, pos + wanted.len()) =~= encode_utf8(rest).subrange(
            0,
            wanted.len() as int,
        ));
    }
    if stands_between(s, part, pos, pos + wanted.len()) {
        assert(encode_utf8(rest).subrange(0, wanted.len() as int) =~= bytes.subrange(
            pos,
            pos + wanted.len(),
        ));
        assert(wanted.is_prefix_of(encode_utf8(rest)));
    }
}

/// A rule that matches at a cut spans what lies between that and the next cut.
pub proof fn lemma_rule_spans(
    rule: RuleView,
    s: Seq<char>,
    tokens: Seq<ScanToken>,
    pos: int,
)
    requires
        tokens_fit(s, tokens),
        variable::rule_step(rule, s, tokens, pos) is Ok,
    ensures
        ({
            let to = variable::rule_step(rule, s, tokens, pos)->Ok_0;
            &&& is_cut(s, pos)
            &&& is_cut(s, to)
            &&& pos <= to
            &&& rule_spans(rule, s, tokens, pos, to)
        }),
{
    let k = variable::first_token(tokens, pos);
    lemma_skip_before(tokens, 0, pos);
    match rule {
        RuleView::Exact(text) => {
            lemma_stands_between(s, pos, text);
        },
        RuleView::Token(token) => {
            assert(seq![token][0] == token);
        },
        RuleView::TokenAny(allowed) => {
            let m = lemma_first_other(tokens, k, allowed);
            assert(is_first_from(tokens, k, pos) && run_of(tokens, k, m, allowed));
            if k < m < tokens.len() {
                assert(tokens[k].end <= tokens[m].start);
            }
        },
        RuleView::Array(element, marks) => {
            let n = lemma_array_end(tokens, k, element, marks);
            assert(is_first_from(tokens, k, pos) && array_at(tokens, k, n, element, marks));
            assert(tokens[k].end <= tokens[array_close(k, n)].start);
        },
    }
}

/// Where a variable's template matches, the text falls into segments from where it was tried to
/// where it ends, one for each rule of the template: fixed text stands there as it is, and a
/// placeholder takes the tokens that it asks for and no others.
pub proof fn law_variable_match_has_segments(
    rules: Seq<RuleView>,
    s: Seq<char>,
    tokens: Seq<ScanToken>,
    pos: int,
) -> (cuts: Seq<int>)
    requires
        tokens_fit(s, tokens),
        is_cut(s, pos),
        variable::run_rules(rules, s, tokens, pos).0 is Ok,
    ensures
        rule_segments(rules, s, tokens, cuts),
        cuts.first() == pos,
        cuts.last() == variable::run_rules(rules, s, tokens, pos).1,
    decreases rules.len(),
{
    if rules.len() == 0 {
        seq![pos]
    } else {
        let next = variable::rule_step(rules.first(), s, tokens, pos)->Ok_0;
        lemma_rule_spans(rules.first(), s, tokens, pos);
        let rest = law_variable_match_has_segments(rules.drop_first(), s, tokens, next);
        let cuts = seq![pos] + rest;
        assert forall|i: int| 0 <= i < cuts.len() implies is_cut(s, #[trigger] cuts[i]) by {
            if i > 0 {
                assert(cuts[i] == rest[i - 1]);
            }
        }
        assert forall|i: int, j: int| 0 <= i <= j < cuts.len() implies #[trigger] cuts[i]
            <= #[trigger] cuts[j] by {
            if i > 0 {
                assert(cuts[i] == rest[i - 1]);
            }
            if j > 0 {
                assert(cuts[j] == rest[j - 1]);
                assert(rest[0] <= rest[j - 1]);
            }
        }
        assert forall|i: int| 0 <= i < rules.len() implies rule_spans(
            #[trigger] rules[i],
            s,
            tokens,
            cuts[i],
            cuts[i + 1],
        ) by {
            if i > 0 {
                assert(rules[i] == rules.drop_first()[i - 1]);
                assert(cuts[i] == rest[i - 1] && cuts[i + 1] == rest[i]);
            }
        }
        cuts
    }
}

proof fn lemma_first_is(tokens: Seq<ScanToken>, k: int, pos: int)
    requires
        is_first_from(tokens, k, pos),
    ensures
        variable::first_token(tokens, pos) == k,
{
    lemma_skip_before(tokens, 0, pos);
    let first = variable::first_token(tokens, pos);
    if first < k {
        assert(tokens[first].start < pos);
    }
    if k < first {
        assert(tokens[k].start < pos);
    }
}

proof fn lemma_other_is(tokens: Seq<ScanToken>, k: int, m: int, allowed: Seq<Token>)
    requires
        run_of(tokens, k, m, allowed),
    ensures
        variable::first_other(tokens, k, allowed) == if m < tokens.len() {
            Some(tokens[m])
        } else {
            None
        },
    decreases m - k,
{
    if k < m {
        assert(allowed.contains(tokens[k].token));
        lemma_other_is(tokens, k + 1, m, allowed);
    }
}

proof fn lemma_elements_are(
    tokens: Seq<ScanToken>,
    k: int,
    n: int,
    element: Token,
    marks: ArrayTokens,
)
    requires
        elements_at(tokens, k, n, element, marks),
    ensures
        variable::elements_end(tokens, k, element, marks) == Ok::<
            ScanToken,
            variable::MatchErrorReason,
        >(tokens[k + 2 * n - 1]),
    decreases n,
{
    assert(tokens[k].token == element);
    if n > 1 {
        assert(tokens[k + 1].token == marks.separator);
        assert forall|j: int| k + 2 <= j < k + 2 * n - 1 implies (#[trigger] tokens[j]).token == if (
        j - (k + 2)) % 2 == 0 {
            element
        } else {
            marks.separator
        } by {
            assert((j - k) % 2 == (j - (k + 2)) % 2);
        }
        lemma_elements_are(tokens, k + 2, n - 1, element, marks);
    }
}

proof fn lemma_array_is(
    tokens: Seq<ScanToken>,
    k: int,
    n: int,
    element: Token,
    marks: ArrayTokens,
)
    requires
        array_at(tokens, k, n, element, marks),
    ensures
        variable::array_end(tokens, k, element, marks) == Ok::<
            ScanToken,
            variable::MatchErrorReason,
        >(tokens[array_close(k, n)]),
{
    let opening = seq![marks.keyword, marks.open];
    reveal_with_fuel(variable::consumed, 2);
    assert(opening.drop_first() =~= seq![marks.open]);
    if n > 0 {
        assert(tokens[k + 2].token != marks.close);
        lemma_elements_are(tokens, k + 2, n, element, marks);
    }
}

/// A rule matches at a cut just as far as it spans: where what it asks for lies between the cut
/// and another place, it matches and the query goes on there.
pub proof fn law_spanned_rules_match(
    rule: RuleView,
    s: Seq<char>,
    tokens: Seq<ScanToken>,
    from: int,
    to: int,
)
    requires
        is_cut(s, from),
        rule_spans(rule, s, tokens, from, to),
    ensures
        variable::rule_step(rule, s, tokens, from) == Ok::<int, variable::MatchErrorView>(to),
{
    match rule {
        RuleView::Exact(text) => {
            assert(encode_utf8(s).subrange(from, to).len() == to - from);
            lemma_stands_between(s, from, text);
        },
        RuleView::Token(token) => {
            let k = choose|k: int| #[trigger]
                is_first_from(tokens, k, from) && k < tokens.len() && tokens[k].token == token && to
                    == tokens[k].end;
            lemma_first_is(tokens, k, from);
            assert(seq![token][0] == token);
        },
        RuleView::TokenAny(allowed) => {
            let (k, m) = choose|k: int, m: int| #[trigger]
                is_first_from(tokens, k, from) && #[trigger] run_of(tokens, k, m, allowed) && to
                    == if m < tokens.len() {
                    tokens[m].start as int
                } else {
                    from
                };
            lemma_first_is(tokens, k, from);
            lemma_other_is(tokens, k, m, allowed);
        },
        RuleView::Array(element, marks) => {
            let (k, n) = choose|k: int, n: int| #[trigger]
                is_first_from(tokens, k, from) && #[trigger] array_at(tokens, k, n, element, marks)
                    && to == tokens[array_close(k, n)].end;
            lemma_first_is(tokens, k, from);
            lemma_array_is(tokens, k, n, element, marks);
        },
    }
}

proof fn lemma_run_of_segments(
    rules: Seq<RuleView>,
    s: Seq<char>,
    tokens: Seq<ScanToken>,
    cuts: Seq<int>,
)
    requires
        rule_segments(rules, s, tokens, cuts),
    ensures
        variable::run_rules(rules, s, tokens, cuts.first()).0 is Ok,
        variable::run_rules(rules, s, tokens, cuts.first()).1 == cuts.last(),
    decreases rules.len(),
{
    if rules.len() > 0 {
        let rest = cuts.drop_first();
        let tail = rules.drop_first();
        assert(is_cut(s, cuts[0]));
        assert(rule_spans(rules[0], s, tokens, cuts[0], cuts[1]));
        law_spanned_rules_match(rules.first(), s, tokens, cuts[0], cuts[1]);
        lemma_tail_of_segments(rules, s, tokens, cuts);
        lemma_run_of_segments(tail, s, tokens, rest);
    }
}

proof fn lemma_tail_of_segments(
    rules: Seq<RuleView>,
    s: Seq<char>,
    tokens: Seq<ScanToken>,
    cuts: Seq<int>,
)
    requires
        rules.len() > 0,
        rule_segments(rules, s, tokens, cuts),
    ensures
        rule_segments(rules.drop_first(), s, tokens, cuts.drop_first()),
{
    let rest = cuts.drop_first();
    let tail = rules.drop_first();
    assert forall|i: int| 0 <= i < rest.len() implies is_cut(s, #[trigger] rest[i]) by {
        assert(rest[i] == cuts[i + 1]);
    }
    assert forall|i: int, j: int| 0 <= i <= j < rest.len() implies #[trigger] rest[i]
        <= #[trigger] rest[j] by {
        assert(rest[i] == cuts[i + 1] && rest[j] == cuts[j + 1]);
    }
    assert forall|i: int| 0 <= i < tail.len() implies rule_spans(
        #[trigger] tail[i],
        s,
        tokens,
        rest[i],
        rest[i + 1],
    ) by {
        assert(tail[i] == rules[i + 1]);
        assert(rest[i] == cuts[i + 1] && rest[i + 1] == cuts[i + 1 + 1]);
    }
}

/// A variable's template matches from one place up to another just where what lies between falls
/// into segments, one for each rule of the template.
pub proof fn law_variable_match_is_a_segmentation(
    rules: Seq<RuleView>,
    s: Seq<char>,
    tokens: Seq<ScanToken>,
    from: int,
    to: int,
)
    requires
        tokens_fit(s, tokens),
        is_cut(s, from),
    ensures
        ({
            let (outcome, reached) = variable::run_rules(rules, s, tokens, from);
            outcome is Ok && reached == to <==> rules_span(rules, s, tokens, from, to)
        }),
{
    let (outcome, reached) = variable::run_rules(rules, s, tokens, from);
    if outcome is Ok {
        let cuts = law_variable_match_has_segments(rules, s, tokens, from);
        assert(rule_segments(rules, s, tokens, cuts));
    }
    if rules_span(rules, s, tokens, from, to) {
        let cuts = choose|cuts: Seq<int>| #[trigger]
            rule_segments(rules, s, tokens, cuts) && cuts.first() == from && cuts.last() == to;
        lemma_run_of_segments(rules, s, tokens, cuts);
    }
}

proof fn lemma_step_spans(
    rule: QueryRuleView,
    variables: VariableViews,
    s: Seq<char>,
    tokens: Seq<ScanToken>,
    pos: int,
)
    requires
        tokens_fit(s, tokens),
        query::query_step(rule, variables, s, tokens, pos) is Ok,
    ensures
        ({
            let to = query::query_step(rule, variables, s, tokens, pos)->Ok_0;
            &&& query_rule_spans(rule, variables, s, tokens, pos, to)
            &&& is_cut(s, to)
            &&& pos <= to
        }),
{
    match rule {
        QueryRuleView::Exact(text) => {
            lemma_stands_between(s, pos, text);
        },
        QueryRuleView::Variable(name) => {
            let rules = variables::rules_of(variables, name)->0;
            let cuts = law_variable_match_has_segments(rules, s, tokens, pos);
            assert(rule_segments(rules, s, tokens, cuts));
            assert(cuts[0] <= cuts[cuts.len() - 1]);
            assert(is_cut(s, cuts[cuts.len() - 1]));
        },
    }
}

proof fn lemma_spanned_step(
    rule: QueryRuleView,
    variables: VariableViews,
    s: Seq<char>,
    tokens: Seq<ScanToken>,
    from: int,
    to: int,
)
    requires
        is_cut(s, from),
        query_rule_spans(rule, variables, s, tokens, from, to),
    ensures
        query::query_step(rule, variables, s, tokens, from) == Ok::<int, query::MatchErrorView>(to),
{
    match rule {
        QueryRuleView::Exact(text) => {
            assert(encode_utf8(s).subrange(from, to).len() == to - from);
            lemma_stands_between(s, from, text);
        },
        QueryRuleView::Variable(name) => {
            let rules = variables::rules_of(variables, name)->0;
            let cuts = choose|cuts: Seq<int>| #[trigger]
                rule_segments(rules, s, tokens, cuts) && cuts.first() == from && cuts.last() == to;
            lemma_run_of_segments(rules, s, tokens, cuts);
        },
    }
}

proof fn lemma_cuts_of_run(
    pattern: Seq<QueryRuleView>,
    variables: VariableViews,
    s: Seq<char>,
    tokens: Seq<ScanToken>,
    pos: int,
) -> (cuts: Seq<int>)
    requires
        tokens_fit(s, tokens),
        is_cut(s, pos),
        query::run_pattern(pattern, variables, s, tokens, pos) is Ok,
    ensures
        query_segments(pattern, variables, s, tokens, cuts),
        cuts.first() == pos,
        cuts.last() == query::run_pattern(pattern, variables, s, tokens, pos)->Ok_0,
    decreases pattern.len(),
{
    if pattern.len() == 0 {
        seq![pos]
    } else {
        let next = query::query_step(pattern.first(), variables, s, tokens, pos)->Ok_0;
        lemma_step_spans(pattern.first(), variables, s, tokens, pos);
        let rest = lemma_cuts_of_run(pattern.drop_first(), variables, s, tokens, next);
        let cuts = seq![pos] + rest;
        assert forall|i: int| 0 <= i < cuts.len() implies is_cut(s, #[trigger] cuts[i]) by {
            if i > 0 {
                assert(cuts[i] == rest[i - 1]);
            }
        }
        assert forall|i: int, j: int| 0 <= i <= j < cuts.len() implies #[trigger] cuts[i]
            <= #[trigger] cuts[j] by {
            if i > 0 {
                assert(cuts[i] == rest[i - 1]);
            }
            if j > 0 {
                assert(cuts[j] == rest[j - 1]);
                assert(rest[0] <= rest[j - 1]);
            }
        }
        assert forall|i: int| 0 <= i < pattern.len() implies query_rule_spans(
            #[trigger] pattern[i],
            variables,
            s,
            tokens,
            cuts[i],
            cuts[i + 1],
        ) by {
            if i > 0 {
                assert(pattern[i] == pattern.drop_first()[i - 1]);
                assert(cuts[i] == rest[i - 1] && cuts[i + 1] == rest[i]);
            }
        }
        cuts
    }
}

proof fn lemma_tail_of_query_segments(
    pattern: Seq<QueryRuleView>,
    variables: VariableViews,
    s: Seq<char>,
    tokens: Seq<ScanToken>,
    cuts: Seq<int>,
)
    requires
        pattern.len() > 0,
        query_segments(pattern, variables, s, tokens, cuts),
    ensures
        query_segments(pattern.drop_first(), variables, s, tokens, cuts.drop_first()),
{
    let rest = cuts.drop_first();
    let tail = pattern.drop_first();
    assert forall|i: int| 0 <= i < rest.len() implies is_cut(s, #[trigger] rest[i]) by {
        assert(rest[i] == cuts[i + 1]);
    }
    assert forall|i: int, j: int| 0 <= i <= j < rest.len() implies #[trigger] rest[i]
        <= #[trigger] rest[j] by {
        assert(rest[i] == cuts[i + 1] && rest[j] == cuts[j + 1]);
    }
    assert forall|i: int| 0 <= i < tail.len() implies query_rule_spans(
        #[trigger] tail[i],
        variables,
        s,
        tokens,
        rest[i],
        rest[i + 1],
    ) by {
        assert(tail[i] == pattern[i + 1]);
        assert(rest[i] == cuts[i + 1] && rest[i + 1] == cuts[i + 1 + 1]);
    }
}

proof fn lemma_run_of_cuts(
    pattern: Seq<QueryRuleView>,
    variables: VariableViews,
    s: Seq<char>,
    tokens: Seq<ScanToken>,
    cuts: Seq<int>,
)
    requires
        tokens_fit(s, tokens),
        query_segments(pattern, variables, s, tokens, cuts),
    ensures
        query::run_pattern(pattern, variables, s, tokens, cuts.first()) == Ok::<
            int,
            query::MatchErrorView,
        >(cuts.last()),
    decreases pattern.len(),
{
    if pattern.len() > 0 {
        let rest = cuts.drop_first();
        let tail = pattern.drop_first();
        assert(is_cut(s, cuts[0]));
        assert(query_rule_spans(pattern[0], variables, s, tokens, cuts[0], cuts[1]));
        lemma_spanned_step(pattern.first(), variables, s, tokens, cuts[0], cuts[1]);
        lemma_tail_of_query_segments(pattern, variables, s, tokens, cuts);
        lemma_run_of_cuts(tail, variables, s, tokens, rest);
    }
}

/// A query matches a template just where the whole of it falls into segments, one for each rule of
/// the template: fixed text stands there as it is, and for a variable stands what its template
/// matches. Nothing of the query is left over.
pub proof fn law_query_match_is_a_segmentation(
    pattern: Seq<QueryRuleView>,
    variables: VariableViews,
    s: Seq<char>,
    tokens: Seq<ScanToken>,
)
    requires
        tokens_fit(s, tokens),
    ensures
        query::match_outcome(pattern, variables, s, tokens) is Ok <==> exists|cuts: Seq<int>|
            {
                &&& #[trigger] query_segments(pattern, variables, s, tokens, cuts)
                &&& cuts.first() == 0
                &&& cuts.last() == encode_utf8(s).len()
            },
{
    text::lemma_cut(s, 0);
    assert(s.take(0) =~= Seq::<char>::empty());
    assert(text::offset(s, 0) == 0);
    text::lemma_cut(s, s.len() as int);
    assert(s.take(s.len() as int) =~= s);
    assert(text::offset(s, s.len() as int) == encode_utf8(s).len());
    if query::match_outcome(pattern, variables, s, tokens) is Ok {
        let cuts = lemma_cuts_of_run(pattern, variables, s, tokens, 0);
        let end = cuts.last();
        assert(is_cut(s, cuts[cuts.len() - 1]));
        let k = text::lemma_boundary_is_cut(s, end);
        assert(s.skip(k).len() == 0);
        assert(query_segments(pattern, variables, s, tokens, cuts));
    }
    if exists|cuts: Seq<int>|
        {
            &&& #[trigger] query_segments(pattern, variables, s, tokens, cuts)
            &&& cuts.first() == 0
            &&& cuts.last() == encode_utf8(s).len()
        } {
        let cuts = choose|cuts: Seq<int>|
            {
                &&& #[trigger] query_segments(pattern, variables, s, tokens, cuts)
                &&& cuts.first() == 0
                &&& cuts.last() == encode_utf8(s).len()
            };
        lemma_run_of_cuts(pattern, variables, s, tokens, cuts);
        assert(s.skip(s.len() as int).len() == 0);
    }
}

/// Whether the whole of `s` falls into segments, one for each rule of a query template.
pub open spec fn is_segmented(
    pattern: Seq<QueryRuleView>,
    variables: VariableViews,
    s: Seq<char>,
    tokens: Seq<ScanToken>,
) -> bool {
    exists|cuts: Seq<int>|
        {
            &&& #[trigger] query_segments(pattern, variables, s, tokens, cuts)
            &&& cuts.first() == 0
            &&& cuts.last() == encode_utf8(s).len()
        }
}

/// A query that was split into tokens matches a template just where the whole of it, the white
/// space around it aside, falls into segments for the template's rules.
pub proof fn law_segmented_queries_match(
    template: QueryTemplateView,
    query: Seq<char>,
    result: ScanResult,
)
    requires
        tokens_fit(text::trimmed(query), result.tokens@),
    ensures
        query::query_outcome(template, query, Ok(result)) is Ok <==> is_segmented(
            template.pattern,
            template.variables,
            text::trimmed(query),
            result.tokens@,
        ),
{
    law_query_match_is_a_segmentation(
        template.pattern,
        template.variables,
        text::trimmed(query),
        result.tokens@,
    );
}

/// Without variables a template lets just its own text pass, white space around it aside.
pub proof fn law_plain_templates_match_themselves(
    template: Seq<char>,
    query_text: Seq<char>,
    tokens: Seq<ScanToken>,
)
    ensures
        query::match_outcome(
            query::template_view(template, seq![]).pattern,
            seq![],
            text::trimmed(query_text),
            tokens,
        ) is Ok <==> text::trimmed(query_text) == text::trimmed(template),
{
    let s = text::trimmed(query_text);
    let t = text::trimmed(template);
    let none: VariableViews = seq![];
    let pattern = query::template_view(template, none).pattern;
    assert(variables::variable_names(none).len() == 0);
    assert(pattern =~= seq![QueryRuleView::Exact(t)]);
    assert(pattern.drop_first() =~= seq![]);
    reveal_with_fuel(query::run_pattern, 2);
    text::lemma_cut(s, 0);
    assert(s.take(0) =~= Seq::<char>::empty());
    assert(text::offset(s, 0) == 0);
    assert(s.skip(0) =~= s);
    if t.is_prefix_of(s) {
        text::lemma_advance(s, 0, t);
        assert(t =~= s.take(t.len() as int));
        if s.skip(t.len() as int).len() == 0 {
            assert(s =~= t);
        }
    }
    if s == t {
        assert(t =~= s.subrange(0, t.len() as int));
    }
}

/// What stands in `s` from byte `pos` on.
pub open spec fn text_from(s: Seq<char>, pos: int) -> Seq<char> {
    text::suffix_at(s, pos)->0
}

/// At a place where the query cannot be cut no rule matches: there is no text to match.
pub proof fn law_no_rule_matches_off_a_cut(
    rule: RuleView,
    s: Seq<char>,
    tokens: Seq<ScanToken>,
    pos: int,
)
    requires
        !is_cut(s, pos),
    ensures
        variable::rule_step(rule, s, tokens, pos) == Err::<int, variable::MatchErrorView>(
            variable::MatchErrorView {
                expected: rule,
                actual: seq![],
                reason: variable::MatchErrorReason::QueryEof,
            },
        ),
{
}

/// A variable's template is not tried at a place where the query cannot be cut: its first rule is
/// reported, and the place is kept.
pub proof fn law_no_template_matches_off_a_cut(
    rules: Seq<RuleView>,
    s: Seq<char>,
    tokens: Seq<ScanToken>,
    pos: int,
)
    requires
        rules.len() > 0,
        !is_cut(s, pos),
    ensures
        variable::run_rules(rules, s, tokens, pos) == (
            Err::<(), variable::MatchErrorView>(
                variable::MatchErrorView {
                    expected: rules.first(),
                    actual: seq![],
                    reason: variable::MatchErrorReason::QueryEof,
                },
            ),
            pos,
        ),
{
}

/// Where other text stands than a rule asks for, both are reported from a little before the place
/// where they part.
pub proof fn law_other_text_is_a_mismatch(
    wanted: Seq<char>,
    s: Seq<char>,
    tokens: Seq<ScanToken>,
    pos: int,
)
    requires
        is_cut(s, pos),
        !wanted.is_prefix_of(text_from(s, pos)),
    ensures
        variable::rule_step(RuleView::Exact(wanted), s, tokens, pos) == Err::<
            int,
            variable::MatchErrorView,
        >(
            variable::MatchErrorView {
                expected: RuleView::Exact(variable::divergence(wanted, text_from(s, pos)).0),
                actual: variable::divergence(wanted, text_from(s, pos)).1,
                reason: variable::MatchErrorReason::ExactMismatch,
            },
        ),
{
}

/// Where the next token is not of the type that a rule asks for, that token's type is reported; and
/// where no token follows, the missing type.
pub proof fn law_other_tokens_are_a_mismatch(
    wanted: Token,
    s: Seq<char>,
    tokens: Seq<ScanToken>,
    pos: int,
    k: int,
)
    requires
        is_cut(s, pos),
        is_first_from(tokens, k, pos),
        k < tokens.len() ==> tokens[k].token != wanted,
    ensures
        variable::rule_step(RuleView::Token(wanted), s, tokens, pos) == Err::<
            int,
            variable::MatchErrorView,
        >(
            variable::MatchErrorView {
                expected: RuleView::Token(wanted),
                actual: text_from(s, pos),
                reason: if k < tokens.len() {
                    variable::MatchErrorReason::WrongTokenType(tokens[k].token)
                } else {
                    variable::MatchErrorReason::TokenMissing(wanted)
                },
            },
        ),
{
    lemma_first_is(tokens, k, pos);
    assert(seq![wanted][0] == wanted);
}

/// Whether a token can stand `d` tokens behind the beginning of an array constructor without
/// closing it.
pub open spec fn continues_array(token: Token, d: int, element: Token, marks: ArrayTokens) -> bool {
    if d == 0 {
        token == marks.keyword
    } else if d == 1 {
        token == marks.open
    } else {
        token != marks.close && token == if d % 2 == 0 {
            element
        } else {
            marks.separator
        }
    }
}

/// Whether a token `d` tokens behind the beginning of an array constructor closes it: right behind
/// the opening token, or behind an element.
pub open spec fn closes_array(token: Token, d: int, marks: ArrayTokens) -> bool {
    token == marks.close && (d == 2 || d >= 3 && d % 2 == 1)
}

/// Whether the tokens from number `k` up to number `j` begin an array constructor that is not yet
/// closed.
pub open spec fn begins_array(
    tokens: Seq<ScanToken>,
    k: int,
    j: int,
    element: Token,
    marks: ArrayTokens,
) -> bool {
    &&& 0 <= k <= j <= tokens.len()
    &&& forall|i: int|
        k <= i < j ==> continues_array((#[trigger] tokens[i]).token, i - k, element, marks)
}

proof fn lemma_elements_reach(
    tokens: Seq<ScanToken>,
    m: int,
    j: int,
    element: Token,
    marks: ArrayTokens,
)
    requires
        0 <= m <= j <= tokens.len(),
        (j - m) % 2 == 0,
        forall|i: int|
            m <= i < j ==> (#[trigger] tokens[i]).token != marks.close && tokens[i].token == if (i
                - m) % 2 == 0 {
                element
            } else {
                marks.separator
            },
    ensures
        variable::elements_end(tokens, m, element, marks) == variable::elements_end(
            tokens,
            j,
            element,
            marks,
        ),
    decreases j - m,
{
    if m < j {
        assert(m + 2 <= j);
        assert(tokens[m].token == element);
        assert(tokens[m + 1].token == marks.separator);
        assert forall|i: int| m + 2 <= i < j implies (#[trigger] tokens[i]).token != marks.close
            && tokens[i].token == if (i - (m + 2)) % 2 == 0 {
            element
        } else {
            marks.separator
        } by {
            assert((i - m) % 2 == (i - (m + 2)) % 2);
        }
        lemma_elements_reach(tokens, m + 2, j, element, marks);
    }
}

/// What comes of an array rule is decided by the first token that does not continue the array: if
/// it closes the array the rule matches up to its end, and otherwise its type is reported. Where the
/// tokens end before that, the missing opening token is reported, or that the array does not end.
pub proof fn law_first_other_token_decides_an_array(
    element: Token,
    marks: ArrayTokens,
    s: Seq<char>,
    tokens: Seq<ScanToken>,
    pos: int,
    k: int,
    j: int,
)
    requires
        is_cut(s, pos),
        is_first_from(tokens, k, pos),
        begins_array(tokens, k, j, element, marks),
        j < tokens.len() ==> !continues_array(tokens[j].token, j - k, element, marks),
    ensures
        variable::rule_step(RuleView::Array(element, marks), s, tokens, pos) == if j < tokens.len()
            && closes_array(tokens[j].token, j - k, marks) {
            Ok::<int, variable::MatchErrorView>(tokens[j].end as int)
        } else {
            Err::<int, variable::MatchErrorView>(
                variable::MatchErrorView {
                    expected: RuleView::Array(element, marks),
                    actual: text_from(s, pos),
                    reason: if j < tokens.len() {
                        variable::MatchErrorReason::WrongTokenType(tokens[j].token)
                    } else if j == k {
                        variable::MatchErrorReason::TokenMissing(marks.keyword)
                    } else if j == k + 1 {
                        variable::MatchErrorReason::TokenMissing(marks.open)
                    } else {
                        variable::MatchErrorReason::ArrayNotTerminated
                    },
                },
            )
        },
{
    lemma_first_is(tokens, k, pos);
    let opening = seq![marks.keyword, marks.open];
    reveal_with_fuel(variable::consumed, 2);
    assert(opening.drop_first() =~= seq![marks.open]);
    let d = j - k;
    if d >= 1 {
        assert(continues_array(tokens[k].token, k - k, element, marks));
    }
    if d >= 2 {
        assert(continues_array(tokens[k + 1].token, (k + 1) - k, element, marks));
    }
    if d >= 3 {
        assert(continues_array(tokens[k + 2].token, (k + 2) - k, element, marks));
        let m = k + 2;
        let even = if d % 2 == 0 {
            j
        } else {
            j - 1
        };
        assert((even - m) % 2 == 0);
        assert forall|i: int| m <= i < even implies (#[trigger] tokens[i]).token != marks.close
            && tokens[i].token == if (i - m) % 2 == 0 {
            element
        } else {
            marks.separator
        } by {
            assert(continues_array(tokens[i].token, i - k, element, marks));
            assert((i - m) % 2 == (i - k) % 2);
        }
        lemma_elements_reach(tokens, m, even, element, marks);
        if even < j {
            assert(continues_array(tokens[even].token, even - k, element, marks));
        }
    }
}

/// The first rule of a variable's template that does not match is reported, and the place where it
/// was tried is the one reached.
pub proof fn law_first_failing_rule_is_reported(
    rules: Seq<RuleView>,
    i: int,
    s: Seq<char>,
    tokens: Seq<ScanToken>,
    cuts: Seq<int>,
)
    requires
        0 <= i < rules.len(),
        rule_segments(rules.take(i), s, tokens, cuts),
        variable::rule_step(rules[i], s, tokens, cuts.last()) is Err,
    ensures
        variable::run_rules(rules, s, tokens, cuts.first()) == (
            Err::<(), variable::MatchErrorView>(
                variable::rule_step(rules[i], s, tokens, cuts.last())->Err_0,
            ),
            cuts.last(),
        ),
    decreases i,
{
    if i > 0 {
        let head = rules.take(i);
        let tail = rules.drop_first();
        assert(is_cut(s, cuts[0]));
        assert(head[0] == rules[0]);
        assert(rule_spans(head[0], s, tokens, cuts[0], cuts[1]));
        law_spanned_rules_match(rules[0], s, tokens, cuts[0], cuts[1]);
        lemma_tail_of_segments(head, s, tokens, cuts);
        assert(head.drop_first() =~= tail.take(i - 1));
        assert(tail[i - 1] == rules[i]);
        law_first_failing_rule_is_reported(tail, i - 1, s, tokens, cuts.drop_first());
    }
}

proof fn lemma_failing_run(
    pattern: Seq<QueryRuleView>,
    i: int,
    variables: VariableViews,
    s: Seq<char>,
    tokens: Seq<ScanToken>,
    cuts: Seq<int>,
)
    requires
        tokens_fit(s, tokens),
        0 <= i < pattern.len(),
        query_segments(pattern.take(i), variables, s, tokens, cuts),
        query::query_step(pattern[i], variables, s, tokens, cuts.last()) is Err,
    ensures
        query::run_pattern(pattern, variables, s, tokens, cuts.first()) == Err::<
            int,
            query::MatchErrorView,
        >(query::query_step(pattern[i], variables, s, tokens, cuts.last())->Err_0),
    decreases i,
{
    if i > 0 {
        let head = pattern.take(i);
        let tail = pattern.drop_first();
        assert(is_cut(s, cuts[0]));
        assert(head[0] == pattern[0]);
        assert(query_rule_spans(head[0], variables, s, tokens, cuts[0], cuts[1]));
        lemma_spanned_step(pattern[0], variables, s, tokens, cuts[0], cuts[1]);
        lemma_tail_of_query_segments(head, variables, s, tokens, cuts);
        assert(head.drop_first() =~= tail.take(i - 1));
        assert(tail[i - 1] == pattern[i]);
        lemma_failing_run(tail, i - 1, variables, s, tokens, cuts.drop_first());
    }
}

/// The first rule of a query template that does not match is reported: text that differs by where
/// it parts, and a variable by why its template does not match the text that follows.
pub proof fn law_first_failing_query_rule_is_reported(
    template: QueryTemplateView,
    i: int,
    query: Seq<char>,
    result: ScanResult,
    cuts: Seq<int>,
)
    requires
        tokens_fit(text::trimmed(query), result.tokens@),
        0 <= i < template.pattern.len(),
        query_segments(
            template.pattern.take(i),
            template.variables,
            text::trimmed(query),
            result.tokens@,
            cuts,
        ),
        cuts.first() == 0,
    ensures
        ({
            let rest = text_from(text::trimmed(query), cuts.last());
            let outcome = query::query_outcome(template, query, Ok(result));
            match template.pattern[i] {
                QueryRuleView::Exact(wanted) => !wanted.is_prefix_of(rest) ==> outcome == Err::<
                    (),
                    query::MatchQueryErrorView,
                >(
                    query::MatchQueryErrorView::Match(
                        query::MatchErrorView {
                            expected: QueryRuleView::Exact(variable::divergence(wanted, rest).0),
                            actual: variable::divergence(wanted, rest).1,
                            reason: query::ReasonView::ExactMismatch,
                        },
                    ),
                ),
                QueryRuleView::Variable(name) => match variables::rules_of(
                    template.variables,
                    name,
                ) {
                    None => outcome == Err::<(), query::MatchQueryErrorView>(
                        query::MatchQueryErrorView::Match(
                            query::MatchErrorView {
                                expected: template.pattern[i],
                                actual: rest,
                                reason: query::ReasonView::UnknownVariable(name),
                            },
                        ),
                    ),
                    Some(rules) => variable::run_rules(
                        rules,
                        text::trimmed(query),
                        result.tokens@,
                        cuts.last(),
                    ).0 matches Err(error) ==> outcome == Err::<(), query::MatchQueryErrorView>(
                        query::MatchQueryErrorView::Match(
                            query::MatchErrorView {
                                expected: template.pattern[i],
                                actual: rest,
                                reason: query::ReasonView::VariableMismatch(error),
                            },
                        ),
                    ),
                },
            }
        }),
{
    let s = text::trimmed(query);
    assert(is_cut(s, cuts[cuts.len() - 1]));
    if query::query_step(
        template.pattern[i],
        template.variables,
        s,
        result.tokens@,
        cuts.last(),
    ) is Err {
        lemma_failing_run(
            template.pattern,
            i,
            template.variables,
            s,
            result.tokens@,
            cuts,
        );
    }
}

/// A query that goes on behind what a template asks for is rejected, and what is left over is
/// reported.
pub proof fn law_left_over_text_is_reported(
    template: QueryTemplateView,
    query: Seq<char>,
    result: ScanResult,
    cuts: Seq<int>,
)
    requires
        tokens_fit(text::trimmed(query), result.tokens@),
        query_segments(
            template.pattern,
            template.variables,
            text::trimmed(query),
            result.tokens@,
            cuts,
        ),
        cuts.first() == 0,
        cuts.last() < encode_utf8(text::trimmed(query)).len(),
    ensures
        query::query_outcome(template, query, Ok(result)) == Err::<(), query::MatchQueryErrorView>(
            query::MatchQueryErrorView::Match(
                query::MatchErrorView {
                    expected: QueryRuleView::Exact(seq![]),
                    actual: text_from(text::trimmed(query), cuts.last()),
                    reason: query::ReasonView::UnmatchedSuffix,
                },
            ),
        ),
{
    let s = text::trimmed(query);
    let end = cuts.last();
    lemma_run_of_cuts(template.pattern, template.variables, s, result.tokens@, cuts);
    assert(is_cut(s, cuts[cuts.len() - 1]));
    let k = text::lemma_boundary_is_cut(s, end);
    if k == s.len() {
        assert(s.take(k) =~= s);
    }
}

/// At a place where the query cannot be cut no rule of a query template matches either.
pub proof fn law_no_query_rule_matches_off_a_cut(
    rule: QueryRuleView,
    variables: VariableViews,
    s: Seq<char>,
    tokens: Seq<ScanToken>,
    pos: int,
)
    requires
        !is_cut(s, pos),
    ensures
        query::query_step(rule, variables, s, tokens, pos) == Err::<int, query::MatchErrorView>(
            query::MatchErrorView {
                expected: rule,
                actual: seq![],
                reason: query::ReasonView::QueryEof,
            },
        ),
{
}

} // verus!
