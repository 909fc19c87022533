//! The whitelist of a dashboard, and the decision whether a query may pass.
use std::sync::Arc;

use vstd::hash_map::StringHashMap;
use vstd::prelude::*;
use vstd::utf8::*;

use crate::scan::{ScanError, ScanResult, ScanToken};
use crate::scope::DashboardScope;
use crate::search;
use crate::template::matcher::query::{
    self, MatchQueryError, MatchQueryErrorView, QueryTemplateMatcher, QueryTemplateView,
    TemplateError,
};
use crate::template::matcher::segments;
use crate::template::variables::{self, VariableTemplates, VariableViews};
use crate::text;

verus! {

/// For how many seconds a dashboard's whitelist is used before it is fetched anew.
pub const WHITELIST_REFRESH_INTERVAL_SECS: u64 = 30;

/// After how many seconds the fetch of a whitelist is given up.
pub const WHITELIST_FETCH_TIMEOUT_SECS: u64 = 10;

/// Of how many dashboards the whitelists are kept.
pub const WHITELIST_CACHE_CAPACITY: u64 = 1024;

/// The templates that a query may match: named ones by their names, and the others in order.
pub struct QueryWhitelist {
    named: StringHashMap<QueryTemplateMatcher>,
    unnamed: Vec<QueryTemplateMatcher>,
}

/// A whitelist, its templates taken by what they say.
pub struct WhitelistView {
    pub named: Map<Seq<char>, QueryTemplateView>,
    pub unnamed: Seq<QueryTemplateView>,
}

/// The views of templates.
pub open spec fn matcher_views(matchers: Seq<QueryTemplateMatcher>) -> Seq<QueryTemplateView> {
    matchers.map_values(|m: QueryTemplateMatcher| m@)
}

/// The views of named templates.
pub open spec fn named_views(named: Map<Seq<char>, QueryTemplateMatcher>) -> Map<
    Seq<char>,
    QueryTemplateView,
> {
    named.map_values(|m: QueryTemplateMatcher| m@)
}

impl View for QueryWhitelist {
    type V = WhitelistView;

    closed spec fn view(&self) -> WhitelistView {
        WhitelistView { named: named_views(self.named@), unnamed: matcher_views(self.unnamed@) }
    }
}

impl QueryWhitelist {
    /// The templates can be counted.
    #[verifier::type_invariant]
    spec fn is_countable(self) -> bool {
        self.named@.dom().finite() && self.named@.dom().len() + self.unnamed@.len() <= usize::MAX
    }
}

/// A whitelist without templates.
pub open spec fn empty_whitelist() -> WhitelistView {
    WhitelistView { named: Map::empty(), unnamed: seq![] }
}

/// A whitelist with one more template. A second template of one name is left out.
pub open spec fn with_template(
    whitelist: WhitelistView,
    template: QueryTemplateView,
) -> WhitelistView {
    match template.name {
        Some(name) => if whitelist.named.contains_key(name) {
            whitelist
        } else {
            WhitelistView { named: whitelist.named.insert(name, template), ..whitelist }
        },
        None => WhitelistView { unnamed: whitelist.unnamed.push(template), ..whitelist },
    }
}

/// The whitelist of the given templates, in which the given variables may stand.
pub open spec fn whitelist_of(templates: Seq<Seq<char>>, variables: VariableViews) -> WhitelistView
    decreases templates.len(),
{
    if templates.len() == 0 {
        empty_whitelist()
    } else {
        with_template(
            whitelist_of(templates.drop_last(), variables),
            query::template_view(templates.last(), variables),
        )
    }
}

/// Whether templates can be made with the given variables: none has the empty name, and they can
/// be searched for.
pub open spec fn variables_usable(variables: VariableViews) -> bool {
    let names = variables::variable_names(variables);
    names.len() == 0 || !names.contains(seq![]) && search::searcher_builds(names)
}

/// Another handle on the same variables, from `Arc::clone`.
///
/// Relied on: the clone of an `Arc` points to the value that the `Arc` points to.
#[verifier::external_body]
fn share(variables: &Arc<VariableTemplates>) -> (res: Arc<VariableTemplates>)
    ensures
        res == *variables,
{
    Arc::clone(variables)
}

impl QueryWhitelist {
    /// The whitelist of `templates`, in which `variable_templates` may stand.
    pub fn build(templates: &Vec<String>, variable_templates: &Arc<VariableTemplates>) -> (res:
        Result<Self, TemplateError>)
        ensures
            match res {
                Ok(whitelist) => whitelist@ == whitelist_of(
                    text::string_views(templates@),
                    variable_templates@,
                ) && (templates@.len() == 0 || variables_usable(variable_templates@)),
                Err(TemplateError::EmptyVariableName) => templates@.len() > 0
                    && variables::variable_names(variable_templates@).contains(seq![]),
                Err(TemplateError::Searcher(_)) => templates@.len() > 0 && !variables_usable(
                    variable_templates@,
                ) && !variables::variable_names(variable_templates@).contains(seq![]),
            },
    {
        let ghost views = text::string_views(templates@);
        let mut named: StringHashMap<QueryTemplateMatcher> = StringHashMap::new();
        let mut unnamed: Vec<QueryTemplateMatcher> = Vec::new();
        proof {
            assert(named_views(named@) =~= Map::empty());
            assert(matcher_views(unnamed@) =~= seq![]);
        }
        for i in 0..templates.len()
            invariant
                views == text::string_views(templates@),
                whitelist_of(views.take(i as int), variable_templates@) == (WhitelistView {
                    named: named_views(named@),
                    unnamed: matcher_views(unnamed@),
                }),
                i > 0 ==> variables_usable(variable_templates@),
                named@.dom().finite(),
                named@.dom().len() + unnamed@.len() <= i,
        {
            proof {
                assert(views.take(i + 1).drop_last() =~= views.take(i as int));
                assert(views.take(i + 1).last() == templates@[i as int]@);
            }
            let matcher = match QueryTemplateMatcher::parse(
                templates[i].as_str(),
                share(variable_templates),
            ) {
                Ok(matcher) => matcher,
                Err(error) => {
                    return Err(error);
                },
            };
            let ghost (named_before, unnamed_before) = (named_views(named@), matcher_views(unnamed@));
            let ghost view = matcher@;
            let name = match matcher.name() {
                Some(name) => Some(name.to_owned()),
                None => None,
            };
            match name {
                Some(name) => {
                    if !named.contains_key(name.as_str()) {
                        named.insert(name, matcher);
                        assert(named_views(named@) =~= named_before.insert(view.name->0, view));
                    }
                },
                None => {
                    unnamed.push(matcher);
                    assert(matcher_views(unnamed@) =~= unnamed_before.push(view));
                },
            }
        }
        assert(views.take(views.len() as int) =~= views);
        Ok(QueryWhitelist { named, unnamed })
    }

    /// How many templates there are.
    pub fn len(&self) -> (res: usize)
        ensures
            res == self@.named.len() + self@.unnamed.len(),
    {
        proof {
            use_type_invariant(self);
        }
        assert(named_views(self.named@).dom() =~= self.named@.dom());
        self.named.len() + self.unnamed.len()
    }
}

/// Why a query may not pass.
#[derive(Debug)]
pub enum AccessError {
    /// The connection does not say for which dashboard it speaks.
    MissingScope,
    /// The dashboard's whitelist could not be had; the message says why.
    WhitelistUnavailable(String),
    /// No template has the query's name.
    NamedQueryNotFound,
    /// The template with the query's name does not match.
    NamedQueryRejected(MatchQueryError),
    /// The query has no name, and no template without a name matches.
    NoUnnamedMatch,
}

/// A refusal, its strings taken as sequences of characters.
pub enum AccessErrorView {
    MissingScope,
    WhitelistUnavailable(Seq<char>),
    NamedQueryNotFound,
    NamedQueryRejected(MatchQueryErrorView),
    NoUnnamedMatch,
}

impl View for AccessError {
    type V = AccessErrorView;

    open spec fn view(&self) -> AccessErrorView {
        match self {
            AccessError::MissingScope => AccessErrorView::MissingScope,
            AccessError::WhitelistUnavailable(message) => AccessErrorView::WhitelistUnavailable(
                message@,
            ),
            AccessError::NamedQueryNotFound => AccessErrorView::NamedQueryNotFound,
            AccessError::NamedQueryRejected(error) => AccessErrorView::NamedQueryRejected(error@),
            AccessError::NoUnnamedMatch => AccessErrorView::NoUnnamedMatch,
        }
    }
}

/// Whether some template of a list matches a query.
pub open spec fn any_matches(
    templates: Seq<QueryTemplateView>,
    query: Seq<char>,
    scan: Result<ScanResult, ScanError>,
) -> bool {
    exists|i: int|
        0 <= i < templates.len() && #[trigger] query::query_outcome(templates[i], query, scan) is Ok
}

/// Whether a whitelist lets a query pass: one with a name has to match the template of that name,
/// and one without a name any template without a name.
pub open spec fn whitelist_decision(
    whitelist: WhitelistView,
    query: Seq<char>,
    scan: Result<ScanResult, ScanError>,
) -> Result<(), AccessErrorView> {
    match query::name_of_query(query) {
        Some(name) => if whitelist.named.contains_key(name) {
            match query::query_outcome(whitelist.named[name], query, scan) {
                Ok(()) => Ok(()),
                Err(error) => Err(AccessErrorView::NamedQueryRejected(error)),
            }
        } else {
            Err(AccessErrorView::NamedQueryNotFound)
        },
        None => if any_matches(whitelist.unnamed, query, scan) {
            Ok(())
        } else {
            Err(AccessErrorView::NoUnnamedMatch)
        },
    }
}

/// Whether `whitelist` lets `query` pass. `scan` is what the scanner says of the query without the
/// white space around it.
pub fn query_is_allowed(
    whitelist: &QueryWhitelist,
    query: &str,
    scan: &Result<ScanResult, ScanError>,
) -> (res: Result<(), AccessError>)
    ensures
        match res {
            Ok(()) => whitelist_decision(whitelist@, query@, *scan) is Ok,
            Err(error) => whitelist_decision(whitelist@, query@, *scan) == Err::<
                (),
                AccessErrorView,
            >(error@),
        },
{
    if let Some(name) = QueryTemplateMatcher::query_name(query) {
        return match whitelist.named.get(name) {
            None => Err(AccessError::NamedQueryNotFound),
            Some(matcher) => match matcher.match_query(query, scan) {
                Ok(()) => Ok(()),
                Err(error) => Err(AccessError::NamedQueryRejected(error)),
            },
        };
    }
    for i in 0..whitelist.unnamed.len()
        invariant
            query::name_of_query(query@) is None,
            forall|j: int|
                0 <= j < i ==> #[trigger] query::query_outcome(
                    whitelist@.unnamed[j],
                    query@,
                    *scan,
                ) is Err,
    {
        assert(whitelist@.unnamed[i as int] == whitelist.unnamed@[i as int]@);
        if whitelist.unnamed[i].match_query(query, scan).is_ok() {
            return Ok(());
        }
    }
    Err(AccessError::NoUnnamedMatch)
}

/// Whether a query is the ping that clients send to see whether the connection is alive.
pub open spec fn is_ping_query(query: Seq<char>) -> bool {
    text::trimmed(query) == "-- ping"@
}

/// Whether `query` is the ping that clients send.
pub fn is_ping(query: &str) -> (res: bool)
    ensures
        res == is_ping_query(query@),
{
    text::same(text::trim(query), "-- ping")
}

/// What can be said of a query without the whitelist: a ping passes, and without a dashboard no
/// other query does.
pub open spec fn early_decision(has_scope: bool, query: Seq<char>) -> Option<
    Result<(), AccessErrorView>,
> {
    if is_ping_query(query) {
        Some(Ok(()))
    } else if !has_scope {
        Some(Err(AccessErrorView::MissingScope))
    } else {
        None
    }
}

/// Whether `query` may pass, as far as that can be said without the whitelist: `None` where it
/// takes the whitelist of the dashboard in `scope`.
pub fn decide_early(scope: &Option<DashboardScope>, query: &str) -> (res: Option<
    Result<(), AccessError>,
>)
    ensures
        match res {
            Some(Ok(())) => early_decision(scope is Some, query@) == Some(
                Ok::<(), AccessErrorView>(()),
            ),
            Some(Err(error)) => early_decision(scope is Some, query@) == Some(
                Err::<(), AccessErrorView>(error@),
            ),
            None => early_decision(scope is Some, query@) is None,
        },
{
    if is_ping(query) {
        Some(Ok(()))
    } else if scope.is_none() {
        Some(Err(AccessError::MissingScope))
    } else {
        None
    }
}

/// Whether a query may pass, given what became of fetching the dashboard's whitelist.
pub open spec fn lookup_decision(
    lookup: Result<QueryWhitelist, String>,
    query: Seq<char>,
    scan: Result<ScanResult, ScanError>,
) -> Result<(), AccessErrorView> {
    match lookup {
        Ok(whitelist) => whitelist_decision(whitelist@, query, scan),
        Err(message) => Err(AccessErrorView::WhitelistUnavailable(message@)),
    }
}

/// Whether `query` may pass, given what became of fetching the dashboard's whitelist.
pub fn decide(
    lookup: &Result<QueryWhitelist, String>,
    query: &str,
    scan: &Result<ScanResult, ScanError>,
) -> (res: Result<(), AccessError>)
    ensures
        match res {
            Ok(()) => lookup_decision(*lookup, query@, *scan) is Ok,
            Err(error) => lookup_decision(*lookup, query@, *scan) == Err::<(), AccessErrorView>(
                error@,
            ),
        },
{
    match lookup {
        Ok(whitelist) => query_is_allowed(whitelist, query, scan),
        Err(message) => Err(AccessError::WhitelistUnavailable(message.clone())),
    }
}

/// The name of the template with the given text, if it has one.
pub open spec fn template_name(template: Seq<char>) -> Option<Seq<char>> {
    query::name_of_query(text::trimmed(template))
}

/// Under each name that templates have stands the first template of that name; under others there
/// is none.
pub proof fn law_first_template_of_a_name_stands(
    templates: Seq<Seq<char>>,
    variables: VariableViews,
    name: Seq<char>,
)
    ensures
        ({
            let named = whitelist_of(templates, variables).named;
            &&& named.contains_key(name) <==> exists|i: int|
                0 <= i < templates.len() && template_name(#[trigger] templates[i]) == Some(name)
            &&& forall|i: int|
                0 <= i < templates.len() && template_name(#[trigger] templates[i]) == Some(name) && (
                forall|j: int| 0 <= j < i ==> template_name(#[trigger] templates[j]) != Some(name))
                    ==> named[name] == query::template_view(templates[i], variables)
        }),
    decreases templates.len(),
{
    if templates.len() > 0 {
        let before = templates.drop_last();
        law_first_template_of_a_name_stands(before, variables, name);
        assert(forall|i: int| 0 <= i < before.len() ==> before[i] == #[trigger] templates[i]);
        let named = whitelist_of(templates, variables).named;
        let named_before = whitelist_of(before, variables).named;
        let last = templates.len() - 1;
        assert(templates[last] == templates.last());
        if named_before.contains_key(name) {
            let i = choose|i: int|
                0 <= i < before.len() && template_name(#[trigger] before[i]) == Some(name);
            assert(template_name(templates[i]) == Some(name));
        }
        if named.contains_key(name) && !named_before.contains_key(name) {
            assert(template_name(templates[last]) == Some(name));
        }
        if exists|i: int|
            0 <= i < templates.len() && template_name(#[trigger] templates[i]) == Some(name) {
            let i = choose|i: int|
                0 <= i < templates.len() && template_name(#[trigger] templates[i]) == Some(name);
            if i < last {
                assert(template_name(before[i]) == Some(name));
            }
            assert(named.contains_key(name));
        }
        assert forall|i: int|
            0 <= i < templates.len() && template_name(#[trigger] templates[i]) == Some(name) && (
            forall|j: int| 0 <= j < i ==> template_name(#[trigger] templates[j]) != Some(name)) implies
            named[name] == query::template_view(templates[i], variables) by {
            if i < last {
                assert(template_name(before[i]) == Some(name));
                assert forall|j: int| 0 <= j < i implies template_name(#[trigger] before[j]) != Some(
                    name,
                ) by {
                    assert(before[j] == templates[j]);
                }
                assert(named_before.contains_key(name));
            } else {
                assert forall|j: int| 0 <= j < before.len() implies template_name(
                    #[trigger] before[j],
                ) != Some(name) by {
                    assert(before[j] == templates[j]);
                }
                assert(!named_before.contains_key(name));
            }
        }
    }
}

/// The templates without a name, in their order.
pub open spec fn unnamed_templates(templates: Seq<Seq<char>>) -> Seq<Seq<char>> {
    templates.filter(|template: Seq<char>| template_name(template) is None)
}

/// The templates without a name all stand in the whitelist, in their order.
pub proof fn law_unnamed_templates_stand_in_order(
    templates: Seq<Seq<char>>,
    variables: VariableViews,
)
    ensures
        whitelist_of(templates, variables).unnamed == unnamed_templates(templates).map_values(
            |template: Seq<char>| query::template_view(template, variables),
        ),
    decreases templates.len(),
{
    reveal(Seq::filter);
    let views = |template: Seq<char>| query::template_view(template, variables);
    if templates.len() > 0 {
        let before = templates.drop_last();
        law_unnamed_templates_stand_in_order(before, variables);
        assert(whitelist_of(templates, variables).unnamed =~= unnamed_templates(
            templates,
        ).map_values(views));
    } else {
        assert(unnamed_templates(templates).map_values(views) =~= seq![]);
    }
}

/// Whether a query with a name may pass depends on the template of that name alone, and whether
/// one without a name may pass on the templates without a name alone.
pub proof fn law_names_keep_templates_apart(
    a: WhitelistView,
    b: WhitelistView,
    query: Seq<char>,
    scan: Result<ScanResult, ScanError>,
)
    requires
        match query::name_of_query(query) {
            Some(name) => a.named.contains_key(name) == b.named.contains_key(name) && (
            a.named.contains_key(name) ==> a.named[name] == b.named[name]),
            None => a.unnamed == b.unnamed,
        },
    ensures
        whitelist_decision(a, query, scan) == whitelist_decision(b, query, scan),
{
}

/// What a whitelist lets pass, it lets pass with one more template too.
pub proof fn law_more_templates_let_more_pass(
    whitelist: WhitelistView,
    template: QueryTemplateView,
    query: Seq<char>,
    scan: Result<ScanResult, ScanError>,
)
    requires
        whitelist_decision(whitelist, query, scan) is Ok,
    ensures
        whitelist_decision(with_template(whitelist, template), query, scan) is Ok,
{
    let more = with_template(whitelist, template);
    if query::name_of_query(query) is None {
        let i = choose|i: int|
            0 <= i < whitelist.unnamed.len() && #[trigger] query::query_outcome(
                whitelist.unnamed[i],
                query,
                scan,
            ) is Ok;
        assert(more.unnamed[i] == whitelist.unnamed[i]);
    }
}

/// Without templates nothing passes.
pub proof fn law_empty_whitelist_lets_nothing_pass(
    query: Seq<char>,
    scan: Result<ScanResult, ScanError>,
)
    ensures
        whitelist_decision(empty_whitelist(), query, scan) is Err,
{
}

/// A query that cannot be split into tokens does not pass.
pub proof fn law_unscannable_queries_do_not_pass(
    whitelist: WhitelistView,
    query: Seq<char>,
    error: ScanError,
)
    ensures
        whitelist_decision(whitelist, query, Err(error)) is Err,
{
}

proof fn lemma_named_template(
    templates: Seq<Seq<char>>,
    variables: VariableViews,
    name: Seq<char>,
) -> (i: int)
    requires
        whitelist_of(templates, variables).named.contains_key(name),
    ensures
        0 <= i < templates.len(),
        template_name(templates[i]) == Some(name),
        whitelist_of(templates, variables).named[name] == query::template_view(
            templates[i],
            variables,
        ),
    decreases templates.len(),
{
    let before = templates.drop_last();
    if whitelist_of(before, variables).named.contains_key(name) {
        lemma_named_template(before, variables, name)
    } else {
        templates.len() - 1
    }
}

proof fn lemma_unnamed_template(
    templates: Seq<Seq<char>>,
    variables: VariableViews,
    j: int,
) -> (i: int)
    requires
        0 <= j < whitelist_of(templates, variables).unnamed.len(),
    ensures
        0 <= i < templates.len(),
        template_name(templates[i]) is None,
        whitelist_of(templates, variables).unnamed[j] == query::template_view(
            templates[i],
            variables,
        ),
    decreases templates.len(),
{
    let before = templates.drop_last();
    if j < whitelist_of(before, variables).unnamed.len() {
        lemma_unnamed_template(before, variables, j)
    } else {
        templates.len() - 1
    }
}

/// Whether the whole of `query`, white space around it aside, falls into segments for the rules of
/// a template: its fixed text, and what its variables stand for.
pub open spec fn follows(
    query: Seq<char>,
    tokens: Seq<ScanToken>,
    template: Seq<char>,
    variables: VariableViews,
) -> bool {
    exists|cuts: Seq<int>|
        {
            &&& #[trigger] segments::query_segments(
                query::template_view(template, variables).pattern,
                variables,
                text::trimmed(query),
                tokens,
                cuts,
            )
            &&& cuts.first() == 0
            &&& cuts.last() == encode_utf8(text::trimmed(query)).len()
        }
}

/// A query passes only if the whole of it follows one of the templates, and one that has the same
/// name or, like the query, none.
pub proof fn law_passing_queries_follow_a_template(
    templates: Seq<Seq<char>>,
    variables: VariableViews,
    query: Seq<char>,
    result: ScanResult,
)
    requires
        segments::tokens_fit(text::trimmed(query), result.tokens@),
        whitelist_decision(whitelist_of(templates, variables), query, Ok(result)) is Ok,
    ensures
        exists|i: int|
            0 <= i < templates.len() && template_name(#[trigger] templates[i])
                == query::name_of_query(query) && follows(
                query,
                result.tokens@,
                templates[i],
                variables,
            ),
{
    let whitelist = whitelist_of(templates, variables);
    let scan = Ok::<ScanResult, ScanError>(result);
    let i = match query::name_of_query(query) {
        Some(name) => lemma_named_template(templates, variables, name),
        None => {
            let j = choose|j: int|
                0 <= j < whitelist.unnamed.len() && #[trigger] query::query_outcome(
                    whitelist.unnamed[j],
                    query,
                    scan,
                ) is Ok;
            lemma_unnamed_template(templates, variables, j)
        },
    };
    let template = query::template_view(templates[i], variables);
    assert(query::query_outcome(template, query, scan) is Ok);
    segments::law_query_match_is_a_segmentation(
        template.pattern,
        variables,
        text::trimmed(query),
        result.tokens@,
    );
    assert(follows(query, result.tokens@, templates[i], variables));
}

/// Without variables a template's own text passes, unless the template stands behind another of its
/// name.
pub proof fn law_plain_templates_pass(
    templates: Seq<Seq<char>>,
    i: int,
    query: Seq<char>,
    result: ScanResult,
)
    requires
        0 <= i < templates.len(),
        text::trimmed(query) == text::trimmed(templates[i]),
        query::name_of_query(query) == template_name(templates[i]),
        template_name(templates[i]) is Some ==> forall|j: int|
            0 <= j < i ==> template_name(#[trigger] templates[j]) != template_name(templates[i]),
    ensures
        whitelist_decision(whitelist_of(templates, seq![]), query, Ok(result)) is Ok,
{
    let none: VariableViews = seq![];
    let whitelist = whitelist_of(templates, none);
    let template = query::template_view(templates[i], none);
    let scan = Ok::<ScanResult, ScanError>(result);
    segments::law_plain_templates_match_themselves(templates[i], query, result.tokens@);
    assert(query::query_outcome(template, query, scan) is Ok);
    match template_name(templates[i]) {
        Some(name) => {
            law_first_template_of_a_name_stands(templates, none, name);
        },
        None => {
            let j = lemma_place_of_unnamed(templates, none, i);
            assert(query::query_outcome(whitelist.unnamed[j], query, scan) is Ok);
        },
    }
}

proof fn lemma_place_of_unnamed(
    templates: Seq<Seq<char>>,
    variables: VariableViews,
    i: int,
) -> (j: int)
    requires
        0 <= i < templates.len(),
        template_name(templates[i]) is None,
    ensures
        0 <= j < whitelist_of(templates, variables).unnamed.len(),
        whitelist_of(templates, variables).unnamed[j] == query::template_view(
            templates[i],
            variables,
        ),
    decreases templates.len(),
{
    let before = templates.drop_last();
    if i < before.len() {
        lemma_place_of_unnamed(before, variables, i)
    } else {
        whitelist_of(before, variables).unnamed.len() as int
    }
}

/// Whether a template is the first of its name among several; those without a name all are.
pub open spec fn is_first_of_its_name(templates: Seq<Seq<char>>, i: int) -> bool {
    template_name(templates[i]) is Some ==> forall|j: int|
        0 <= j < i ==> template_name(#[trigger] templates[j]) != template_name(templates[i])
}

/// A query passes if the whole of it follows a template of its own name, the first of that name,
/// or has no name and follows any template without one.
pub proof fn law_queries_that_follow_a_template_pass(
    templates: Seq<Seq<char>>,
    variables: VariableViews,
    i: int,
    query: Seq<char>,
    result: ScanResult,
)
    requires
        segments::tokens_fit(text::trimmed(query), result.tokens@),
        0 <= i < templates.len(),
        is_first_of_its_name(templates, i),
        template_name(templates[i]) == query::name_of_query(query),
        follows(query, result.tokens@, templates[i], variables),
    ensures
        whitelist_decision(whitelist_of(templates, variables), query, Ok(result)) is Ok,
{
    let whitelist = whitelist_of(templates, variables);
    let template = query::template_view(templates[i], variables);
    let scan = Ok::<ScanResult, ScanError>(result);
    segments::law_query_match_is_a_segmentation(
        template.pattern,
        variables,
        text::trimmed(query),
        result.tokens@,
    );
    assert(query::query_outcome(template, query, scan) is Ok);
    match template_name(templates[i]) {
        Some(name) => {
            law_first_template_of_a_name_stands(templates, variables, name);
        },
        None => {
            let j = lemma_place_of_unnamed(templates, variables, i);
            assert(query::query_outcome(whitelist.unnamed[j], query, scan) is Ok);
        },
    }
}

/// A query whose name no template has is refused for that, one that does not match the first
/// template of its name for why it does not, and one without a name because no template without a
/// name matches.
pub proof fn law_refusals_name_their_cause(
    templates: Seq<Seq<char>>,
    variables: VariableViews,
    query: Seq<char>,
    scan: Result<ScanResult, ScanError>,
)
    ensures
        ({
            let decision = whitelist_decision(whitelist_of(templates, variables), query, scan);
            match query::name_of_query(query) {
                Some(name) => {
                    &&& (forall|i: int|
                        0 <= i < templates.len() ==> template_name(#[trigger] templates[i]) != Some(
                            name,
                        )) ==> decision == Err::<(), AccessErrorView>(
                        AccessErrorView::NamedQueryNotFound,
                    )
                    &&& forall|i: int|
                        0 <= i < templates.len() && template_name(#[trigger] templates[i]) == Some(
                            name,
                        ) && is_first_of_its_name(templates, i) ==> match query::query_outcome(
                            query::template_view(templates[i], variables),
                            query,
                            scan,
                        ) {
                            Ok(()) => decision is Ok,
                            Err(error) => decision == Err::<(), AccessErrorView>(
                                AccessErrorView::NamedQueryRejected(error),
                            ),
                        }
                },
                None => decision == if exists|i: int|
                    0 <= i < templates.len() && template_name(#[trigger] templates[i]) is None
                        && query::query_outcome(
                        query::template_view(templates[i], variables),
                        query,
                        scan,
                    ) is Ok {
                    Ok::<(), AccessErrorView>(())
                } else {
                    Err::<(), AccessErrorView>(AccessErrorView::NoUnnamedMatch)
                },
            }
        }),
{
    let whitelist = whitelist_of(templates, variables);
    match query::name_of_query(query) {
        Some(name) => {
            law_first_template_of_a_name_stands(templates, variables, name);
            assert forall|i: int|
                0 <= i < templates.len() && template_name(#[trigger] templates[i]) == Some(name)
                    && is_first_of_its_name(templates, i) implies whitelist.named.contains_key(name)
                && whitelist.named[name] == query::template_view(templates[i], variables) by {}
        },
        None => {
            if any_matches(whitelist.unnamed, query, scan) {
                let j = choose|j: int|
                    0 <= j < whitelist.unnamed.len() && #[trigger] query::query_outcome(
                        whitelist.unnamed[j],
                        query,
                        scan,
                    ) is Ok;
                let i = lemma_unnamed_template(templates, variables, j);
                assert(template_name(templates[i]) is None);
            }
            if exists|i: int|
                0 <= i < templates.len() && template_name(#[trigger] templates[i]) is None
                    && query::query_outcome(
                    query::template_view(templates[i], variables),
                    query,
                    scan,
                ) is Ok {
                let i = choose|i: int|
                    0 <= i < templates.len() && template_name(#[trigger] templates[i]) is None
                        && query::query_outcome(
                        query::template_view(templates[i], variables),
                        query,
                        scan,
                    ) is Ok;
                let j = lemma_place_of_unnamed(templates, variables, i);
                assert(query::query_outcome(whitelist.unnamed[j], query, scan) is Ok);
            }
        },
    }
}

/// Just the text of the ping, with any white space around it, is a ping.
pub proof fn law_pings(query: Seq<char>)
    ensures
        is_ping_query(query) <==> exists|before: Seq<char>, after: Seq<char>|
            #[trigger]
            text::is_blank(before) && #[trigger] text::is_blank(after) && query == before
                + "-- ping"@ + after,
{
    reveal_strlit("-- ping");
    if is_ping_query(query) {
        let (before, after) = text::law_trimmed_text_is_the_core(query);
        assert(text::is_blank(before) && text::is_blank(after));
    }
    if exists|before: Seq<char>, after: Seq<char>|
        #[trigger]
        text::is_blank(before) && #[trigger] text::is_blank(after) && query == before + "-- ping"@
            + after {
        let (before, after) = choose|before: Seq<char>, after: Seq<char>|
            #[trigger]
            text::is_blank(before) && #[trigger] text::is_blank(after) && query == before
                + "-- ping"@ + after;
        assert("-- ping"@.first() == '-' && "-- ping"@.last() == 'g');
        text::law_trimming_takes_the_space_around(before, "-- ping"@, after);
    }
}

/// Without the whitelist a ping passes, any other query of a connection without a dashboard is
/// refused for want of one, and nothing is said of the rest.
pub proof fn law_early_decisions(has_scope: bool, query: Seq<char>)
    ensures
        early_decision(has_scope, query) is None <==> has_scope && !is_ping_query(query),
        is_ping_query(query) ==> early_decision(has_scope, query) == Some(
            Ok::<(), AccessErrorView>(()),
        ),
        !is_ping_query(query) && !has_scope ==> early_decision(has_scope, query) == Some(
            Err::<(), AccessErrorView>(AccessErrorView::MissingScope),
        ),
{
}

/// Where the whitelist could not be had, every query is refused with the reason for that.
pub proof fn law_unavailable_whitelists_refuse(
    message: String,
    query: Seq<char>,
    scan: Result<ScanResult, ScanError>,
)
    ensures
        lookup_decision(Err(message), query, scan) == Err::<(), AccessErrorView>(
            AccessErrorView::WhitelistUnavailable(message@),
        ),
{
}

/// Where the whitelist was fetched, it decides.
pub proof fn law_fetched_whitelists_decide(
    whitelist: QueryWhitelist,
    templates: Seq<Seq<char>>,
    variables: VariableViews,
    i: int,
    query: Seq<char>,
    result: ScanResult,
)
    requires
        whitelist@ == whitelist_of(templates, variables),
        segments::tokens_fit(text::trimmed(query), result.tokens@),
    ensures
        lookup_decision(Ok(whitelist), query, Ok(result)) is Ok ==> exists|i: int|
            0 <= i < templates.len() && template_name(#[trigger] templates[i])
                == query::name_of_query(query) && follows(
                query,
                result.tokens@,
                templates[i],
                variables,
            ),
        0 <= i < templates.len() && is_first_of_its_name(templates, i) && template_name(
            templates[i],
        ) == query::name_of_query(query) && follows(query, result.tokens@, templates[i], variables)
            ==> lookup_decision(Ok(whitelist), query, Ok(result)) is Ok,
{
    if whitelist_decision(whitelist@, query, Ok(result)) is Ok {
        law_passing_queries_follow_a_template(templates, variables, query, result);
    }
    if 0 <= i < templates.len() && is_first_of_its_name(templates, i) && template_name(templates[i])
        == query::name_of_query(query) && follows(query, result.tokens@, templates[i], variables) {
        law_queries_that_follow_a_template_pass(templates, variables, i, query, result);
    }
}

} // verus!
