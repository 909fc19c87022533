//! Grafana, from whose dashboards the whitelist is made.
use vstd::prelude::*;

use crate::config::GrafanaConfig;
use crate::decimal;
use crate::provider::url;
use crate::text;

verus! {

/// How many dashboards one page of search results holds.
pub const SEARCH_PAGE_SIZE: usize = 1000;

/// A query of a panel.
#[derive(Debug)]
pub struct Target {
    pub hide: bool,
    pub raw_sql: Option<String>,
}

/// A panel: its queries, and the panels inside it.
#[derive(Debug)]
pub struct Panel {
    pub panels: Vec<Panel>,
    pub targets: Vec<Target>,
}

/// A dashboard: its panels.
#[derive(Debug)]
pub struct Dashboard {
    pub panels: Vec<Panel>,
}

/// The query of a target that is shown and whose query is not blank.
pub open spec fn target_query(target: Target) -> Option<Seq<char>> {
    match target.raw_sql {
        Some(query) => if !target.hide && text::trimmed(query@).len() > 0 {
            Some(query@)
        } else {
            None
        },
        None => None,
    }
}

/// The queries of targets, in order.
pub open spec fn target_queries(targets: Seq<Target>) -> Seq<Seq<char>>
    decreases targets.len(),
{
    if targets.len() == 0 {
        seq![]
    } else {
        let before = target_queries(targets.drop_last());
        match target_query(targets.last()) {
            Some(query) => before.push(query),
            None => before,
        }
    }
}

/// The queries of a panel: its own, and then those of the panels inside it.
pub open spec fn panel_queries(panel: Panel) -> Seq<Seq<char>>
    decreases panel,
{
    target_queries(panel.targets@) + panels_queries(panel.panels@)
}

/// The queries of panels, in order.
pub open spec fn panels_queries(panels: Seq<Panel>) -> Seq<Seq<char>>
    decreases panels,
{
    if panels.len() == 0 {
        seq![]
    } else {
        panels_queries(panels.drop_last()) + panel_queries(panels.last())
    }
}

/// The queries of a dashboard.
pub open spec fn dashboard_queries(dashboard: Dashboard) -> Seq<Seq<char>> {
    panels_queries(dashboard.panels@)
}

impl Panel {
    /// Adds the panel's queries to `queries`.
    pub fn append_queries(&self, queries: &mut Vec<String>)
        ensures
            text::string_views(final(queries)@) == text::string_views(old(queries)@)
                + panel_queries(*self),
        decreases self,
    {
        let ghost before = text::string_views(queries@);
        assert(before + target_queries(self.targets@.take(0)) =~= before);
        for i in 0..self.targets.len()
            invariant
                text::string_views(queries@) == before + target_queries(self.targets@.take(i as int)),
        {
            let target = &self.targets[i];
            proof {
                assert(self.targets@.take(i + 1).drop_last() =~= self.targets@.take(i as int));
            }
            let ghost so_far = text::string_views(queries@);
            if !target.hide {
                if let Some(query) = &target.raw_sql {
                    if !text::trim(query.as_str()).is_empty() {
                        queries.push(query.clone());
                        assert(text::string_views(queries@) =~= so_far.push(query@));
                    }
                }
            }
            assert(text::string_views(queries@) =~= before + target_queries(
                self.targets@.take(i + 1),
            ));
        }
        assert(self.targets@.take(self.targets@.len() as int) =~= self.targets@);
        let ghost own = text::string_views(queries@);
        assert(own + panels_queries(self.panels@.take(0)) =~= own);
        for i in 0..self.panels.len()
            invariant
                text::string_views(queries@) == own + panels_queries(self.panels@.take(i as int)),
        {
            proof {
                assert(self.panels@.take(i + 1).drop_last() =~= self.panels@.take(i as int));
                assert(decreases_to!(self => self.panels@[i as int]));
            }
            self.panels[i].append_queries(queries);
            assert(text::string_views(queries@) =~= own + panels_queries(self.panels@.take(i + 1)));
        }
        assert(self.panels@.take(self.panels@.len() as int) =~= self.panels@);
        assert(text::string_views(queries@) =~= before + panel_queries(*self));
    }
}

impl Dashboard {
    /// Adds the dashboard's queries to `queries`.
    pub fn append_queries(&self, queries: &mut Vec<String>)
        ensures
            text::string_views(final(queries)@) == text::string_views(old(queries)@)
                + dashboard_queries(*self),
    {
        let ghost before = text::string_views(queries@);
        assert(before + panels_queries(self.panels@.take(0)) =~= before);
        for i in 0..self.panels.len()
            invariant
                text::string_views(queries@) == before + panels_queries(self.panels@.take(i as int)),
        {
            proof {
                assert(self.panels@.take(i + 1).drop_last() =~= self.panels@.take(i as int));
            }
            self.panels[i].append_queries(queries);
            assert(text::string_views(queries@) =~= before + panels_queries(
                self.panels@.take(i + 1),
            ));
        }
        assert(self.panels@.take(self.panels@.len() as int) =~= self.panels@);
    }
}

/// The queries of dashboards, in order.
pub open spec fn dashboards_queries(dashboards: Seq<Dashboard>) -> Seq<Seq<char>>
    decreases dashboards.len(),
{
    if dashboards.len() == 0 {
        seq![]
    } else {
        dashboards_queries(dashboards.drop_last()) + dashboard_queries(dashboards.last())
    }
}

/// `s` without the slashes at its end.
pub open spec fn trim_slashes(s: Seq<char>) -> Seq<char>
    decreases s.len(),
{
    if s.len() > 0 && s.last() == '/' {
        trim_slashes(s.drop_last())
    } else {
        s
    }
}

proof fn lemma_trim_slashes(s: Seq<char>, n: int)
    requires
        0 <= n <= s.len(),
        forall|i: int| n <= i < s.len() ==> #[trigger] s[i] == '/',
        n > 0 ==> s[n - 1] != '/',
    ensures
        trim_slashes(s) == s.take(n),
    decreases s.len() - n,
{
    if n < s.len() {
        assert(s[s.len() - 1] == '/');
        assert forall|i: int| n <= i < s.len() - 1 implies #[trigger] s.drop_last()[i] == '/' by {
            assert(s.drop_last()[i] == s[i]);
        }
        lemma_trim_slashes(s.drop_last(), n);
        assert(s.drop_last().take(n) =~= s.take(n));
    } else {
        assert(s.take(n) =~= s);
    }
}

/// `s` without the slashes at its end.
pub fn without_trailing_slashes(s: &str) -> (res: &str)
    ensures
        res@ == trim_slashes(s@),
{
    let chars = text::chars(s);
    let mut end: usize = chars.len();
    while end > 0 && chars[end - 1] == '/'
        invariant
            chars@ == s@,
            end <= chars@.len(),
            forall|i: int| end <= i < s@.len() ==> #[trigger] s@[i] == '/',
        decreases end,
    {
        end = end - 1;
    }
    proof {
        lemma_trim_slashes(s@, end as int);
        assert(s@.subrange(0, end as int) =~= s@.take(end as int));
    }
    s.substring_char(0, end)
}

/// What is wrong with the configured URL of Grafana.
#[derive(Debug, PartialEq, Eq)]
pub enum GrafanaUrlError {
    /// It is no URL; the message says why.
    Invalid(String),
    /// Paths cannot be put behind it.
    CannotBeBase,
}

/// An error, its message taken as a sequence of characters.
pub enum GrafanaUrlErrorView {
    Invalid(Seq<char>),
    CannotBeBase,
}

impl View for GrafanaUrlError {
    type V = GrafanaUrlErrorView;

    open spec fn view(&self) -> GrafanaUrlErrorView {
        match self {
            GrafanaUrlError::Invalid(message) => GrafanaUrlErrorView::Invalid(message@),
            GrafanaUrlError::CannotBeBase => GrafanaUrlErrorView::CannotBeBase,
        }
    }
}

/// The URL behind which Grafana's paths are put, given what became of parsing the configured one:
/// its query, its fragment and the slashes at its end do not count.
pub open spec fn base_url_of(parsed: Result<Seq<char>, Seq<char>>) -> Result<
    Seq<char>,
    GrafanaUrlErrorView,
> {
    match parsed {
        Err(message) => Err(GrafanaUrlErrorView::Invalid(message)),
        Ok(text) => if url::can_be_base(text) {
            Ok(trim_slashes(url::without_fragment(url::without_query(text))))
        } else {
            Err(GrafanaUrlErrorView::CannotBeBase)
        },
    }
}

/// Grafana as a source of query templates: where it is and how to sign in.
#[derive(Debug)]
pub struct GrafanaProvider {
    pub base_url: String,
    pub username: String,
    pub password: String,
}

impl GrafanaProvider {
    /// The Grafana of a configuration.
    pub fn new(config: &GrafanaConfig) -> (res: Result<Self, GrafanaUrlError>)
        ensures
            match res {
                Ok(provider) => base_url_of(url::url_parsed(config.url@)) == Ok::<
                    Seq<char>,
                    GrafanaUrlErrorView,
                >(provider.base_url@) && provider.username@ == config.username@
                    && provider.password@ == config.password@,
                Err(error) => base_url_of(url::url_parsed(config.url@)) == Err::<
                    Seq<char>,
                    GrafanaUrlErrorView,
                >(error@),
            },
    {
        let mut base_url = match url::parse_url(config.url.as_str()) {
            Ok(base_url) => base_url,
            Err(message) => {
                return Err(GrafanaUrlError::Invalid(message));
            },
        };
        if url::cannot_be_a_base(&base_url) {
            return Err(GrafanaUrlError::CannotBeBase);
        }
        url::clear_query(&mut base_url);
        url::clear_fragment(&mut base_url);
        Ok(
            GrafanaProvider {
                base_url: without_trailing_slashes(url::url_str(&base_url)).to_owned(),
                username: config.username.clone(),
                password: config.password.clone(),
            },
        )
    }

    /// Where page number `page` of the list of all dashboards is.
    pub fn search_url(&self, page: u64) -> (res: String)
        ensures
            res@ == self.base_url@ + "/api/search?type=dash-db&limit="@ + decimal::decimal(
                SEARCH_PAGE_SIZE as nat,
            ) + "&page="@ + decimal::decimal(page as nat),
    {
        let mut res = self.base_url.clone();
        res.append("/api/search?type=dash-db&limit=");
        decimal::append_decimal(&mut res, SEARCH_PAGE_SIZE as u64);
        res.append("&page=");
        decimal::append_decimal(&mut res, page);
        res
    }

    /// Where the dashboard `uid` is.
    pub fn dashboard_url(&self, uid: &str) -> (res: String)
        ensures
            res@ == self.base_url@ + "/api/dashboards/uid/"@ + uid@,
    {
        let mut res = self.base_url.clone();
        res.append("/api/dashboards/uid/");
        res.append(uid);
        res
    }

    /// The query templates of `dashboards`. The ping that clients send is always one of them.
    pub fn query_templates(dashboards: &Vec<Dashboard>) -> (queries: Vec<String>)
        ensures
            text::string_views(queries@) == seq!["-- ping"@] + dashboards_queries(dashboards@),
    {
        let mut queries: Vec<String> = Vec::new();
        queries.push("-- ping".to_owned());
        assert(text::string_views(queries@) =~= seq!["-- ping"@]);
        assert(seq!["-- ping"@] + dashboards_queries(dashboards@.take(0)) =~= seq!["-- ping"@]);
        for i in 0..dashboards.len()
            invariant
                text::string_views(queries@) == seq!["-- ping"@] + dashboards_queries(
                    dashboards@.take(i as int),
                ),
        {
            proof {
                assert(dashboards@.take(i + 1).drop_last() =~= dashboards@.take(i as int));
            }
            dashboards[i].append_queries(&mut queries);
            assert(text::string_views(queries@) =~= seq!["-- ping"@] + dashboards_queries(
                dashboards@.take(i + 1),
            ));
        }
        assert(dashboards@.take(dashboards@.len() as int) =~= dashboards@);
        queries
    }
}

/// Where a walk through search results is after a page with the given results: the page to ask for
/// next, and the dashboards found so far. A page that is not full is the last.
pub open spec fn search_step(
    page: int,
    uids: Seq<Seq<char>>,
    results: Seq<Seq<char>>,
) -> (int, Seq<Seq<char>>) {
    if results.len() < SEARCH_PAGE_SIZE {
        (page, uids + results)
    } else {
        (page + 1, uids + results)
    }
}

/// How far a walk through the pages of search results has come.
#[derive(Debug)]
pub struct DashboardSearch {
    /// The number of the page to ask for next.
    pub page: u64,
    /// The dashboards found so far.
    pub uids: Vec<String>,
}

impl DashboardSearch {
    /// A walk that begins at the first page.
    pub fn new() -> (res: Self)
        ensures
            res.page == 1,
            text::string_views(res.uids@) == Seq::<Seq<char>>::empty(),
    {
        let res = DashboardSearch { page: 1, uids: Vec::new() };
        assert(text::string_views(res.uids@) =~= Seq::<Seq<char>>::empty());
        res
    }

    /// Takes in the results of the page that was asked for, and says whether it was the last: a
    /// page that is not full.
    pub fn take_page(&mut self, results: Vec<String>) -> (last: bool)
        requires
            old(self).page < u64::MAX,
        ensures
            last == (results@.len() < SEARCH_PAGE_SIZE),
            (final(self).page as int, text::string_views(final(self).uids@)) == search_step(
                old(self).page as int,
                text::string_views(old(self).uids@),
                text::string_views(results@),
            ),
    {
        let last = results.len() < SEARCH_PAGE_SIZE;
        let mut results = results;
        let ghost (before, added) = (self.uids@, results@);
        self.uids.append(&mut results);
        assert(text::string_views(self.uids@) =~= text::string_views(before) + text::string_views(
            added,
        ));
        if !last {
            self.page = self.page + 1;
        }
        last
    }
}

/// Whether a target shows `query`: it is not hidden, its text is the query, and some character of
/// that is not white space.
pub open spec fn target_shows(target: Target, query: Seq<char>) -> bool {
    &&& !target.hide
    &&& target.raw_sql matches Some(text) && text@ == query
    &&& exists|i: int| 0 <= i < query.len() && !text::is_space(#[trigger] query[i])
}

/// Whether a panel, or a panel inside it at any depth, has a target that shows `query`.
pub open spec fn shows(panel: Panel, query: Seq<char>) -> bool
    decreases panel,
{
    ||| exists|i: int|
        0 <= i < panel.targets@.len() && target_shows(#[trigger] panel.targets@[i], query)
    ||| any_shows(panel.panels@, query)
}

/// Whether one of several panels, or a panel inside one of them, shows `query`.
pub open spec fn any_shows(panels: Seq<Panel>, query: Seq<char>) -> bool
    decreases panels,
{
    panels.len() > 0 && (any_shows(panels.drop_last(), query) || shows(panels.last(), query))
}

/// The query of a target is what it shows, and nothing where it shows nothing.
pub proof fn law_shown_targets_have_a_query(target: Target, query: Seq<char>)
    ensures
        target_query(target) == Some(query) <==> target_shows(target, query),
{
    let (before, after) = text::law_trimmed_text_is_the_core(query);
    if text::trimmed(query).len() == 0 {
        assert forall|i: int| 0 <= i < query.len() implies text::is_space(#[trigger] query[i]) by {
            if i < before.len() {
                assert(query[i] == before[i]);
            } else {
                assert(query[i] == after[i - before.len()]);
            }
        }
    } else {
        let i = before.len() as int;
        assert(query[i] == text::trimmed(query)[0]);
        assert(!text::is_space(query[i]));
    }
}

proof fn lemma_target_queries(targets: Seq<Target>, query: Seq<char>)
    ensures
        target_queries(targets).contains(query) <==> exists|i: int|
            0 <= i < targets.len() && target_shows(#[trigger] targets[i], query),
    decreases targets.len(),
{
    if targets.len() > 0 {
        let before = targets.drop_last();
        let last = targets.len() - 1;
        lemma_target_queries(before, query);
        assert(targets[last] == targets.last());
        law_shown_targets_have_a_query(targets[last], query);
        let so_far = target_queries(before);
        if target_queries(targets).contains(query) && !so_far.contains(query) {
            assert(target_shows(targets[last], query));
        }
        if so_far.contains(query) {
            let i = choose|i: int|
                0 <= i < before.len() && target_shows(#[trigger] before[i], query);
            assert(target_shows(targets[i], query));
            let j = choose|j: int| 0 <= j < so_far.len() && so_far[j] == query;
            assert(target_queries(targets)[j] == query);
        }
        if exists|i: int| 0 <= i < targets.len() && target_shows(#[trigger] targets[i], query) {
            let i = choose|i: int|
                0 <= i < targets.len() && target_shows(#[trigger] targets[i], query);
            if i < last {
                assert(target_shows(before[i], query));
            } else {
                assert(target_queries(targets).last() == query);
            }
        }
    }
}

proof fn lemma_contains_concat(a: Seq<Seq<char>>, b: Seq<Seq<char>>, query: Seq<char>)
    ensures
        (a + b).contains(query) <==> a.contains(query) || b.contains(query),
{
    if a.contains(query) {
        let i = choose|i: int| 0 <= i < a.len() && a[i] == query;
        assert((a + b)[i] == query);
    }
    if b.contains(query) {
        let i = choose|i: int| 0 <= i < b.len() && b[i] == query;
        assert((a + b)[a.len() + i] == query);
    }
    if (a + b).contains(query) {
        let i = choose|i: int| 0 <= i < (a + b).len() && (a + b)[i] == query;
        if i < a.len() {
            assert(a[i] == query);
        } else {
            assert(b[i - a.len()] == query);
        }
    }
}

/// Just the queries that a panel shows are collected from it: not those of hidden targets, not
/// blank ones, and those of the panels inside it at any depth.
pub proof fn law_shown_queries_are_collected(panel: Panel, query: Seq<char>)
    ensures
        panel_queries(panel).contains(query) <==> shows(panel, query),
    decreases panel,
{
    lemma_target_queries(panel.targets@, query);
    law_shown_queries_of_panels_are_collected(panel.panels@, query);
    lemma_contains_concat(
        target_queries(panel.targets@),
        panels_queries(panel.panels@),
        query,
    );
}

/// Just the queries that some panel shows are collected from several panels, as from those of a
/// dashboard.
pub proof fn law_shown_queries_of_panels_are_collected(panels: Seq<Panel>, query: Seq<char>)
    ensures
        panels_queries(panels).contains(query) <==> any_shows(panels, query),
    decreases panels,
{
    if panels.len() > 0 {
        law_shown_queries_of_panels_are_collected(panels.drop_last(), query);
        law_shown_queries_are_collected(panels.last(), query);
        lemma_contains_concat(
            panels_queries(panels.drop_last()),
            panel_queries(panels.last()),
            query,
        );
    }
}

/// Where a walk through search results is after several pages.
pub open spec fn search_walk(pages: Seq<Seq<Seq<char>>>) -> (int, Seq<Seq<char>>)
    decreases pages.len(),
{
    if pages.len() == 0 {
        (1, seq![])
    } else {
        let (page, uids) = search_walk(pages.drop_last());
        search_step(page, uids, pages.last())
    }
}

proof fn lemma_full_pages(pages: Seq<Seq<Seq<char>>>)
    requires
        forall|i: int| 0 <= i < pages.len() ==> (#[trigger] pages[i]).len() >= SEARCH_PAGE_SIZE,
    ensures
        search_walk(pages) == (1 + pages.len() as int, pages.flatten()),
    decreases pages.len(),
{
    if pages.len() > 0 {
        let before = pages.drop_last();
        assert forall|i: int| 0 <= i < before.len() implies (#[trigger] before[i]).len()
            >= SEARCH_PAGE_SIZE by {
            assert(before[i] == pages[i]);
        }
        assert(pages.last() == pages[pages.len() - 1]);
        lemma_full_pages(before);
        pages.lemma_flatten_and_flatten_alt_are_equivalent();
        before.lemma_flatten_and_flatten_alt_are_equivalent();
    }
}

/// A walk that goes on up to the first page that is not full asks for every page once, in order,
/// and finds all that the pages hold, in order.
pub proof fn law_search_collects_every_page(pages: Seq<Seq<Seq<char>>>)
    requires
        pages.len() > 0,
        forall|i: int| 0 <= i < pages.len() - 1 ==> (#[trigger] pages[i]).len() >= SEARCH_PAGE_SIZE,
        pages.last().len() < SEARCH_PAGE_SIZE,
    ensures
        search_walk(pages) == (pages.len() as int, pages.flatten()),
        forall|n: int|
            0 <= n < pages.len() ==> (#[trigger] search_walk(pages.take(n))).0 == n + 1,
{
    assert forall|n: int| 0 <= n < pages.len() implies #[trigger] search_walk(pages.take(n)) == (
        n + 1,
        pages.take(n).flatten(),
    ) by {
        let before = pages.take(n);
        assert forall|i: int| 0 <= i < before.len() implies (#[trigger] before[i]).len()
            >= SEARCH_PAGE_SIZE by {
            assert(before[i] == pages[i]);
        }
        lemma_full_pages(before);
    }
    let before = pages.drop_last();
    assert(before =~= pages.take(pages.len() - 1));
    assert(search_walk(pages.take(pages.len() - 1)) == (pages.len() as int, before.flatten()));
    pages.lemma_flatten_and_flatten_alt_are_equivalent();
    before.lemma_flatten_and_flatten_alt_are_equivalent();
}

proof fn lemma_trim_slashes_keeps(s: Seq<char>)
    ensures
        trim_slashes(s).is_prefix_of(s),
        trim_slashes(s).len() > 0 ==> trim_slashes(s).last() != '/',
    decreases s.len(),
{
    if s.len() > 0 && s.last() == '/' {
        lemma_trim_slashes_keeps(s.drop_last());
    }
}

/// The URL behind which Grafana's paths are put is the beginning of the configured one, has no
/// query and no fragment, and does not end in a slash.
pub proof fn law_base_url_is_bare(parsed: Result<Seq<char>, Seq<char>>)
    ensures
        base_url_of(parsed) matches Ok(base) ==> {
            &&& parsed matches Ok(text) && base.is_prefix_of(text)
            &&& !base.contains('?')
            &&& !base.contains('#')
            &&& base.len() > 0 ==> base.last() != '/'
        },
{
    if let Ok(base) = base_url_of(parsed) {
        let text = parsed->Ok_0;
        let front = url::before_char(text, '#');
        let head = url::before_char(front, '?');
        url::lemma_without_both(text);
        url::lemma_before_char(text, '#');
        url::lemma_before_char(front, '?');
        lemma_trim_slashes_keeps(head);
        assert(base =~= text.take(base.len() as int));
        assert forall|i: int| 0 <= i < base.len() implies base[i] != '?' && base[i] != '#' by {
            assert(base[i] == head[i] && head[i] == front[i]);
            assert(head.contains(head[i]) && front.contains(front[i]));
        }
    }
}

/// One target gives its query, if it shows one, and nothing else.
pub proof fn law_one_target_gives_one_query(target: Target, query: Seq<char>)
    ensures
        target_shows(target, query) ==> target_queries(seq![target]) == seq![query],
        (forall|other: Seq<char>| !target_shows(target, other)) ==> target_queries(seq![target])
            == Seq::<Seq<char>>::empty(),
{
    let one = seq![target];
    assert(one.drop_last() =~= seq![]);
    assert(one.last() == target);
    reveal_with_fuel(target_queries, 2);
    law_shown_targets_have_a_query(target, query);
    if target_shows(target, query) {
        assert(target_queries(one) =~= seq![query]);
    }
    if forall|other: Seq<char>| !target_shows(target, other) {
        if let Some(other) = target_query(target) {
            law_shown_targets_have_a_query(target, other);
            assert(target_shows(target, other));
        }
        assert(target_queries(one) =~= seq![]);
    }
}

/// Targets give their queries one after the other, each as often as it is shown.
pub proof fn law_targets_give_queries_in_order(a: Seq<Target>, b: Seq<Target>)
    ensures
        target_queries(a + b) == target_queries(a) + target_queries(b),
    decreases b.len(),
{
    if b.len() > 0 {
        law_targets_give_queries_in_order(a, b.drop_last());
        assert((a + b).drop_last() =~= a + b.drop_last());
        assert((a + b).last() == b.last());
        assert(target_queries(a + b) =~= target_queries(a) + target_queries(b));
    } else {
        assert(a + b =~= a);
        assert(target_queries(a) + target_queries(b) =~= target_queries(a));
    }
}

/// Panels give their queries one after the other, and each its own in front of those of the panels
/// inside it.
pub proof fn law_panels_give_queries_in_order(a: Seq<Panel>, b: Seq<Panel>, panel: Panel)
    ensures
        panels_queries(a + b) == panels_queries(a) + panels_queries(b),
        panels_queries(seq![panel]) == panel_queries(panel),
        panel_queries(panel) == target_queries(panel.targets@) + panels_queries(panel.panels@),
    decreases b.len(),
{
    let one = seq![panel];
    assert(one.drop_last() =~= seq![]);
    assert(one.last() == panel);
    reveal_with_fuel(panels_queries, 2);
    assert(panels_queries(Seq::<Panel>::empty()) =~= seq![]);
    assert(panels_queries(one) =~= panel_queries(panel));
    if b.len() > 0 {
        law_panels_give_queries_in_order(a, b.drop_last(), panel);
        assert((a + b).drop_last() =~= a + b.drop_last());
        assert((a + b).last() == b.last());
        assert(panels_queries(a + b) =~= panels_queries(a) + panels_queries(b));
    } else {
        assert(a + b =~= a);
        assert(panels_queries(a) + panels_queries(b) =~= panels_queries(a));
    }
}

/// Dashboards give the queries of their panels, one dashboard after the other.
pub proof fn law_dashboards_give_queries_in_order(
    a: Seq<Dashboard>,
    b: Seq<Dashboard>,
    dashboard: Dashboard,
)
    ensures
        dashboards_queries(a + b) == dashboards_queries(a) + dashboards_queries(b),
        dashboards_queries(seq![dashboard]) == panels_queries(dashboard.panels@),
        dashboard_queries(dashboard) == panels_queries(dashboard.panels@),
    decreases b.len(),
{
    let one = seq![dashboard];
    assert(one.drop_last() =~= seq![]);
    assert(one.last() == dashboard);
    reveal_with_fuel(dashboards_queries, 2);
    assert(dashboards_queries(one) =~= dashboard_queries(dashboard));
    if b.len() > 0 {
        law_dashboards_give_queries_in_order(a, b.drop_last(), dashboard);
        assert((a + b).drop_last() =~= a + b.drop_last());
        assert((a + b).last() == b.last());
        assert(dashboards_queries(a + b) =~= dashboards_queries(a) + dashboards_queries(b));
    } else {
        assert(a + b =~= a);
        assert(dashboards_queries(a) + dashboards_queries(b) =~= dashboards_queries(a));
    }
}

/// Just the queries that some panel of some dashboard shows are collected from dashboards.
pub proof fn law_shown_queries_of_dashboards_are_collected(
    dashboards: Seq<Dashboard>,
    query: Seq<char>,
)
    ensures
        dashboards_queries(dashboards).contains(query) <==> exists|i: int|
            0 <= i < dashboards.len() && any_shows((#[trigger] dashboards[i]).panels@, query),
    decreases dashboards.len(),
{
    if dashboards.len() > 0 {
        let before = dashboards.drop_last();
        let last = dashboards.len() - 1;
        assert(dashboards[last] == dashboards.last());
        law_shown_queries_of_dashboards_are_collected(before, query);
        law_shown_queries_of_panels_are_collected(dashboards.last().panels@, query);
        lemma_contains_concat(
            dashboards_queries(before),
            dashboard_queries(dashboards.last()),
            query,
        );
        if dashboards_queries(before).contains(query) {
            let i = choose|i: int|
                0 <= i < before.len() && any_shows((#[trigger] before[i]).panels@, query);
            assert(any_shows(dashboards[i].panels@, query));
        }
        if dashboard_queries(dashboards.last()).contains(query) {
            assert(any_shows(dashboards[last].panels@, query));
        }
        if exists|i: int|
            0 <= i < dashboards.len() && any_shows((#[trigger] dashboards[i]).panels@, query) {
            let i = choose|i: int|
                0 <= i < dashboards.len() && any_shows((#[trigger] dashboards[i]).panels@, query);
            if i < last {
                assert(any_shows(before[i].panels@, query));
            }
        }
    }
}

/// Whether `s` is made of slashes.
pub open spec fn is_slashes(s: Seq<char>) -> bool {
    forall|i: int| 0 <= i < s.len() ==> #[trigger] s[i] == '/'
}

/// What is taken from a URL to make it a base is just the slashes in front of its query and
/// fragment, and these: whatever stands in front of them stays.
pub proof fn law_base_url_keeps_the_rest(
    base: Seq<char>,
    slashes: Seq<char>,
    tail: Seq<char>,
)
    requires
        !base.contains('?'),
        !base.contains('#'),
        base.len() > 0 ==> base.last() != '/',
        is_slashes(slashes),
        tail.len() > 0 ==> tail[0] == '?' || tail[0] == '#',
    ensures
        url::can_be_base(base + slashes + tail) ==> base_url_of(Ok(base + slashes + tail)) == Ok::<
            Seq<char>,
            GrafanaUrlErrorView,
        >(base),
        !url::can_be_base(base + slashes + tail) ==> base_url_of(Ok(base + slashes + tail)) == Err::<
            Seq<char>,
            GrafanaUrlErrorView,
        >(GrafanaUrlErrorView::CannotBeBase),
{
    let text = base + slashes + tail;
    let front = base + slashes;
    let n = front.len() as int;
    assert forall|i: int| 0 <= i < n implies front[i] != '?' && front[i] != '#' by {
        if i < base.len() {
            assert(front[i] == base[i]);
            assert(base.contains(base[i]));
        } else {
            assert(front[i] == slashes[i - base.len()]);
        }
    }
    url::lemma_without_both(text);
    let before_fragment = url::before_char(text, '#');
    let head = url::before_char(before_fragment, '?');
    url::lemma_before_char(text, '#');
    url::lemma_before_char(before_fragment, '?');
    let f = before_fragment.len() as int;
    let h = head.len() as int;
    assert(f >= n) by {
        if f < n {
            assert(text[f] == front[f]);
        }
    }
    assert(h >= n) by {
        if h < n {
            assert(before_fragment[h] == text[h] && text[h] == front[h]);
        }
    }
    assert(h <= n) by {
        if h > n {
            assert(text[n] == tail[0]);
            assert(head[n] == before_fragment[n] && before_fragment[n] == text[n]);
            assert(head.contains(head[n]));
            assert(before_fragment.contains(before_fragment[n]));
        }
    }
    assert(head =~= front) by {
        assert forall|i: int| 0 <= i < n implies head[i] == front[i] by {
            assert(head[i] == before_fragment[i] && before_fragment[i] == text[i]);
        }
    }
    assert forall|i: int| base.len() <= i < front.len() implies #[trigger] front[i] == '/' by {
        assert(front[i] == slashes[i - base.len()]);
    }
    if base.len() > 0 {
        assert(front[base.len() - 1] == base.last());
    }
    lemma_trim_slashes(front, base.len() as int);
    assert(front.take(base.len() as int) =~= base);
}

/// A text that is no URL is refused with the reason why it is none.
pub proof fn law_invalid_urls_are_refused(message: Seq<char>)
    ensures
        base_url_of(Err(message)) == Err::<Seq<char>, GrafanaUrlErrorView>(
            GrafanaUrlErrorView::Invalid(message),
        ),
{
}

} // verus!
