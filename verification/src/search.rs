//! Finding any of several names in a text.
//!
//! The search itself is done by the `aho_corasick` crate. A search reports matches that do not
//! overlap, from left to right: each is the leftmost one behind the match before it, and of the
//! names that begin there the longest.
use aho_corasick::{AhoCorasick, AhoCorasickBuilder, BuildError, MatchKind};
use vstd::prelude::*;
use vstd::utf8::*;

use crate::text;

verus! {

/// One place where a name was found: the name's number, and the bytes that it covers.
#[derive(Clone, Copy, Debug, PartialEq, Eq, Structural)]
pub struct NameMatch {
    pub name: usize,
    pub start: usize,
    pub end: usize,
}

/// Whether the bytes `name` stand in `text` at byte `at`.
pub open spec fn occurs_at(text: Seq<u8>, name: Seq<u8>, at: int) -> bool {
    0 <= at && at + name.len() <= text.len() && text.subrange(at, at + name.len()) == name
}

/// Where the search for match number `i` begins: behind the match before it.
pub open spec fn search_start(found: Seq<NameMatch>, i: int) -> int {
    if i <= 0 {
        0
    } else {
        found[i - 1].end as int
    }
}

/// Whether no name begins in `text` from byte `from` on and before byte `to`.
pub open spec fn no_name_between(
    names: Seq<Seq<char>>,
    text: Seq<u8>,
    from: int,
    to: int,
) -> bool {
    forall|at: int, n: int|
        from <= at < to && 0 <= n < names.len() ==> !#[trigger] occurs_at(
            text,
            encode_utf8(names[n]),
            at,
        )
}

/// Whether match number `i` is the leftmost match behind the one before it, and the longest that
/// begins where it does.
pub open spec fn is_next_match(
    names: Seq<Seq<char>>,
    text: Seq<u8>,
    found: Seq<NameMatch>,
    i: int,
) -> bool {
    let m = found[i];
    &&& m.name < names.len()
    &&& search_start(found, i) <= m.start
    &&& m.end == m.start + encode_utf8(names[m.name as int]).len()
    &&& occurs_at(text, encode_utf8(names[m.name as int]), m.start as int)
    &&& no_name_between(names, text, search_start(found, i), m.start as int)
    &&& forall|n: int|
        0 <= n < names.len() && #[trigger] occurs_at(text, encode_utf8(names[n]), m.start as int)
            ==> encode_utf8(names[n]).len() <= encode_utf8(names[m.name as int]).len()
}

/// Whether `found` are all the matches of a leftmost-longest search for `names` in `text`.
pub open spec fn leftmost_longest(
    names: Seq<Seq<char>>,
    text: Seq<u8>,
    found: Seq<NameMatch>,
) -> bool {
    &&& forall|i: int| 0 <= i < found.len() ==> #[trigger] is_next_match(names, text, found, i)
    &&& no_name_between(names, text, search_start(found, found.len() as int), text.len() as int)
}

#[verifier::external_type_specification]
#[verifier::external_body]
pub struct ExAhoCorasick(AhoCorasick);

#[verifier::external_type_specification]
#[verifier::external_body]
pub struct ExBuildError(BuildError);

/// The names that a searcher looks for, in the order of their numbers.
pub uninterp spec fn searcher_names(searcher: AhoCorasick) -> Seq<Seq<char>>;

/// Whether a searcher was made with `MatchKind::LeftmostLongest`.
pub uninterp spec fn searcher_prefers_longest(searcher: AhoCorasick) -> bool;

/// Whether a searcher for the names can be built: `AhoCorasickBuilder::build` refuses names that
/// are too many or too long for its tables.
pub uninterp spec fn searcher_builds(names: Seq<Seq<char>>) -> bool;

/// Builds a leftmost-longest searcher for `names` with `AhoCorasickBuilder::build`.
///
/// Relied on: a searcher that was built looks for just these names, and whether it can be built
/// depends on the names alone.
#[verifier::external_body]
pub(crate) fn build_searcher(names: &Vec<String>) -> (res: Result<AhoCorasick, BuildError>)
    ensures
        res is Ok <==> searcher_builds(text::string_views(names@)),
        res matches Ok(searcher) ==> searcher_names(searcher) == text::string_views(names@)
            && searcher_prefers_longest(searcher),
{
    AhoCorasickBuilder::new().match_kind(MatchKind::LeftmostLongest).build(names.iter())
}

/// All matches of `searcher` in `text`, from `AhoCorasick::find_iter`.
///
/// Relied on: the matches are those of a leftmost-longest search, as the documentation of
/// `MatchKind::LeftmostLongest` says. Empty names are left out: they would match between the other
/// matches.
#[verifier::external_body]
pub(crate) fn find_all(searcher: &AhoCorasick, text: &str) -> (found: Vec<NameMatch>)
    requires
        searcher_prefers_longest(*searcher),
        forall|n: int|
            0 <= n < searcher_names(*searcher).len() ==> (#[trigger] searcher_names(
                *searcher,
            )[n]).len() > 0,
    ensures
        leftmost_longest(searcher_names(*searcher), encode_utf8(text@), found@),
{
    searcher
        .find_iter(text)
        .map(|m| NameMatch { name: m.pattern().as_usize(), start: m.start(), end: m.end() })
        .collect()
}

} // verus!
