//! URLs, as the `url` crate that `reqwest` brings along sees them.
//!
//! A URL is known by its text, which is what `Url::as_str` returns.
use reqwest::Url;
use vstd::prelude::*;

verus! {

#[verifier::external_type_specification]
#[verifier::external_body]
pub struct ExUrl(Url);

/// The text of a URL.
pub uninterp spec fn url_text(url: Url) -> Seq<char>;

/// The text of the URL that an input stands for, or what is wrong with the input.
pub uninterp spec fn url_parsed(input: Seq<char>) -> Result<Seq<char>, Seq<char>>;

/// The part of `s` in front of the first `c`, or all of it if there is none.
pub open spec fn before_char(s: Seq<char>, c: char) -> Seq<char>
    decreases s.len(),
{
    if s.len() == 0 || s.first() == c {
        seq![]
    } else {
        seq![s.first()] + before_char(s.drop_first(), c)
    }
}

/// The part of `s` from the first `c` on, or nothing if there is none.
pub open spec fn from_char(s: Seq<char>, c: char) -> Seq<char> {
    s.skip(before_char(s, c).len() as int)
}

/// Whether what follows the scheme of a URL begins with a slash, as it has to for the URL to
/// serve as a base.
pub open spec fn can_be_base(text: Seq<char>) -> bool {
    let rest = from_char(text, ':');
    rest.len() > 1 && rest[1] == '/'
}

/// A URL's text without its query; its fragment stays.
pub open spec fn without_query(text: Seq<char>) -> Seq<char> {
    before_char(before_char(text, '#'), '?') + from_char(text, '#')
}

/// A URL's text without its fragment.
pub open spec fn without_fragment(text: Seq<char>) -> Seq<char> {
    before_char(text, '#')
}

/// `Url::parse`.
///
/// Relied on: whether an input stands for a URL, and for which, depends on the input alone, and
/// so does what the error says.
#[verifier::external_body]
pub(crate) fn parse_url(input: &str) -> (res: Result<Url, String>)
    ensures
        match res {
            Ok(url) => url_parsed(input@) == Ok::<Seq<char>, Seq<char>>(url_text(url)),
            Err(message) => url_parsed(input@) == Err::<Seq<char>, Seq<char>>(message@),
        },
{
    Url::parse(input).map_err(|error| error.to_string())
}

/// `Url::as_str`.
///
/// Relied on: nothing but that it is a URL's text.
#[verifier::external_body]
pub(crate) fn url_str(url: &Url) -> (res: &str)
    ensures
        res@ == url_text(*url),
{
    url.as_str()
}

/// `Url::cannot_be_a_base`.
///
/// Relied on: a URL can be a base just if a slash follows the colon behind its scheme. A scheme
/// holds no colon, so that colon is the first in the URL's text.
#[verifier::external_body]
pub(crate) fn cannot_be_a_base(url: &Url) -> (res: bool)
    ensures
        res == !can_be_base(url_text(*url)),
{
    url.cannot_be_a_base()
}

/// `Url::set_query` without a query.
///
/// Relied on, of URLs that can be a base: the query is taken out and nothing else changes. It
/// reaches from the first question mark in front of the fragment to the fragment, and lies behind
/// the scheme and the slash that follows it.
#[verifier::external_body]
pub(crate) fn clear_query(url: &mut Url)
    requires
        can_be_base(url_text(*old(url))),
    ensures
        url_text(*final(url)) == without_query(url_text(*old(url))),
        can_be_base(url_text(*final(url))),
{
    url.set_query(None);
}

/// `Url::set_fragment` without a fragment.
///
/// Relied on, of URLs that can be a base: the fragment is taken out and nothing else changes. It
/// reaches from the first number sign to the end.
#[verifier::external_body]
pub(crate) fn clear_fragment(url: &mut Url)
    requires
        can_be_base(url_text(*old(url))),
    ensures
        url_text(*final(url)) == without_fragment(url_text(*old(url))),
{
    url.set_fragment(None);
}

pub proof fn lemma_before_char(s: Seq<char>, c: char)
    ensures
        before_char(s, c).len() <= s.len(),
        before_char(s, c) == s.take(before_char(s, c).len() as int),
        !before_char(s, c).contains(c),
        before_char(s, c).len() < s.len() ==> s[before_char(s, c).len() as int] == c,
    decreases s.len(),
{
    if s.len() > 0 && s.first() != c {
        lemma_before_char(s.drop_first(), c);
        let rest = before_char(s.drop_first(), c);
        assert(before_char(s, c) =~= s.take(before_char(s, c).len() as int));
        assert forall|i: int| 0 <= i < before_char(s, c).len() implies before_char(s, c)[i] != c by {
            if i > 0 {
                assert(before_char(s, c)[i] == rest[i - 1]);
                assert(rest.contains(rest[i - 1]));
            }
        }
    } else {
        assert(s.take(0) =~= seq![]);
    }
}

/// Taking out the query and then the fragment leaves what stands in front of both.
pub proof fn lemma_without_both(text: Seq<char>)
    ensures
        without_fragment(without_query(text)) == before_char(before_char(text, '#'), '?'),
{
    let front = before_char(text, '#');
    let head = before_char(front, '?');
    let tail = from_char(text, '#');
    lemma_before_char(text, '#');
    lemma_before_char(front, '?');
    assert forall|i: int| 0 <= i < head.len() implies head[i] != '#' by {
        assert(head[i] == front[i]);
        assert(front.contains(front[i]));
    }
    assert(tail.len() > 0 ==> tail[0] == '#');
    lemma_before_char_is(head + tail, '#', head.len() as int);
    assert((head + tail).take(head.len() as int) =~= head);
}

proof fn lemma_before_char_is(s: Seq<char>, c: char, n: int)
    requires
        0 <= n <= s.len(),
        forall|i: int| 0 <= i < n ==> #[trigger] s[i] != c,
        n < s.len() ==> s[n] == c,
    ensures
        before_char(s, c) == s.take(n),
    decreases n,
{
    if n > 0 {
        assert(s[0] != c);
        let rest = s.drop_first();
        assert forall|i: int| 0 <= i < n - 1 implies #[trigger] rest[i] != c by {
            assert(rest[i] == s[i + 1]);
        }
        lemma_before_char_is(rest, c, n - 1);
        assert(before_char(s, c) =~= s.take(n));
    } else {
        assert(s.take(0) =~= seq![]);
    }
}

} // verus!
