//! Query templates as lists of rules: fixed text, and variables between.
use vstd::prelude::*;
use vstd::utf8::*;

use crate::search::{self, NameMatch};
use crate::text;

verus! {

/// One rule of a query template.
#[derive(Debug, PartialEq, Eq)]
pub enum QueryPatternRule {
    Exact(String),
    Variable(String),
}

/// A rule, its string taken as a sequence of characters.
pub enum QueryRuleView {
    Exact(Seq<char>),
    Variable(Seq<char>),
}

impl View for QueryPatternRule {
    type V = QueryRuleView;

    open spec fn view(&self) -> QueryRuleView {
        match self {
            QueryPatternRule::Exact(text) => QueryRuleView::Exact(text@),
            QueryPatternRule::Variable(name) => QueryRuleView::Variable(name@),
        }
    }
}

impl Clone for QueryPatternRule {
    fn clone(&self) -> (res: Self)
        ensures
            res == *self,
    {
        match self {
            QueryPatternRule::Exact(text) => QueryPatternRule::Exact(text.clone()),
            QueryPatternRule::Variable(name) => QueryPatternRule::Variable(name.clone()),
        }
    }
}

/// The views of a template's rules.
pub open spec fn query_rule_views(rules: Seq<QueryPatternRule>) -> Seq<QueryRuleView> {
    rules.map_values(|r: QueryPatternRule| r@)
}

/// The length of the longest of `names` with which `s` begins and that has at most `limit`
/// characters; 0 if there is none.
pub open spec fn longest_name(names: Seq<Seq<char>>, s: Seq<char>, limit: int) -> int
    decreases limit,
{
    if limit <= 0 {
        0
    } else if limit <= s.len() && names.contains(s.take(limit)) {
        limit
    } else {
        longest_name(names, s, limit - 1)
    }
}

/// The length of the longest of `names` that stands in `s` at `at`; 0 if none does.
pub open spec fn name_at(names: Seq<Seq<char>>, s: Seq<char>, at: int) -> int {
    longest_name(names, s.skip(at), s.len() - at)
}

/// Where the first of `names` from `from` on begins; the end of the text if none follows.
pub open spec fn next_name(names: Seq<Seq<char>>, s: Seq<char>, from: int) -> int
    decreases s.len() - from,
{
    if from >= s.len() || name_at(names, s, from) > 0 {
        from
    } else {
        next_name(names, s, from + 1)
    }
}

pub proof fn lemma_longest_name(names: Seq<Seq<char>>, s: Seq<char>, limit: int)
    requires
        0 <= limit <= s.len(),
    ensures
        0 <= longest_name(names, s, limit) <= limit,
        longest_name(names, s, limit) > 0 ==> names.contains(
            s.take(longest_name(names, s, limit)),
        ),
        forall|n: int|
            longest_name(names, s, limit) < n <= limit ==> !names.contains(#[trigger] s.take(n)),
    decreases limit,
{
    if limit > 0 && !names.contains(s.take(limit)) {
        lemma_longest_name(names, s, limit - 1);
    }
}

pub proof fn lemma_next_name(names: Seq<Seq<char>>, s: Seq<char>, from: int)
    requires
        0 <= from <= s.len(),
    ensures
        from <= next_name(names, s, from) <= s.len(),
        forall|i: int| from <= i < next_name(names, s, from) ==> #[trigger] name_at(names, s, i) == 0,
        next_name(names, s, from) < s.len() ==> name_at(names, s, next_name(names, s, from)) > 0,
    decreases s.len() - from,
{
    if from < s.len() {
        lemma_longest_name(names, s.skip(from), s.len() - from);
        if name_at(names, s, from) == 0 {
            lemma_next_name(names, s, from + 1);
        }
    }
}

/// The rules of the template `s` from `from` on. Names are taken from left to right, and where
/// several stand in one place the longest is taken; what lies between is fixed text.
pub open spec fn pattern_from(names: Seq<Seq<char>>, s: Seq<char>, from: int) -> Seq<QueryRuleView>
    decreases s.len() - from,
    when 0 <= from
{
    if from >= s.len() {
        seq![]
    } else {
        proof {
            lemma_longest_name(names, s.skip(from), s.len() - from);
            lemma_next_name(names, s, from);
        }
        let len = name_at(names, s, from);
        if len > 0 {
            seq![QueryRuleView::Variable(s.subrange(from, from + len))] + pattern_from(
                names,
                s,
                from + len,
            )
        } else {
            let end = next_name(names, s, from);
            seq![QueryRuleView::Exact(s.subrange(from, end))] + pattern_from(names, s, end)
        }
    }
}

/// The rules of a query template in which `names` are the variables. Without variables the whole
/// template is one fixed text.
pub open spec fn template_pattern(names: Seq<Seq<char>>, template: Seq<char>) -> Seq<QueryRuleView> {
    if names.len() == 0 {
        seq![QueryRuleView::Exact(template)]
    } else {
        pattern_from(names, template, 0)
    }
}

/// A name that stands among the characters also stands among the bytes.
proof fn lemma_occurs(s: Seq<char>, name: Seq<char>, at: int)
    requires
        0 <= at,
        at + name.len() <= s.len(),
        s.subrange(at, at + name.len()) == name,
    ensures
        search::occurs_at(encode_utf8(s), encode_utf8(name), text::offset(s, at) as int),
        text::offset(s, at + name.len()) == text::offset(s, at) + encode_utf8(name).len(),
{
    let end = at + name.len();
    assert(s.take(end) =~= s.take(at) + name);
    text::lemma_encode_concat(s.take(at), name);
    text::lemma_cut(s, end);
    let (bytes, wanted) = (encode_utf8(s), encode_utf8(name));
    let from = text::offset(s, at) as int;
    assert(bytes.subrange(from, from + wanted.len()) =~= wanted) by {
        assert(bytes.take(text::offset(s, end) as int) == encode_utf8(s.take(at)) + wanted);
        assert forall|i: int| 0 <= i < wanted.len() implies bytes[from + i] == wanted[i] by {
            assert(bytes.take(text::offset(s, end) as int)[from + i] == wanted[i]);
        }
    }
}

/// A name that stands among the bytes also stands among the characters.
proof fn lemma_occurrence(s: Seq<char>, name: Seq<char>, pos: int) -> (at: int)
    requires
        name.len() > 0,
        search::occurs_at(encode_utf8(s), encode_utf8(name), pos),
    ensures
        0 <= at,
        at + name.len() <= s.len(),
        s.subrange(at, at + name.len()) == name,
        pos == text::offset(s, at),
        pos + encode_utf8(name).len() == text::offset(s, at + name.len()),
{
    let (bytes, wanted) = (encode_utf8(s), encode_utf8(name));
    vstd::utf8::encode_utf8_valid_utf8(s);
    vstd::utf8::encode_utf8_first_scalar(name);
    assert(bytes[pos] == bytes.subrange(pos, pos + wanted.len())[0]);
    vstd::utf8::is_char_boundary_iff_not_is_continuation_byte(bytes, pos);
    let at = text::lemma_boundary_is_cut(s, pos);
    text::lemma_cut(s, at);
    let rest = s.skip(at);
    assert(wanted =~= encode_utf8(rest).subrange(0, wanted.len() as int));
    text::lemma_prefix(rest, name);
    assert(s.subrange(at, at + name.len()) =~= rest.subrange(0, name.len() as int));
    lemma_occurs(s, name, at);
    at
}

/// No name stands among the characters where none begins among the bytes.
proof fn lemma_no_name(names: Seq<Seq<char>>, s: Seq<char>, from: int, to: int, at: int)
    requires
        search::no_name_between(names, encode_utf8(s), from, to),
        0 <= at < s.len(),
        from <= text::offset(s, at) < to,
    ensures
        name_at(names, s, at) == 0,
{
    lemma_longest_name(names, s.skip(at), s.len() - at);
    let len = name_at(names, s, at);
    if len > 0 {
        let name = s.skip(at).take(len);
        let n = choose|n: int| 0 <= n < names.len() && names[n] == name;
        assert(s.subrange(at, at + len) =~= name);
        lemma_occurs(s, name, at);
        assert(search::occurs_at(encode_utf8(s), encode_utf8(names[n]), text::offset(s, at) as int));
    }
}

/// Where no name begins between two places, the text between them is one stretch.
proof fn lemma_next_name_is(names: Seq<Seq<char>>, s: Seq<char>, from: int, to: int)
    requires
        0 <= from <= to <= s.len(),
        forall|i: int| from <= i < to ==> #[trigger] name_at(names, s, i) == 0,
        to < s.len() ==> name_at(names, s, to) > 0,
    ensures
        next_name(names, s, from) == to,
    decreases to - from,
{
    if from < to {
        assert(name_at(names, s, from) == 0);
        lemma_next_name_is(names, s, from + 1, to);
    }
}

/// The longest name at a place, by the bytes, is the longest by the characters.
proof fn lemma_longest_at(names: Seq<Seq<char>>, s: Seq<char>, at: int, m: int)
    requires
        0 <= at <= s.len(),
        0 <= m < names.len(),
        names[m].len() > 0,
        at + names[m].len() <= s.len(),
        s.subrange(at, at + names[m].len()) == names[m],
        forall|n: int|
            0 <= n < names.len() && #[trigger] search::occurs_at(
                encode_utf8(s),
                encode_utf8(names[n]),
                text::offset(s, at) as int,
            ) ==> encode_utf8(names[n]).len() <= encode_utf8(names[m]).len(),
    ensures
        name_at(names, s, at) == names[m].len(),
{
    let rest = s.skip(at);
    let len = name_at(names, s, at);
    let own = names[m].len() as int;
    lemma_longest_name(names, rest, s.len() - at);
    assert(rest.take(own) =~= names[m]);
    assert(names.contains(rest.take(own)));
    assert(len >= own);
    let name = rest.take(len);
    let n = choose|n: int| 0 <= n < names.len() && names[n] == name;
    assert(s.subrange(at, at + len) =~= name);
    lemma_occurs(s, name, at);
    lemma_occurs(s, names[m], at);
    assert(search::occurs_at(encode_utf8(s), encode_utf8(names[n]), text::offset(s, at) as int));
    if len > own {
        text::lemma_offset_of_take(s, at + own, at + len);
    }
}

/// The rules of `template`, given all the places in it where variables were found.
pub fn build_pattern(template: &str, names: &Vec<String>, found: &Vec<NameMatch>) -> (pattern: Vec<
    QueryPatternRule,
>)
    requires
        forall|n: int| 0 <= n < names@.len() ==> (#[trigger] names@[n])@.len() > 0,
        search::leftmost_longest(text::string_views(names@), encode_utf8(template@), found@),
    ensures
        query_rule_views(pattern@) == pattern_from(text::string_views(names@), template@, 0),
{
    let ghost views = text::string_views(names@);
    let ghost s = template@;
    let ghost bytes = encode_utf8(s);
    let mut pattern: Vec<QueryPatternRule> = Vec::new();
    let mut pos: usize = 0;
    let ghost mut k: int = 0;
    assert(s.take(0) =~= Seq::<char>::empty());
    assert(query_rule_views(pattern@) =~= seq![]);
    assert(query_rule_views(pattern@) + pattern_from(views, s, 0) =~= pattern_from(views, s, 0));
    for i in 0..found.len()
        invariant
            views == text::string_views(names@),
            s == template@,
            bytes == encode_utf8(s),
            forall|n: int| 0 <= n < names@.len() ==> (#[trigger] names@[n])@.len() > 0,
            search::leftmost_longest(views, bytes, found@),
            pos == search::search_start(found@, i as int),
            0 <= k <= s.len(),
            pos == text::offset(s, k),
            query_rule_views(pattern@) + pattern_from(views, s, k) == pattern_from(views, s, 0),
    {
        let m = found[i];
        let ghost at: int;
        let ghost len: int;
        proof {
            assert(search::is_next_match(views, bytes, found@, i as int));
            let name = views[m.name as int];
            assert(name == names@[m.name as int]@);
            at = lemma_occurrence(s, name, m.start as int);
            len = name.len() as int;
            lemma_longest_at(views, s, at, m.name as int);
            if at < k {
                text::lemma_offset_of_take(s, at, k);
            }
            assert forall|c: int| k <= c < at implies #[trigger] name_at(views, s, c) == 0 by {
                text::lemma_offset_of_take(s, k, c);
                text::lemma_offset_of_take(s, c, at);
                lemma_no_name(views, s, pos as int, m.start as int, c);
            }
            lemma_next_name_is(views, s, k, at);
            if k < at {
                assert(name_at(views, s, k) == 0);
            }
        }
        if pos < m.start {
            let ghost before = query_rule_views(pattern@);
            let exact = text::slice(template, pos, m.start).to_owned();
            pattern.push(QueryPatternRule::Exact(exact));
            proof {
                let view = QueryRuleView::Exact(s.subrange(k, at));
                assert(query_rule_views(pattern@) =~= before.push(view));
                assert(pattern_from(views, s, k) == seq![view] + pattern_from(views, s, at));
                assert(before + (seq![view] + pattern_from(views, s, at)) =~= before.push(view)
                    + pattern_from(views, s, at));
            }
        } else {
            proof {
                if k < at {
                    text::lemma_offset_of_take(s, k, at);
                }
                assert(k == at);
            }
        }
        let ghost before = query_rule_views(pattern@);
        pattern.push(QueryPatternRule::Variable(names[m.name].clone()));
        proof {
            let view = QueryRuleView::Variable(s.subrange(at, at + len));
            assert(query_rule_views(pattern@) =~= before.push(view));
            assert(pattern_from(views, s, at) == seq![view] + pattern_from(views, s, at + len));
            assert(before + (seq![view] + pattern_from(views, s, at + len)) =~= before.push(view)
                + pattern_from(views, s, at + len));
            k = at + len;
        }
        pos = m.end;
    }
    let size: usize = template.as_bytes().len();
    proof {
        text::lemma_cut(s, s.len() as int);
        assert(s.take(s.len() as int) =~= s);
        assert forall|c: int| k <= c < s.len() implies #[trigger] name_at(views, s, c) == 0 by {
            text::lemma_offset_of_take(s, k, c);
            text::lemma_offset_of_take(s, c, s.len() as int);
            lemma_no_name(views, s, pos as int, size as int, c);
        }
        lemma_next_name_is(views, s, k, s.len() as int);
    }
    if pos < size {
        let ghost before = query_rule_views(pattern@);
        let exact = text::slice(template, pos, size).to_owned();
        pattern.push(QueryPatternRule::Exact(exact));
        proof {
            let view = QueryRuleView::Exact(s.subrange(k, s.len() as int));
            assert(name_at(views, s, k) == 0);
            assert(query_rule_views(pattern@) =~= before.push(view));
            assert(pattern_from(views, s, s.len() as int) =~= seq![]);
            assert(pattern_from(views, s, k) =~= seq![view]);
            assert(before + seq![view] =~= before.push(view));
        }
    } else {
        proof {
            if k < s.len() {
                text::lemma_offset_of_take(s, k, s.len() as int);
            }
            assert(pattern_from(views, s, k) =~= seq![]);
            assert(query_rule_views(pattern@) + pattern_from(views, s, k) =~= query_rule_views(
                pattern@,
            ));
        }
    }
    pattern
}

/// The part of the template that a rule stands for.
pub open spec fn rule_text(rule: QueryRuleView) -> Seq<char> {
    match rule {
        QueryRuleView::Exact(text) => text,
        QueryRuleView::Variable(name) => name,
    }
}

/// The text that rules stand for, one after the other.
pub open spec fn pattern_text(rules: Seq<QueryRuleView>) -> Seq<char>
    decreases rules.len(),
{
    if rules.len() == 0 {
        seq![]
    } else {
        rule_text(rules.first()) + pattern_text(rules.drop_first())
    }
}

/// Where in the template rule number `i` begins.
pub open spec fn rule_start(rules: Seq<QueryRuleView>, i: int) -> int {
    pattern_text(rules.take(i)).len() as int
}

proof fn lemma_pattern_text(names: Seq<Seq<char>>, s: Seq<char>, from: int)
    requires
        0 <= from <= s.len(),
    ensures
        pattern_text(pattern_from(names, s, from)) == s.skip(from),
    decreases s.len() - from,
{
    let rules = pattern_from(names, s, from);
    if from < s.len() {
        lemma_longest_name(names, s.skip(from), s.len() - from);
        lemma_next_name(names, s, from);
        let len = name_at(names, s, from);
        let end = if len > 0 {
            from + len
        } else {
            next_name(names, s, from)
        };
        lemma_pattern_text(names, s, end);
        assert(rules.drop_first() =~= pattern_from(names, s, end));
        assert(rule_text(rules.first()) == s.subrange(from, end));
        assert(s.subrange(from, end) + s.skip(end) =~= s.skip(from));
    } else {
        assert(s.skip(from) =~= seq![]);
    }
}

/// The rules of a template spell the template: nothing of it is lost, and nothing is added.
pub proof fn law_pattern_spells_the_template(names: Seq<Seq<char>>, template: Seq<char>)
    ensures
        pattern_text(template_pattern(names, template)) == template,
{
    if names.len() == 0 {
        let rules = template_pattern(names, template);
        assert(rules.drop_first() =~= seq![]);
        assert(pattern_text(rules) =~= template) by {
            reveal_with_fuel(pattern_text, 2);
        }
    } else {
        lemma_pattern_text(names, template, 0);
        assert(template.skip(0) =~= template);
    }
}

/// Whether `rule`, which begins at `at` in the template `s`, is the right one there: for a variable
/// the longest of `names` that stands there, and for fixed text that no name begins in it.
pub open spec fn is_rule_at(
    rule: QueryRuleView,
    names: Seq<Seq<char>>,
    s: Seq<char>,
    at: int,
) -> bool {
    match rule {
        QueryRuleView::Variable(name) => {
            &&& names.contains(name)
            &&& name.is_prefix_of(s.skip(at))
            &&& forall|other: Seq<char>| #[trigger]
                names.contains(other) && other.is_prefix_of(s.skip(at)) ==> other.len()
                    <= name.len()
        },
        QueryRuleView::Exact(text) => forall|i: int, name: Seq<char>|
            at <= i < at + text.len() && #[trigger] names.contains(name) && name.len() > 0
                ==> !name.is_prefix_of(#[trigger] s.skip(i)),
    }
}

proof fn lemma_name_at(names: Seq<Seq<char>>, s: Seq<char>, at: int, name: Seq<char>)
    requires
        0 <= at <= s.len(),
        names.contains(name),
        name.is_prefix_of(s.skip(at)),
    ensures
        name.len() <= name_at(names, s, at),
{
    let rest = s.skip(at);
    lemma_longest_name(names, rest, s.len() - at);
    assert(rest.take(name.len() as int) =~= name);
}

proof fn lemma_rule_at(names: Seq<Seq<char>>, s: Seq<char>, from: int, i: int)
    requires
        0 <= from <= s.len(),
        0 <= i < pattern_from(names, s, from).len(),
    ensures
        ({
            let rules = pattern_from(names, s, from);
            is_rule_at(rules[i], names, s, from + rule_start(rules, i))
        }),
    decreases s.len() - from,
{
    let rules = pattern_from(names, s, from);
    lemma_longest_name(names, s.skip(from), s.len() - from);
    lemma_next_name(names, s, from);
    let len = name_at(names, s, from);
    let end = if len > 0 {
        from + len
    } else {
        next_name(names, s, from)
    };
    if i == 0 {
        assert(rules.take(0) =~= seq![]);
        if len > 0 {
            let name = s.subrange(from, end);
            assert(name =~= s.skip(from).take(len));
            assert(name =~= s.skip(from).subrange(0, name.len() as int));
            assert forall|other: Seq<char>| #[trigger]
                names.contains(other) && other.is_prefix_of(s.skip(from)) implies other.len()
                <= name.len() by {
                lemma_name_at(names, s, from, other);
            }
        } else {
            assert forall|j: int, name: Seq<char>|
                from <= j < end && #[trigger] names.contains(name) && name.len()
                    > 0 implies !name.is_prefix_of(#[trigger] s.skip(j)) by {
                assert(name_at(names, s, j) == 0);
                if name.is_prefix_of(s.skip(j)) {
                    lemma_name_at(names, s, j, name);
                }
            }
        }
    } else {
        let rest = pattern_from(names, s, end);
        assert(rules.drop_first() =~= rest);
        lemma_rule_at(names, s, end, i - 1);
        assert(rules.take(i).drop_first() =~= rest.take(i - 1));
        assert(rules.take(i).first() == rules.first());
        assert(rules[i] == rest[i - 1]);
    }
}

/// Variables are found from left to right, and where several names stand in one place the longest
/// is taken; no name begins in what is taken as fixed text.
pub proof fn law_leftmost_longest_name_is_taken(
    names: Seq<Seq<char>>,
    template: Seq<char>,
    i: int,
)
    requires
        0 <= i < template_pattern(names, template).len(),
    ensures
        ({
            let rules = template_pattern(names, template);
            is_rule_at(rules[i], names, template, rule_start(rules, i))
        }),
{
    if names.len() > 0 {
        lemma_rule_at(names, template, 0, i);
    }
}

proof fn lemma_not_split(names: Seq<Seq<char>>, s: Seq<char>, from: int, i: int)
    requires
        0 <= from <= s.len(),
        0 <= i < pattern_from(names, s, from).len(),
    ensures
        ({
            let rules = pattern_from(names, s, from);
            &&& rule_text(rules[i]).len() > 0
            &&& i + 1 < rules.len() ==> !(rules[i] is Exact && rules[i + 1] is Exact)
        }),
    decreases s.len() - from,
{
    let rules = pattern_from(names, s, from);
    lemma_longest_name(names, s.skip(from), s.len() - from);
    lemma_next_name(names, s, from);
    let len = name_at(names, s, from);
    let end = if len > 0 {
        from + len
    } else {
        next_name(names, s, from)
    };
    let rest = pattern_from(names, s, end);
    assert(rules.drop_first() =~= rest);
    if i == 0 {
        if rules.len() > 1 {
            assert(rules[1] == rest[0]);
            lemma_longest_name(names, s.skip(end), s.len() - end);
        }
    } else {
        lemma_not_split(names, s, end, i - 1);
        assert(rules[i] == rest[i - 1]);
        if i + 1 < rules.len() {
            assert(rules[i + 1] == rest[i]);
        }
    }
}

/// Fixed text between variables is one rule, and where there are variables no rule is empty.
pub proof fn law_rules_are_not_split(names: Seq<Seq<char>>, template: Seq<char>, i: int)
    ensures
        ({
            let rules = template_pattern(names, template);
            &&& 0 <= i < rules.len() && names.len() > 0 ==> rule_text(rules[i]).len() > 0
            &&& 0 <= i < rules.len() - 1 ==> !(rules[i] is Exact && rules[i + 1] is Exact)
        }),
{
    if names.len() > 0 && 0 <= i < template_pattern(names, template).len() {
        lemma_not_split(names, template, 0, i);
    }
}

} // verus!
