//! The language of variable templates.
//!
//! A template is fixed text with placeholders in it: `@@Token(NAME)@@` stands for one token of
//! the named type, `@@TokenAny(NAME,NAME)@@` for any run of tokens of the listed types, and
//! `@@Array(NAME)@@` for an array constructor whose elements are all tokens of the named type.
//! Whatever is not a well-formed placeholder is text.
use vstd::prelude::*;

use crate::text;

verus! {

/// One part of a template.
#[derive(Debug)]
pub enum Part {
    Text(String),
    Token(String),
    TokenAny(Vec<String>),
    Array(String),
}

/// A template's part, its strings taken as sequences of characters.
pub enum PartView {
    Text(Seq<char>),
    Token(Seq<char>),
    TokenAny(Seq<Seq<char>>),
    Array(Seq<char>),
}

impl View for Part {
    type V = PartView;

    open spec fn view(&self) -> PartView {
        match self {
            Part::Text(text) => PartView::Text(text@),
            Part::Token(name) => PartView::Token(name@),
            Part::TokenAny(names) => PartView::TokenAny(text::string_views(names@)),
            Part::Array(name) => PartView::Array(name@),
        }
    }
}

/// The views of a template's parts.
pub open spec fn part_views(parts: Seq<Part>) -> Seq<PartView> {
    parts.map_values(|p: Part| p@)
}

/// The characters of which token names are made.
pub open spec fn is_name_char(c: char) -> bool {
    ||| 'a' <= c <= 'z'
    ||| 'A' <= c <= 'Z'
    ||| '0' <= c <= '9'
    ||| c == '_'
}

/// Whether `literal` stands in `s` at `at`.
pub open spec fn literal_at(s: Seq<char>, at: int, literal: Seq<char>) -> bool {
    0 <= at && at + literal.len() <= s.len() && s.subrange(at, at + literal.len()) == literal
}

/// Where the name that begins at `from` ends: the first place from there on with no name
/// character.
pub open spec fn name_end(s: Seq<char>, from: int) -> int
    decreases s.len() - from,
{
    if 0 <= from < s.len() && is_name_char(s[from]) {
        name_end(s, from + 1)
    } else {
        from
    }
}

/// The names of the comma-separated list that begins at `from`, and where the list ends.
pub open spec fn name_list(s: Seq<char>, from: int) -> Option<(Seq<Seq<char>>, int)>
    decreases s.len() - from,
    when 0 <= from <= s.len()
{
    let end = name_end(s, from);
    if end <= from || end > s.len() {
        None
    } else if end < s.len() && s[end] == ',' {
        match name_list(s, end + 1) {
            Some((names, list_end)) => Some((seq![s.subrange(from, end)] + names, list_end)),
            None => None,
        }
    } else {
        Some((seq![s.subrange(from, end)], end))
    }
}

/// The placeholder that begins at `at`, if one does, and where it ends.
pub open spec fn placeholder_at(s: Seq<char>, at: int) -> Option<(PartView, int)> {
    if literal_at(s, at, "@@Token("@) {
        let end = name_end(s, at + 8);
        if end > at + 8 && literal_at(s, end, ")@@"@) {
            Some((PartView::Token(s.subrange(at + 8, end)), end + 3))
        } else {
            None
        }
    } else if literal_at(s, at, "@@Array("@) {
        let end = name_end(s, at + 8);
        if end > at + 8 && literal_at(s, end, ")@@"@) {
            Some((PartView::Array(s.subrange(at + 8, end)), end + 3))
        } else {
            None
        }
    } else if literal_at(s, at, "@@TokenAny("@) {
        match name_list(s, at + 11) {
            Some((names, end)) => if literal_at(s, end, ")@@"@) {
                Some((PartView::TokenAny(names), end + 3))
            } else {
                None
            },
            None => None,
        }
    } else {
        None
    }
}

/// Where the first placeholder from `from` on begins; the end of the template if none follows.
pub open spec fn next_placeholder(s: Seq<char>, from: int) -> int
    decreases s.len() - from,
{
    if from >= s.len() || placeholder_at(s, from) is Some {
        from
    } else {
        next_placeholder(s, from + 1)
    }
}

/// The parts of the template `s` from `from` on: its placeholders, and between them the longest
/// stretches of text.
pub open spec fn parts_from(s: Seq<char>, from: int) -> Seq<PartView>
    decreases s.len() - from,
    when 0 <= from
{
    if from >= s.len() {
        seq![]
    } else {
        proof {
            lemma_placeholder(s, from);
            lemma_next_placeholder(s, from);
        }
        match placeholder_at(s, from) {
            Some((part, end)) => seq![part] + parts_from(s, end),
            None => {
                let end = next_placeholder(s, from);
                seq![PartView::Text(s.subrange(from, end))] + parts_from(s, end)
            },
        }
    }
}

/// The parts of which a template is made.
pub open spec fn template_parts(s: Seq<char>) -> Seq<PartView> {
    parts_from(s, 0)
}

pub proof fn lemma_literals()
    ensures
        "@@Token("@.len() == 8,
        "@@Array("@.len() == 8,
        "@@TokenAny("@.len() == 11,
        ")@@"@.len() == 3,
{
    reveal_strlit("@@Token(");
    reveal_strlit("@@Array(");
    reveal_strlit("@@TokenAny(");
    reveal_strlit(")@@");
}

pub proof fn lemma_name_end(s: Seq<char>, from: int)
    requires
        0 <= from <= s.len(),
    ensures
        from <= name_end(s, from) <= s.len(),
        forall|i: int| from <= i < name_end(s, from) ==> is_name_char(#[trigger] s[i]),
        name_end(s, from) < s.len() ==> !is_name_char(s[name_end(s, from)]),
    decreases s.len() - from,
{
    if from < s.len() && is_name_char(s[from]) {
        lemma_name_end(s, from + 1);
    }
}

pub proof fn lemma_name_end_is(s: Seq<char>, from: int, end: int)
    requires
        0 <= from <= end <= s.len(),
        forall|i: int| from <= i < end ==> is_name_char(#[trigger] s[i]),
        end < s.len() ==> !is_name_char(s[end]),
    ensures
        name_end(s, from) == end,
    decreases end - from,
{
    if from < end {
        assert(is_name_char(s[from]));
        lemma_name_end_is(s, from + 1, end);
    }
}

pub proof fn lemma_name_list(s: Seq<char>, from: int)
    requires
        0 <= from <= s.len(),
    ensures
        name_list(s, from) matches Some((names, end)) ==> from < end <= s.len() && names.len() > 0,
    decreases s.len() - from,
{
    lemma_name_end(s, from);
    let end = name_end(s, from);
    if from < end < s.len() && s[end] == ',' {
        lemma_name_list(s, end + 1);
    }
}

pub proof fn lemma_placeholder(s: Seq<char>, at: int)
    requires
        0 <= at,
    ensures
        placeholder_at(s, at) matches Some((_, end)) ==> at < end <= s.len(),
{
    lemma_literals();
    if at + 8 <= s.len() {
        lemma_name_end(s, at + 8);
    }
    if at + 11 <= s.len() {
        lemma_name_list(s, at + 11);
    }
}

pub proof fn lemma_next_placeholder(s: Seq<char>, from: int)
    requires
        0 <= from <= s.len(),
    ensures
        from <= next_placeholder(s, from) <= s.len(),
        forall|i: int| from <= i < next_placeholder(s, from) ==> #[trigger] placeholder_at(s, i) is None,
        next_placeholder(s, from) < s.len() ==> placeholder_at(s, next_placeholder(s, from)) is Some,
    decreases s.len() - from,
{
    if from < s.len() && placeholder_at(s, from) is None {
        lemma_next_placeholder(s, from + 1);
    }
}

/// Whether `c` can stand in a token name.
fn name_char(c: char) -> (res: bool)
    ensures
        res == is_name_char(c),
{
    ('a' <= c && c <= 'z') || ('A' <= c && c <= 'Z') || ('0' <= c && c <= '9') || c == '_'
}

/// Whether `literal` stands in `s` at `at`.
fn has_literal(s: &Vec<char>, at: usize, literal: &str) -> (res: bool)
    requires
        at <= s@.len(),
    ensures
        res == literal_at(s@, at as int, literal@),
{
    let wanted = text::chars(literal);
    let size: usize = s.len();
    if wanted.len() > size - at {
        return false;
    }
    for i in 0..wanted.len()
        invariant
            wanted@ == literal@,
            size == s@.len(),
            at + wanted@.len() <= size,
            forall|j: int| 0 <= j < i ==> s@[at + j] == wanted@[j],
    {
        if s[at + i] != wanted[i] {
            assert(s@.subrange(at as int, at + literal@.len())[i as int] != literal@[i as int]);
            return false;
        }
    }
    assert(s@.subrange(at as int, at + literal@.len()) =~= literal@);
    true
}

/// Where the name that begins at `from` ends.
fn find_name_end(s: &Vec<char>, from: usize) -> (end: usize)
    requires
        from <= s@.len(),
    ensures
        end == name_end(s@, from as int),
        from <= end <= s@.len(),
{
    let mut end: usize = from;
    while end < s.len() && name_char(s[end])
        invariant
            from <= end <= s@.len(),
            forall|i: int| from <= i < end ==> is_name_char(#[trigger] s@[i]),
        decreases s@.len() - end,
    {
        end = end + 1;
    }
    proof {
        lemma_name_end_is(s@, from as int, end as int);
    }
    end
}

/// The names of the comma-separated list that begins at `from`, and where the list ends.
fn find_name_list(template: &str, s: &Vec<char>, from: usize) -> (res: Option<(Vec<String>, usize)>)
    requires
        s@ == template@,
        from <= s@.len(),
    ensures
        match res {
            Some((names, end)) => name_list(s@, from as int) == Some(
                (text::string_views(names@), end as int),
            ),
            None => name_list(s@, from as int) is None,
        },
{
    let mut names: Vec<String> = Vec::new();
    let mut pos: usize = from;
    loop
        invariant
            s@ == template@,
            from <= pos <= s@.len(),
            from <= s@.len(),
            match name_list(s@, pos as int) {
                Some((rest, end)) => name_list(s@, from as int) == Some(
                    (text::string_views(names@) + rest, end),
                ),
                None => name_list(s@, from as int) is None,
            },
        decreases s@.len() - pos,
    {
        let end = find_name_end(s, pos);
        if end == pos {
            return None;
        }
        let name = template.substring_char(pos, end).to_owned();
        let ghost before = text::string_views(names@);
        names.push(name);
        assert(text::string_views(names@) =~= before + seq![s@.subrange(pos as int, end as int)]);
        if end < s.len() && s[end] == ',' {
            proof {
                if let Some((rest, _)) = name_list(s@, end + 1) {
                    assert(before + (seq![s@.subrange(pos as int, end as int)] + rest)
                        =~= text::string_views(names@) + rest);
                }
            }
            pos = end + 1;
        } else {
            return Some((names, end));
        }
    }
}

/// The placeholder that begins at `at`, if one does, and where it ends.
fn find_placeholder(template: &str, s: &Vec<char>, at: usize) -> (res: Option<(Part, usize)>)
    requires
        s@ == template@,
        at < s@.len(),
    ensures
        match res {
            Some((part, end)) => placeholder_at(s@, at as int) == Some((part@, end as int)),
            None => placeholder_at(s@, at as int) is None,
        },
{
    proof {
        lemma_literals();
    }
    let size: usize = s.len();
    assert(size == s@.len());
    let is_token = has_literal(s, at, "@@Token(");
    if is_token || has_literal(s, at, "@@Array(") {
        let from: usize = at + 8;
        let end = find_name_end(s, from);
        if end > from && has_literal(s, end, ")@@") {
            let name = template.substring_char(from, end).to_owned();
            if is_token {
                Some((Part::Token(name), end + 3))
            } else {
                Some((Part::Array(name), end + 3))
            }
        } else {
            None
        }
    } else if has_literal(s, at, "@@TokenAny(") {
        proof {
            lemma_name_list(s@, at + 11);
        }
        match find_name_list(template, s, at + 11) {
            Some((names, end)) => if has_literal(s, end, ")@@") {
                Some((Part::TokenAny(names), end + 3))
            } else {
                None
            },
            None => None,
        }
    } else {
        None
    }
}

/// Splits variable templates into their parts.
pub struct Parser;

impl Parser {
    /// The parts of which `template` is made.
    pub fn parse(template: &str) -> (parts: Vec<Part>)
        ensures
            part_views(parts@) == template_parts(template@),
    {
        let s = text::chars(template);
        let mut parts: Vec<Part> = Vec::new();
        let mut pos: usize = 0;
        while pos < s.len()
            invariant
                s@ == template@,
                pos <= s@.len(),
                part_views(parts@) + parts_from(s@, pos as int) == template_parts(template@),
            decreases s@.len() - pos,
        {
            let ghost before = part_views(parts@);
            proof {
                lemma_placeholder(s@, pos as int);
            }
            match find_placeholder(template, &s, pos) {
                Some((part, end)) => {
                    let ghost view = part@;
                    parts.push(part);
                    proof {
                        assert(part_views(parts@) =~= before + seq![view]);
                        assert(before + (seq![view] + parts_from(s@, end as int)) =~= before + seq![
                            view,
                        ] + parts_from(s@, end as int));
                    }
                    pos = end;
                },
                None => {
                    let start: usize = pos;
                    pos = pos + 1;
                    while pos < s.len() && find_placeholder(template, &s, pos).is_none()
                        invariant
                            s@ == template@,
                            start < pos <= s@.len(),
                            next_placeholder(s@, start as int) == next_placeholder(s@, pos as int),
                        decreases s@.len() - pos,
                    {
                        pos = pos + 1;
                    }
                    let text = template.substring_char(start, pos).to_owned();
                    parts.push(Part::Text(text));
                    proof {
                        let view = PartView::Text(s@.subrange(start as int, pos as int));
                        assert(part_views(parts@) =~= before + seq![view]);
                        assert(before + (seq![view] + parts_from(s@, pos as int)) =~= before + seq![
                            view,
                        ] + parts_from(s@, pos as int));
                    }
                },
            }
        }
        assert(part_views(parts@) + parts_from(s@, pos as int) =~= part_views(parts@));
        parts
    }
}

/// A list of names, written with commas between them.
pub open spec fn join_names(names: Seq<Seq<char>>) -> Seq<char>
    decreases names.len(),
{
    if names.len() == 0 {
        seq![]
    } else if names.len() == 1 {
        names[0]
    } else {
        names[0] + seq![','] + join_names(names.drop_first())
    }
}

/// How a part is written in a template.
pub open spec fn part_text(part: PartView) -> Seq<char> {
    match part {
        PartView::Text(text) => text,
        PartView::Token(name) => "@@Token("@ + name + ")@@"@,
        PartView::Array(name) => "@@Array("@ + name + ")@@"@,
        PartView::TokenAny(names) => "@@TokenAny("@ + join_names(names) + ")@@"@,
    }
}

/// How a list of parts is written in a template.
pub open spec fn parts_text(parts: Seq<PartView>) -> Seq<char>
    decreases parts.len(),
{
    if parts.len() == 0 {
        seq![]
    } else {
        part_text(parts.first()) + parts_text(parts.drop_first())
    }
}

proof fn lemma_name_list_text(s: Seq<char>, from: int)
    requires
        0 <= from <= s.len(),
    ensures
        name_list(s, from) matches Some((names, end)) ==> join_names(names) == s.subrange(from, end),
    decreases s.len() - from,
{
    lemma_name_end(s, from);
    lemma_name_list(s, from);
    let end = name_end(s, from);
    if from < end < s.len() && s[end] == ',' {
        lemma_name_list_text(s, end + 1);
        lemma_name_list(s, end + 1);
        if let Some((names, list_end)) = name_list(s, end + 1) {
            let all = seq![s.subrange(from, end)] + names;
            assert(all.drop_first() =~= names);
            assert(join_names(all) =~= s.subrange(from, list_end));
        }
    }
}

proof fn lemma_placeholder_text(s: Seq<char>, at: int)
    requires
        0 <= at < s.len(),
    ensures
        placeholder_at(s, at) matches Some((part, end)) ==> part_text(part) == s.subrange(at, end),
{
    lemma_literals();
    if at + 8 <= s.len() {
        lemma_name_end(s, at + 8);
    }
    if at + 11 <= s.len() {
        lemma_name_list(s, at + 11);
        lemma_name_list_text(s, at + 11);
    }
    if let Some((part, end)) = placeholder_at(s, at) {
        assert(part_text(part) =~= s.subrange(at, end)) by {
            let open: int = if part is TokenAny { 11 } else { 8 };
            assert(s.subrange(at, end) =~= s.subrange(at, at + open) + s.subrange(at + open, end - 3)
                + s.subrange(end - 3, end));
        }
    }
}

proof fn lemma_parts_text(s: Seq<char>, from: int)
    requires
        0 <= from <= s.len(),
    ensures
        parts_text(parts_from(s, from)) == s.skip(from),
    decreases s.len() - from,
{
    if from < s.len() {
        lemma_placeholder(s, from);
        lemma_next_placeholder(s, from);
        lemma_placeholder_text(s, from);
        let end = match placeholder_at(s, from) {
            Some((_, end)) => end,
            None => next_placeholder(s, from),
        };
        lemma_parts_text(s, end);
        let parts = parts_from(s, from);
        assert(parts.drop_first() =~= parts_from(s, end));
        assert(s.subrange(from, end) + s.skip(end) =~= s.skip(from));
    } else {
        assert(s.skip(from) =~= Seq::<char>::empty());
    }
}

/// Nothing of a template is lost or changed when it is split: its parts, written one after the
/// other, are the template.
pub proof fn law_parts_spell_the_template(template: Seq<char>)
    ensures
        parts_text(template_parts(template)) == template,
{
    lemma_parts_text(template, 0);
    assert(template.skip(0) =~= template);
}

/// A template without a placeholder is one piece of text.
pub proof fn law_plain_template_is_text(template: Seq<char>)
    requires
        template.len() > 0,
        forall|i: int| 0 <= i < template.len() ==> #[trigger] placeholder_at(template, i) is None,
    ensures
        template_parts(template) == seq![PartView::Text(template)],
{
    lemma_next_placeholder(template, 0);
    assert(template.subrange(0, template.len() as int) =~= template);
    assert(parts_from(template, template.len() as int) =~= seq![]);
    assert(template_parts(template) =~= seq![PartView::Text(template)]);
}

/// Token names are made of the ASCII letters and digits and the underscore.
pub proof fn law_name_characters(c: char)
    ensures
        is_name_char(c) <==> {
            let code = c as u32;
            ||| 0x30 <= code <= 0x39
            ||| 0x41 <= code <= 0x5a
            ||| 0x61 <= code <= 0x7a
            ||| code == 0x5f
        },
{
}

/// Whether `s` can be a token name.
pub open spec fn is_name(s: Seq<char>) -> bool {
    s.len() > 0 && forall|i: int| 0 <= i < s.len() ==> is_name_char(#[trigger] s[i])
}

/// Whether a part is a placeholder, and one that can be written.
pub open spec fn is_placeholder(part: PartView) -> bool {
    match part {
        PartView::Text(_) => false,
        PartView::Token(name) => is_name(name),
        PartView::Array(name) => is_name(name),
        PartView::TokenAny(names) => names.len() > 0 && forall|i: int|
            0 <= i < names.len() ==> is_name(#[trigger] names[i]),
    }
}

proof fn lemma_name_stands(s: Seq<char>, from: int, name: Seq<char>)
    requires
        is_name(name),
        literal_at(s, from, name),
        from + name.len() < s.len(),
        !is_name_char(s[from + name.len()]),
    ensures
        name_end(s, from) == from + name.len(),
{
    let end = from + name.len();
    assert forall|i: int| from <= i < end implies is_name_char(#[trigger] s[i]) by {
        assert(s.subrange(from, end)[i - from] == s[i]);
        assert(name[i - from] == s[i]);
    }
    lemma_name_end_is(s, from, end);
}

proof fn lemma_literal_parts(s: Seq<char>, at: int, a: Seq<char>, b: Seq<char>)
    requires
        literal_at(s, at, a + b),
    ensures
        literal_at(s, at, a),
        literal_at(s, at + a.len(), b),
{
    let ab = a + b;
    let here = s.subrange(at, at + ab.len());
    assert(s.subrange(at, at + a.len()) =~= here.subrange(0, a.len() as int));
    assert(here.subrange(0, a.len() as int) =~= a);
    assert(s.subrange(at + a.len(), at + a.len() + b.len()) =~= here.subrange(
        a.len() as int,
        ab.len() as int,
    ));
    assert(here.subrange(a.len() as int, ab.len() as int) =~= b);
}

proof fn lemma_names_stand(s: Seq<char>, from: int, names: Seq<Seq<char>>)
    requires
        names.len() > 0,
        forall|i: int| 0 <= i < names.len() ==> is_name(#[trigger] names[i]),
        literal_at(s, from, join_names(names)),
        from + join_names(names).len() < s.len(),
        s[from + join_names(names).len()] == ')',
    ensures
        name_list(s, from) == Some((names, from + join_names(names).len())),
    decreases names.len(),
{
    let first = names[0];
    assert(is_name(first));
    if names.len() == 1 {
        lemma_name_stands(s, from, first);
        assert(name_list(s, from) == Some((seq![s.subrange(from, from + first.len())], from
            + first.len())));
        assert(names =~= seq![first]);
    } else {
        let rest = names.drop_first();
        let all = join_names(names);
        assert(all =~= first + (seq![','] + join_names(rest)));
        lemma_literal_parts(s, from, first, seq![','] + join_names(rest));
        lemma_literal_parts(s, from + first.len(), seq![','], join_names(rest));
        let comma = from + first.len();
        assert(s.subrange(comma, comma + 1)[0] == s[comma]);
        assert(s[comma] == ',');
        lemma_name_stands(s, from, first);
        assert forall|i: int| 0 <= i < rest.len() implies is_name(#[trigger] rest[i]) by {
            assert(rest[i] == names[i + 1]);
        }
        lemma_names_stand(s, comma + 1, rest);
        assert(seq![first] + rest =~= names);
    }
}

/// Where a placeholder is written, it is found, and it ends where its text ends.
pub proof fn law_written_placeholders_are_found(s: Seq<char>, at: int, part: PartView)
    requires
        is_placeholder(part),
        literal_at(s, at, part_text(part)),
    ensures
        placeholder_at(s, at) == Some((part, at + part_text(part).len())),
{
    reveal_strlit("@@Token(");
    reveal_strlit("@@Array(");
    reveal_strlit("@@TokenAny(");
    reveal_strlit(")@@");
    match part {
        PartView::Text(_) => {},
        PartView::Token(name) => {
            lemma_literal_parts(s, at, "@@Token("@ + name, ")@@"@);
            lemma_literal_parts(s, at, "@@Token("@, name);
            let end = at + 8 + name.len();
            assert(s.subrange(end, end + 3)[0] == s[end]);
            lemma_name_stands(s, at + 8, name);
        },
        PartView::Array(name) => {
            lemma_literal_parts(s, at, "@@Array("@ + name, ")@@"@);
            lemma_literal_parts(s, at, "@@Array("@, name);
            let end = at + 8 + name.len();
            assert(s.subrange(end, end + 3)[0] == s[end]);
            lemma_name_stands(s, at + 8, name);
            assert(s.subrange(at, at + 8)[2] == 'A');
            assert(!literal_at(s, at, "@@Token("@));
        },
        PartView::TokenAny(names) => {
            let list = join_names(names);
            lemma_literal_parts(s, at, "@@TokenAny("@ + list, ")@@"@);
            lemma_literal_parts(s, at, "@@TokenAny("@, list);
            let end = at + 11 + list.len();
            assert(s.subrange(end, end + 3)[0] == s[end]);
            lemma_names_stand(s, at + 11, names);
            assert(s.subrange(at, at + 11)[7] == 'A');
            assert(s.subrange(at, at + 8)[7] == s.subrange(at, at + 11)[7]);
            assert(s.subrange(at, at + 11)[2] == 'T');
            assert(s.subrange(at, at + 8)[2] == s.subrange(at, at + 11)[2]);
            assert(!literal_at(s, at, "@@Token("@));
            assert(!literal_at(s, at, "@@Array("@));
        },
    }
}

proof fn lemma_list_of_names(s: Seq<char>, from: int)
    requires
        0 <= from <= s.len(),
    ensures
        name_list(s, from) matches Some((names, _)) ==> names.len() > 0 && forall|i: int|
            0 <= i < names.len() ==> is_name(#[trigger] names[i]),
    decreases s.len() - from,
{
    lemma_name_end(s, from);
    let end = name_end(s, from);
    if from < end {
        assert(is_name(s.subrange(from, end)));
    }
    if from < end < s.len() && s[end] == ',' {
        lemma_list_of_names(s, end + 1);
    }
}

proof fn lemma_found_placeholder(s: Seq<char>, at: int)
    requires
        0 <= at < s.len(),
    ensures
        placeholder_at(s, at) matches Some((part, _)) ==> is_placeholder(part),
{
    lemma_literals();
    if at + 8 <= s.len() {
        lemma_name_end(s, at + 8);
    }
    if at + 11 <= s.len() {
        lemma_list_of_names(s, at + 11);
    }
}

/// Where in the template part number `i` begins.
pub open spec fn part_start(parts: Seq<PartView>, i: int) -> int {
    parts_text(parts.take(i)).len() as int
}

/// Whether a part that begins at `at` in the template `s` is right there: a placeholder that can be
/// written, or text that is not empty and in which no placeholder begins.
pub open spec fn is_part_at(part: PartView, s: Seq<char>, at: int) -> bool {
    match part {
        PartView::Text(text) => text.len() > 0 && forall|i: int, other: PartView|
            at <= i < at + text.len() && is_placeholder(other) ==> !#[trigger] literal_at(
                s,
                i,
                part_text(other),
            ),
        _ => is_placeholder(part),
    }
}

proof fn lemma_part_at(s: Seq<char>, from: int, i: int)
    requires
        0 <= from <= s.len(),
        0 <= i < parts_from(s, from).len(),
    ensures
        ({
            let parts = parts_from(s, from);
            &&& is_part_at(parts[i], s, from + part_start(parts, i))
            &&& i + 1 < parts.len() ==> !(parts[i] is Text && parts[i + 1] is Text)
        }),
    decreases s.len() - from,
{
    let parts = parts_from(s, from);
    lemma_placeholder(s, from);
    lemma_next_placeholder(s, from);
    lemma_placeholder_text(s, from);
    lemma_found_placeholder(s, from);
    let end = match placeholder_at(s, from) {
        Some((_, end)) => end,
        None => next_placeholder(s, from),
    };
    let rest = parts_from(s, end);
    assert(parts.drop_first() =~= rest);
    if i == 0 {
        assert(parts.take(0) =~= seq![]);
        if placeholder_at(s, from) is None {
            assert forall|j: int, other: PartView|
                from <= j < end && is_placeholder(other) implies !#[trigger] literal_at(
                s,
                j,
                part_text(other),
            ) by {
                assert(placeholder_at(s, j) is None);
                if literal_at(s, j, part_text(other)) {
                    law_written_placeholders_are_found(s, j, other);
                }
            }
        }
        if parts.len() > 1 {
            assert(parts[1] == rest[0]);
            lemma_found_placeholder(s, end);
        }
    } else {
        lemma_part_at(s, end, i - 1);
        assert(parts.take(i).drop_first() =~= rest.take(i - 1));
        assert(parts.take(i).first() == parts.first());
        assert(parts[i] == rest[i - 1]);
        if i + 1 < parts.len() {
            assert(parts[i + 1] == rest[i]);
        }
    }
}

/// The parts of a template are its placeholders and the stretches of text between them: no
/// placeholder is taken for text, and no text is split.
pub proof fn law_every_placeholder_is_a_part(template: Seq<char>, i: int)
    requires
        0 <= i < template_parts(template).len(),
    ensures
        ({
            let parts = template_parts(template);
            &&& is_part_at(parts[i], template, part_start(parts, i))
            &&& i + 1 < parts.len() ==> !(parts[i] is Text && parts[i + 1] is Text)
        }),
{
    lemma_part_at(template, 0, i);
}

/// A template that begins with a placeholder has that placeholder as its first part.
pub proof fn law_leading_placeholder_is_the_first_part(part: PartView, rest: Seq<char>)
    requires
        is_placeholder(part),
    ensures
        template_parts(part_text(part) + rest).len() > 0,
        template_parts(part_text(part) + rest)[0] == part,
{
    lemma_literals();
    let s = part_text(part) + rest;
    assert(s.subrange(0, part_text(part).len() as int) =~= part_text(part));
    law_written_placeholders_are_found(s, 0, part);
    lemma_placeholder(s, 0);
}

} // verus!
