//! The variables that query templates may use.
use vstd::prelude::*;

use crate::template::matcher::variable::{RuleView, VariableTemplateMatcher};
use crate::text;

verus! {

/// The name and the rules of each variable, in order.
pub type VariableViews = Seq<(Seq<char>, Seq<RuleView>)>;

/// The names of the variables.
pub open spec fn variable_names(variables: VariableViews) -> Seq<Seq<char>> {
    variables.map_values(|v: (Seq<char>, Seq<RuleView>)| v.0)
}

/// The rules of the variable called `name`.
pub open spec fn rules_of(variables: VariableViews, name: Seq<char>) -> Option<Seq<RuleView>>
    decreases variables.len(),
{
    if variables.len() == 0 {
        None
    } else if variables.first().0 == name {
        Some(variables.first().1)
    } else {
        rules_of(variables.drop_first(), name)
    }
}

/// The variables with the rules of the one called `name` replaced, or with a new variable at the
/// end if none has that name.
pub open spec fn with_variable(
    variables: VariableViews,
    name: Seq<char>,
    rules: Seq<RuleView>,
) -> VariableViews
    decreases variables.len(),
{
    if variables.len() == 0 {
        seq![(name, rules)]
    } else if variables.first().0 == name {
        seq![(name, rules)] + variables.drop_first()
    } else {
        seq![variables.first()] + with_variable(variables.drop_first(), name, rules)
    }
}

/// The variables that query templates may use, each with its template. No two have one name.
#[derive(Debug)]
pub struct VariableTemplates {
    entries: Vec<(String, VariableTemplateMatcher)>,
}

/// The views of named matchers.
pub open spec fn entry_views(entries: Seq<(String, VariableTemplateMatcher)>) -> VariableViews {
    entries.map_values(|e: (String, VariableTemplateMatcher)| (e.0@, e.1@))
}

impl View for VariableTemplates {
    type V = VariableViews;

    closed spec fn view(&self) -> VariableViews {
        entry_views(self.entries@)
    }
}

/// What a search finds where the first variable called `name` has the number `i`, or none has that
/// name and `i` is their count.
pub proof fn lemma_rules_of(variables: VariableViews, name: Seq<char>, i: int)
    requires
        0 <= i <= variables.len(),
        forall|j: int| 0 <= j < i ==> (#[trigger] variables[j]).0 != name,
        i < variables.len() ==> variables[i].0 == name,
    ensures
        rules_of(variables, name) == if i < variables.len() {
            Some(variables[i].1)
        } else {
            None
        },
    decreases i,
{
    if i > 0 {
        assert(variables[0].0 != name);
        let rest = variables.drop_first();
        assert forall|j: int| 0 <= j < i - 1 implies (#[trigger] rest[j]).0 != name by {
            assert(rest[j] == variables[j + 1]);
        }
        lemma_rules_of(rest, name, i - 1);
    }
}

/// What an insertion does where the first variable called `name` has the number `i`, or none has
/// that name and `i` is their count.
pub proof fn lemma_with_variable(
    variables: VariableViews,
    name: Seq<char>,
    rules: Seq<RuleView>,
    i: int,
)
    requires
        0 <= i <= variables.len(),
        forall|j: int| 0 <= j < i ==> (#[trigger] variables[j]).0 != name,
        i < variables.len() ==> variables[i].0 == name,
    ensures
        with_variable(variables, name, rules) == if i < variables.len() {
            variables.update(i, (name, rules))
        } else {
            variables.push((name, rules))
        },
    decreases i,
{
    if i > 0 {
        assert(variables[0].0 != name);
        let rest = variables.drop_first();
        assert forall|j: int| 0 <= j < i - 1 implies (#[trigger] rest[j]).0 != name by {
            assert(rest[j] == variables[j + 1]);
        }
        lemma_with_variable(rest, name, rules, i - 1);
    }
    if i < variables.len() {
        assert(with_variable(variables, name, rules) =~= variables.update(i, (name, rules)));
    } else {
        assert(with_variable(variables, name, rules) =~= variables.push((name, rules)));
    }
}

impl VariableTemplates {
    /// No two variables have one name.
    pub open spec fn wf(self) -> bool {
        variable_names(self@).no_duplicates()
    }

    /// No variables.
    pub fn new() -> (res: Self)
        ensures
            res@ == VariableViews::empty(),
            res.wf(),
    {
        let entries: Vec<(String, VariableTemplateMatcher)> = Vec::new();
        assert(entry_views(entries@) =~= Seq::empty());
        VariableTemplates { entries }
    }

    /// The number of the variable called `name`, or the count of all variables.
    fn position(&self, name: &str) -> (res: usize)
        ensures
            res <= self@.len(),
            forall|j: int| 0 <= j < res ==> (#[trigger] self@[j]).0 != name@,
            res < self@.len() ==> self@[res as int].0 == name@,
    {
        for i in 0..self.entries.len()
            invariant
                self@ == entry_views(self.entries@),
                forall|j: int| 0 <= j < i ==> (#[trigger] self@[j]).0 != name@,
        {
            if text::same(self.entries[i].0.as_str(), name) {
                return i;
            }
        }
        self.entries.len()
    }

    /// Makes `matcher` the template of the variable called `name`.
    pub fn insert(&mut self, name: String, matcher: VariableTemplateMatcher)
        requires
            old(self).wf(),
        ensures
            final(self)@ == with_variable(old(self)@, name@, matcher@),
            final(self).wf(),
    {
        let i = self.position(name.as_str());
        let ghost before = self@;
        let ghost entry = (name@, matcher@);
        proof {
            lemma_with_variable(before, name@, matcher@, i as int);
        }
        if i < self.entries.len() {
            self.entries.set(i, (name, matcher));
            proof {
                assert(self@ =~= before.update(i as int, entry));
                assert(variable_names(self@) =~= variable_names(before));
            }
        } else {
            self.entries.push((name, matcher));
            proof {
                assert(self@ =~= before.push(entry));
                assert(variable_names(self@) =~= variable_names(before).push(entry.0));
                assert forall|j: int| 0 <= j < before.len() implies variable_names(before)[j]
                    != entry.0 by {
                    assert(before[j].0 != name@);
                }
            }
        }
    }

    /// The template of the variable called `name`.
    pub fn get(&self, name: &str) -> (res: Option<&VariableTemplateMatcher>)
        ensures
            match res {
                Some(matcher) => rules_of(self@, name@) == Some(matcher@),
                None => rules_of(self@, name@) is None,
            },
    {
        let i = self.position(name);
        proof {
            lemma_rules_of(self@, name@, i as int);
        }
        if i < self.entries.len() {
            Some(&self.entries[i].1)
        } else {
            None
        }
    }

    /// How many variables there are.
    pub fn len(&self) -> (res: usize)
        ensures
            res == self@.len(),
    {
        self.entries.len()
    }

    /// The names of the variables.
    pub fn names(&self) -> (res: Vec<String>)
        ensures
            text::string_views(res@) == variable_names(self@),
    {
        let mut names: Vec<String> = Vec::new();
        for i in 0..self.entries.len()
            invariant
                self@ == entry_views(self.entries@),
                text::string_views(names@) == variable_names(self@).take(i as int),
        {
            let ghost before = text::string_views(names@);
            names.push(self.entries[i].0.clone());
            proof {
                assert(text::string_views(names@) =~= before.push(variable_names(self@)[i as int]));
                assert(variable_names(self@).take(i + 1) =~= before.push(
                    variable_names(self@)[i as int],
                ));
            }
        }
        assert(variable_names(self@).take(self@.len() as int) =~= variable_names(self@));
        names
    }
}

/// A variable that is set has the rules that it was set to, and no other variable changes.
pub proof fn law_set_variable_is_found(
    variables: VariableViews,
    name: Seq<char>,
    rules: Seq<RuleView>,
    other: Seq<char>,
)
    ensures
        rules_of(with_variable(variables, name, rules), other) == if other == name {
            Some(rules)
        } else {
            rules_of(variables, other)
        },
    decreases variables.len(),
{
    let set = with_variable(variables, name, rules);
    if variables.len() == 0 {
        assert(set.drop_first() =~= seq![]);
        reveal_with_fuel(rules_of, 2);
    } else if variables.first().0 == name {
        assert(set.drop_first() =~= variables.drop_first());
    } else {
        law_set_variable_is_found(variables.drop_first(), name, rules, other);
        assert(set.drop_first() =~= with_variable(variables.drop_first(), name, rules));
    }
}

/// Just the names of the variables have rules.
pub proof fn law_named_variables_have_rules(variables: VariableViews, name: Seq<char>)
    ensures
        rules_of(variables, name) is Some <==> variable_names(variables).contains(name),
    decreases variables.len(),
{
    let names = variable_names(variables);
    if variables.len() > 0 {
        let rest = variables.drop_first();
        law_named_variables_have_rules(rest, name);
        assert(names[0] == variables[0].0);
        assert(variable_names(rest) =~= names.drop_first());
        if names.contains(name) && names[0] != name {
            let i = choose|i: int| 0 <= i < names.len() && names[i] == name;
            assert(names.drop_first()[i - 1] == name);
        }
        if names.drop_first().contains(name) {
            let i = choose|i: int| 0 <= i < names.len() - 1 && names.drop_first()[i] == name;
            assert(names[i + 1] == name);
        }
    }
}

} // verus!
