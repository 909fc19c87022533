//! The proxy, ready to serve.
use std::sync::Arc;

use vstd::prelude::*;

use crate::config::Config;
use crate::scan::TokenCatalog;
use crate::template::matcher::variable::{self, RuleView, VariableTemplateMatcher};
use crate::template::parser;
use crate::template::variables::{self, VariableTemplates, VariableViews};

verus! {

/// The template of a variable names a token type that the scanner does not know.
#[derive(Debug, PartialEq, Eq)]
pub struct VariableTemplateError {
    /// The variable.
    pub variable: String,
    /// The unknown token type.
    pub token: String,
}

/// The rules of a variable template, or the token type in it that the scanner does not know.
pub open spec fn template_rules(template: Seq<char>, catalog: TokenCatalog) -> Result<
    Seq<RuleView>,
    Seq<char>,
> {
    variable::part_rules(parser::template_parts(template), catalog)
}

/// The variables with the given templates; or the first variable whose template names an unknown
/// token type, and that type.
pub open spec fn compiled_variables(templates: Seq<(String, String)>, catalog: TokenCatalog) -> Result<
    VariableViews,
    (Seq<char>, Seq<char>),
>
    decreases templates.len(),
{
    if templates.len() == 0 {
        Ok(seq![])
    } else {
        match compiled_variables(templates.drop_last(), catalog) {
            Err(error) => Err(error),
            Ok(variables) => {
                let (name, template) = templates.last();
                match template_rules(template@, catalog) {
                    Err(token) => Err((name@, token)),
                    Ok(rules) => Ok(variables::with_variable(variables, name@, rules)),
                }
            },
        }
    }
}

proof fn lemma_compile_error(templates: Seq<(String, String)>, n: int, catalog: TokenCatalog)
    requires
        0 <= n <= templates.len(),
        compiled_variables(templates.take(n), catalog) is Err,
    ensures
        compiled_variables(templates, catalog) == compiled_variables(templates.take(n), catalog),
    decreases templates.len(),
{
    if n < templates.len() {
        assert(templates.drop_last().take(n) =~= templates.take(n));
        lemma_compile_error(templates.drop_last(), n, catalog);
    } else {
        assert(templates.take(n) =~= templates);
    }
}

/// The variables with the given templates.
pub fn compile_variables(templates: &Vec<(String, String)>, catalog: &TokenCatalog) -> (res: Result<
    VariableTemplates,
    VariableTemplateError,
>)
    ensures
        match res {
            Ok(variables) => compiled_variables(templates@, *catalog) == Ok::<
                VariableViews,
                (Seq<char>, Seq<char>),
            >(variables@) && variables.wf(),
            Err(error) => compiled_variables(templates@, *catalog) == Err::<
                VariableViews,
                (Seq<char>, Seq<char>),
            >((error.variable@, error.token@)),
        },
{
    let mut variables = VariableTemplates::new();
    for i in 0..templates.len()
        invariant
            variables.wf(),
            compiled_variables(templates@.take(i as int), *catalog) == Ok::<
                VariableViews,
                (Seq<char>, Seq<char>),
            >(variables@),
    {
        proof {
            assert(templates@.take(i + 1).drop_last() =~= templates@.take(i as int));
        }
        let (name, template) = &templates[i];
        match VariableTemplateMatcher::parse(template.as_str(), catalog) {
            Ok(matcher) => {
                variables.insert(name.clone(), matcher);
            },
            Err(error) => {
                proof {
                    lemma_compile_error(templates@, i + 1, *catalog);
                }
                return Err(VariableTemplateError { variable: name.clone(), token: error.name });
            },
        }
    }
    assert(templates@.take(templates@.len() as int) =~= templates@);
    Ok(variables)
}

/// A proxy: where it listens, where the server is, and the variables of its query templates.
#[derive(Debug)]
pub struct PgProxy {
    pub listen_addr: String,
    pub server_addr: String,
    pub variable_templates: Arc<VariableTemplates>,
}

impl PgProxy {
    /// The proxy that a configuration describes.
    pub fn new(config: Config, catalog: &TokenCatalog) -> (res: Result<Self, VariableTemplateError>)
        ensures
            match res {
                Ok(proxy) => proxy.listen_addr@ == config.proxy.listen_addr@
                    && proxy.server_addr@ == config.proxy.server_addr@ && compiled_variables(
                    config.variable_templates@,
                    *catalog,
                ) == Ok::<VariableViews, (Seq<char>, Seq<char>)>(proxy.variable_templates@)
                    && proxy.variable_templates.wf(),
                Err(error) => compiled_variables(config.variable_templates@, *catalog) == Err::<
                    VariableViews,
                    (Seq<char>, Seq<char>),
                >((error.variable@, error.token@)),
            },
    {
        match compile_variables(&config.variable_templates, catalog) {
            Err(error) => Err(error),
            Ok(variables) => {
                let proxy = config.proxy;
                Ok(
                    PgProxy {
                        listen_addr: proxy.listen_addr,
                        server_addr: proxy.server_addr,
                        variable_templates: Arc::new(variables),
                    },
                )
            },
        }
    }
}

/// The last template that is given for the variable called `name`.
pub open spec fn last_template(templates: Seq<(String, String)>, name: Seq<char>) -> Option<
    Seq<char>,
>
    decreases templates.len(),
{
    if templates.len() == 0 {
        None
    } else if templates.last().0@ == name {
        Some(templates.last().1@)
    } else {
        last_template(templates.drop_last(), name)
    }
}

/// Each variable has the rules of the last template that is given for its name, and there are no
/// others.
pub proof fn law_last_template_of_a_variable_stands(
    templates: Seq<(String, String)>,
    catalog: TokenCatalog,
    name: Seq<char>,
)
    ensures
        compiled_variables(templates, catalog) matches Ok(variables) ==> match last_template(
            templates,
            name,
        ) {
            None => variables::rules_of(variables, name) is None,
            Some(template) => variables::rules_of(variables, name) matches Some(rules)
                && template_rules(template, catalog) == Ok::<Seq<RuleView>, Seq<char>>(rules),
        },
    decreases templates.len(),
{
    if templates.len() > 0 && compiled_variables(templates, catalog) is Ok {
        let before = templates.drop_last();
        law_last_template_of_a_variable_stands(before, catalog, name);
        let so_far = compiled_variables(before, catalog)->Ok_0;
        let (last_name, last_template) = templates.last();
        let rules = template_rules(last_template@, catalog)->Ok_0;
        variables::law_set_variable_is_found(so_far, last_name@, rules, name);
    }
}

/// The variables can be used just if every template can; otherwise the first that cannot is
/// reported, with its variable and the token type in it that the scanner does not know.
pub proof fn law_first_bad_template_is_reported(
    templates: Seq<(String, String)>,
    i: int,
    catalog: TokenCatalog,
)
    requires
        0 <= i <= templates.len(),
        forall|j: int|
            0 <= j < i ==> template_rules((#[trigger] templates[j]).1@, catalog) is Ok,
        i < templates.len() ==> template_rules(templates[i].1@, catalog) is Err,
    ensures
        i < templates.len() ==> compiled_variables(templates, catalog) == Err::<
            VariableViews,
            (Seq<char>, Seq<char>),
        >((templates[i].0@, template_rules(templates[i].1@, catalog)->Err_0)),
        i == templates.len() ==> compiled_variables(templates, catalog) is Ok,
    decreases templates.len(),
{
    if templates.len() > 0 {
        let before = templates.drop_last();
        let last = templates.len() - 1;
        assert(templates.last() == templates[last]);
        assert forall|j: int| 0 <= j < i && j < last implies template_rules(
            (#[trigger] before[j]).1@,
            catalog,
        ) is Ok by {
            assert(before[j] == templates[j]);
        }
        if i < last {
            assert(before[i] == templates[i]);
            law_first_bad_template_is_reported(before, i, catalog);
        } else {
            law_first_bad_template_is_reported(before, last, catalog);
        }
    }
}

} // verus!
