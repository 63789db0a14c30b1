//! What the command line asks for.

use crate::config::{Config, ConfigError, RuleError};
use crate::declare::{
    complete, discovered, graph_of, lemma_graph_of_part, lemma_more_discovered, Declaration,
};
use crate::deps_graph::answered_by;
use crate::deps_resolver::{DepsConf, DepsResolver, ResolveError};
use crate::graph::{is_simple_cycle, linearizes};
use crate::identifier::Identifier;
use crate::node::keys;
use crate::os::{distro_id_from, get_distro_id};
use crate::rule_actions::RuleAction;
use crate::table::entry_of;
use vstd::prelude::*;

verus! {

/// The options that hold for every subcommand.
#[derive(Debug)]
pub struct Options {
    /// The dotfiles directory.
    pub dotfiles_dir: String,
    /// The name of the distribution, where the user gave one.
    pub distro_id: Option<String>,
    /// Whether confirmation dialogues take their default answers.
    pub noconfirm: bool,
}

impl Options {
    /// The dotfiles directory.
    pub fn dotfiles_dir(&self) -> (dir: &String)
        ensures
            *dir == self.dotfiles_dir,
    {
        &self.dotfiles_dir
    }

    /// Whether confirmation dialogues take their default answers.
    pub fn noconfirm(&self) -> (b: bool)
        ensures
            b == self.noconfirm,
    {
        self.noconfirm
    }

    /// The name of the distribution: the one that the user gave, or else
    /// the one that the lines of the file `os-release` give.
    pub fn distro_id(&self, os_release: &Vec<String>) -> (id: String)
        ensures
            id@ == match self.distro_id {
                Some(given) => given@,
                None => distro_id_from(os_release@, 0),
            },
    {
        match &self.distro_id {
            Some(given) => given.clone(),
            None => get_distro_id(os_release),
        }
    }
}

/// The request to perform rules.
#[derive(Debug)]
pub struct Install {
    /// The rules to perform.
    pub rules: Vec<Identifier>,
}

impl Install {
    /// The rules to perform, in the order in which to perform them: the
    /// requested rules and every rule that the declarations of the
    /// configuration lead to from them, each once, and each after all the
    /// rules it depends on.
    ///
    /// Where one of these rules is not in the configuration, the error
    /// names it. Where they depend on each other in a cycle, the error
    /// shows a cycle.
    pub fn perform(&self, config: &Config) -> (res: Result<
        Vec<Identifier>,
        ResolveError<Identifier>,
    >)
        ensures
            !(res matches Err(ResolveError::UnknownIdentifier(_))) ==> forall|rule: Seq<char>|
                discovered(keys(self.rules@).to_set(), config.declarations(), rule)
                    ==> config.defines(rule),
            match res {
                Ok(order) => linearizes(
                    graph_of(keys(self.rules@).to_set(), config.declarations()),
                    keys(order@),
                ),
                Err(ResolveError::UnknownIdentifier(rule)) => !config.defines(rule@) && discovered(
                    keys(self.rules@).to_set(),
                    config.declarations(),
                    rule@,
                ),
                Err(ResolveError::CycleDetected(cycle)) => is_simple_cycle(
                    graph_of(keys(self.rules@).to_set(), config.declarations()),
                    keys(cycle@),
                ),
            },
    {
        let mut roots: Vec<Identifier> = Vec::new();
        let mut i: usize = 0;
        while i < self.rules.len()
            invariant
                i <= self.rules@.len(),
                roots@.len() == i,
                forall|j: int| 0 <= j < i ==> (#[trigger] roots@[j])@ == self.rules@[j]@,
            decreases self.rules@.len() - i,
        {
            roots.push(self.rules[i].clone());
            i += 1;
        }
        let ghost requested = keys(self.rules@).to_set();
        let ghost all = config.declarations();
        proof {
            assert(keys(roots@) =~= keys(self.rules@));
        }
        let lookup = |id: &Identifier| -> (r: Option<DepsConf<Identifier>>)
            ensures
                match r {
                    Some(conf) => config.defines(id@) && conf@ == config.declaration_of(id@),
                    None => !config.defines(id@),
                },
            { config.declaration(id) };
        let resolver = DepsResolver::init(roots, lookup);
        let res = resolver.try_resolve();
        proof {
            let decls = choose|decls: Map<Seq<char>, Declaration<Seq<char>>>|
                {
                    &&& #[trigger] answered_by(lookup, decls)
                    &&& !(res matches Err(ResolveError::UnknownIdentifier(_))) ==> complete(
                        requested,
                        decls,
                    )
                    &&& match res {
                        Ok(order) => linearizes(graph_of(requested, decls), keys(order@)),
                        Err(ResolveError::UnknownIdentifier(rule)) => discovered(
                            requested,
                            decls,
                            rule@,
                        ),
                        Err(ResolveError::CycleDetected(cycle)) => is_simple_cycle(
                            graph_of(requested, decls),
                            keys(cycle@),
                        ),
                    }
                };
            assert forall|k: Seq<char>| #[trigger] decls.dom().contains(k) implies all.dom().contains(
                k,
            ) && all[k] == decls[k] by {
                let (n, conf) = choose|n: Identifier, conf: DepsConf<Identifier>|
                    n@ == k && #[trigger] call_ensures(lookup, (&n,), Some(conf)) && conf@
                        == decls[k];
            }
            match &res {
                Err(ResolveError::UnknownIdentifier(rule)) => {
                    lemma_more_discovered(requested, decls, all, rule@);
                    let n = choose|n: Identifier|
                        n@ == rule@ && #[trigger] call_ensures(
                            lookup,
                            (&n,),
                            None::<DepsConf<Identifier>>,
                        );
                    assert(!config.defines(n@));
                },
                _ => {
                    lemma_graph_of_part(requested, decls, all);
                    assert forall|rule: Seq<char>|
                        discovered(requested, all, rule) implies config.defines(rule) by {
                        assert(decls.dom().contains(rule));
                    }
                },
            }
        }
        res
    }
}

/// The request to perform one action of a rule.
#[derive(Debug)]
pub struct Exec {
    /// The rule.
    pub rule: Identifier,
    /// The number of the action, counted from one.
    pub n: usize,
}

/// Why the action that was asked for cannot be performed.
#[derive(Debug)]
pub enum ExecError {
    /// The configuration holds no such rule.
    Config(ConfigError),
    /// The rule holds no such action.
    Rule(RuleError),
}

impl Exec {
    /// The action to perform: the one with the given number of the given
    /// rule. Where the configuration holds no such rule, or the rule no
    /// such action, the error says so.
    pub fn perform<'a>(&'a self, config: &'a Config) -> (res: Result<&'a RuleAction, ExecError>)
        ensures
            match res {
                Ok(action) => entry_of(config.rules(), self.rule@) matches Some(body)
                    && 1 <= self.n <= body.actions.actions@.len() && *action
                    == body.actions.actions@[self.n - 1],
                Err(ExecError::Config(e)) => !config.defines(self.rule@) && (e
                    matches ConfigError::UndefinedRule(rule) && rule@ == self.rule@),
                Err(ExecError::Rule(e)) => entry_of(config.rules(), self.rule@)
                    matches Some(body) && !(1 <= self.n <= body.actions.actions@.len()),
            },
    {
        match config.try_get_rule(&self.rule) {
            Err(e) => Err(ExecError::Config(e)),
            Ok(rule) => match rule.perform_nth(self.n) {
                Ok(action) => Ok(action),
                Err(e) => Err(ExecError::Rule(e)),
            },
        }
    }
}

} // verus!
