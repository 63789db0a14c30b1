//! The configuration: the rules by name, and what they declare.

use crate::declare::{
    complete, discovered, graph_of, lemma_graph_of_part, lemma_more_discovered,
    lemma_root_discovered, Declaration,
};
use crate::deps_graph::{answered_by, DepsGraph};
use crate::deps_resolver::DepsConf;
use crate::identifier::Identifier;
use crate::node::{keys, Node};
use crate::os::OSError;
use crate::rule_actions::{RuleAction, RuleActions, RuleActionsConf, RuleActionsError};
use crate::table::{entry_of, find_entry, has_entry};
use vstd::prelude::*;
use vstd::string::StringExecFns;

verus! {

/// What the configuration holds for a rule: what the rule declares about
/// its place among the rules, and its actions.
#[derive(Debug)]
pub struct RuleBody {
    pub deps_conf: DepsConf<Identifier>,
    pub actions: RuleActions,
}

/// What can go wrong in dealing with the configuration.
#[derive(Debug)]
pub enum ConfigError {
    /// The configuration could not be read as one: the parser's message.
    ParsingError(String),
    /// No configuration file was found.
    ConfigNotFound,
    /// The configuration holds no rule of this name.
    UndefinedRule(Identifier),
    /// The operating system stood in the way.
    OSError(OSError),
}

impl ConfigError {
    /// The message of the error.
    pub open spec fn message(&self) -> Seq<char> {
        match self {
            ConfigError::ParsingError(why) => "Failed to parse config: "@ + why@,
            ConfigError::ConfigNotFound => "Config not found"@,
            ConfigError::UndefinedRule(rule) => "Undefined rule: "@ + rule@,
            ConfigError::OSError(e) => e.message(),
        }
    }

    /// The message of the error.
    pub fn to_string(&self) -> (s: String)
        ensures
            s@ == self.message(),
    {
        match self {
            ConfigError::ParsingError(why) => {
                let mut s = String::from_str("Failed to parse config: ");
                s.append(why.as_str());
                s
            },
            ConfigError::ConfigNotFound => String::from_str("Config not found"),
            ConfigError::UndefinedRule(rule) => {
                let mut s = String::from_str("Undefined rule: ");
                s.append(rule.as_str());
                s
            },
            ConfigError::OSError(e) => e.to_string(),
        }
    }
}

/// Why a rule was not performed.
#[derive(Debug)]
pub enum RuleError {
    /// An action of the rule was not performed.
    FailedToPerform { err: RuleActionsError, rule: Identifier },
}

impl RuleError {
    /// The message of the error.
    pub open spec fn message(&self) -> Seq<char> {
        match self {
            RuleError::FailedToPerform { err, rule } => "Failed to perfrom `"@ + rule@ + "`: "@
                + err.message(),
        }
    }

    /// The message of the error.
    pub fn to_string(&self) -> (s: String)
        ensures
            s@ == self.message(),
    {
        match self {
            RuleError::FailedToPerform { err, rule } => {
                let mut s = String::from_str("Failed to perfrom `");
                s.append(rule.as_str());
                s.append("`: ");
                let why = err.to_string();
                s.append(why.as_str());
                s
            },
        }
    }
}

/// A rule of the configuration: its name, its actions, and what is
/// configured for all actions.
pub struct Rule<'a> {
    pub actions: &'a RuleActions,
    pub actions_conf: &'a RuleActionsConf,
    pub ident: &'a Identifier,
}

impl<'a> Rule<'a> {
    /// The rules that the actions of the rule depend on, each once.
    pub fn get_deps(&self) -> (ids: Vec<Identifier>)
        ensures
            keys(ids@).no_duplicates(),
            keys(ids@).to_set() == self.actions.deps(self.actions_conf),
    {
        self.actions.get_deps(self.actions_conf)
    }

    /// The action of the rule with number `n`, counted from one: the one
    /// to perform. Where the rule has no such action, the error names the
    /// rule.
    pub fn perform_nth(&self, n: usize) -> (res: Result<&'a RuleAction, RuleError>)
        ensures
            match res {
                Ok(action) => 1 <= n <= self.actions.actions@.len() && *action
                    == self.actions.actions@[n - 1],
                Err(RuleError::FailedToPerform { err, rule }) => err
                    == RuleActionsError::IndexOutOfRange && rule@ == self.ident@ && !(1 <= n
                    <= self.actions.actions@.len()),
            },
    {
        match self.actions.peform_nth(n) {
            Ok(action) => Ok(action),
            Err(err) => Err(RuleError::FailedToPerform { err, rule: self.ident.clone() }),
        }
    }
}

/// The configuration: what is configured for all actions, and the rules.
#[derive(Debug)]
pub struct Config {
    actions_conf: RuleActionsConf,
    rules: Vec<(Identifier, RuleBody)>,
}

impl Config {
    /// What is configured for all actions.
    pub closed spec fn conf(&self) -> RuleActionsConf {
        self.actions_conf
    }

    /// The rules, each with its name. Where a name stands twice, the first
    /// rule of the name is the one that counts.
    pub closed spec fn rules(&self) -> Seq<(Identifier, RuleBody)> {
        self.rules@
    }

    /// The names of the rules.
    pub open spec fn rule_names(&self) -> Set<Seq<char>> {
        Set::new(|k: Seq<char>| self.defines(k))
    }

    /// The configuration holds a rule of this name.
    pub open spec fn defines(&self, rule: Seq<char>) -> bool {
        has_entry(self.rules(), rule)
    }

    /// What the rule of this name declares: as dependencies those that it
    /// lists and those of its actions, as post-dependencies those that it
    /// lists.
    pub open spec fn declaration_of(&self, rule: Seq<char>) -> Declaration<Seq<char>> {
        let body = entry_of(self.rules(), rule).unwrap();
        Declaration {
            deps: body.deps_conf@.deps.union(body.actions.deps(&self.conf())),
            post_deps: body.deps_conf@.post_deps,
        }
    }

    /// What each rule declares.
    pub open spec fn declarations(&self) -> Map<Seq<char>, Declaration<Seq<char>>> {
        Map::new(|k: Seq<char>| self.defines(k), |k: Seq<char>| self.declaration_of(k))
    }

    /// The configuration of the given rules.
    pub fn new(actions_conf: RuleActionsConf, rules: Vec<(Identifier, RuleBody)>) -> (config: Self)
        ensures
            config.conf() == actions_conf,
            config.rules() == rules@,
    {
        Config { actions_conf, rules }
    }

    /// The name of the configuration file for a distribution, without its
    /// extension.
    pub fn base_name(distro_id: &str) -> (name: String)
        ensures
            name@ == "dotm-"@ + distro_id@,
    {
        let mut name = String::from_str("dotm-");
        name.append(distro_id);
        name
    }

    /// The rule of the given name, if there is one.
    pub fn get_rule<'a>(&'a self, ident: &'a Identifier) -> (rule: Option<Rule<'a>>)
        ensures
            match rule {
                Some(rule) => entry_of(self.rules(), ident@) matches Some(body) && *rule.actions
                    == body.actions && *rule.actions_conf == self.conf() && rule.ident == ident,
                None => !self.defines(ident@),
            },
    {
        match find_entry(&self.rules, ident) {
            Some(i) => Some(
                Rule { actions: &self.rules[i].1.actions, actions_conf: &self.actions_conf, ident },
            ),
            None => None,
        }
    }

    /// The rule of the given name, or the error that says that there is
    /// none.
    pub fn try_get_rule<'a>(&'a self, ident: &'a Identifier) -> (res: Result<
        Rule<'a>,
        ConfigError,
    >)
        ensures
            match res {
                Ok(rule) => entry_of(self.rules(), ident@) matches Some(body) && *rule.actions
                    == body.actions && *rule.actions_conf == self.conf() && rule.ident == ident,
                Err(ConfigError::UndefinedRule(rule)) => rule@ == ident@ && !self.defines(ident@),
                Err(_) => false,
            },
    {
        match self.get_rule(ident) {
            Some(rule) => Ok(rule),
            None => Err(ConfigError::UndefinedRule(ident.clone())),
        }
    }

    /// What the rule of the given name lists of the rules before it and
    /// after it, or the error that says that there is no such rule.
    pub fn try_get_rule_deps_conf(&self, ident: &Identifier) -> (res: Result<
        &DepsConf<Identifier>,
        ConfigError,
    >)
        ensures
            match res {
                Ok(conf) => entry_of(self.rules(), ident@) matches Some(body) && *conf
                    == body.deps_conf,
                Err(ConfigError::UndefinedRule(rule)) => rule@ == ident@ && !self.defines(ident@),
                Err(_) => false,
            },
    {
        match find_entry(&self.rules, ident) {
            Some(i) => Ok(&self.rules[i].1.deps_conf),
            None => Err(ConfigError::UndefinedRule(ident.clone())),
        }
    }

    /// What the rule of the given name declares, if there is such a rule:
    /// as dependencies those that it lists and those of its actions, as
    /// post-dependencies those that it lists.
    pub fn declaration(&self, ident: &Identifier) -> (res: Option<DepsConf<Identifier>>)
        ensures
            match res {
                Some(conf) => self.defines(ident@) && conf@ == self.declaration_of(ident@),
                None => !self.defines(ident@),
            },
    {
        match find_entry(&self.rules, ident) {
            Some(i) => {
                let body = &self.rules[i].1;
                let mut conf = body.deps_conf.duplicate();
                conf.add_deps(body.actions.get_deps(&self.actions_conf));
                proof {
                    assert(has_entry(self.rules(), ident@));
                    assert(conf@.deps =~= self.declaration_of(ident@).deps);
                }
                Some(conf)
            },
            None => None,
        }
    }

    /// The dependency graph of all rules of the configuration, or the
    /// error that names a rule which a declaration names and the
    /// configuration does not hold.
    ///
    /// The nodes of the graph are the rules. A rule depends on the
    /// dependencies that it declares and on the rules that declare it their
    /// post-dependency.
    pub fn get_deps_graph(&self) -> (res: Result<DepsGraph<Identifier>, ConfigError>)
        ensures
            match res {
                Ok(graph) => {
                    &&& graph.wf()
                    &&& graph.root_set() == self.rule_names()
                    &&& graph@ == graph_of(self.rule_names(), self.declarations())
                    &&& graph@.dom() == self.rule_names()
                },
                Err(ConfigError::UndefinedRule(rule)) => !self.defines(rule@) && discovered(
                    self.rule_names(),
                    self.declarations(),
                    rule@,
                ),
                Err(_) => false,
            },
    {
        let mut names: Vec<Identifier> = Vec::new();
        let mut i: usize = 0;
        while i < self.rules.len()
            invariant
                i <= self.rules@.len(),
                names@.len() == i,
                forall|j: int| 0 <= j < i ==> (#[trigger] names@[j])@ == self.rules@[j].0@,
            decreases self.rules@.len() - i,
        {
            names.push(self.rules[i].0.clone());
            i += 1;
        }
        let ghost requested = keys(names@).to_set();
        let ghost all = self.declarations();
        proof {
            assert forall|k: Seq<char>| requested.contains(k) <==> self.defines(k) by {
                if requested.contains(k) {
                    let j = choose|j: int| 0 <= j < names@.len() && keys(names@)[j] == k;
                    assert(self.rules@[j].0@ == k);
                }
                if self.defines(k) {
                    let j = choose|j: int|
                        0 <= j < self.rules@.len() && (#[trigger] self.rules@[j]).0@ == k;
                    assert(keys(names@)[j] == k);
                }
            }
            assert(requested =~= self.rule_names());
        }
        let lookup = |id: &Identifier| -> (r: Option<DepsConf<Identifier>>)
            ensures
                match r {
                    Some(conf) => self.defines(id@) && conf@ == self.declaration_of(id@),
                    None => !self.defines(id@),
                },
            { self.declaration(id) };
        match DepsGraph::try_build(names, lookup) {
            Ok(graph) => {
                proof {
                    let decls = choose|decls: Map<Seq<char>, Declaration<Seq<char>>>|
                        {
                            &&& decls.dom() == graph@.dom()
                            &&& #[trigger] answered_by(lookup, decls)
                            &&& graph@ == graph_of(requested, decls)
                        };
                    assert forall|k: Seq<char>| #[trigger]
                        decls.dom().contains(k) implies all.dom().contains(k) && all[k]
                        == decls[k] by {
                        let (n, conf) = choose|n: Identifier, conf: DepsConf<Identifier>|
                            n@ == k && #[trigger] call_ensures(lookup, (&n,), Some(conf)) && conf@
                                == decls[k];
                    }
                    assert(complete(requested, decls));
                    lemma_graph_of_part(requested, decls, all);
                    assert forall|k: Seq<char>| self.defines(k) implies graph@.dom().contains(
                        k,
                    ) by {
                        lemma_root_discovered(requested, decls, k);
                    }
                    assert(graph@.dom() =~= self.rule_names());
                }
                Ok(graph)
            },
            Err(rule) => {
                proof {
                    let decls = choose|decls: Map<Seq<char>, Declaration<Seq<char>>>|
                        #[trigger] answered_by(lookup, decls) && discovered(
                            requested,
                            decls,
                            rule@,
                        );
                    assert forall|k: Seq<char>| #[trigger]
                        decls.dom().contains(k) implies all.dom().contains(k) && all[k]
                        == decls[k] by {
                        let (n, conf) = choose|n: Identifier, conf: DepsConf<Identifier>|
                            n@ == k && #[trigger] call_ensures(lookup, (&n,), Some(conf)) && conf@
                                == decls[k];
                    }
                    lemma_more_discovered(requested, decls, all, rule@);
                    let n = choose|n: Identifier|
                        n@ == rule@ && #[trigger] call_ensures(
                            lookup,
                            (&n,),
                            None::<DepsConf<Identifier>>,
                        );
                    assert(!self.defines(n@));
                }
                Err(ConfigError::UndefinedRule(rule))
            },
        }
    }
}

} // verus!
