//! The actions of a rule: what they depend on, and which of them is meant.

use crate::identifier::{tokens, Identifier, Identifiers};
use crate::items::join_into;
use crate::list::List;
use crate::node::{keys, Node};
use crate::table::{entry_of, has_entry, lookup};
use crate::text::{join, joined, views};
use vstd::prelude::*;
use vstd::string::{StrSliceExecFns, StringExecFns};

verus! {

/// A path as the user wrote it.
#[derive(Debug)]
pub struct UserPath {
    pub path: String,
}

/// An action that only states dependencies.
#[derive(Debug)]
pub struct Deps {
    pub deps: Identifiers,
}

/// An action that links files: for each source the places that are to
/// point to it.
#[derive(Debug)]
pub struct Links {
    pub links: Vec<(UserPath, List<UserPath>)>,
}

/// An action that runs a shell script in the dotfiles directory.
#[derive(Debug)]
pub struct ShellScript {
    pub script: List<String>,
}

/// An action that runs a shell script in a temporary directory.
#[derive(Debug)]
pub struct TempDirShellScript {
    pub script: List<String>,
}

/// An action that installs packages: for each package manager the
/// packages to install with it.
#[derive(Debug)]
pub struct Pkgs {
    pub pkgs: Vec<(Identifier, List<String>)>,
}

/// What is configured of the package managers: the command with which
/// each installs a package, and the rules that each depends on.
#[derive(Debug)]
pub struct PkgManagersConf {
    pub install_cmds: Vec<(Identifier, String)>,
    pub deps: Vec<(Identifier, Identifiers)>,
}

/// What is configured for all actions.
#[derive(Debug)]
pub struct RuleActionsConf {
    pub shell: String,
    pub backup_dir: String,
    pub pkg_managers: PkgManagersConf,
}

/// Why packages cannot be installed.
#[derive(Debug)]
pub enum PkgsError {
    /// No command is configured for the package manager.
    UndefinedPkgMngr(Identifier),
}

impl PkgsError {
    /// The message of the error.
    pub open spec fn message(&self) -> Seq<char> {
        match self {
            PkgsError::UndefinedPkgMngr(m) => "Undefined package manager `"@ + m@ + "`"@,
        }
    }

    /// The message of the error.
    pub fn to_string(&self) -> (s: String)
        ensures
            s@ == self.message(),
    {
        match self {
            PkgsError::UndefinedPkgMngr(m) => {
                let mut s = String::from_str("Undefined package manager `");
                s.append(m.as_str());
                s.append("`");
                s
            },
        }
    }
}

/// The command `template` with each `%pkg` in it replaced by `pkg` and
/// each `%%` by `%`, read from position `i` on, from left to right.
pub open spec fn substituted_from(template: Seq<char>, pkg: Seq<char>, i: int) -> Seq<char>
    decreases template.len() - i,
{
    if i < 0 || i >= template.len() {
        Seq::empty()
    } else if template[i] == '%' && i + 1 < template.len() && template[i + 1] == '%' {
        seq!['%'] + substituted_from(template, pkg, i + 2)
    } else if template[i] == '%' && i + 3 < template.len() && template[i + 1] == 'p' && template[i
        + 2] == 'k' && template[i + 3] == 'g' {
        pkg + substituted_from(template, pkg, i + 4)
    } else {
        seq![template[i]] + substituted_from(template, pkg, i + 1)
    }
}

/// The command `template` with each `%pkg` in it replaced by `pkg` and
/// each `%%` by `%`.
pub open spec fn substituted(template: Seq<char>, pkg: Seq<char>) -> Seq<char> {
    substituted_from(template, pkg, 0)
}

impl Pkgs {
    /// The command `s` for the package `pkg`: each `%pkg` in it is replaced
    /// by `pkg` and each `%%` by `%`.
    pub fn substitude_pkg(s: &str, pkg: &str) -> (command: String)
        ensures
            command@ == substituted(s@, pkg@),
    {
        let n = s.unicode_len();
        let mut command = String::new();
        let mut i: usize = 0;
        proof {
            reveal_strlit("%");
        }
        while i < n
            invariant
                n == s@.len(),
                i <= n,
                "%"@ == seq!['%'],
                substituted(s@, pkg@) == command@ + substituted_from(s@, pkg@, i as int),
            decreases n - i,
        {
            let c = s.get_char(i);
            if c == '%' && n - i > 1 && s.get_char(i + 1) == '%' {
                command.append("%");
                i += 2;
            } else if c == '%' && n - i > 3 && s.get_char(i + 1) == 'p' && s.get_char(i + 2)
                == 'k' && s.get_char(i + 3) == 'g' {
                command.append(pkg);
                i += 4;
            } else {
                command.append(s.substring_char(i, i + 1));
                proof {
                    assert(s@.subrange(i as int, i + 1) =~= seq![s@[i as int]]);
                }
                i += 1;
            }
            proof {
                assert(substituted(s@, pkg@) =~= command@ + substituted_from(s@, pkg@, i as int));
            }
        }
        proof {
            assert(substituted(s@, pkg@) =~= command@);
        }
        command
    }

    /// The rules that the action depends on: those that its package
    /// managers depend on.
    pub open spec fn deps(&self, conf: &RuleActionsConf) -> Set<Seq<char>> {
        Set::new(
            |k: Seq<char>|
                exists|j: int|
                    0 <= j < self.pkgs@.len() && conf.pkg_managers.deps_of(
                        (#[trigger] self.pkgs@[j]).0@,
                    ).contains(k),
        )
    }

    /// The rules that the action depends on, each once.
    pub fn get_deps(&self, conf: &RuleActionsConf) -> (ids: Vec<Identifier>)
        ensures
            keys(ids@).no_duplicates(),
            keys(ids@).to_set() == self.deps(conf),
    {
        let mut ids: Vec<Identifier> = Vec::new();
        let mut j: usize = 0;
        proof {
            assert(keys(ids@).to_set() =~= Set::<Seq<char>>::empty());
        }
        while j < self.pkgs.len()
            invariant
                j <= self.pkgs@.len(),
                keys(ids@).no_duplicates(),
                forall|k: Seq<char>|
                    keys(ids@).to_set().contains(k) <==> exists|m: int|
                        0 <= m < j && conf.pkg_managers.deps_of(
                            (#[trigger] self.pkgs@[m]).0@,
                        ).contains(k),
            decreases self.pkgs@.len() - j,
        {
            let ghost before = keys(ids@).to_set();
            let more = conf.pkg_managers.get_deps(&self.pkgs[j].0);
            join_into(&mut ids, &more);
            proof {
                let now = keys(ids@).to_set();
                assert forall|k: Seq<char>| now.contains(k) <==> exists|m: int|
                    0 <= m < j + 1 && conf.pkg_managers.deps_of(
                        (#[trigger] self.pkgs@[m]).0@,
                    ).contains(k) by {
                    if now.contains(k) {
                        if before.contains(k) {
                            let m = choose|m: int|
                                0 <= m < j && conf.pkg_managers.deps_of(
                                    (#[trigger] self.pkgs@[m]).0@,
                                ).contains(k);
                            assert(0 <= m < j + 1);
                        } else {
                            assert(conf.pkg_managers.deps_of(self.pkgs@[j as int].0@).contains(k));
                        }
                    }
                    if exists|m: int|
                        0 <= m < j + 1 && conf.pkg_managers.deps_of(
                            (#[trigger] self.pkgs@[m]).0@,
                        ).contains(k) {
                        let m = choose|m: int|
                            0 <= m < j + 1 && conf.pkg_managers.deps_of(
                                (#[trigger] self.pkgs@[m]).0@,
                            ).contains(k);
                        if m < j {
                            assert(before.contains(k));
                        }
                    }
                }
            }
            j += 1;
        }
        proof {
            assert(keys(ids@).to_set() =~= self.deps(conf));
        }
        ids
    }
}

impl PkgManagersConf {
    /// The rules that the package manager `mngr` depends on.
    pub open spec fn deps_of(&self, mngr: Seq<char>) -> Set<Seq<char>> {
        match entry_of(self.deps@, mngr) {
            Some(ids) => tokens(ids@).to_set(),
            None => Set::empty(),
        }
    }

    /// The command with which the package manager installs a package, or
    /// the error that names the package manager where none is configured.
    pub fn get_cmd(&self, mngr: &Identifier) -> (res: Result<&String, PkgsError>)
        ensures
            match res {
                Ok(cmd) => entry_of(self.install_cmds@, mngr@) == Some(*cmd),
                Err(PkgsError::UndefinedPkgMngr(m)) => m@ == mngr@ && !has_entry(
                    self.install_cmds@,
                    mngr@,
                ),
            },
    {
        match lookup(&self.install_cmds, mngr) {
            Some(cmd) => Ok(cmd),
            None => Err(PkgsError::UndefinedPkgMngr(mngr.clone())),
        }
    }

    /// The rules that the package manager depends on, in the order in
    /// which the configuration lists them.
    pub fn get_deps(&self, mngr: &Identifier) -> (ids: Vec<Identifier>)
        ensures
            keys(ids@).to_set() == self.deps_of(mngr@),
            match entry_of(self.deps@, mngr@) {
                Some(listed) => keys(ids@) == tokens(listed@),
                None => ids@.len() == 0,
            },
    {
        match lookup(&self.deps, mngr) {
            Some(listed) => listed.to_vec(),
            None => {
                let ids: Vec<Identifier> = Vec::new();
                assert(keys(ids@).to_set() =~= Set::<Seq<char>>::empty());
                ids
            },
        }
    }
}

impl Deps {
    /// The rules that the action states as dependencies, each once.
    pub fn get_deps(&self) -> (ids: Vec<Identifier>)
        ensures
            keys(ids@).no_duplicates(),
            keys(ids@).to_set() == tokens(self.deps@).to_set(),
    {
        let listed = self.deps.to_vec();
        let mut ids: Vec<Identifier> = Vec::new();
        proof {
            assert(keys(ids@).to_set() =~= Set::<Seq<char>>::empty());
        }
        join_into(&mut ids, &listed);
        proof {
            assert(keys(ids@).to_set() =~= tokens(self.deps@).to_set());
        }
        ids
    }
}

impl ShellScript {
    /// The script as one text, a line for each of its items.
    pub fn text(&self) -> (s: String)
        ensures
            s@ == joined(views(self.script@), seq!['\n']),
    {
        proof {
            reveal_strlit("\n");
            assert("\n"@ =~= seq!['\n']);
        }
        join(self.script.as_vec(), "\n")
    }
}

impl TempDirShellScript {
    /// The script as one text, a line for each of its items.
    pub fn text(&self) -> (s: String)
        ensures
            s@ == joined(views(self.script@), seq!['\n']),
    {
        proof {
            reveal_strlit("\n");
            assert("\n"@ =~= seq!['\n']);
        }
        join(self.script.as_vec(), "\n")
    }
}

/// A single action. A rule is a list of actions, which are performed one
/// after another in the order in which the configuration lists them.
#[derive(Debug)]
pub enum RuleAction {
    /// Install packages with the configured package managers.
    Pkgs(Pkgs),
    /// Run a shell script in the dotfiles directory.
    Shell(ShellScript),
    /// Run a shell script in a temporary directory.
    InTemp(TempDirShellScript),
    /// Create links for files.
    Links(Links),
    /// State rules as dependencies.
    Deps(Deps),
}

impl RuleAction {
    /// The rules that the action depends on.
    pub open spec fn deps(&self, conf: &RuleActionsConf) -> Set<Seq<char>> {
        match self {
            RuleAction::Pkgs(pkgs) => pkgs.deps(conf),
            RuleAction::Deps(deps) => tokens(deps.deps@).to_set(),
            _ => Set::empty(),
        }
    }

    /// The rules that the action depends on: those that have to be
    /// performed before the rule that holds the action. Each once.
    pub fn get_deps(&self, conf: &RuleActionsConf) -> (ids: Vec<Identifier>)
        ensures
            keys(ids@).no_duplicates(),
            keys(ids@).to_set() == self.deps(conf),
    {
        match self {
            RuleAction::Pkgs(pkgs) => pkgs.get_deps(conf),
            RuleAction::Deps(deps) => deps.get_deps(),
            _ => {
                let ids: Vec<Identifier> = Vec::new();
                assert(keys(ids@).to_set() =~= Set::<Seq<char>>::empty());
                ids
            },
        }
    }

    /// The name under which the configuration writes this kind of action.
    pub fn ident(&self) -> (name: &'static str)
        ensures
            name@ == match self {
                RuleAction::Pkgs(_) => "pkgs"@,
                RuleAction::Shell(_) => "shell"@,
                RuleAction::InTemp(_) => "in_temp"@,
                RuleAction::Links(_) => "links"@,
                RuleAction::Deps(_) => "deps"@,
            },
    {
        match self {
            RuleAction::Pkgs(_) => "pkgs",
            RuleAction::Shell(_) => "shell",
            RuleAction::InTemp(_) => "in_temp",
            RuleAction::Links(_) => "links",
            RuleAction::Deps(_) => "deps",
        }
    }
}

/// Why an action of a rule was not performed.
#[derive(Debug)]
pub enum RuleActionsError {
    /// The rule has no action with the given number.
    IndexOutOfRange,
    /// The action was tried and failed.
    FailedToPerform { action: String, err: String },
}

impl RuleActionsError {
    /// The message of the error.
    pub open spec fn message(&self) -> Seq<char> {
        match self {
            RuleActionsError::IndexOutOfRange => "Index out of range"@,
            RuleActionsError::FailedToPerform { action, err } => "Failed to perform `"@ + action@
                + "` action: "@ + err@,
        }
    }

    /// The message of the error.
    pub fn to_string(&self) -> (s: String)
        ensures
            s@ == self.message(),
    {
        match self {
            RuleActionsError::IndexOutOfRange => String::from_str("Index out of range"),
            RuleActionsError::FailedToPerform { action, err } => {
                let mut s = String::from_str("Failed to perform `");
                s.append(action.as_str());
                s.append("` action: ");
                s.append(err.as_str());
                s
            },
        }
    }
}

/// The actions of a rule, in the order in which they are performed.
#[derive(Debug)]
pub struct RuleActions {
    pub actions: Vec<RuleAction>,
}

impl RuleActions {
    /// The rules that the actions depend on.
    pub open spec fn deps(&self, conf: &RuleActionsConf) -> Set<Seq<char>> {
        Set::new(
            |k: Seq<char>|
                exists|j: int|
                    0 <= j < self.actions@.len() && (#[trigger] self.actions@[j]).deps(
                        conf,
                    ).contains(k),
        )
    }

    /// The action with number `n`, counted from one, or the error that says
    /// that the rule has no such action.
    pub fn peform_nth(&self, n: usize) -> (res: Result<&RuleAction, RuleActionsError>)
        ensures
            match res {
                Ok(action) => 1 <= n <= self.actions@.len() && *action == self.actions@[n - 1],
                Err(e) => e == RuleActionsError::IndexOutOfRange && !(1 <= n
                    <= self.actions@.len()),
            },
    {
        if n == 0 {
            return Err(RuleActionsError::IndexOutOfRange);
        }
        if n - 1 < self.actions.len() {
            Ok(&self.actions[n - 1])
        } else {
            Err(RuleActionsError::IndexOutOfRange)
        }
    }

    /// The rules that the actions depend on, each once.
    pub fn get_deps(&self, conf: &RuleActionsConf) -> (ids: Vec<Identifier>)
        ensures
            keys(ids@).no_duplicates(),
            keys(ids@).to_set() == self.deps(conf),
    {
        let mut ids: Vec<Identifier> = Vec::new();
        let mut j: usize = 0;
        proof {
            assert(keys(ids@).to_set() =~= Set::<Seq<char>>::empty());
        }
        while j < self.actions.len()
            invariant
                j <= self.actions@.len(),
                keys(ids@).no_duplicates(),
                forall|k: Seq<char>|
                    keys(ids@).to_set().contains(k) <==> exists|m: int|
                        0 <= m < j && (#[trigger] self.actions@[m]).deps(conf).contains(k),
            decreases self.actions@.len() - j,
        {
            let ghost before = keys(ids@).to_set();
            let more = self.actions[j].get_deps(conf);
            join_into(&mut ids, &more);
            proof {
                let now = keys(ids@).to_set();
                assert forall|k: Seq<char>| now.contains(k) <==> exists|m: int|
                    0 <= m < j + 1 && (#[trigger] self.actions@[m]).deps(conf).contains(k) by {
                    if now.contains(k) {
                        if before.contains(k) {
                            let m = choose|m: int|
                                0 <= m < j && (#[trigger] self.actions@[m]).deps(conf).contains(k);
                            assert(0 <= m < j + 1);
                        } else {
                            assert(self.actions@[j as int].deps(conf).contains(k));
                        }
                    }
                    if exists|m: int|
                        0 <= m < j + 1 && (#[trigger] self.actions@[m]).deps(conf).contains(k) {
                        let m = choose|m: int|
                            0 <= m < j + 1 && (#[trigger] self.actions@[m]).deps(conf).contains(k);
                        if m < j {
                            assert(before.contains(k));
                        }
                    }
                }
            }
            j += 1;
        }
        proof {
            assert(keys(ids@).to_set() =~= self.deps(conf));
        }
        ids
    }
}

} // verus!
