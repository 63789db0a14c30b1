use dotmake::cli::{Exec, ExecError, Install, Options};
use dotmake::config::{Config, ConfigError, RuleBody, RuleError};
use dotmake::deps_resolver::{DepsConf, ResolveError};
use dotmake::identifier::{Identifier, Identifiers};
use dotmake::list::List;
use dotmake::os::{get_distro_id, trim, OSError};
use dotmake::rule_actions::{
    Deps, Links, PkgManagersConf, Pkgs, PkgsError, RuleAction, RuleActions, RuleActionsConf,
    RuleActionsError, ShellScript, TempDirShellScript, UserPath,
};
use regex::{Captures, Regex};

fn id(name: &str) -> Identifier {
    Identifier::new(name.to_string()).unwrap()
}

fn names(ids: &Vec<Identifier>) -> Vec<String> {
    ids.iter().map(|id| id.to_string()).collect()
}

fn lines(text: &[&str]) -> List<String> {
    List::from_vec(text.iter().map(|line| line.to_string()).collect())
}

fn actions_conf() -> RuleActionsConf {
    RuleActionsConf {
        shell: "bash".to_string(),
        backup_dir: "/tmp/backup".to_string(),
        pkg_managers: PkgManagersConf {
            install_cmds: vec![
                (id("pacman"), "sudo pacman -S %pkg".to_string()),
                (id("yay"), "yay -S %pkg # 100%%".to_string()),
            ],
            deps: vec![
                (id("yay"), Identifiers::new("yay-bin  git".to_string())),
                (id("cargo"), Identifiers::new("rust".to_string())),
            ],
        },
    }
}

fn pkgs(managers: &[&str]) -> Pkgs {
    Pkgs {
        pkgs: managers.iter().map(|m| (id(m), lines(&["ripgrep"]))).collect(),
    }
}

fn deps(text: &str) -> RuleAction {
    RuleAction::Deps(Deps {
        deps: Identifiers::new(text.to_string()),
    })
}

fn body(deps_of: &[&str], posts: &[&str], actions: Vec<RuleAction>) -> RuleBody {
    let mut deps_conf = DepsConf::new();
    deps_conf.add_deps(deps_of.iter().map(|d| id(d)).collect());
    deps_conf.add_post_deps(posts.iter().map(|d| id(d)).collect());
    RuleBody {
        deps_conf,
        actions: RuleActions { actions },
    }
}

fn config() -> Config {
    Config::new(
        actions_conf(),
        vec![
            (id("vim"), body(&["git"], &[], vec![deps("shell"), RuleAction::Pkgs(pkgs(&["yay"]))])),
            (id("git"), body(&[], &[], vec![])),
            (id("shell"), body(&[], &["prompt"], vec![RuleAction::Shell(ShellScript { script: lines(&["echo a", "echo b"]) })])),
            (id("prompt"), body(&[], &[], vec![])),
            (id("yay-bin"), body(&[], &[], vec![])),
            (id("git"), body(&["vim"], &[], vec![])),
        ],
    )
}

/// What the package command template means, said with a regular expression.
fn substitude_by_regex(s: &str, pkg: &str) -> String {
    Regex::new(r"%(%|pkg)")
        .unwrap()
        .replace_all(s, |caps: &Captures| match &caps[1] {
            "%" => "%".to_string(),
            _ => pkg.to_string(),
        })
        .to_string()
}

#[test]
fn package_command_is_filled_in() {
    assert_eq!(Pkgs::substitude_pkg("sudo pacman -S %pkg", "vim"), "sudo pacman -S vim");
    assert_eq!(Pkgs::substitude_pkg("%%pkg", "vim"), "%pkg");
    assert_eq!(Pkgs::substitude_pkg("%%%pkg", "vim"), "%vim");
    assert_eq!(Pkgs::substitude_pkg("%pkg%pkg", "a b"), "a ba b");
    assert_eq!(Pkgs::substitude_pkg("100% of %pk %p %", "x"), "100% of %pk %p %");
    assert_eq!(Pkgs::substitude_pkg("", "x"), "");
    assert_eq!(Pkgs::substitude_pkg("%pkg", "%pkg"), "%pkg");
    assert_eq!(Pkgs::substitude_pkg("%pkg", "%%"), "%%");
}

#[test]
fn package_command_is_filled_in_as_the_pattern_says() {
    let templates = [
        "", "%", "%%", "%%%", "%pkg", "%%pkg", "%%%pkg", "%pk", "%pkgg", "a%pkgb%%c", "%p%pkg",
        "%%%%pkg%%", "install «%pkg» && echo 100%%", "%%p%pkgkg", "%pkg%", "p%kg",
    ];
    for template in templates {
        for pkg in ["vim", "", "%", "%pkg", "ä b"] {
            assert_eq!(
                Pkgs::substitude_pkg(template, pkg),
                substitude_by_regex(template, pkg),
                "{:?} with {:?}",
                template,
                pkg
            );
        }
    }
}

#[test]
fn package_manager_commands_and_dependencies() {
    let conf = actions_conf();
    assert_eq!(conf.pkg_managers.get_cmd(&id("pacman")).unwrap(), "sudo pacman -S %pkg");
    match conf.pkg_managers.get_cmd(&id("apt")) {
        Err(PkgsError::UndefinedPkgMngr(m)) => assert_eq!(m, id("apt")),
        Ok(_) => panic!("apt is not configured"),
    }
    assert_eq!(
        PkgsError::UndefinedPkgMngr(id("apt")).to_string(),
        "Undefined package manager `apt`"
    );
    assert_eq!(names(&conf.pkg_managers.get_deps(&id("yay"))), vec!["yay-bin", "git"]);
    assert!(conf.pkg_managers.get_deps(&id("pacman")).is_empty());
}

#[test]
fn actions_depend_on_rules() {
    let conf = actions_conf();
    assert_eq!(names(&pkgs(&["yay", "pacman", "cargo", "yay"]).get_deps(&conf)), vec!["yay-bin", "git", "rust"]);
    assert_eq!(names(&deps(" a b  a").get_deps(&conf)), vec!["a", "b"]);
    let shell = RuleAction::Shell(ShellScript { script: lines(&["true"]) });
    assert!(shell.get_deps(&conf).is_empty());
    let links = RuleAction::Links(Links {
        links: vec![(UserPath { path: "vimrc".to_string() }, List::from_vec(vec![UserPath { path: "~/.vimrc".to_string() }]))],
    });
    assert!(links.get_deps(&conf).is_empty());
    let actions = RuleActions {
        actions: vec![deps("git b"), shell, RuleAction::Pkgs(pkgs(&["yay"])), links],
    };
    assert_eq!(names(&actions.get_deps(&conf)), vec!["git", "b", "yay-bin"]);
}

#[test]
fn actions_are_named_as_the_configuration_names_them() {
    assert_eq!(RuleAction::Pkgs(pkgs(&[])).ident(), "pkgs");
    assert_eq!(RuleAction::Shell(ShellScript { script: lines(&[]) }).ident(), "shell");
    assert_eq!(RuleAction::InTemp(TempDirShellScript { script: lines(&[]) }).ident(), "in_temp");
    assert_eq!(RuleAction::Links(Links { links: vec![] }).ident(), "links");
    assert_eq!(deps("").ident(), "deps");
}

#[test]
fn script_is_one_text() {
    assert_eq!(ShellScript { script: lines(&["echo a", "echo b", ""]) }.text(), "echo a\necho b\n");
    assert_eq!(ShellScript { script: lines(&[]) }.text(), "");
    assert_eq!(TempDirShellScript { script: lines(&["make"]) }.text(), "make");
    assert_eq!(TempDirShellScript { script: lines(&["a", "b"]) }.text(), "a\nb");
}

#[test]
fn nth_action_is_counted_from_one() {
    let actions = RuleActions {
        actions: vec![deps("a"), RuleAction::Shell(ShellScript { script: lines(&["true"]) })],
    };
    assert_eq!(actions.peform_nth(1).unwrap().ident(), "deps");
    assert_eq!(actions.peform_nth(2).unwrap().ident(), "shell");
    assert!(matches!(actions.peform_nth(0), Err(RuleActionsError::IndexOutOfRange)));
    assert!(matches!(actions.peform_nth(3), Err(RuleActionsError::IndexOutOfRange)));
    assert!(matches!(actions.peform_nth(usize::MAX), Err(RuleActionsError::IndexOutOfRange)));
}

#[test]
fn messages_of_errors() {
    assert_eq!(RuleActionsError::IndexOutOfRange.to_string(), "Index out of range");
    let failed = RuleActionsError::FailedToPerform {
        action: "shell".to_string(),
        err: "Process exited with status code 2".to_string(),
    };
    assert_eq!(
        failed.to_string(),
        "Failed to perform `shell` action: Process exited with status code 2"
    );
    let rule = RuleError::FailedToPerform { err: failed, rule: id("vim") };
    assert_eq!(
        rule.to_string(),
        "Failed to perfrom `vim`: Failed to perform `shell` action: Process exited with status code 2"
    );
    assert_eq!(ConfigError::ConfigNotFound.to_string(), "Config not found");
    assert_eq!(ConfigError::UndefinedRule(id("x")).to_string(), "Undefined rule: x");
    assert_eq!(
        ConfigError::ParsingError("line 3".to_string()).to_string(),
        "Failed to parse config: line 3"
    );
    assert_eq!(
        ConfigError::OSError(OSError::NoFileName("/".to_string())).to_string(),
        "Failed to obtain file name of `/`"
    );
    assert_eq!(
        OSError::IO { err: "denied".to_string(), msg: "Failed to open `a`".to_string() }.to_string(),
        "Failed to open `a`: denied"
    );
    assert_eq!(
        OSError::BadExitStatus { code: Some(1) }.to_string(),
        "Process exited with status code 1"
    );
    assert_eq!(
        OSError::BadExitStatus { code: Some(-11) }.to_string(),
        "Process exited with status code -11"
    );
    assert_eq!(
        OSError::BadExitStatus { code: None }.to_string(),
        "Process terminated by a signal"
    );
    assert_eq!(
        OSError::NotADirectory("/etc/passwd".to_string()).to_string(),
        "File `/etc/passwd` exists but is not a directory"
    );
}

#[test]
fn distribution_is_read_from_the_first_line_that_names_it() {
    let os_release = |text: &[&str]| -> Vec<String> { text.iter().map(|l| l.to_string()).collect() };
    assert_eq!(get_distro_id(&os_release(&["NAME=\"Arch Linux\"", "ID=arch", "ID=other"])), "arch");
    assert_eq!(get_distro_id(&os_release(&["ID=  void \t"])), "void");
    assert_eq!(get_distro_id(&os_release(&["ID="])), "");
    assert_eq!(get_distro_id(&os_release(&["ID_LIKE=debian", " ID=x", "id=y"])), "linux");
    assert_eq!(get_distro_id(&os_release(&[])), "linux");
    assert_eq!(get_distro_id(&os_release(&["ID", "I", ""])), "linux");
}

#[test]
fn trimmed_text_has_no_whitespace_around_it() {
    for text in ["", " ", "a", " a ", "\t a b \n", "\u{3000}ä\u{a0}", "a  ", "  a", " \n\t "] {
        assert_eq!(trim(text), text.trim(), "{:?}", text);
    }
}

#[test]
fn options_give_what_they_hold() {
    let options = Options {
        dotfiles_dir: "./".to_string(),
        distro_id: Some("nixos".to_string()),
        noconfirm: true,
    };
    assert_eq!(options.dotfiles_dir(), "./");
    assert!(options.noconfirm());
    assert_eq!(options.distro_id(&vec!["ID=arch".to_string()]), "nixos");
    let options = Options { dotfiles_dir: "/d".to_string(), distro_id: None, noconfirm: false };
    assert!(!options.noconfirm());
    assert_eq!(options.distro_id(&vec!["ID=arch".to_string()]), "arch");
    assert_eq!(options.distro_id(&vec![]), "linux");
    assert_eq!(Config::base_name("arch"), "dotm-arch");
}

#[test]
fn rules_are_found_by_name() {
    let config = config();
    let vim = id("vim");
    let rule = config.get_rule(&vim).unwrap();
    assert_eq!(rule.ident, &vim);
    assert_eq!(names(&rule.get_deps()), vec!["shell", "yay-bin", "git"]);
    assert_eq!(rule.perform_nth(1).unwrap().ident(), "deps");
    assert_eq!(rule.perform_nth(2).unwrap().ident(), "pkgs");
    match rule.perform_nth(3) {
        Err(RuleError::FailedToPerform { err: RuleActionsError::IndexOutOfRange, rule }) => {
            assert_eq!(rule, vim)
        }
        other => panic!("no third action: {:?}", other.map(|a| a.ident())),
    }
    let missing = id("emacs");
    assert!(config.get_rule(&missing).is_none());
    assert!(matches!(config.try_get_rule(&missing), Err(ConfigError::UndefinedRule(rule)) if rule == missing));
    assert!(config.try_get_rule(&vim).is_ok());
    assert_eq!(names(config.try_get_rule_deps_conf(&vim).unwrap().deps()), vec!["git"]);
    assert!(matches!(config.try_get_rule_deps_conf(&missing), Err(ConfigError::UndefinedRule(rule)) if rule == missing));
    assert!(config.try_get_rule_deps_conf(&id("git")).unwrap().deps().is_empty());
}

#[test]
fn declaration_of_a_rule_holds_what_its_actions_depend_on() {
    let config = config();
    let vim = config.declaration(&id("vim")).unwrap();
    assert_eq!(names(vim.deps()), vec!["git", "shell", "yay-bin"]);
    assert!(vim.post_deps().is_empty());
    let shell = config.declaration(&id("shell")).unwrap();
    assert!(shell.deps().is_empty());
    assert_eq!(names(shell.post_deps()), vec!["prompt"]);
    assert!(config.declaration(&id("emacs")).is_none());
}

#[test]
fn graph_of_all_rules() {
    let graph = config().get_deps_graph().unwrap();
    let order: Vec<String> = graph.resolve().unwrap().into_iter().map(|r| r.to_string()).collect();
    assert_eq!(order, vec!["git", "shell", "yay-bin", "vim", "prompt"]);

    let broken = Config::new(
        actions_conf(),
        vec![(id("a"), body(&[], &[], vec![deps("b c")])), (id("b"), body(&[], &[], vec![]))],
    );
    assert!(matches!(broken.get_deps_graph(), Err(ConfigError::UndefinedRule(rule)) if rule == id("c")));
}

#[test]
fn installation_is_planned() {
    let config = config();
    let install = Install { rules: vec![id("shell")] };
    assert_eq!(names(&install.perform(&config).unwrap()), vec!["shell", "prompt"]);
    let install = Install { rules: vec![id("vim"), id("git")] };
    assert_eq!(
        names(&install.perform(&config).unwrap()),
        vec!["git", "shell", "yay-bin", "vim", "prompt"]
    );
    let install = Install { rules: vec![id("git"), id("emacs")] };
    assert_eq!(
        install.perform(&config).unwrap_err(),
        ResolveError::UnknownIdentifier(id("emacs"))
    );
    let cyclic = Config::new(
        actions_conf(),
        vec![(id("a"), body(&["b"], &[], vec![])), (id("b"), body(&[], &[], vec![deps("a")]))],
    );
    match (Install { rules: vec![id("b")] }).perform(&cyclic) {
        Err(ResolveError::CycleDetected(cycle)) => assert_eq!(cycle.to_string(), "b -> a -> b"),
        other => panic!("expected a cycle, got {:?}", other),
    }
}

#[test]
fn one_action_is_picked() {
    let config = config();
    let exec = Exec { rule: id("vim"), n: 2 };
    assert_eq!(exec.perform(&config).unwrap().ident(), "pkgs");
    let exec = Exec { rule: id("vim"), n: 0 };
    assert!(matches!(
        exec.perform(&config),
        Err(ExecError::Rule(RuleError::FailedToPerform { err: RuleActionsError::IndexOutOfRange, .. }))
    ));
    let exec = Exec { rule: id("emacs"), n: 1 };
    assert!(matches!(
        exec.perform(&config),
        Err(ExecError::Config(ConfigError::UndefinedRule(rule))) if rule == id("emacs")
    ));
}
