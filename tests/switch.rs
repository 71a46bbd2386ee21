use merlin::clearance::Clearance;
use merlin::rule::EvalContext;
use merlin::switch::{CommandEntry, MasterSwitch, PerCommandConfig, PerModuleConfig};

fn ctx() -> EvalContext {
    EvalContext {
        user_id: 1,
        user_name: "u".to_string(),
        guild_id: Some(2),
        guild_name: None,
        channel_id: 3,
        channel_name: None,
        roles: vec![],
    }
}

fn rules(list: &[&str]) -> Vec<String> {
    list.iter().map(|s| s.to_string()).collect()
}

fn decl(names: &[&str]) -> Vec<CommandEntry> {
    names
        .iter()
        .map(|n| CommandEntry { name: n.to_string(), config: PerCommandConfig::new() })
        .collect()
}

#[test]
fn disabled_switch_refuses_even_everyone() {
    let store = Clearance::new();
    let cmd = PerCommandConfig { enabled: false, allowed: rules(&["+everyone"]) };
    assert!(!cmd.is_allowed(&store, &ctx()));
    let module = PerModuleConfig { enabled: false, allowed: rules(&["+everyone"]), commands: vec![] };
    assert!(!module.is_allowed(&store, &ctx()));
}

#[test]
fn inconclusive_rules_permit() {
    let store = Clearance::new();
    assert!(PerCommandConfig::new().is_allowed(&store, &ctx()));
    let cmd = PerCommandConfig { enabled: true, allowed: rules(&["+@9"]) };
    assert!(cmd.is_allowed(&store, &ctx()));
    let cmd = PerCommandConfig { enabled: true, allowed: rules(&["-everyone"]) };
    assert!(!cmd.is_allowed(&store, &ctx()));
}

#[test]
fn switch_turns_modules_and_commands() {
    let mut sw = MasterSwitch::new();
    assert!(sw.register_module("core".to_string(), &decl(&["ping", "save"])));
    assert!(sw.switch("core", Some("ping"), false));
    assert!(!sw.get("core").unwrap().command("ping").unwrap().enabled);
    assert!(sw.get("core").unwrap().command("save").unwrap().enabled);
    assert!(sw.switch("core", None, false));
    assert!(!sw.get("core").unwrap().enabled);
    assert!(!sw.switch("core", Some("nope"), true));
    assert!(!sw.switch("other", None, true));
    assert!(sw.has_module("core", Some("save")));
    assert!(!sw.has_module("core", Some("nope")));
    assert!(!sw.has_module("other", None));
}

#[test]
fn registering_grown_module_heals_table() {
    let mut sw = MasterSwitch::new();
    assert!(sw.register_module("coords".to_string(), &decl(&["find"])));
    assert!(sw.set_rules("coords", Some("find"), rules(&["-everyone"])));
    assert!(!sw.register_module("coords".to_string(), &decl(&["find"])));
    let mut grown = decl(&["find", "attach"]);
    grown[0].config.allowed = rules(&["+everyone"]);
    grown[1].config.allowed = rules(&["?admin"]);
    assert!(sw.register_module("coords".to_string(), &grown));
    let m = sw.get("coords").unwrap();
    assert_eq!(m.command("find").unwrap().allowed, rules(&["-everyone"]));
    assert_eq!(m.command("attach").unwrap().allowed, rules(&["?admin"]));
    assert!(m.command("attach").unwrap().enabled);
}

#[test]
fn new_module_starts_enabled_without_rules() {
    let mut sw = MasterSwitch::new();
    assert!(sw.register_module("core".to_string(), &decl(&["ping", "ping"])));
    let m = sw.get("core").unwrap();
    assert!(m.enabled);
    assert!(m.allowed.is_empty());
    assert_eq!(m.commands.len(), 1);
}

#[test]
fn pruning_drops_vanished_modules() {
    let mut sw = MasterSwitch::new();
    sw.register_module("core".to_string(), &decl(&["ping"]));
    sw.register_module("old".to_string(), &decl(&["x"]));
    assert!(sw.prune(&vec!["core".to_string()]));
    assert!(sw.get("old").is_none());
    assert!(sw.get("core").is_some());
    assert!(!sw.prune(&vec!["core".to_string()]));
    assert_eq!(sw.module_names(), vec!["core".to_string()]);
}

#[test]
fn loading_keeps_first_module() {
    let mut sw = MasterSwitch::new();
    let first = PerModuleConfig { enabled: false, allowed: rules(&["+dm"]), commands: decl(&["a", "a"]) };
    assert!(sw.load_module("m".to_string(), first));
    let second = PerModuleConfig { enabled: true, allowed: vec![], commands: vec![] };
    assert!(!sw.load_module("m".to_string(), second));
    let m = sw.get("m").unwrap();
    assert!(!m.enabled);
    assert_eq!(m.commands.len(), 1);
}
