use merlin::clearance::Clearance;
use merlin::core_module::ModCore;
use merlin::router::{usage_help, CommandHandler, Dispatch, HelpPage, ModuleInfo, Route};
use merlin::rule::EvalContext;
use merlin::switch::{CommandEntry, MasterSwitch, PerCommandConfig};

fn words(list: &[&str]) -> Vec<String> {
    list.iter().map(|s| s.to_string()).collect()
}

fn ctx() -> EvalContext {
    EvalContext {
        user_id: 1,
        user_name: "u".to_string(),
        guild_id: Some(2),
        guild_name: None,
        channel_id: 3,
        channel_name: None,
        roles: vec![],
    }
}

fn coords_table() -> (CommandHandler, MasterSwitch) {
    let mut h = CommandHandler::new();
    let mut sw = MasterSwitch::new();
    let info = ModuleInfo::from_text("coords".to_string(), words(&["addcog", "find"]), Some("help coords"));
    let decl = vec![
        CommandEntry { name: "addcog".to_string(), config: PerCommandConfig::new() },
        CommandEntry { name: "find".to_string(), config: PerCommandConfig::new() },
    ];
    h.load_module(&mut sw, info, &decl, &vec![("addcog", "coords addcog"), ("broken", "\"open")]);
    (h, sw)
}

fn as_module(r: Route) -> Option<(String, Vec<String>)> {
    match r {
        Route::Module { module, args } => Some((module, args)),
        _ => None,
    }
}

#[test]
fn alias_expands_like_direct_input() {
    let (h, sw) = coords_table();
    let via_alias = as_module(h.run(&sw, &words(&["addcog", "town", "desc"])));
    let direct = as_module(h.run(&sw, &words(&["coords", "addcog", "town", "desc"])));
    assert_eq!(via_alias, Some(("coords".to_string(), words(&["addcog", "town", "desc"]))));
    assert_eq!(via_alias, direct);
}

#[test]
fn unknown_and_empty_input_is_ignored() {
    let (h, sw) = coords_table();
    assert!(matches!(h.run(&sw, &words(&["nothing", "here"])), Route::Ignore));
    assert!(matches!(h.run(&sw, &vec![]), Route::Ignore));
    assert!(matches!(h.run(&sw, &words(&["broken"])), Route::Ignore));
}

#[test]
fn help_keyword_goes_to_help() {
    let (h, sw) = coords_table();
    match h.run(&sw, &words(&["help", "coords"])) {
        Route::Help(a) => assert_eq!(a, words(&["coords"])),
        _ => panic!("expected help"),
    }
}

#[test]
fn disabled_module_is_dropped_directly_and_by_alias() {
    let (h, mut sw) = coords_table();
    assert!(sw.switch("coords", None, false));
    assert!(matches!(h.run(&sw, &words(&["coords", "find"])), Route::Ignore));
    assert!(matches!(h.run(&sw, &words(&["addcog", "x"])), Route::Ignore));
}

#[test]
fn multi_word_alias_and_chains() {
    let (mut h, sw) = coords_table();
    assert!(h.add_alias("add cog".to_string(), "addcog"));
    assert!(!h.add_alias("bad".to_string(), "'unterminated"));
    let r = as_module(h.run(&sw, &words(&["add", "cog", "x"])));
    assert_eq!(r, Some(("coords".to_string(), words(&["addcog", "x"]))));
}

#[test]
fn alias_chains_are_followed() {
    let (mut h, sw) = coords_table();
    assert!(h.add_alias("x".to_string(), "y 1"));
    assert!(h.add_alias("y".to_string(), "z 2"));
    assert!(h.add_alias("z".to_string(), "coords find"));
    let r = as_module(h.run(&sw, &words(&["x", "0"])));
    assert_eq!(r, Some(("coords".to_string(), words(&["find", "2", "1", "0"]))));
}

#[test]
fn dispatch_runs_allowed_commands() {
    let (h, sw) = coords_table();
    let store = Clearance::new();
    match h.dispatch("coords", &words(&["FIND", "x"]), &sw, &store, &ctx()) {
        Dispatch::Run { command, args } => {
            assert_eq!(command, "find");
            assert_eq!(args, words(&["x"]));
        }
        _ => panic!("expected run"),
    }
}

#[test]
fn dispatch_denies_by_module_or_command() {
    let (h, mut sw) = coords_table();
    let store = Clearance::new();
    assert!(sw.set_rules("coords", Some("find"), words(&["-everyone"])));
    assert!(matches!(h.dispatch("coords", &words(&["find"]), &sw, &store, &ctx()), Dispatch::Denied));
    assert!(sw.set_rules("coords", Some("find"), vec![]));
    assert!(sw.set_rules("coords", None, words(&["-server"])));
    assert!(matches!(h.dispatch("coords", &words(&["find"]), &sw, &store, &ctx()), Dispatch::Denied));
    assert!(matches!(h.dispatch("nomodule", &words(&["find"]), &sw, &store, &ctx()), Dispatch::Denied));
}

#[test]
fn dispatch_falls_back_to_default_command() {
    let (h, sw) = coords_table();
    let store = Clearance::new();
    match h.dispatch("coords", &words(&["unknown"]), &sw, &store, &ctx()) {
        Dispatch::Reroute(w) => assert_eq!(w, words(&["help", "coords"])),
        _ => panic!("expected reroute"),
    }
    match h.dispatch("coords", &vec![], &sw, &store, &ctx()) {
        Dispatch::Reroute(w) => assert_eq!(w, words(&["help", "coords"])),
        _ => panic!("expected reroute"),
    }
}

#[test]
fn module_without_default_shows_its_help() {
    let mut h = CommandHandler::new();
    let mut sw = MasterSwitch::new();
    let info = ModuleInfo::from_text("bare".to_string(), vec![], None);
    h.load_module(&mut sw, info, &vec![], &vec![]);
    let store = Clearance::new();
    match h.dispatch("bare", &words(&["x"]), &sw, &store, &ctx()) {
        Dispatch::Help(w) => assert_eq!(w, words(&["bare"])),
        _ => panic!("expected help"),
    }
    assert_eq!(usage_help("bare", &words(&["x", "y"])), words(&["bare", "x", "y"]));
}

#[test]
fn help_pages() {
    let (h, _) = coords_table();
    match h.help(&words(&["coords.find"])) {
        HelpPage::Command { module, command } => {
            assert_eq!(module, "coords");
            assert_eq!(command, "find");
        }
        _ => panic!("expected command page"),
    }
    assert!(matches!(h.help(&words(&["coords", "nope"])), HelpPage::Module(m) if m == "coords"));
    assert!(matches!(h.help(&words(&["addcog"])), HelpPage::Command { .. }));
    assert!(matches!(h.help(&words(&[])), HelpPage::Modules));
    assert!(matches!(h.help(&words(&["zzz"])), HelpPage::Modules));
}

#[test]
fn core_module_registers_with_aliases() {
    let mut h = CommandHandler::new();
    let mut sw = MasterSwitch::new();
    assert!(ModCore.register(&mut h, &mut sw));
    let m = sw.get("core").unwrap();
    assert_eq!(m.command("clearance").unwrap().allowed, words(&["?admin"]));
    assert_eq!(m.command("save").unwrap().allowed, words(&["-everyone"]));
    assert!(m.command("ping").unwrap().allowed.is_empty());
    let r = as_module(h.run(&sw, &words(&["preset", "admin"])));
    assert_eq!(r, Some(("core".to_string(), words(&["clearance", "admin"]))));
    let mut h2 = CommandHandler::new();
    assert!(!ModCore.register(&mut h2, &mut sw));
    assert!(sw.switch("core", None, false));
    let mut h3 = CommandHandler::new();
    ModCore.register(&mut h3, &mut sw);
    assert!(h3.modules.is_empty());
    assert!(h3.alias.is_empty());
}

#[test]
fn alias_chain_may_reuse_an_alias() {
    let mut h = CommandHandler::new();
    let mut sw = MasterSwitch::new();
    let info = ModuleInfo::from_text("m".to_string(), vec![], None);
    h.load_module(&mut sw, info, &vec![], &vec![("a b", "a"), ("a c", "m")]);
    let r = as_module(h.run(&sw, &words(&["a", "b", "b", "c"])));
    assert_eq!(r, Some(("m".to_string(), vec![])));
    assert_eq!(h.alias.len(), 2);
    assert_eq!(h.alias[0].expansion, words(&["a"]));
}
