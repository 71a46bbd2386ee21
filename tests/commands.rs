use merlin::clearance::Clearance;
use merlin::commands::{ClearanceOutcome, CmdClearance, CmdPerms, CmdSwitch, PermsOutcome, SwitchOutcome};
use merlin::coords::{Category, CogName, CoordsConfig, Dimension, Subcategory};
use merlin::options::MasterOptions;
use merlin::switch::{CommandEntry, MasterSwitch, PerCommandConfig};
use merlin::uptime::duration_string;

fn words(list: &[&str]) -> Vec<String> {
    list.iter().map(|s| s.to_string()).collect()
}

fn table() -> MasterSwitch {
    let mut sw = MasterSwitch::new();
    let decl = vec![
        CommandEntry { name: "switch".to_string(), config: PerCommandConfig::new() },
        CommandEntry { name: "ping".to_string(), config: PerCommandConfig::new() },
    ];
    sw.register_module("core".to_string(), &decl);
    sw.register_module("coords".to_string(), &vec![]);
    sw
}

#[test]
fn switch_command_protects_core() {
    let mut sw = table();
    assert!(matches!(CmdSwitch.run(&words(&["core", "disable"]), &mut sw), SwitchOutcome::Protected));
    assert!(matches!(CmdSwitch.run(&words(&["core.switch", "enable"]), &mut sw), SwitchOutcome::Protected));
    assert!(sw.get("core").unwrap().enabled);
}

#[test]
fn switch_command_toggles_and_reports() {
    let mut sw = table();
    assert!(matches!(CmdSwitch.run(&words(&["core.ping", "disable"]), &mut sw), SwitchOutcome::Switched));
    assert!(matches!(CmdSwitch.run(&words(&["core.ping"]), &mut sw), SwitchOutcome::Status(false)));
    assert!(matches!(CmdSwitch.run(&words(&["coords", "disable"]), &mut sw), SwitchOutcome::Switched));
    assert!(matches!(CmdSwitch.run(&words(&["coords"]), &mut sw), SwitchOutcome::Status(false)));
    assert!(matches!(CmdSwitch.run(&words(&["nope", "enable"]), &mut sw), SwitchOutcome::NoSuchModule));
    assert!(matches!(CmdSwitch.run(&words(&["nope"]), &mut sw), SwitchOutcome::NoSuchModule));
    assert!(matches!(CmdSwitch.run(&words(&["coords", "maybe"]), &mut sw), SwitchOutcome::Malformed));
    assert!(matches!(CmdSwitch.run(&words(&[]), &mut sw), SwitchOutcome::Malformed));
    assert_eq!(CmdSwitch.name(), "switch");
    assert_eq!(CmdSwitch.percmd().allowed, words(&["?admin"]));
}

#[test]
fn clearance_command_manages_presets() {
    let mut store = Clearance::new();
    let c = CmdClearance;
    assert!(matches!(c.run(&words(&["mods", "+&mods"]), &mut store, Some(9)), ClearanceOutcome::Updated));
    assert!(matches!(c.run(&words(&["mods"]), &mut store, None), ClearanceOutcome::Show(r) if r == words(&["+&9:mods"])));
    assert!(matches!(c.run(&words(&[]), &mut store, None), ClearanceOutcome::List(n) if n == words(&["mods"])));
    assert!(matches!(c.run(&words(&["x", "+&mods"]), &mut store, None), ClearanceOutcome::NeedsGuild));
    assert!(matches!(c.run(&words(&["x", "+what"]), &mut store, None), ClearanceOutcome::Invalid));
    assert!(matches!(c.run(&words(&["a", "?b"]), &mut store, None), ClearanceOutcome::Updated));
    assert!(matches!(c.run(&words(&["b", "?a"]), &mut store, None), ClearanceOutcome::Refused));
    assert!(matches!(c.run(&words(&["mods", "clear"]), &mut store, None), ClearanceOutcome::Cleared(true)));
    assert!(matches!(c.run(&words(&["mods", "clear"]), &mut store, None), ClearanceOutcome::Cleared(false)));
}

#[test]
fn perms_command_manages_rules() {
    let mut sw = table();
    let p = CmdPerms;
    assert!(matches!(p.run(&words(&[]), &mut sw, None), PermsOutcome::Malformed));
    assert!(matches!(p.run(&words(&["nope"]), &mut sw, None), PermsOutcome::NoSuchModule));
    assert!(matches!(p.run(&words(&["core.nope", "+dm"]), &mut sw, None), PermsOutcome::NoSuchModule));
    assert!(matches!(p.run(&words(&["core.ping", "+dm", "-&r"]), &mut sw, Some(4)), PermsOutcome::Updated));
    assert_eq!(sw.get("core").unwrap().command("ping").unwrap().allowed, words(&["+dm", "-&4:r"]));
    assert!(matches!(p.run(&words(&["core.ping"]), &mut sw, None), PermsOutcome::Show(r) if r == words(&["+dm", "-&4:r"])));
    assert!(matches!(p.run(&words(&["core", "+bad"]), &mut sw, None), PermsOutcome::Invalid));
    assert!(matches!(p.run(&words(&["core", "+&r"]), &mut sw, None), PermsOutcome::NeedsGuild));
    assert!(matches!(p.run(&words(&["core.ping", "clear"]), &mut sw, None), PermsOutcome::Cleared));
    assert!(matches!(p.run(&words(&["core.ping", "clear"]), &mut sw, None), PermsOutcome::AlreadyEmpty));
    assert!(matches!(p.run(&words(&["core", "+everyone"]), &mut sw, None), PermsOutcome::Updated));
    assert_eq!(sw.get("core").unwrap().allowed, words(&["+everyone"]));
}

#[test]
fn durations_in_words() {
    assert_eq!(duration_string(0), "less than a second");
    assert_eq!(duration_string(1), "1 second");
    assert_eq!(duration_string(60), "1 minute");
    assert_eq!(duration_string(3721), "1 hour, 2 minutes and 1 second");
    assert_eq!(duration_string(2 * 86400 + 5), "2 days and 5 seconds");
    assert_eq!(duration_string(31536000 + 2419200 * 2), "1 year and 2 months");
}

#[test]
fn dimensions_and_categories() {
    assert!(Dimension::from_str("ow") == Some(Dimension::Overworld));
    assert!(Dimension::from_str("nether") == Some(Dimension::Nether));
    assert!(Dimension::from_str("end") == Some(Dimension::End));
    assert!(Dimension::from_str("moon").is_none());
    assert_eq!(Dimension::Overworld.label(), "overworld");
    assert_eq!(Dimension::End.label(), "end");
    let mut cog = Category {
        id: 1,
        name: "farms".to_string(),
        display_name: "Farms".to_string(),
        description: String::new(),
        allowed: vec![],
        subcogcounter: 2,
        subcategories: vec![Subcategory::new("iron".to_string(), "Iron".to_string(), "d".to_string(), 1, None)],
        attachment_path: None,
    };
    assert!(cog.contains("iron"));
    assert!(!cog.contains("gold"));
    assert_eq!(cog.get_subcog("iron").unwrap().id, 1);
    assert!(cog.get_subcog("gold").is_none());
    cog.get_subcog_mut("iron").unwrap().description = "changed".to_string();
    assert_eq!(cog.subcategories[0].description, "changed");
    assert!(cog.subcategories[0].allowed.is_empty());
    assert_eq!(CoordsConfig::default().prevent_add_radius, 100);
}

#[test]
fn command_words_need_the_prefix() {
    let o = MasterOptions::default();
    assert_eq!(o.command_words(".core ping \"a b\""), Some(words(&["core", "ping", "a b"])));
    assert_eq!(o.command_words("core ping"), None);
    assert_eq!(o.command_words(".say \"open"), None);
    assert_eq!(o.command_words("."), Some(vec![]));
}

fn coord(cog: i64, subcog: i64, x: i64, z: i64) -> merlin::coords::Coord {
    merlin::coords::Coord {
        id: 1,
        cog,
        subcog,
        name: "spot".to_string(),
        display_name: "Spot".to_string(),
        description: String::new(),
        x,
        z,
        author_id: 7,
        dim: Dimension::Overworld,
        added: 0,
        tags: vec![],
    }
}

fn viewer(user_id: u64) -> merlin::rule::EvalContext {
    merlin::rule::EvalContext {
        user_id,
        user_name: "v".to_string(),
        guild_id: Some(1),
        guild_name: None,
        channel_id: 2,
        channel_name: None,
        roles: vec![],
    }
}

fn farms() -> Category {
    let mut hidden = Subcategory::new("secret".to_string(), "Secret".to_string(), String::new(), 2, Some("/s".to_string()));
    hidden.allowed = words(&["-everyone"]);
    Category {
        id: 5,
        name: "farms".to_string(),
        display_name: "Farms".to_string(),
        description: String::new(),
        allowed: words(&["+everyone"]),
        subcogcounter: 3,
        subcategories: vec![
            Subcategory::new("open".to_string(), "Open".to_string(), String::new(), 1, None),
            hidden,
        ],
        attachment_path: Some("/farms".to_string()),
    }
}

#[test]
fn coord_visibility_cascades() {
    let store = Clearance::new();
    let cog = farms();
    assert!(coord(0, 0, 0, 0).is_allowed(None, &store, &viewer(1)));
    assert!(coord(0, 1, 0, 0).is_allowed(None, &store, &viewer(7)));
    assert!(!coord(0, 1, 0, 0).is_allowed(None, &store, &viewer(8)));
    assert!(coord(5, 1, 0, 0).is_allowed(Some(&cog), &store, &viewer(1)));
    assert!(!coord(5, 2, 0, 0).is_allowed(Some(&cog), &store, &viewer(1)));
    assert!(coord(5, 9, 0, 0).is_allowed(Some(&cog), &store, &viewer(1)));
    assert!(!coord(5, 1, 0, 0).is_allowed(None, &store, &viewer(1)));
}

#[test]
fn nearby_checks_distance_and_dimension() {
    let c = coord(0, 0, 100, -50);
    assert!(c.is_near(103, -46, 5, Dimension::Overworld));
    assert!(!c.is_near(104, -46, 5, Dimension::Overworld));
    assert!(!c.is_near(100, -50, 5, Dimension::Nether));
    let far = coord(0, 0, i64::MIN, i64::MIN);
    assert!(!far.is_near(i64::MAX, i64::MAX, u64::MAX, Dimension::Overworld));
    assert!(far.is_near(i64::MIN, i64::MIN, 0, Dimension::Overworld));
}

#[test]
fn attachment_paths_fall_back() {
    let cog = farms();
    let default = "/default".to_string();
    assert_eq!(Category::path(Some(&cog), 2, &default), "/s");
    assert_eq!(Category::path(Some(&cog), 1, &default), "/farms");
    assert_eq!(Category::path(None, 1, &default), "/default");
    let mut bare = farms();
    bare.attachment_path = None;
    assert_eq!(Category::path(Some(&bare), 1, &default), "/default");
}

#[test]
fn category_names_are_read() {
    assert!(matches!(Category::cogs_from_name("generic"), CogName::Builtin(0, None)));
    assert!(matches!(Category::cogs_from_name("generic.unspecified"), CogName::Builtin(0, Some(0))));
    assert!(matches!(Category::cogs_from_name("generic.private"), CogName::Builtin(0, Some(1))));
    assert!(matches!(Category::cogs_from_name("farms.iron"), CogName::Named(c, Some(s)) if c == "farms" && s == "iron"));
    assert!(matches!(Category::cogs_from_name("farms"), CogName::Named(c, None) if c == "farms"));
}
