use merlin::clearance::{Clearance, Preset};
use merlin::rule::EvalContext;

fn ctx(user_id: u64, guild: Option<u64>) -> EvalContext {
    EvalContext {
        user_id,
        user_name: format!("user{user_id}"),
        guild_id: guild,
        guild_name: None,
        channel_id: 1,
        channel_name: None,
        roles: vec![],
    }
}

fn rules(list: &[&str]) -> Vec<String> {
    list.iter().map(|s| s.to_string()).collect()
}

#[test]
fn empty_rules_are_inconclusive() {
    let store = Clearance::new();
    assert_eq!(store.is_allowed(&vec![], &ctx(1, None)), None);
}

#[test]
fn last_matching_rule_wins() {
    let store = Clearance::new();
    let c = ctx(5, Some(2));
    assert_eq!(store.is_allowed(&rules(&["-everyone", "+@5"]), &c), Some(true));
    assert_eq!(store.is_allowed(&rules(&["+@5", "-everyone"]), &c), Some(false));
    assert_eq!(store.is_allowed(&rules(&["+@5", "-@6"]), &c), Some(true));
    assert_eq!(store.is_allowed(&rules(&["+@6"]), &c), None);
    assert_eq!(store.is_allowed(&rules(&["-everyone", "+dm"]), &c), Some(false));
}

#[test]
fn decisive_preset_short_circuits() {
    let mut store = Clearance::new();
    assert!(store.set("presetA".to_string(), rules(&["+everyone"])));
    let c = ctx(1, None);
    assert_eq!(store.eval("presetA", &c), Some(true));
    assert_eq!(store.is_allowed(&rules(&["-everyone", "?presetA"]), &c), Some(true));
    assert_eq!(store.is_allowed(&rules(&["?presetA", "-everyone"]), &c), Some(false));
}

#[test]
fn inconclusive_preset_falls_through() {
    let mut store = Clearance::new();
    assert!(store.set("staff".to_string(), rules(&["+@9"])));
    let c = ctx(1, None);
    assert_eq!(store.eval("staff", &c), None);
    assert_eq!(store.is_allowed(&rules(&["-everyone", "?staff"]), &c), Some(false));
    assert_eq!(store.is_allowed(&rules(&["?staff"]), &c), None);
    assert_eq!(store.is_allowed(&rules(&["+everyone", "?missing"]), &c), Some(true));
    assert_eq!(store.eval("missing", &c), None);
}

#[test]
fn nested_presets_are_followed() {
    let mut store = Clearance::new();
    assert!(store.set("inner".to_string(), rules(&["+@3"])));
    assert!(store.set("outer".to_string(), rules(&["-everyone", "?inner"])));
    assert_eq!(store.eval("outer", &ctx(3, None)), Some(true));
    assert_eq!(store.eval("outer", &ctx(4, None)), Some(false));
}

#[test]
fn mutual_reference_is_refused() {
    let mut store = Clearance::new();
    assert!(store.set("a".to_string(), rules(&["?b"])));
    assert!(!store.set("b".to_string(), rules(&["?a"])));
    assert!(!store.contains("b"));
    assert!(store.get("b").is_empty());
    assert_eq!(store.get("a"), rules(&["?b"]));
}

#[test]
fn cycle_refusal_keeps_previous_rules() {
    let mut store = Clearance::new();
    assert!(store.set("b".to_string(), rules(&["+dm"])));
    assert!(store.set("a".to_string(), rules(&["?b"])));
    assert!(!store.set("b".to_string(), rules(&["?a"])));
    assert_eq!(store.get("b"), rules(&["+dm"]));
}

#[test]
fn self_reference_and_long_cycles_are_refused() {
    let mut store = Clearance::new();
    assert!(!store.set("a".to_string(), rules(&["?a"])));
    assert!(store.set("a".to_string(), rules(&["?b"])));
    assert!(store.set("b".to_string(), rules(&["?c"])));
    assert!(!store.set("c".to_string(), rules(&["+dm", "?a"])));
    assert!(store.set("c".to_string(), rules(&["+dm"])));
    assert!(!store.no_cycles("c", &rules(&["?a"])));
    assert!(store.no_cycles("c", &rules(&["?d"])));
}

#[test]
fn shared_presets_are_accepted() {
    let mut store = Clearance::new();
    assert!(store.set("d".to_string(), rules(&["+dm"])));
    assert!(store.set("b".to_string(), rules(&["?d"])));
    assert!(store.set("c".to_string(), rules(&["?d"])));
    assert!(store.set("a".to_string(), rules(&["?b", "?c", "?c"])));
}

#[test]
fn malformed_rules_are_refused() {
    let mut store = Clearance::new();
    assert!(!store.set("a".to_string(), rules(&["+dm", "+nobody"])));
    assert!(!store.contains("a"));
    assert!(!store.validate(&rules(&["x"]), None));
    assert!(store.validate(&rules(&["+@1"]), None));
    assert!(!store.validate(&rules(&["?a"]), Some("a")));
}

#[test]
fn removal_is_idempotent() {
    let mut store = Clearance::new();
    assert!(!store.remove("ghost"));
    assert!(store.list_all().is_empty());
    assert!(store.set("ghost".to_string(), rules(&["+dm"])));
    assert!(store.remove("ghost"));
    assert!(store.get("ghost").is_empty());
    assert!(!store.remove("ghost"));
}

#[test]
fn default_store_has_admin_denying_everyone() {
    let store = Clearance::default();
    assert_eq!(store.list_all(), vec!["admin".to_string()]);
    assert_eq!(store.get("admin"), rules(&["-everyone"]));
    assert_eq!(store.eval("admin", &ctx(1, Some(1))), Some(false));
}

#[test]
fn loading_drops_cyclic_entries() {
    let store = Clearance::from_presets(vec![
        Preset { name: "a".to_string(), rules: rules(&["?b"]) },
        Preset { name: "b".to_string(), rules: rules(&["?a"]) },
        Preset { name: "c".to_string(), rules: rules(&["+dm"]) },
    ]);
    let mut names = store.list_all();
    names.sort();
    assert_eq!(names, vec!["a".to_string(), "c".to_string()]);
    assert_eq!(store.presets().len(), 2);
}

#[test]
fn role_rules_get_the_guild() {
    let mut list = rules(&["+&mods", "+&1:x", "-dm"]);
    assert!(Clearance::map_rules(&mut list, Some(77)));
    assert_eq!(list, rules(&["+&77:mods", "+&1:x", "-dm"]));
    let mut list = rules(&["+&mods"]);
    assert!(!Clearance::map_rules(&mut list, None));
    assert_eq!(list, rules(&["+&mods"]));
    let mut list = rules(&["+dm"]);
    assert!(Clearance::map_rules(&mut list, None));
}
