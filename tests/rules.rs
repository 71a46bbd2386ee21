use merlin::rule::{matches_context, validate_rule, validate_rules, EvalContext, RoleGrant};
use merlin::text::{decimal_string, parse_u64, split_char, split_once};

fn ctx_in_guild() -> EvalContext {
    EvalContext {
        user_id: 42,
        user_name: "alice".to_string(),
        guild_id: Some(7),
        guild_name: Some("town".to_string()),
        channel_id: 99,
        channel_name: Some("general".to_string()),
        roles: vec![RoleGrant { guild_id: 7, role_id: 5, role_name: "mods".to_string() }],
    }
}

fn ctx_in_dm() -> EvalContext {
    EvalContext {
        user_id: 42,
        user_name: "alice".to_string(),
        guild_id: None,
        guild_name: None,
        channel_id: 3,
        channel_name: None,
        roles: vec![],
    }
}

#[test]
fn parse_u64_reads_decimal_numbers() {
    assert_eq!(parse_u64("123"), Some(123));
    assert_eq!(parse_u64("+8"), Some(8));
    assert_eq!(parse_u64("18446744073709551615"), Some(u64::MAX));
    assert_eq!(parse_u64("18446744073709551616"), None);
    assert_eq!(parse_u64(""), None);
    assert_eq!(parse_u64("+"), None);
    assert_eq!(parse_u64("12a"), None);
    assert_eq!(parse_u64("-1"), None);
}

#[test]
fn decimal_string_writes_numbers() {
    assert_eq!(decimal_string(0), "0");
    assert_eq!(decimal_string(907), "907");
    assert_eq!(decimal_string(u64::MAX), "18446744073709551615");
}

#[test]
fn split_helpers_cut_text() {
    assert_eq!(split_once("a:b:c", ':'), Some(("a", "b:c")));
    assert_eq!(split_once("abc", ':'), None);
    assert_eq!(split_char("core.switch", '.'), vec!["core".to_string(), "switch".to_string()]);
    assert_eq!(split_char("", '.'), vec!["".to_string()]);
    assert_eq!(split_char("a..b", '.'), vec!["a".to_string(), "".to_string(), "b".to_string()]);
}

#[test]
fn rule_syntax_is_checked() {
    for ok in ["+everyone", "-everywhere", "+dm", "-server", "+@alice", "-%7", "+#general", "+&7:5", "+&mods", "?admin", "?a"] {
        assert!(validate_rule(ok), "{ok}");
    }
    for bad in ["", "?", "+", "+@", "*everyone", "+nobody", "everyone", "+$x", "-&"] {
        assert!(!validate_rule(bad), "{bad}");
    }
    assert!(validate_rules(&vec!["+dm".to_string(), "?a".to_string()]));
    assert!(!validate_rules(&vec!["+dm".to_string(), "+x".to_string()]));
    assert!(validate_rules(&vec![]));
}

#[test]
fn user_rules_match_by_id_or_name() {
    let ctx = ctx_in_guild();
    assert!(matches_context("+@42", &ctx));
    assert!(matches_context("-@alice", &ctx));
    assert!(!matches_context("+@43", &ctx));
    assert!(!matches_context("+@bob", &ctx));
}

#[test]
fn guild_and_channel_rules_match_origin() {
    let g = ctx_in_guild();
    let d = ctx_in_dm();
    assert!(matches_context("+%7", &g));
    assert!(matches_context("+%town", &g));
    assert!(!matches_context("+%8", &g));
    assert!(!matches_context("+%7", &d));
    assert!(matches_context("+#99", &g));
    assert!(matches_context("+#general", &g));
    assert!(matches_context("+#3", &d));
    assert!(!matches_context("+#general", &d));
}

#[test]
fn role_rules_match_held_roles() {
    let g = ctx_in_guild();
    assert!(matches_context("+&7:5", &g));
    assert!(matches_context("+&7:mods", &g));
    assert!(matches_context("+&mods", &g));
    assert!(matches_context("+&5", &g));
    assert!(!matches_context("+&8:5", &g));
    assert!(!matches_context("+&7:6", &g));
    assert!(!matches_context("+&town:5", &g));
    assert!(!matches_context("+&mods", &ctx_in_dm()));
}

#[test]
fn keyword_rules_match() {
    let g = ctx_in_guild();
    let d = ctx_in_dm();
    assert!(matches_context("+everyone", &g));
    assert!(matches_context("-everywhere", &d));
    assert!(matches_context("+dm", &d));
    assert!(!matches_context("+dm", &g));
    assert!(matches_context("+server", &g));
    assert!(!matches_context("+server", &d));
    assert!(!matches_context("?everyone", &g));
    assert!(!matches_context("+bogus", &g));
}
