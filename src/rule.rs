//! The rule language: one line of policy is `<polarity><scope><selector>`,
//! a bare keyword after the polarity, or a preset reference `?<name>`.

use vstd::prelude::*;
use vstd::string::StrSliceExecFns;
use crate::text::{
    parse_u64, parse_u64_spec, split_once, split_once_spec, str_eq,
};

verus! {

/// A role that the invoking user holds in some guild.
pub struct RoleGrant {
    pub guild_id: u64,
    pub role_id: u64,
    pub role_name: String,
}

/// The identity and origin facts that rules are tested against.
///
/// Names that could not be resolved in the origin environment are `None`;
/// a rule that needs them does not match.
pub struct EvalContext {
    pub user_id: u64,
    pub user_name: String,
    /// The guild the invocation came from; `None` for a direct message.
    pub guild_id: Option<u64>,
    pub guild_name: Option<String>,
    pub channel_id: u64,
    pub channel_name: Option<String>,
    /// The roles the user holds, in every guild the rules may name.
    pub roles: Vec<RoleGrant>,
}

pub open spec fn everyone_word() -> Seq<char> {
    seq!['e', 'v', 'e', 'r', 'y', 'o', 'n', 'e']
}

pub open spec fn everywhere_word() -> Seq<char> {
    seq!['e', 'v', 'e', 'r', 'y', 'w', 'h', 'e', 'r', 'e']
}

pub open spec fn dm_word() -> Seq<char> {
    seq!['d', 'm']
}

pub open spec fn server_word() -> Seq<char> {
    seq!['s', 'e', 'r', 'v', 'e', 'r']
}

/// The selectors that need no scope character.
pub open spec fn is_keyword(s: Seq<char>) -> bool {
    s == everyone_word() || s == everywhere_word() || s == dm_word() || s == server_word()
}

pub open spec fn is_scope_char(c: char) -> bool {
    c == '@' || c == '%' || c == '#' || c == '&'
}

/// A rule that defers to a named preset.
pub open spec fn is_preset_ref(r: Seq<char>) -> bool {
    r.len() > 0 && r[0] == '?'
}

/// The preset that a reference rule names.
pub open spec fn preset_name(r: Seq<char>) -> Seq<char> {
    r.skip(1)
}

/// Whether `r` is well formed: at least two characters, and a preset
/// reference, or a polarity followed either by a scope character and a
/// non-empty selector, or by a keyword.
pub open spec fn valid_rule(r: Seq<char>) -> bool {
    ||| (is_preset_ref(r) && r.len() >= 2)
    ||| {
        &&& r.len() >= 2
        &&& (r[0] == '+' || r[0] == '-')
        &&& ((is_scope_char(r[1]) && r.len() > 2) || is_keyword(r.skip(1)))
    }
}

/// Whether every rule of a list is well formed.
pub open spec fn all_valid(rules: Seq<Seq<char>>) -> bool {
    forall|i: int| 0 <= i < rules.len() ==> #[trigger] valid_rule(rules[i])
}

/// The verdict of a rule that matches: `+` allows, `-` denies.
pub open spec fn rule_allows(r: Seq<char>) -> bool {
    r[0] == '+'
}

/// Whether the user holds the role that a `&` selector names: `guild:role`,
/// or a bare `role` of the guild the invocation came from. The role is an id
/// or a role name.
pub open spec fn role_matches(sel: Seq<char>, ctx: EvalContext) -> bool {
    let role = role_part(sel);
    match role_guild(sel, ctx) {
        Some(gid) => exists|i: int|
            0 <= i < ctx.roles@.len() && #[trigger] grant_matches(ctx.roles@[i], gid, role),
        None => false,
    }
}

/// The guild that a `&` selector speaks of.
pub open spec fn role_guild(sel: Seq<char>, ctx: EvalContext) -> Option<u64> {
    match split_once_spec(sel, ':') {
        Some(parts) => parse_u64_spec(parts.0),
        None => ctx.guild_id,
    }
}

/// The role part of a `&` selector.
pub open spec fn role_part(sel: Seq<char>) -> Seq<char> {
    match split_once_spec(sel, ':') {
        Some(parts) => parts.1,
        None => sel,
    }
}

pub open spec fn grant_matches(g: RoleGrant, gid: u64, role: Seq<char>) -> bool {
    g.guild_id == gid && match parse_u64_spec(role) {
        Some(rid) => g.role_id == rid,
        None => g.role_name@ == role,
    }
}

pub open spec fn name_is(name: Option<String>, sel: Seq<char>) -> bool {
    match name {
        Some(n) => n@ == sel,
        None => false,
    }
}

/// Whether the target of a well-formed, non-reference rule covers `ctx`.
pub open spec fn target_matches(r: Seq<char>, ctx: EvalContext) -> bool {
    let sel = r.skip(2);
    if r[1] == '@' {
        match parse_u64_spec(sel) {
            Some(id) => id == ctx.user_id,
            None => sel == ctx.user_name@,
        }
    } else if r[1] == '%' {
        match ctx.guild_id {
            Some(g) => match parse_u64_spec(sel) {
                Some(id) => id == g,
                None => name_is(ctx.guild_name, sel),
            },
            None => false,
        }
    } else if r[1] == '#' {
        match parse_u64_spec(sel) {
            Some(id) => id == ctx.channel_id,
            None => ctx.guild_id is Some && name_is(ctx.channel_name, sel),
        }
    } else if r[1] == '&' {
        role_matches(sel, ctx)
    } else {
        let k = r.skip(1);
        ||| k == everyone_word()
        ||| k == everywhere_word()
        ||| (k == dm_word() && ctx.guild_id is None)
        ||| (k == server_word() && ctx.guild_id is Some)
    }
}

/// Whether rule `r` decides for `ctx` by itself. Preset references and
/// malformed rules never do.
pub open spec fn rule_matches(r: Seq<char>, ctx: EvalContext) -> bool {
    !is_preset_ref(r) && valid_rule(r) && target_matches(r, ctx)
}

fn is_keyword_str(s: &str) -> (r: bool)
    ensures
        r == is_keyword(s@),
{
    proof {
        reveal_strlit("everyone");
        reveal_strlit("everywhere");
        reveal_strlit("dm");
        reveal_strlit("server");
    }
    assert("everyone"@ =~= everyone_word());
    assert("everywhere"@ =~= everywhere_word());
    assert("dm"@ =~= dm_word());
    assert("server"@ =~= server_word());
    str_eq(s, "everyone") || str_eq(s, "everywhere") || str_eq(s, "dm") || str_eq(s, "server")
}

/// Checks the syntax of one rule.
pub fn validate_rule(r: &str) -> (ok: bool)
    ensures
        ok == valid_rule(r@),
{
    let n = r.unicode_len();
    if n == 0 {
        return false;
    }
    let p = r.get_char(0);
    if p == '?' {
        return n >= 2;
    }
    if n < 2 || (p != '+' && p != '-') {
        return false;
    }
    let c = r.get_char(1);
    if (c == '@' || c == '%' || c == '#' || c == '&') && n > 2 {
        return true;
    }
    let rest = r.substring_char(1, n);
    assert(rest@ =~= r@.skip(1));
    is_keyword_str(rest)
}

/// Checks the syntax of every rule of a list.
pub fn validate_rules(rules: &Vec<String>) -> (ok: bool)
    ensures
        ok == all_valid(rules@.map_values(|s: String| s@)),
{
    let ghost view = rules@.map_values(|s: String| s@);
    let mut i: usize = 0;
    while i < rules.len()
        invariant
            i <= rules@.len(),
            view == rules@.map_values(|s: String| s@),
            forall|k: int| 0 <= k < i ==> valid_rule(#[trigger] view[k]),
        decreases rules@.len() - i,
    {
        if !validate_rule(rules[i].as_str()) {
            assert(!valid_rule(view[i as int]));
            return false;
        }
        i = i + 1;
    }
    true
}

fn name_is_exec(name: &Option<String>, sel: &str) -> (r: bool)
    ensures
        r == name_is(*name, sel@),
{
    match name {
        Some(n) => str_eq(n.as_str(), sel),
        None => false,
    }
}

fn role_matches_exec(sel: &str, ctx: &EvalContext) -> (r: bool)
    ensures
        r == role_matches(sel@, *ctx),
{
    let (guild, role) = match split_once(sel, ':') {
        Some((g, rl)) => (parse_u64(g), rl),
        None => (ctx.guild_id, sel),
    };
    let gid = match guild {
        Some(g) => g,
        None => return false,
    };
    let role_id = parse_u64(role);
    assert(role_guild(sel@, *ctx) == Some(gid));
    assert(role_part(sel@) == role@);
    assert(role_matches(sel@, *ctx) == (exists|k: int|
        0 <= k < ctx.roles@.len() && #[trigger] grant_matches(ctx.roles@[k], gid, role@)));
    let mut i: usize = 0;
    while i < ctx.roles.len()
        invariant
            i <= ctx.roles@.len(),
            role_id == parse_u64_spec(role@),
            role_matches(sel@, *ctx) == (exists|k: int|
                0 <= k < ctx.roles@.len() && #[trigger] grant_matches(ctx.roles@[k], gid, role@)),
            forall|k: int| 0 <= k < i ==> !grant_matches(#[trigger] ctx.roles@[k], gid, role@),
        decreases ctx.roles@.len() - i,
    {
        let g = &ctx.roles[i];
        let hit = g.guild_id == gid && match role_id {
            Some(rid) => g.role_id == rid,
            None => str_eq(g.role_name.as_str(), role),
        };
        if hit {
            assert(grant_matches(ctx.roles@[i as int], gid, role@));
            return true;
        }
        i = i + 1;
    }
    false
}

/// Whether rule `r` decides by itself for `ctx`.
pub fn matches_context(r: &str, ctx: &EvalContext) -> (m: bool)
    ensures
        m == rule_matches(r@, *ctx),
{
    if !validate_rule(r) || r.get_char(0) == '?' {
        return false;
    }
    let n = r.unicode_len();
    let scope = r.get_char(1);
    let sel = r.substring_char(2, n);
    assert(sel@ =~= r@.skip(2));
    if scope == '@' {
        match parse_u64(sel) {
            Some(id) => id == ctx.user_id,
            None => str_eq(sel, ctx.user_name.as_str()),
        }
    } else if scope == '%' {
        match ctx.guild_id {
            Some(g) => match parse_u64(sel) {
                Some(id) => id == g,
                None => name_is_exec(&ctx.guild_name, sel),
            },
            None => false,
        }
    } else if scope == '#' {
        match parse_u64(sel) {
            Some(id) => id == ctx.channel_id,
            None => ctx.guild_id.is_some() && name_is_exec(&ctx.channel_name, sel),
        }
    } else if scope == '&' {
        role_matches_exec(sel, ctx)
    } else {
        let k = r.substring_char(1, n);
        assert(k@ =~= r@.skip(1));
        proof {
            reveal_strlit("everyone");
            reveal_strlit("everywhere");
            reveal_strlit("dm");
            reveal_strlit("server");
        }
        assert("everyone"@ =~= everyone_word());
        assert("everywhere"@ =~= everywhere_word());
        assert("dm"@ =~= dm_word());
        assert("server"@ =~= server_word());
        str_eq(k, "everyone") || str_eq(k, "everywhere") || (str_eq(k, "dm")
            && ctx.guild_id.is_none()) || (str_eq(k, "server") && ctx.guild_id.is_some())
    }
}

} // verus!
