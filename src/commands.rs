//! The administrative commands of the core module: what they decide and
//! change, given their words. Their replies are written by the caller.

use vstd::prelude::*;
use vstd::string::StringExecFns;
use crate::clearance::{
    copy_rules, needs_guild, qualify_rule, rules_view, set_accepts, Clearance,
};
use crate::router::tail;
use crate::rule::all_valid;
use crate::switch::{MasterSwitch, ModuleState, PerCommandConfig};
use crate::text::{split_once, split_once_spec, str_eq};

verus! {

pub open spec fn enable_word() -> Seq<char> {
    seq!['e', 'n', 'a', 'b', 'l', 'e']
}

pub open spec fn disable_word() -> Seq<char> {
    seq!['d', 'i', 's', 'a', 'b', 'l', 'e']
}

pub open spec fn clear_word() -> Seq<char> {
    seq!['c', 'l', 'e', 'a', 'r']
}

pub open spec fn core_word() -> Seq<char> {
    seq!['c', 'o', 'r', 'e']
}

pub open spec fn core_switch_word() -> Seq<char> {
    seq!['c', 'o', 'r', 'e', '.', 's', 'w', 'i', 't', 'c', 'h']
}

/// `module` or `module.command`, as a module and an optional command.
pub open spec fn item_parts(item: Seq<char>) -> (Seq<char>, Option<Seq<char>>) {
    match split_once_spec(item, '.') {
        Some((m, c)) => (m, Some(c)),
        None => (item, None),
    }
}

/// Whether the table has the module, and the command when one is named.
pub open spec fn item_exists(sw: Map<Seq<char>, ModuleState>, item: Seq<char>) -> bool {
    let (m, c) = item_parts(item);
    sw.dom().contains(m) && match c {
        Some(c) => sw[m].commands.dom().contains(c),
        None => true,
    }
}

/// The rules of the module or command that `item` names.
pub open spec fn item_rules(sw: Map<Seq<char>, ModuleState>, item: Seq<char>) -> Seq<Seq<char>> {
    let (m, c) = item_parts(item);
    match c {
        Some(c) => sw[m].commands[c].rules,
        None => sw[m].rules,
    }
}

fn is_word(s: &str, lit: &str) -> (r: bool)
    ensures
        r == (s@ == lit@),
{
    str_eq(s, lit)
}

/// Cuts `module.command` at its first dot.
fn item_parts_exec<'a>(item: &'a str) -> (r: (&'a str, Option<&'a str>))
    ensures
        (r.0@, match r.1 {
            Some(c) => Some(c@),
            None => None,
        }) == item_parts(item@),
{
    match split_once(item, '.') {
        Some((m, c)) => (m, Some(c)),
        None => (item, None),
    }
}

/// What `switch` did.
pub enum SwitchOutcome {
    /// The words do not fit the command's usage.
    Malformed,
    /// The core module, or the switch command itself, cannot be turned off.
    Protected,
    /// The module or command was turned on or off.
    Switched,
    /// There is no such module or command.
    NoSuchModule,
    /// The module or command is on or off.
    Status(bool),
}

/// The `switch` command.
pub struct CmdSwitch;

impl CmdSwitch {
    pub fn name(&self) -> (r: &'static str)
        ensures
            r@ == seq!['s', 'w', 'i', 't', 'c', 'h'],
    {
        proof {
            reveal_strlit("switch");
        }
        let r = "switch";
        assert(r@ =~= seq!['s', 'w', 'i', 't', 'c', 'h']);
        r
    }

    pub fn description(&self) -> &'static str {
        "Enable/disable commands and modules."
    }

    pub fn usage(&self) -> (r: Vec<&'static str>) {
        vec!["[module] (enable|disable)"]
    }

    /// Only presets called `admin` may use it.
    pub fn percmd(&self) -> (c: PerCommandConfig)
        ensures
            c@.enabled,
            c@.rules == seq![seq!['?', 'a', 'd', 'm', 'i', 'n']],
    {
        admin_only()
    }

    /// `[item] enable|disable` turns a module or a command on or off;
    /// `[item]` tells whether it is on. `core` and `core.switch` stay on.
    pub fn run(&self, args: &Vec<String>, switch: &mut MasterSwitch) -> (r: SwitchOutcome)
        requires
            old(switch).wf(),
        ensures
            final(switch).wf(),
            args@.len() == 2 && (args@[1]@ == enable_word() || args@[1]@ == disable_word()) && (args@[0]@
                == core_word() || args@[0]@ == core_switch_word()) ==> r is Protected
                && final(switch)@ == old(switch)@,
            args@.len() == 2 && (args@[1]@ == enable_word() || args@[1]@ == disable_word()) && !(
            args@[0]@ == core_word() || args@[0]@ == core_switch_word()) ==> {
                let (m, c) = item_parts(args@[0]@);
                &&& (r is Switched <==> item_exists(old(switch)@, args@[0]@))
                &&& (r is Switched || r is NoSuchModule)
                &&& r is Switched ==> final(switch)@ == old(switch)@.insert(
                    m,
                    match c {
                        None => ModuleState {
                            enabled: args@[1]@ == enable_word(),
                            ..old(switch)@[m]
                        },
                        Some(c) => ModuleState {
                            commands: old(switch)@[m].commands.insert(
                                c,
                                crate::switch::CommandState {
                                    enabled: args@[1]@ == enable_word(),
                                    ..old(switch)@[m].commands[c]
                                },
                            ),
                            ..old(switch)@[m]
                        },
                    },
                )
                &&& r is NoSuchModule ==> final(switch)@ == old(switch)@
            },
            args@.len() == 2 && !(args@[1]@ == enable_word() || args@[1]@ == disable_word()) ==> r is Malformed
                && final(switch)@ == old(switch)@,
            args@.len() == 1 ==> final(switch)@ == old(switch)@ && match r {
                SwitchOutcome::Status(on) => item_exists(old(switch)@, args@[0]@) && on == {
                    let (m, c) = item_parts(args@[0]@);
                    match c {
                        Some(c) => old(switch)@[m].commands[c].enabled,
                        None => old(switch)@[m].enabled,
                    }
                },
                SwitchOutcome::NoSuchModule => !item_exists(old(switch)@, args@[0]@),
                _ => false,
            },
            args@.len() != 1 && args@.len() != 2 ==> r is Malformed && final(switch)@ == old(switch)@,
    {
        proof {
            reveal_strlit("enable");
            reveal_strlit("disable");
            reveal_strlit("core");
            reveal_strlit("core.switch");
            assert("enable"@ =~= enable_word());
            assert("disable"@ =~= disable_word());
            assert("core"@ =~= core_word());
            assert("core.switch"@ =~= core_switch_word());
        }
        if args.len() == 2 {
            let item = args[0].as_str();
            let val = args[1].as_str();
            let on = is_word(val, "enable");
            if !on && !is_word(val, "disable") {
                return SwitchOutcome::Malformed;
            }
            if is_word(item, "core") || is_word(item, "core.switch") {
                return SwitchOutcome::Protected;
            }
            let (m, c) = item_parts_exec(item);
            if switch.switch(m, c, on) {
                SwitchOutcome::Switched
            } else {
                SwitchOutcome::NoSuchModule
            }
        } else if args.len() == 1 {
            let (m, c) = item_parts_exec(args[0].as_str());
            match switch.get(m) {
                Some(permod) => match c {
                    Some(c) => match permod.command(c) {
                        Some(percmd) => SwitchOutcome::Status(percmd.enabled),
                        None => SwitchOutcome::NoSuchModule,
                    },
                    None => SwitchOutcome::Status(permod.enabled),
                },
                None => SwitchOutcome::NoSuchModule,
            }
        } else {
            SwitchOutcome::Malformed
        }
    }
}

/// `rules` with the guild written into its role rules that name none.
pub open spec fn qualified(rules: Seq<Seq<char>>, guild: Option<u64>) -> Seq<Seq<char>> {
    match guild {
        Some(g) => Seq::new(rules.len(), |i: int| qualify_rule(rules[i], g)),
        None => rules,
    }
}

/// Whether `rules` can be used from where `guild` says the invocation
/// came from: a role rule without a guild needs one.
pub open spec fn guild_known(rules: Seq<Seq<char>>, guild: Option<u64>) -> bool {
    guild is Some || forall|i: int| 0 <= i < rules.len() ==> !needs_guild(#[trigger] rules[i])
}

/// The words after the first, qualified with the guild; `None` when a
/// role rule needs a guild and there is none.
fn qualified_tail(args: &Vec<String>, guild: Option<u64>) -> (r: Option<Vec<String>>)
    requires
        args@.len() >= 1,
    ensures
        match r {
            Some(v) => guild_known(rules_view(args@).skip(1), guild) && rules_view(v@) == qualified(
                rules_view(args@).skip(1),
                guild,
            ),
            None => !guild_known(rules_view(args@).skip(1), guild),
        },
{
    let mut rules = tail(args, 1);
    let ghost before = rules@;
    if Clearance::map_rules(&mut rules, guild) {
        proof {
            let t = rules_view(args@).skip(1);
            assert forall|i: int| 0 <= i < before.len() implies !needs_guild(#[trigger] t[i]) || guild is Some by {
                assert(t[i] == before[i]@);
            }
            if guild is Some {
                assert(rules_view(rules@) =~= qualified(t, guild));
            } else {
                assert(rules_view(rules@) =~= t);
            }
        }
        Some(rules)
    } else {
        proof {
            let t = rules_view(args@).skip(1);
            let i = choose|i: int| 0 <= i < before.len() && needs_guild(#[trigger] before[i]@);
            assert(t[i] == before[i]@);
        }
        None
    }
}

/// What `clearance` did.
pub enum ClearanceOutcome {
    /// The names of every preset.
    List(Vec<String>),
    /// The rules of a preset.
    Show(Vec<String>),
    /// A preset was removed; whether it had existed.
    Cleared(bool),
    /// A rule is malformed.
    Invalid,
    /// A role rule names no guild and the invocation came from none.
    NeedsGuild,
    /// The preset would reach itself through references.
    Refused,
    /// The preset was set.
    Updated,
}

/// The `clearance` command: manages presets.
pub struct CmdClearance;

impl CmdClearance {
    pub fn name(&self) -> (r: &'static str)
        ensures
            r@ == seq!['c', 'l', 'e', 'a', 'r', 'a', 'n', 'c', 'e'],
    {
        proof {
            reveal_strlit("clearance");
        }
        let r = "clearance";
        assert(r@ =~= seq!['c', 'l', 'e', 'a', 'r', 'a', 'n', 'c', 'e']);
        r
    }

    pub fn description(&self) -> &'static str {
        "Manage clearance presets."
    }

    pub fn usage(&self) -> Vec<&'static str> {
        vec!["(preset)", "[preset] (rules...)", "[preset] clear"]
    }

    /// Only presets called `admin` may use it.
    pub fn percmd(&self) -> (c: PerCommandConfig)
        ensures
            c@.enabled,
            c@.rules == seq![seq!['?', 'a', 'd', 'm', 'i', 'n']],
    {
        admin_only()
    }

    /// No words list the presets; `[preset]` shows one; `[preset] clear`
    /// removes it; `[preset] (rules...)` sets it, with the guild of the
    /// invocation written into role rules that name none.
    pub fn run(&self, args: &Vec<String>, store: &mut Clearance, guild: Option<u64>) -> (r:
        ClearanceOutcome)
        requires
            old(store).wf(),
        ensures
            final(store).wf(),
            args@.len() == 0 ==> final(store)@ == old(store)@ && match r {
                ClearanceOutcome::List(names) => names@.len() == old(store)@.dom().len() && forall|
                    k: Seq<char>,
                | old(store)@.dom().contains(k) <==> exists|i: int|
                    0 <= i < names@.len() && #[trigger] names@[i]@ == k,
                _ => false,
            },
            args@.len() == 1 ==> final(store)@ == old(store)@ && match r {
                ClearanceOutcome::Show(rules) => rules_view(rules@)
                    == crate::clearance::preset_rules(old(store)@, args@[0]@),
                _ => false,
            },
            args@.len() == 2 && args@[1]@ == clear_word() ==> final(store)@ == old(store)@.remove(
                args@[0]@,
            ) && r == ClearanceOutcome::Cleared(old(store)@.dom().contains(args@[0]@)),
            args@.len() >= 2 && !(args@.len() == 2 && args@[1]@ == clear_word()) ==> {
                let rules = rules_view(args@).skip(1);
                let q = qualified(rules, guild);
                if !all_valid(rules) {
                    r is Invalid && final(store)@ == old(store)@
                } else if !guild_known(rules, guild) {
                    r is NeedsGuild && final(store)@ == old(store)@
                } else if set_accepts(old(store)@, args@[0]@, q) {
                    r is Updated && final(store)@ == old(store)@.insert(args@[0]@, q)
                } else {
                    r is Refused && final(store)@ == old(store)@
                }
            },
    {
        proof {
            reveal_strlit("clear");
            assert("clear"@ =~= clear_word());
        }
        if args.len() == 0 {
            return ClearanceOutcome::List(store.list_all());
        }
        if args.len() == 1 {
            return ClearanceOutcome::Show(store.get(args[0].as_str()));
        }
        if args.len() == 2 && is_word(args[1].as_str(), "clear") {
            let existed = store.remove(args[0].as_str());
            return ClearanceOutcome::Cleared(existed);
        }
        let raw = tail(args, 1);
        if !store.validate(&raw, None) {
            return ClearanceOutcome::Invalid;
        }
        let rules = match qualified_tail(args, guild) {
            Some(r) => r,
            None => return ClearanceOutcome::NeedsGuild,
        };
        if store.set(args[0].clone(), rules) {
            ClearanceOutcome::Updated
        } else {
            ClearanceOutcome::Refused
        }
    }
}

/// The table with the rules of the module or command `item` replaced.
pub open spec fn with_item_rules(
    sw: Map<Seq<char>, ModuleState>,
    item: Seq<char>,
    rules: Seq<Seq<char>>,
) -> Map<Seq<char>, ModuleState> {
    let (m, c) = item_parts(item);
    sw.insert(
        m,
        match c {
            None => ModuleState { rules: rules, ..sw[m] },
            Some(c) => ModuleState {
                commands: sw[m].commands.insert(
                    c,
                    crate::switch::CommandState { rules: rules, ..sw[m].commands[c] },
                ),
                ..sw[m]
            },
        },
    )
}

/// What `perms` did.
pub enum PermsOutcome {
    /// The words do not fit the command's usage.
    Malformed,
    /// There is no such module or command.
    NoSuchModule,
    /// The rules of the module or command.
    Show(Vec<String>),
    /// The rules were already empty.
    AlreadyEmpty,
    /// The rules were removed.
    Cleared,
    /// A rule is malformed.
    Invalid,
    /// A role rule names no guild and the invocation came from none.
    NeedsGuild,
    /// The rules were replaced.
    Updated,
}

/// The `perms` command: manages the rules of modules and commands.
pub struct CmdPerms;

impl CmdPerms {
    pub fn name(&self) -> (r: &'static str)
        ensures
            r@ == seq!['p', 'e', 'r', 'm', 's'],
    {
        proof {
            reveal_strlit("perms");
        }
        let r = "perms";
        assert(r@ =~= seq!['p', 'e', 'r', 'm', 's']);
        r
    }

    pub fn description(&self) -> &'static str {
        "Manage module permissions."
    }

    pub fn usage(&self) -> Vec<&'static str> {
        vec!["[module] (rules...)", "[module] clear"]
    }

    /// Only presets called `admin` may use it.
    pub fn percmd(&self) -> (c: PerCommandConfig)
        ensures
            c@.enabled,
            c@.rules == seq![seq!['?', 'a', 'd', 'm', 'i', 'n']],
    {
        admin_only()
    }

    /// `[item]` shows the rules of a module or `module.command`;
    /// `[item] clear` removes them; `[item] (rules...)` replaces them, with
    /// the guild of the invocation written into role rules that name none.
    pub fn run(&self, args: &Vec<String>, switch: &mut MasterSwitch, guild: Option<u64>) -> (r:
        PermsOutcome)
        requires
            old(switch).wf(),
        ensures
            final(switch).wf(),
            args@.len() == 0 ==> r is Malformed && final(switch)@ == old(switch)@,
            args@.len() >= 1 && !item_exists(old(switch)@, args@[0]@) ==> r is NoSuchModule
                && final(switch)@ == old(switch)@,
            args@.len() == 1 && item_exists(old(switch)@, args@[0]@) ==> final(switch)@ == old(switch)@
                && match r {
                PermsOutcome::Show(rules) => rules_view(rules@) == item_rules(old(switch)@, args@[0]@),
                _ => false,
            },
            args@.len() == 2 && args@[1]@ == clear_word() && item_exists(old(switch)@, args@[0]@) ==> if item_rules(
                old(switch)@,
                args@[0]@,
            ).len() == 0 {
                r is AlreadyEmpty && final(switch)@ == old(switch)@
            } else {
                r is Cleared && final(switch)@ == with_item_rules(old(switch)@, args@[0]@, Seq::empty())
            },
            args@.len() >= 2 && !(args@.len() == 2 && args@[1]@ == clear_word()) && item_exists(
                old(switch)@,
                args@[0]@,
            ) ==> {
                let rules = rules_view(args@).skip(1);
                if !all_valid(rules) {
                    r is Invalid && final(switch)@ == old(switch)@
                } else if !guild_known(rules, guild) {
                    r is NeedsGuild && final(switch)@ == old(switch)@
                } else {
                    r is Updated && final(switch)@ == with_item_rules(
                        old(switch)@,
                        args@[0]@,
                        qualified(rules, guild),
                    )
                }
            },
    {
        proof {
            reveal_strlit("clear");
            assert("clear"@ =~= clear_word());
        }
        if args.len() == 0 {
            return PermsOutcome::Malformed;
        }
        let (m, c) = item_parts_exec(args[0].as_str());
        if !switch.has_module(m, c) {
            return PermsOutcome::NoSuchModule;
        }
        let current = match switch.get(m) {
            Some(permod) => match c {
                Some(c) => match permod.command(c) {
                    Some(percmd) => copy_rules(&percmd.allowed),
                    None => return PermsOutcome::NoSuchModule,
                },
                None => copy_rules(&permod.allowed),
            },
            None => return PermsOutcome::NoSuchModule,
        };
        if args.len() == 1 {
            return PermsOutcome::Show(current);
        }
        if args.len() == 2 && is_word(args[1].as_str(), "clear") {
            if current.len() == 0 {
                return PermsOutcome::AlreadyEmpty;
            }
            let empty: Vec<String> = Vec::new();
            switch.set_rules(m, c, empty);
            proof {
                assert(rules_view(empty@) =~= Seq::<Seq<char>>::empty());
            }
            return PermsOutcome::Cleared;
        }
        let raw = tail(args, 1);
        if !crate::rule::validate_rules(&raw) {
            return PermsOutcome::Invalid;
        }
        let rules = match qualified_tail(args, guild) {
            Some(r) => r,
            None => return PermsOutcome::NeedsGuild,
        };
        switch.set_rules(m, c, rules);
        PermsOutcome::Updated
    }
}

/// Enabled, and open only to presets called `admin`.
fn admin_only() -> (c: PerCommandConfig)
    ensures
        c@.enabled,
        c@.rules == seq![seq!['?', 'a', 'd', 'm', 'i', 'n']],
{
    proof {
        reveal_strlit("?admin");
    }
    let mut rules: Vec<String> = Vec::new();
    rules.push(String::from_str("?admin"));
    assert(rules@[0]@ =~= seq!['?', 'a', 'd', 'm', 'i', 'n']);
    assert(rules_view(rules@) =~= seq![seq!['?', 'a', 'd', 'm', 'i', 'n']]);
    PerCommandConfig::with_rules(rules)
}

/// Enabled, and closed to everyone.
pub(crate) fn nobody() -> (c: PerCommandConfig)
    ensures
        c@.enabled,
        c@.rules == seq![seq!['-', 'e', 'v', 'e', 'r', 'y', 'o', 'n', 'e']],
{
    proof {
        reveal_strlit("-everyone");
    }
    let mut rules: Vec<String> = Vec::new();
    rules.push(String::from_str("-everyone"));
    assert(rules@[0]@ =~= seq!['-', 'e', 'v', 'e', 'r', 'y', 'o', 'n', 'e']);
    assert(rules_view(rules@) =~= seq![seq!['-', 'e', 'v', 'e', 'r', 'y', 'o', 'n', 'e']]);
    PerCommandConfig::with_rules(rules)
}

} // verus!
