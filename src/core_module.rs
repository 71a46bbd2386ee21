//! The core module: its commands, their defaults, and its aliases.

use vstd::prelude::*;
use vstd::string::StringExecFns;
use crate::commands::{CmdClearance, CmdPerms, CmdSwitch};
use crate::clearance::rules_view;
use crate::router::{added_aliases, alias_views, pair_views, CommandHandler, ModuleInfo};
use crate::text::shell_split;
use crate::switch::{after_register, decl_view, lacks_some, CommandEntry, CommandState, MasterSwitch, PerCommandConfig};

verus! {

/// `ping`: shard latency.
pub struct CmdPing;

/// `uptime`: time since start.
pub struct CmdUptime;

/// `version`: the running version.
pub struct CmdVersion;

/// `reload`: rereads every configuration file.
pub struct CmdReload;

/// `save`: writes every configuration file.
pub struct CmdSave;

impl CmdPing {
    pub fn name(&self) -> (r: &'static str)
        ensures
            r@ == seq!['p', 'i', 'n', 'g'],
    {
        proof {
            reveal_strlit("ping");
        }
        let r = "ping";
        assert(r@ =~= seq!['p', 'i', 'n', 'g']);
        r
    }

    pub fn description(&self) -> &'static str {
        "Check shard network latency."
    }
}

impl CmdUptime {
    pub fn name(&self) -> (r: &'static str)
        ensures
            r@ == seq!['u', 'p', 't', 'i', 'm', 'e'],
    {
        proof {
            reveal_strlit("uptime");
        }
        let r = "uptime";
        assert(r@ =~= seq!['u', 'p', 't', 'i', 'm', 'e']);
        r
    }

    pub fn description(&self) -> &'static str {
        "Check bot uptime."
    }
}

impl CmdVersion {
    pub fn name(&self) -> (r: &'static str)
        ensures
            r@ == seq!['v', 'e', 'r', 's', 'i', 'o', 'n'],
    {
        proof {
            reveal_strlit("version");
        }
        let r = "version";
        assert(r@ =~= seq!['v', 'e', 'r', 's', 'i', 'o', 'n']);
        r
    }

    pub fn description(&self) -> &'static str {
        "Check bot version."
    }
}

impl CmdReload {
    pub fn name(&self) -> (r: &'static str)
        ensures
            r@ == seq!['r', 'e', 'l', 'o', 'a', 'd'],
    {
        proof {
            reveal_strlit("reload");
        }
        let r = "reload";
        assert(r@ =~= seq!['r', 'e', 'l', 'o', 'a', 'd']);
        r
    }

    pub fn description(&self) -> &'static str {
        "Reload configurated options."
    }

    /// Closed to everyone until an administrator opens it.
    pub fn percmd(&self) -> (c: PerCommandConfig)
        ensures
            c@.enabled,
            c@.rules == seq![seq!['-', 'e', 'v', 'e', 'r', 'y', 'o', 'n', 'e']],
    {
        crate::commands::nobody()
    }
}

impl CmdSave {
    pub fn name(&self) -> (r: &'static str)
        ensures
            r@ == seq!['s', 'a', 'v', 'e'],
    {
        proof {
            reveal_strlit("save");
        }
        let r = "save";
        assert(r@ =~= seq!['s', 'a', 'v', 'e']);
        r
    }

    pub fn description(&self) -> &'static str {
        "Write configurated options to file."
    }

    /// Closed to everyone until an administrator opens it.
    pub fn percmd(&self) -> (c: PerCommandConfig)
        ensures
            c@.enabled,
            c@.rules == seq![seq!['-', 'e', 'v', 'e', 'r', 'y', 'o', 'n', 'e']],
    {
        crate::commands::nobody()
    }
}

/// The core module.
pub struct ModCore;

/// The core module's aliases, as `(alias, command line)`.
pub open spec fn core_alias_pairs() -> Seq<(Seq<char>, Seq<char>)> {
    seq![(seq!['p', 'i', 'n', 'g'], seq!['c', 'o', 'r', 'e', ' ', 'p', 'i', 'n', 'g']), (seq!['u', 'p', 't', 'i', 'm', 'e'], seq!['c', 'o', 'r', 'e', ' ', 'u', 'p', 't', 'i', 'm', 'e']), (seq!['v', 'e', 'r', 's', 'i', 'o', 'n'], seq!['c', 'o', 'r', 'e', ' ', 'v', 'e', 'r', 's', 'i', 'o', 'n']), (seq!['r', 'e', 'l', 'o', 'a', 'd'], seq!['c', 'o', 'r', 'e', ' ', 'r', 'e', 'l', 'o', 'a', 'd']), (seq!['s', 'w', 'i', 't', 'c', 'h'], seq!['c', 'o', 'r', 'e', ' ', 's', 'w', 'i', 't', 'c', 'h']), (seq!['s', 'a', 'v', 'e'], seq!['c', 'o', 'r', 'e', ' ', 's', 'a', 'v', 'e']), (seq!['c', 'l', 'e', 'a', 'r', 'a', 'n', 'c', 'e'], seq!['c', 'o', 'r', 'e', ' ', 'c', 'l', 'e', 'a', 'r', 'a', 'n', 'c', 'e']), (seq!['p', 'r', 'e', 's', 'e', 't'], seq!['c', 'o', 'r', 'e', ' ', 'c', 'l', 'e', 'a', 'r', 'a', 'n', 'c', 'e']), (seq!['p', 'e', 'r', 'm', 's'], seq!['c', 'o', 'r', 'e', ' ', 'p', 'e', 'r', 'm', 's'])]
}

/// The core module's commands with the entries they start with.
pub open spec fn core_decl() -> Seq<(Seq<char>, CommandState)> {
    Seq::new(8, |i: int| (core_command_names()[i], core_default(i)))
}

/// What the router holds of the core module: its name, its commands, and
/// `help core` as its default command.
pub open spec fn core_info(m: ModuleInfo) -> bool {
    &&& m.name@ == seq!['c', 'o', 'r', 'e']
    &&& rules_view(m.commands@) == core_command_names()
    &&& match shell_split("help core"@) {
        Some(w) => m.default_command is Some && rules_view(m.default_command->0@) == w,
        None => m.default_command is None,
    }
}

/// The names of the core module's commands.
pub open spec fn core_command_names() -> Seq<Seq<char>> {
    seq![seq!['p', 'i', 'n', 'g'], seq!['u', 'p', 't', 'i', 'm', 'e'], seq!['v', 'e', 'r', 's', 'i', 'o', 'n'], seq!['r', 'e', 'l', 'o', 'a', 'd'], seq!['s', 'w', 'i', 't', 'c', 'h'], seq!['s', 'a', 'v', 'e'], seq!['c', 'l', 'e', 'a', 'r', 'a', 'n', 'c', 'e'], seq!['p', 'e', 'r', 'm', 's']]
}

/// The entry that command `i` of the core module starts with: `reload` and
/// `save` closed to everyone, `switch`, `clearance` and `perms` open to the
/// `admin` preset, the others open.
pub open spec fn core_default(i: int) -> CommandState {
    if i == 3 || i == 5 {
        CommandState { enabled: true, rules: seq![seq!['-', 'e', 'v', 'e', 'r', 'y', 'o', 'n', 'e']] }
    } else if i == 4 || i == 6 || i == 7 {
        CommandState { enabled: true, rules: seq![seq!['?', 'a', 'd', 'm', 'i', 'n']] }
    } else {
        CommandState { enabled: true, rules: Seq::empty() }
    }
}

fn entry(name: &str, config: PerCommandConfig) -> (e: CommandEntry)
    ensures
        e.name@ == name@,
        e.config@ == config@,
{
    CommandEntry { name: String::from_str(name), config }
}

impl ModCore {
    pub fn name(&self) -> (r: &'static str)
        ensures
            r@ == seq!['c', 'o', 'r', 'e'],
    {
        proof {
            reveal_strlit("core");
        }
        let r = "core";
        assert(r@ =~= seq!['c', 'o', 'r', 'e']);
        r
    }

    pub fn description(&self) -> &'static str {
        "Core service modules."
    }

    /// Every command, with the entry it starts with in the switch table.
    pub fn percmds(&self) -> (r: Vec<CommandEntry>)
        ensures
            r@.len() == 8,
            forall|i: int|
                0 <= i < 8 ==> (#[trigger] r@[i]).name@ == core_command_names()[i] && r@[i].config@
                    == core_default(i),
            decl_view(r@) == core_decl(),
    {
        let mut r: Vec<CommandEntry> = Vec::new();
        r.push(entry(CmdPing.name(), PerCommandConfig::new()));
        r.push(entry(CmdUptime.name(), PerCommandConfig::new()));
        r.push(entry(CmdVersion.name(), PerCommandConfig::new()));
        r.push(entry(CmdReload.name(), CmdReload.percmd()));
        r.push(entry(CmdSwitch.name(), CmdSwitch.percmd()));
        r.push(entry(CmdSave.name(), CmdSave.percmd()));
        r.push(entry(CmdClearance.name(), CmdClearance.percmd()));
        r.push(entry(CmdPerms.name(), CmdPerms.percmd()));
        assert forall|i: int| 0 <= i < 8 implies (#[trigger] r@[i]).name@ == core_command_names()[i]
            && r@[i].config@ == core_default(i) by {
            assert(Seq::<Seq<char>>::empty() =~= Seq::<Seq<char>>::empty());
        }
        assert(decl_view(r@) =~= core_decl());
        r
    }

    /// Short forms of the commands, as `(alias, command line)`.
    pub fn aliases(&self) -> (r: Vec<(&'static str, &'static str)>)
        ensures
            pair_views(r@) == core_alias_pairs(),
    {
        proof {
            reveal_strlit("clearance");
            reveal_strlit("core clearance");
            reveal_strlit("core perms");
            reveal_strlit("core ping");
            reveal_strlit("core reload");
            reveal_strlit("core save");
            reveal_strlit("core switch");
            reveal_strlit("core uptime");
            reveal_strlit("core version");
            reveal_strlit("perms");
            reveal_strlit("ping");
            reveal_strlit("preset");
            reveal_strlit("reload");
            reveal_strlit("save");
            reveal_strlit("switch");
            reveal_strlit("uptime");
            reveal_strlit("version");
        }
        assert("clearance"@ =~= seq!['c', 'l', 'e', 'a', 'r', 'a', 'n', 'c', 'e']);
        assert("core clearance"@ =~= seq!['c', 'o', 'r', 'e', ' ', 'c', 'l', 'e', 'a', 'r', 'a', 'n', 'c', 'e']);
        assert("core perms"@ =~= seq!['c', 'o', 'r', 'e', ' ', 'p', 'e', 'r', 'm', 's']);
        assert("core ping"@ =~= seq!['c', 'o', 'r', 'e', ' ', 'p', 'i', 'n', 'g']);
        assert("core reload"@ =~= seq!['c', 'o', 'r', 'e', ' ', 'r', 'e', 'l', 'o', 'a', 'd']);
        assert("core save"@ =~= seq!['c', 'o', 'r', 'e', ' ', 's', 'a', 'v', 'e']);
        assert("core switch"@ =~= seq!['c', 'o', 'r', 'e', ' ', 's', 'w', 'i', 't', 'c', 'h']);
        assert("core uptime"@ =~= seq!['c', 'o', 'r', 'e', ' ', 'u', 'p', 't', 'i', 'm', 'e']);
        assert("core version"@ =~= seq!['c', 'o', 'r', 'e', ' ', 'v', 'e', 'r', 's', 'i', 'o', 'n']);
        assert("perms"@ =~= seq!['p', 'e', 'r', 'm', 's']);
        assert("ping"@ =~= seq!['p', 'i', 'n', 'g']);
        assert("preset"@ =~= seq!['p', 'r', 'e', 's', 'e', 't']);
        assert("reload"@ =~= seq!['r', 'e', 'l', 'o', 'a', 'd']);
        assert("save"@ =~= seq!['s', 'a', 'v', 'e']);
        assert("switch"@ =~= seq!['s', 'w', 'i', 't', 'c', 'h']);
        assert("uptime"@ =~= seq!['u', 'p', 't', 'i', 'm', 'e']);
        assert("version"@ =~= seq!['v', 'e', 'r', 's', 'i', 'o', 'n']);
        let r = vec![
            ("ping", "core ping"),
            ("uptime", "core uptime"),
            ("version", "core version"),
            ("reload", "core reload"),
            ("switch", "core switch"),
            ("save", "core save"),
            ("clearance", "core clearance"),
            ("preset", "core clearance"),
            ("perms", "core perms"),
        ];
        assert(pair_views(r@) =~= core_alias_pairs());
        r
    }

    /// What the router needs to know of the module; invoked without a
    /// known command it shows its help.
    pub fn info(&self) -> (m: ModuleInfo)
        ensures
            core_info(m),
    {
        proof {
            reveal_strlit("core");
        }
        let decl = self.percmds();
        let mut names: Vec<String> = Vec::new();
        let mut i: usize = 0;
        while i < decl.len()
            invariant
                i <= decl@.len(),
                decl@.len() == 8,
                forall|j: int| 0 <= j < 8 ==> (#[trigger] decl@[j]).name@ == core_command_names()[j],
                rules_view(names@) =~= core_command_names().take(i as int),
            decreases decl@.len() - i,
        {
            let ghost before = names@;
            let n = decl[i].name.clone();
            assert(n@ == core_command_names()[i as int]);
            names.push(n);
            assert(rules_view(names@) =~= rules_view(before).push(core_command_names()[i as int]));
            i = i + 1;
            assert(rules_view(names@) =~= core_command_names().take(i as int));
        }
        assert(core_command_names().take(8) =~= core_command_names());
        ModuleInfo::from_text(String::from_str(self.name()), names, Some("help core"))
    }

    /// Registers the module in the switch table and, unless it is switched
    /// off there, in the router with its aliases. Reports whether the
    /// switch table changed and must be saved.
    pub fn register(&self, handler: &mut CommandHandler, switch: &mut MasterSwitch) -> (modified:
        bool)
        requires
            old(switch).wf(),
        ensures
            final(switch).wf(),
            final(switch)@ == after_register(old(switch)@, seq!['c', 'o', 'r', 'e'], core_decl()),
            modified == (!old(switch)@.dom().contains(seq!['c', 'o', 'r', 'e']) || lacks_some(
                old(switch)@[seq!['c', 'o', 'r', 'e']].commands,
                core_decl(),
            )),
            final(switch)@[seq!['c', 'o', 'r', 'e']].enabled ==> {
                &&& final(handler).modules@.len() == old(handler).modules@.len() + 1
                &&& final(handler).modules@.drop_last() == old(handler).modules@
                &&& core_info(final(handler).modules@.last())
                &&& alias_views(final(handler).alias@) == alias_views(old(handler).alias@) + added_aliases(
                    core_alias_pairs(),
                )
            },
            !final(switch)@[seq!['c', 'o', 'r', 'e']].enabled ==> final(handler).modules@ == old(
                handler,
            ).modules@ && final(handler).alias@ == old(handler).alias@,
            final(switch)@.dom() == old(switch)@.dom().insert(seq!['c', 'o', 'r', 'e']),
            forall|i: int|
                0 <= i < 8 ==> final(switch)@[seq!['c', 'o', 'r', 'e']].commands.dom().contains(
                    #[trigger] core_command_names()[i],
                ),
    {
        let decl = self.percmds();
        let info = self.info();
        let ghost core = seq!['c', 'o', 'r', 'e'];
        let ghost old_mods = handler.modules@;
        let ghost inf = info;
        let modified = handler.load_module(switch, info, &decl, &self.aliases());
        proof {
            assert(handler.modules@.len() > old_mods.len() ==> handler.modules@.drop_last() =~= old_mods);
            let old_cmds = if old(switch)@.dom().contains(core) {
                old(switch)@[core].commands
            } else {
                Map::empty()
            };
            crate::switch::lemma_merge_keeps_existing(old_cmds, crate::switch::decl_view(decl@));
            assert forall|i: int| 0 <= i < 8 implies final(switch)@[core].commands.dom().contains(
                #[trigger] core_command_names()[i],
            ) by {
                let dv = crate::switch::decl_view(decl@);
                assert(dv[i].0 == core_command_names()[i]);
                assert(exists|j: int| 0 <= j < dv.len() && #[trigger] dv[j].0 == core_command_names()[i]);
            }
        }
        modified
    }
}

} // verus!
