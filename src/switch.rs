//! The switch table: for every module and command, whether it is enabled
//! and which rules guard it.

use vstd::prelude::*;
use crate::clearance::{copy_rules, evaluate, rules_view, Clearance};
use crate::rule::EvalContext;
use crate::text::str_eq;

verus! {

/// What the table holds for one command.
pub struct CommandState {
    pub enabled: bool,
    pub rules: Seq<Seq<char>>,
}

/// What the table holds for one module.
pub struct ModuleState {
    pub enabled: bool,
    pub rules: Seq<Seq<char>>,
    pub commands: Map<Seq<char>, CommandState>,
}

/// The switch and rules of one command.
pub struct PerCommandConfig {
    pub enabled: bool,
    pub allowed: Vec<String>,
}

/// A command's entry in its module's table.
pub struct CommandEntry {
    pub name: String,
    pub config: PerCommandConfig,
}

/// The switch and rules of one module, with those of its commands.
pub struct PerModuleConfig {
    pub enabled: bool,
    pub allowed: Vec<String>,
    pub commands: Vec<CommandEntry>,
}

/// A module's entry in the table.
pub struct ModuleEntry {
    pub name: String,
    pub config: PerModuleConfig,
}

/// The table of every module's switch; module names are unique, and so are
/// the command names within each module.
pub struct MasterSwitch {
    modules: Vec<ModuleEntry>,
}

impl View for PerCommandConfig {
    type V = CommandState;

    open spec fn view(&self) -> CommandState {
        CommandState { enabled: self.enabled, rules: rules_view(self.allowed@) }
    }
}

/// The commands of a list, keyed by name.
pub open spec fn command_map(s: Seq<CommandEntry>) -> Map<Seq<char>, CommandState> {
    Map::new(
        |k: Seq<char>| exists|i: int| 0 <= i < s.len() && s[i].name@ == k,
        |k: Seq<char>| s[choose|i: int| 0 <= i < s.len() && s[i].name@ == k].config@,
    )
}

/// No two commands share a name.
pub open spec fn command_names_unique(s: Seq<CommandEntry>) -> bool {
    forall|i: int, j: int| 0 <= i < s.len() && 0 <= j < s.len() && i != j ==> s[i].name@ != s[j].name@
}

impl View for PerModuleConfig {
    type V = ModuleState;

    open spec fn view(&self) -> ModuleState {
        ModuleState {
            enabled: self.enabled,
            rules: rules_view(self.allowed@),
            commands: command_map(self.commands@),
        }
    }
}

/// The modules of a list, keyed by name.
pub open spec fn module_map(s: Seq<ModuleEntry>) -> Map<Seq<char>, ModuleState> {
    Map::new(
        |k: Seq<char>| exists|i: int| 0 <= i < s.len() && s[i].name@ == k,
        |k: Seq<char>| s[choose|i: int| 0 <= i < s.len() && s[i].name@ == k].config@,
    )
}

/// No two modules share a name.
pub open spec fn module_names_unique(s: Seq<ModuleEntry>) -> bool {
    forall|i: int, j: int| 0 <= i < s.len() && 0 <= j < s.len() && i != j ==> s[i].name@ != s[j].name@
}

impl View for MasterSwitch {
    type V = Map<Seq<char>, ModuleState>;

    closed spec fn view(&self) -> Map<Seq<char>, ModuleState> {
        module_map(self.modules@)
    }
}

/// Whether a guard with switch `enabled` and verdict `verdict` lets the
/// invocation through: a disabled switch always refuses, and an
/// inconclusive verdict permits.
pub open spec fn gate(enabled: bool, verdict: Option<bool>) -> bool {
    enabled && match verdict {
        Some(b) => b,
        None => true,
    }
}

pub proof fn lemma_command_map_at(s: Seq<CommandEntry>, i: int)
    requires
        command_names_unique(s),
        0 <= i < s.len(),
    ensures
        command_map(s).dom().contains(s[i].name@),
        command_map(s)[s[i].name@] == s[i].config@,
{
    let k = s[i].name@;
    assert(exists|j: int| 0 <= j < s.len() && s[j].name@ == k);
    let c = choose|j: int| 0 <= j < s.len() && s[j].name@ == k;
    assert(c == i);
}

pub proof fn lemma_module_map_at(s: Seq<ModuleEntry>, i: int)
    requires
        module_names_unique(s),
        0 <= i < s.len(),
    ensures
        module_map(s).dom().contains(s[i].name@),
        module_map(s)[s[i].name@] == s[i].config@,
{
    let k = s[i].name@;
    assert(exists|j: int| 0 <= j < s.len() && s[j].name@ == k);
    let c = choose|j: int| 0 <= j < s.len() && s[j].name@ == k;
    assert(c == i);
}

/// Changing the value at `i` of a keyed list changes that key's value only.
proof fn lemma_module_map_update(s: Seq<ModuleEntry>, t: Seq<ModuleEntry>, i: int)
    requires
        module_names_unique(s),
        0 <= i < s.len(),
        t.len() == s.len(),
        t[i].name@ == s[i].name@,
        forall|j: int| 0 <= j < s.len() && j != i ==> t[j] == s[j],
    ensures
        module_names_unique(t),
        module_map(t) == module_map(s).insert(s[i].name@, t[i].config@),
{
    assert forall|x: int, y: int| 0 <= x < t.len() && 0 <= y < t.len() && x != y implies t[x].name@
        != t[y].name@ by {
        assert(s[x].name@ != s[y].name@);
    }
    let m = module_map(s).insert(s[i].name@, t[i].config@);
    assert forall|k: Seq<char>| #[trigger] module_map(t).dom().contains(k) == m.dom().contains(k) by {
        if module_map(s).dom().contains(k) {
            let j = choose|j: int| 0 <= j < s.len() && s[j].name@ == k;
            assert(t[j].name@ == k);
        }
        if module_map(t).dom().contains(k) {
            let j = choose|j: int| 0 <= j < t.len() && t[j].name@ == k;
            assert(s[j].name@ == k);
        }
    }
    assert forall|k: Seq<char>| #[trigger] module_map(t).dom().contains(k) implies module_map(t)[k]
        == m[k] by {
        let j = choose|j: int| 0 <= j < t.len() && t[j].name@ == k;
        lemma_module_map_at(t, j);
        if j != i {
            lemma_module_map_at(s, j);
        }
    }
    assert(module_map(t) =~= m);
}

proof fn lemma_command_map_update(s: Seq<CommandEntry>, t: Seq<CommandEntry>, i: int)
    requires
        command_names_unique(s),
        0 <= i < s.len(),
        t.len() == s.len(),
        t[i].name@ == s[i].name@,
        forall|j: int| 0 <= j < s.len() && j != i ==> t[j] == s[j],
    ensures
        command_names_unique(t),
        command_map(t) == command_map(s).insert(s[i].name@, t[i].config@),
{
    assert forall|x: int, y: int| 0 <= x < t.len() && 0 <= y < t.len() && x != y implies t[x].name@
        != t[y].name@ by {
        assert(s[x].name@ != s[y].name@);
    }
    let m = command_map(s).insert(s[i].name@, t[i].config@);
    assert forall|k: Seq<char>| #[trigger] command_map(t).dom().contains(k) == m.dom().contains(k) by {
        if command_map(s).dom().contains(k) {
            let j = choose|j: int| 0 <= j < s.len() && s[j].name@ == k;
            assert(t[j].name@ == k);
        }
        if command_map(t).dom().contains(k) {
            let j = choose|j: int| 0 <= j < t.len() && t[j].name@ == k;
            assert(s[j].name@ == k);
        }
    }
    assert forall|k: Seq<char>| #[trigger] command_map(t).dom().contains(k) implies command_map(t)[k]
        == m[k] by {
        let j = choose|j: int| 0 <= j < t.len() && t[j].name@ == k;
        lemma_command_map_at(t, j);
        if j != i {
            lemma_command_map_at(s, j);
        }
    }
    assert(command_map(t) =~= m);
}

/// Appending an entry under a new name adds that key.
proof fn lemma_command_map_push(s: Seq<CommandEntry>, e: CommandEntry)
    requires
        command_names_unique(s),
        !command_map(s).dom().contains(e.name@),
    ensures
        command_names_unique(s.push(e)),
        command_map(s.push(e)) == command_map(s).insert(e.name@, e.config@),
{
    let t = s.push(e);
    assert forall|x: int, y: int| 0 <= x < t.len() && 0 <= y < t.len() && x != y implies t[x].name@
        != t[y].name@ by {
        if x < s.len() && y < s.len() {
            assert(s[x].name@ != s[y].name@);
        } else if x < s.len() {
            assert(command_map(s).dom().contains(s[x].name@));
        } else {
            assert(command_map(s).dom().contains(s[y].name@));
        }
    }
    let m = command_map(s).insert(e.name@, e.config@);
    assert forall|k: Seq<char>| #[trigger] command_map(t).dom().contains(k) == m.dom().contains(k) by {
        if command_map(s).dom().contains(k) {
            let j = choose|j: int| 0 <= j < s.len() && s[j].name@ == k;
            assert(t[j].name@ == k);
        }
        if k == e.name@ {
            assert(t[s.len() as int].name@ == k);
        }
        if command_map(t).dom().contains(k) && k != e.name@ {
            let j = choose|j: int| 0 <= j < t.len() && t[j].name@ == k;
            assert(s[j].name@ == k);
        }
    }
    assert forall|k: Seq<char>| #[trigger] command_map(t).dom().contains(k) implies command_map(t)[k]
        == m[k] by {
        let j = choose|j: int| 0 <= j < t.len() && t[j].name@ == k;
        lemma_command_map_at(t, j);
        if j < s.len() {
            lemma_command_map_at(s, j);
        }
    }
    assert(command_map(t) =~= m);
}

fn find_command(cmds: &Vec<CommandEntry>, name: &str) -> (r: Option<usize>)
    requires
        command_names_unique(cmds@),
    ensures
        match r {
            Some(i) => i < cmds@.len() && cmds@[i as int].name@ == name@,
            None => !command_map(cmds@).dom().contains(name@),
        },
{
    let mut i: usize = 0;
    while i < cmds.len()
        invariant
            i <= cmds@.len(),
            forall|j: int| 0 <= j < i ==> cmds@[j].name@ != name@,
        decreases cmds@.len() - i,
    {
        if str_eq(cmds[i].name.as_str(), name) {
            return Some(i);
        }
        i = i + 1;
    }
    None
}

impl PerCommandConfig {
    /// Enabled, with no rules.
    pub fn new() -> (c: PerCommandConfig)
        ensures
            c@ == (CommandState { enabled: true, rules: Seq::empty() }),
    {
        let c = PerCommandConfig { enabled: true, allowed: Vec::new() };
        assert(c@.rules =~= Seq::<Seq<char>>::empty());
        c
    }

    /// Enabled, guarded by `rules`.
    pub fn with_rules(rules: Vec<String>) -> (c: PerCommandConfig)
        ensures
            c@ == (CommandState { enabled: true, rules: rules_view(rules@) }),
    {
        PerCommandConfig { enabled: true, allowed: rules }
    }

    /// Whether the command lets the invocation through: it must be enabled,
    /// and its rules must not deny.
    pub fn is_allowed(&self, store: &Clearance, ctx: &EvalContext) -> (r: bool)
        requires
            store.wf(),
        ensures
            r == gate(self.enabled, evaluate(store@, rules_view(self.allowed@), *ctx)),
    {
        match store.is_allowed(&self.allowed, ctx) {
            Some(b) => self.enabled && b,
            None => self.enabled,
        }
    }

    /// A copy.
    pub fn duplicate(&self) -> (c: PerCommandConfig)
        ensures
            c@ == self@,
    {
        PerCommandConfig { enabled: self.enabled, allowed: copy_rules(&self.allowed) }
    }
}

impl PerModuleConfig {
    /// Enabled, with no rules, and with the given commands.
    pub fn new(commands: Vec<CommandEntry>) -> (c: PerModuleConfig)
        ensures
            c.enabled,
            c.allowed@.len() == 0,
            c.commands@ == commands@,
    {
        PerModuleConfig { enabled: true, allowed: Vec::new(), commands }
    }

    /// Whether the module lets the invocation through: it must be enabled,
    /// and its rules must not deny.
    pub fn is_allowed(&self, store: &Clearance, ctx: &EvalContext) -> (r: bool)
        requires
            store.wf(),
        ensures
            r == gate(self.enabled, evaluate(store@, rules_view(self.allowed@), *ctx)),
    {
        match store.is_allowed(&self.allowed, ctx) {
            Some(b) => self.enabled && b,
            None => self.enabled,
        }
    }

    /// The entry of command `name`.
    pub fn command(&self, name: &str) -> (r: Option<&PerCommandConfig>)
        requires
            command_names_unique(self.commands@),
        ensures
            match r {
                Some(c) => self@.commands.dom().contains(name@) && c@ == self@.commands[name@],
                None => !self@.commands.dom().contains(name@),
            },
    {
        match find_command(&self.commands, name) {
            Some(i) => {
                proof {
                    lemma_command_map_at(self.commands@, i as int);
                }
                Some(&self.commands[i].config)
            },
            None => None,
        }
    }
}

/// The declared commands as names and entries.
pub open spec fn decl_view(d: Seq<CommandEntry>) -> Seq<(Seq<char>, CommandState)> {
    d.map_values(|e: CommandEntry| (e.name@, e.config@))
}

/// `cmds` with every declared command that it lacks added, in order; a
/// command it already has keeps its entry.
pub open spec fn merge_commands(
    cmds: Map<Seq<char>, CommandState>,
    decl: Seq<(Seq<char>, CommandState)>,
) -> Map<Seq<char>, CommandState>
    decreases decl.len(),
{
    if decl.len() == 0 {
        cmds
    } else {
        let m = merge_commands(cmds, decl.drop_last());
        let e = decl.last();
        if m.dom().contains(e.0) {
            m
        } else {
            m.insert(e.0, e.1)
        }
    }
}

/// Whether a declared command is missing from `cmds`.
pub open spec fn lacks_some(cmds: Map<Seq<char>, CommandState>, decl: Seq<(Seq<char>, CommandState)>) -> bool {
    exists|i: int| 0 <= i < decl.len() && !cmds.dom().contains(#[trigger] decl[i].0)
}

/// The table after registering module `name` with the declared commands.
pub open spec fn after_register(
    sw: Map<Seq<char>, ModuleState>,
    name: Seq<char>,
    decl: Seq<(Seq<char>, CommandState)>,
) -> Map<Seq<char>, ModuleState> {
    if sw.dom().contains(name) {
        sw.insert(
            name,
            ModuleState { commands: merge_commands(sw[name].commands, decl), ..sw[name] },
        )
    } else {
        sw.insert(
            name,
            ModuleState {
                enabled: true,
                rules: Seq::empty(),
                commands: merge_commands(Map::empty(), decl),
            },
        )
    }
}

/// Registration never touches a command that the table already has, and
/// adds exactly the declared commands that it lacks.
pub proof fn lemma_merge_keeps_existing(cmds: Map<Seq<char>, CommandState>, decl: Seq<(Seq<char>, CommandState)>)
    ensures
        forall|c: Seq<char>|
            cmds.dom().contains(c) ==> merge_commands(cmds, decl).dom().contains(c) && #[trigger] merge_commands(
                cmds,
                decl,
            )[c] == cmds[c],
        forall|c: Seq<char>|
            #[trigger] merge_commands(cmds, decl).dom().contains(c) <==> cmds.dom().contains(c) || exists|
                i: int,
            | 0 <= i < decl.len() && #[trigger] decl[i].0 == c,
        merge_commands(cmds, decl) == cmds <==> !lacks_some(cmds, decl),
    decreases decl.len(),
{
    if decl.len() > 0 {
        let rest = decl.drop_last();
        lemma_merge_keeps_existing(cmds, rest);
        let m = merge_commands(cmds, rest);
        let e = decl.last();
        assert forall|c: Seq<char>| #[trigger] merge_commands(cmds, decl).dom().contains(c) <==> cmds.dom().contains(
            c,
        ) || exists|i: int| 0 <= i < decl.len() && #[trigger] decl[i].0 == c by {
            if exists|i: int| 0 <= i < decl.len() && #[trigger] decl[i].0 == c {
                let i = choose|i: int| 0 <= i < decl.len() && #[trigger] decl[i].0 == c;
                if i < rest.len() {
                    assert(rest[i].0 == c);
                }
            }
            if exists|i: int| 0 <= i < rest.len() && #[trigger] rest[i].0 == c {
                let i = choose|i: int| 0 <= i < rest.len() && #[trigger] rest[i].0 == c;
                assert(decl[i].0 == c);
            }
            if c == e.0 {
                assert(decl[decl.len() - 1].0 == c);
            }
        }
        if lacks_some(cmds, decl) {
            let i = choose|i: int| 0 <= i < decl.len() && !cmds.dom().contains(#[trigger] decl[i].0);
            if merge_commands(cmds, decl) == cmds {
                assert(merge_commands(cmds, decl).dom().contains(decl[i].0));
            }
        } else {
            assert forall|i: int| 0 <= i < rest.len() implies cmds.dom().contains(#[trigger] rest[i].0) by {
                assert(decl[i] == rest[i]);
                assert(cmds.dom().contains(decl[i].0));
            }
            assert(cmds.dom().contains(decl[decl.len() - 1].0));
            assert(!lacks_some(cmds, rest));
        }
    }
}

/// Adds to `cmds` every declared command that it lacks; reports whether
/// any was added.
fn merge_into(cmds: &mut Vec<CommandEntry>, decl: &Vec<CommandEntry>) -> (added: bool)
    requires
        command_names_unique(old(cmds)@),
    ensures
        command_names_unique(final(cmds)@),
        command_map(final(cmds)@) == merge_commands(command_map(old(cmds)@), decl_view(decl@)),
        added == lacks_some(command_map(old(cmds)@), decl_view(decl@)),
{
    let ghost orig = command_map(cmds@);
    let ghost dv = decl_view(decl@);
    let mut added = false;
    let mut k: usize = 0;
    while k < decl.len()
        invariant
            k <= decl@.len(),
            command_names_unique(cmds@),
            dv == decl_view(decl@),
            command_map(cmds@) == merge_commands(orig, dv.take(k as int)),
            added == lacks_some(orig, dv.take(k as int)),
        decreases decl@.len() - k,
    {
        let ghost before = cmds@;
        proof {
            assert(dv.take(k + 1).drop_last() =~= dv.take(k as int));
            assert(dv.take(k + 1).last() == (decl@[k as int].name@, decl@[k as int].config@));
            lemma_merge_keeps_existing(orig, dv.take(k as int));
        }
        let e = &decl[k];
        let missing = find_command(cmds, e.name.as_str()).is_none();
        if missing {
            let entry = CommandEntry { name: e.name.clone(), config: e.config.duplicate() };
            proof {
                lemma_command_map_push(before, entry);
            }
            cmds.push(entry);
            proof {
                if !orig.dom().contains(e.name@) {
                    assert(!orig.dom().contains(dv.take(k + 1)[k as int].0));
                }
            }
        } else {
            proof {
                let j = choose|j: int| 0 <= j < before.len() && before[j].name@ == e.name@;
                lemma_command_map_at(before, j);
            }
        }
        k = k + 1;
        proof {
            let tk = dv.take(k as int);
            let tp = dv.take(k - 1);
            if lacks_some(orig, tp) {
                let i = choose|i: int| 0 <= i < tp.len() && !orig.dom().contains(#[trigger] tp[i].0);
                assert(tk[i] == tp[i]);
            }
        }
        added = added || missing;
    }
    assert(dv.take(dv.len() as int) =~= dv);
    added
}

impl MasterSwitch {
    /// Module names are unique, and command names are unique within each
    /// module.
    pub closed spec fn wf(&self) -> bool {
        &&& module_names_unique(self.modules@)
        &&& forall|i: int|
            0 <= i < self.modules@.len() ==> command_names_unique(
                #[trigger] self.modules@[i].config.commands@,
            )
    }

    /// An empty table.
    pub fn new() -> (s: MasterSwitch)
        ensures
            s.wf(),
            s@ == Map::<Seq<char>, ModuleState>::empty(),
    {
        let s = MasterSwitch { modules: Vec::new() };
        assert(s@ =~= Map::<Seq<char>, ModuleState>::empty());
        s
    }

    fn find(&self, name: &str) -> (r: Option<usize>)
        requires
            self.wf(),
        ensures
            match r {
                Some(i) => i < self.modules@.len() && self.modules@[i as int].name@ == name@,
                None => !self@.dom().contains(name@),
            },
    {
        let mut i: usize = 0;
        while i < self.modules.len()
            invariant
                i <= self.modules@.len(),
                forall|j: int| 0 <= j < i ==> self.modules@[j].name@ != name@,
            decreases self.modules@.len() - i,
        {
            if str_eq(self.modules[i].name.as_str(), name) {
                return Some(i);
            }
            i = i + 1;
        }
        None
    }

    /// The entry of module `module`.
    pub fn get(&self, module: &str) -> (r: Option<&PerModuleConfig>)
        requires
            self.wf(),
        ensures
            match r {
                Some(c) => self@.dom().contains(module@) && c@ == self@[module@]
                    && command_names_unique(c.commands@),
                None => !self@.dom().contains(module@),
            },
    {
        match self.find(module) {
            Some(i) => {
                proof {
                    lemma_module_map_at(self.modules@, i as int);
                }
                Some(&self.modules[i].config)
            },
            None => None,
        }
    }

    /// Whether module `module` exists, and, when `command` is given, whether
    /// it has that command.
    pub fn has_module(&self, module: &str, command: Option<&str>) -> (r: bool)
        requires
            self.wf(),
        ensures
            r == (self@.dom().contains(module@) && match command {
                Some(c) => self@[module@].commands.dom().contains(c@),
                None => true,
            }),
    {
        match self.get(module) {
            Some(m) => match command {
                Some(c) => m.command(c).is_some(),
                None => true,
            },
            None => false,
        }
    }

    /// Turns a module, or one of its commands, on or off. Fails, changing
    /// nothing, when the module or the command does not exist.
    pub fn switch(&mut self, module: &str, command: Option<&str>, value: bool) -> (ok: bool)
        requires
            old(self).wf(),
        ensures
            final(self).wf(),
            ok == (old(self)@.dom().contains(module@) && match command {
                Some(c) => old(self)@[module@].commands.dom().contains(c@),
                None => true,
            }),
            ok ==> final(self)@ == old(self)@.insert(
                module@,
                match command {
                    None => ModuleState { enabled: value, ..old(self)@[module@] },
                    Some(c) => ModuleState {
                        commands: old(self)@[module@].commands.insert(
                            c@,
                            CommandState { enabled: value, ..old(self)@[module@].commands[c@] },
                        ),
                        ..old(self)@[module@]
                    },
                },
            ),
            !ok ==> final(self)@ == old(self)@,
    {
        let i = match self.find(module) {
            Some(i) => i,
            None => return false,
        };
        let ghost old_mods = self.modules@;
        proof {
            lemma_module_map_at(old_mods, i as int);
        }
        match command {
            None => {
                self.modules[i].config.enabled = value;
                proof {
                    lemma_module_map_update(old_mods, self.modules@, i as int);
                    assert(self.modules@[i as int].config@ =~= ModuleState {
                        enabled: value,
                        ..old_mods[i as int].config@
                    });
                    assert forall|x: int| 0 <= x < self.modules@.len() implies command_names_unique(
                        #[trigger] self.modules@[x].config.commands@,
                    ) by {
                        assert(command_names_unique(old_mods[x].config.commands@));
                    }
                }
                true
            },
            Some(c) => {
                let j = match find_command(&self.modules[i].config.commands, c) {
                    Some(j) => j,
                    None => return false,
                };
                let ghost old_cmds = old_mods[i as int].config.commands@;
                proof {
                    lemma_command_map_at(old_cmds, j as int);
                }
                self.modules[i].config.commands[j].config.enabled = value;
                proof {
                    let new_cmds = self.modules@[i as int].config.commands@;
                    lemma_command_map_update(old_cmds, new_cmds, j as int);
                    assert(new_cmds[j as int].config@ =~= CommandState {
                        enabled: value,
                        ..old_cmds[j as int].config@
                    });
                    lemma_module_map_update(old_mods, self.modules@, i as int);
                    assert forall|x: int| 0 <= x < self.modules@.len() implies command_names_unique(
                        #[trigger] self.modules@[x].config.commands@,
                    ) by {
                        assert(command_names_unique(old_mods[x].config.commands@));
                    }
                }
                true
            },
        }
    }

    /// Replaces the rules of a module, or of one of its commands. Fails,
    /// changing nothing, when the module or the command does not exist.
    pub fn set_rules(&mut self, module: &str, command: Option<&str>, rules: Vec<String>) -> (ok:
        bool)
        requires
            old(self).wf(),
        ensures
            final(self).wf(),
            ok == (old(self)@.dom().contains(module@) && match command {
                Some(c) => old(self)@[module@].commands.dom().contains(c@),
                None => true,
            }),
            ok ==> final(self)@ == old(self)@.insert(
                module@,
                match command {
                    None => ModuleState { rules: rules_view(rules@), ..old(self)@[module@] },
                    Some(c) => ModuleState {
                        commands: old(self)@[module@].commands.insert(
                            c@,
                            CommandState {
                                rules: rules_view(rules@),
                                ..old(self)@[module@].commands[c@]
                            },
                        ),
                        ..old(self)@[module@]
                    },
                },
            ),
            !ok ==> final(self)@ == old(self)@,
    {
        let i = match self.find(module) {
            Some(i) => i,
            None => return false,
        };
        let ghost old_mods = self.modules@;
        let ghost rv = rules_view(rules@);
        proof {
            lemma_module_map_at(old_mods, i as int);
        }
        match command {
            None => {
                self.modules[i].config.allowed = rules;
                proof {
                    lemma_module_map_update(old_mods, self.modules@, i as int);
                    assert(self.modules@[i as int].config@ =~= ModuleState {
                        rules: rv,
                        ..old_mods[i as int].config@
                    });
                    assert forall|x: int| 0 <= x < self.modules@.len() implies command_names_unique(
                        #[trigger] self.modules@[x].config.commands@,
                    ) by {
                        assert(command_names_unique(old_mods[x].config.commands@));
                    }
                }
                true
            },
            Some(c) => {
                let j = match find_command(&self.modules[i].config.commands, c) {
                    Some(j) => j,
                    None => return false,
                };
                let ghost old_cmds = old_mods[i as int].config.commands@;
                proof {
                    lemma_command_map_at(old_cmds, j as int);
                }
                self.modules[i].config.commands[j].config.allowed = rules;
                proof {
                    let new_cmds = self.modules@[i as int].config.commands@;
                    lemma_command_map_update(old_cmds, new_cmds, j as int);
                    assert(new_cmds[j as int].config@ =~= CommandState {
                        rules: rv,
                        ..old_cmds[j as int].config@
                    });
                    lemma_module_map_update(old_mods, self.modules@, i as int);
                    assert forall|x: int| 0 <= x < self.modules@.len() implies command_names_unique(
                        #[trigger] self.modules@[x].config.commands@,
                    ) by {
                        assert(command_names_unique(old_mods[x].config.commands@));
                    }
                }
                true
            },
        }
    }

    /// Registers module `name` with the commands it declares, each with its
    /// default entry. A module the table lacks is added enabled and without
    /// rules; a known module gains the commands it lacks, and keeps every
    /// entry it has. Reports whether the table changed and must be saved.
    pub fn register_module(&mut self, name: String, decl: &Vec<CommandEntry>) -> (modified: bool)
        requires
            old(self).wf(),
        ensures
            final(self).wf(),
            final(self)@ == after_register(old(self)@, name@, decl_view(decl@)),
            modified == (!old(self)@.dom().contains(name@) || lacks_some(
                old(self)@[name@].commands,
                decl_view(decl@),
            )),
    {
        let ghost old_mods = self.modules@;
        match self.find(name.as_str()) {
            Some(i) => {
                proof {
                    lemma_module_map_at(old_mods, i as int);
                }
                let mut cmds: Vec<CommandEntry> = Vec::new();
                std::mem::swap(&mut cmds, &mut self.modules[i].config.commands);
                assert(command_names_unique(cmds@)) by {
                    assert(command_names_unique(old_mods[i as int].config.commands@));
                }
                let added = merge_into(&mut cmds, decl);
                std::mem::swap(&mut cmds, &mut self.modules[i].config.commands);
                proof {
                    lemma_module_map_update(old_mods, self.modules@, i as int);
                    assert(self.modules@[i as int].config@ =~= ModuleState {
                        commands: merge_commands(old_mods[i as int].config@.commands, decl_view(decl@)),
                        ..old_mods[i as int].config@
                    });
                    assert forall|x: int| 0 <= x < self.modules@.len() implies command_names_unique(
                        #[trigger] self.modules@[x].config.commands@,
                    ) by {
                        if x != i {
                            assert(command_names_unique(old_mods[x].config.commands@));
                        }
                    }
                }
                added
            },
            None => {
                let mut cmds: Vec<CommandEntry> = Vec::new();
                assert(command_map(cmds@) =~= Map::<Seq<char>, CommandState>::empty());
                merge_into(&mut cmds, decl);
                let config = PerModuleConfig { enabled: true, allowed: Vec::new(), commands: cmds };
                let ghost nm = name@;
                let entry = ModuleEntry { name, config };
                proof {
                    assert(entry.config@.rules =~= Seq::<Seq<char>>::empty());
                    assert(entry.config@ =~= ModuleState {
                        enabled: true,
                        rules: Seq::empty(),
                        commands: merge_commands(Map::empty(), decl_view(decl@)),
                    });
                }
                self.modules.push(entry);
                proof {
                    let s = old_mods;
                    let t = self.modules@;
                    assert(t[s.len() as int] == entry);
                    assert(module_names_unique(t)) by {
                        assert forall|x: int, y: int|
                            0 <= x < t.len() && 0 <= y < t.len() && x != y implies t[x].name@
                            != t[y].name@ by {
                            if x < s.len() && y < s.len() {
                                assert(s[x].name@ != s[y].name@);
                            } else if x < s.len() {
                                lemma_module_map_at(s, x);
                            } else {
                                lemma_module_map_at(s, y);
                            }
                        }
                    }
                    let m = module_map(s).insert(nm, entry.config@);
                    assert forall|k: Seq<char>| #[trigger] module_map(t).dom().contains(k)
                        == m.dom().contains(k) by {
                        if module_map(s).dom().contains(k) {
                            let j = choose|j: int| 0 <= j < s.len() && s[j].name@ == k;
                            assert(t[j].name@ == k);
                        }
                        if k == nm {
                            assert(t[s.len() as int].name@ == k);
                        }
                        if module_map(t).dom().contains(k) && k != nm {
                            let j = choose|j: int| 0 <= j < t.len() && t[j].name@ == k;
                            assert(s[j].name@ == k);
                        }
                    }
                    assert forall|k: Seq<char>| #[trigger] module_map(t).dom().contains(k) implies module_map(
                        t,
                    )[k] == m[k] by {
                        let j = choose|j: int| 0 <= j < t.len() && t[j].name@ == k;
                        lemma_module_map_at(t, j);
                        if j < s.len() {
                            lemma_module_map_at(s, j);
                        }
                    }
                    assert(module_map(t) =~= m);
                    assert forall|x: int| 0 <= x < t.len() implies command_names_unique(
                        #[trigger] t[x].config.commands@,
                    ) by {
                        if x < s.len() {
                            assert(command_names_unique(s[x].config.commands@));
                        }
                    }
                }
                true
            },
        }
    }
}

proof fn lemma_module_map_push(s: Seq<ModuleEntry>, e: ModuleEntry)
    requires
        module_names_unique(s),
        !module_map(s).dom().contains(e.name@),
    ensures
        module_names_unique(s.push(e)),
        module_map(s.push(e)) == module_map(s).insert(e.name@, e.config@),
{
    let t = s.push(e);
    assert forall|x: int, y: int| 0 <= x < t.len() && 0 <= y < t.len() && x != y implies t[x].name@
        != t[y].name@ by {
        if x < s.len() && y < s.len() {
            assert(s[x].name@ != s[y].name@);
        } else if x < s.len() {
            assert(module_map(s).dom().contains(s[x].name@));
        } else {
            assert(module_map(s).dom().contains(s[y].name@));
        }
    }
    let m = module_map(s).insert(e.name@, e.config@);
    assert forall|k: Seq<char>| #[trigger] module_map(t).dom().contains(k) == m.dom().contains(k) by {
        if module_map(s).dom().contains(k) {
            let j = choose|j: int| 0 <= j < s.len() && s[j].name@ == k;
            assert(t[j].name@ == k);
        }
        if k == e.name@ {
            assert(t[s.len() as int].name@ == k);
        }
        if module_map(t).dom().contains(k) && k != e.name@ {
            let j = choose|j: int| 0 <= j < t.len() && t[j].name@ == k;
            assert(s[j].name@ == k);
        }
    }
    assert forall|k: Seq<char>| #[trigger] module_map(t).dom().contains(k) implies module_map(t)[k]
        == m[k] by {
        let j = choose|j: int| 0 <= j < t.len() && t[j].name@ == k;
        lemma_module_map_at(t, j);
        if j < s.len() {
            lemma_module_map_at(s, j);
        }
    }
    assert(module_map(t) =~= m);
}

proof fn lemma_module_map_remove(s: Seq<ModuleEntry>, i: int)
    requires
        module_names_unique(s),
        0 <= i < s.len(),
    ensures
        module_names_unique(s.remove(i)),
        module_map(s.remove(i)) == module_map(s).remove(s[i].name@),
{
    let t = s.remove(i);
    assert forall|x: int| 0 <= x < t.len() implies #[trigger] t[x] == s[if x < i { x } else { x + 1 }] by {}
    assert forall|x: int, y: int| 0 <= x < t.len() && 0 <= y < t.len() && x != y implies t[x].name@
        != t[y].name@ by {
        let x2 = if x < i { x } else { x + 1 };
        let y2 = if y < i { y } else { y + 1 };
        assert(s[x2].name@ != s[y2].name@);
    }
    let m = module_map(s).remove(s[i].name@);
    assert forall|k: Seq<char>| #[trigger] module_map(t).dom().contains(k) == m.dom().contains(k) by {
        if module_map(s).dom().contains(k) && k != s[i].name@ {
            let j = choose|j: int| 0 <= j < s.len() && s[j].name@ == k;
            let j2 = if j < i { j } else { j - 1 };
            assert(t[j2].name@ == k);
        }
        if module_map(t).dom().contains(k) {
            let j = choose|j: int| 0 <= j < t.len() && t[j].name@ == k;
            let j2 = if j < i { j } else { j + 1 };
            assert(s[j2].name@ == k);
            assert(j2 != i);
        }
    }
    assert forall|k: Seq<char>| #[trigger] module_map(t).dom().contains(k) implies module_map(t)[k]
        == m[k] by {
        let j = choose|j: int| 0 <= j < t.len() && t[j].name@ == k;
        let j2 = if j < i { j } else { j + 1 };
        lemma_module_map_at(t, j);
        lemma_module_map_at(s, j2);
    }
    assert(module_map(t) =~= m);
}

/// The names that a list of strings holds.
pub open spec fn name_set(names: Seq<String>) -> Set<Seq<char>> {
    Set::new(|k: Seq<char>| exists|i: int| 0 <= i < names.len() && #[trigger] names[i]@ == k)
}

/// The table entry that loading a stored module produces.
pub open spec fn loaded_state(config: PerModuleConfig) -> ModuleState {
    ModuleState {
        enabled: config.enabled,
        rules: rules_view(config.allowed@),
        commands: merge_commands(Map::empty(), decl_view(config.commands@)),
    }
}

fn name_in(names: &Vec<String>, name: &str) -> (r: bool)
    ensures
        r == name_set(names@).contains(name@),
{
    let mut i: usize = 0;
    while i < names.len()
        invariant
            i <= names@.len(),
            forall|j: int| 0 <= j < i ==> names@[j]@ != name@,
        decreases names@.len() - i,
    {
        if str_eq(names[i].as_str(), name) {
            assert(names@[i as int]@ == name@);
            return true;
        }
        i = i + 1;
    }
    false
}

impl MasterSwitch {
    /// Adds a stored module; a module already present is kept and the new
    /// one dropped. Duplicate command entries keep the first.
    pub fn load_module(&mut self, name: String, config: PerModuleConfig) -> (added: bool)
        requires
            old(self).wf(),
        ensures
            final(self).wf(),
            added == !old(self)@.dom().contains(name@),
            added ==> final(self)@ == old(self)@.insert(name@, loaded_state(config)),
            !added ==> final(self)@ == old(self)@,
    {
        if self.find(name.as_str()).is_some() {
            return false;
        }
        let ghost cfg = config;
        let PerModuleConfig { enabled, allowed, commands } = config;
        let mut cmds: Vec<CommandEntry> = Vec::new();
        assert(command_map(cmds@) =~= Map::<Seq<char>, CommandState>::empty());
        merge_into(&mut cmds, &commands);
        let entry = ModuleEntry { name, config: PerModuleConfig { enabled, allowed, commands: cmds } };
        proof {
            assert(entry.config@ =~= loaded_state(cfg));
            lemma_module_map_push(self.modules@, entry);
        }
        let ghost before = self.modules@;
        self.modules.push(entry);
        proof {
            assert forall|x: int| 0 <= x < self.modules@.len() implies command_names_unique(
                #[trigger] self.modules@[x].config.commands@,
            ) by {
                if x < before.len() {
                    assert(self.modules@[x] == before[x]);
                }
            }
        }
        true
    }

    /// The names of every module.
    pub fn module_names(&self) -> (r: Vec<String>)
        requires
            self.wf(),
        ensures
            name_set(r@) == self@.dom(),
    {
        let mut r: Vec<String> = Vec::new();
        let mut i: usize = 0;
        while i < self.modules.len()
            invariant
                i <= self.modules@.len(),
                r@.len() == i,
                forall|j: int| 0 <= j < i ==> #[trigger] r@[j]@ == self.modules@[j].name@,
            decreases self.modules@.len() - i,
        {
            r.push(self.modules[i].name.clone());
            i = i + 1;
        }
        proof {
            assert forall|k: Seq<char>| name_set(r@).contains(k) == self@.dom().contains(k) by {
                if name_set(r@).contains(k) {
                    let j = choose|j: int| 0 <= j < r@.len() && #[trigger] r@[j]@ == k;
                    assert(self.modules@[j].name@ == k);
                }
                if self@.dom().contains(k) {
                    let j = choose|j: int| 0 <= j < self.modules@.len() && self.modules@[j].name@ == k;
                    assert(r@[j]@ == k);
                }
            }
            assert(name_set(r@) =~= self@.dom());
        }
        r
    }

    /// Drops every module whose name `keep` does not hold; reports whether
    /// any was dropped.
    pub fn prune(&mut self, keep: &Vec<String>) -> (pruned: bool)
        requires
            old(self).wf(),
        ensures
            final(self).wf(),
            final(self)@ == old(self)@.restrict(name_set(keep@)),
            pruned == !old(self)@.dom().subset_of(name_set(keep@)),
    {
        let ghost orig = self.modules@;
        let ghost ks = name_set(keep@);
        let mut pruned = false;
        let mut i: usize = self.modules.len();
        proof {
            assert(dropped(orig, ks, i as int) =~= Set::empty());
            assert(module_map(orig).remove_keys(Set::empty()) =~= module_map(orig));
        }
        while i > 0
            invariant
                i <= self.modules@.len(),
                i <= orig.len(),
                self.wf(),
                ks == name_set(keep@),
                forall|j: int| 0 <= j < i ==> #[trigger] self.modules@[j] == orig[j],
                module_map(self.modules@) == module_map(orig).remove_keys(dropped(orig, ks, i as int)),
                pruned == exists|j: int| i <= j < orig.len() && !ks.contains(#[trigger] orig[j].name@),
                module_names_unique(orig),
            decreases i,
        {
            i = i - 1;
            let ghost nm = orig[i as int].name@;
            let ghost d_old = dropped(orig, ks, i + 1);
            if !name_in(keep, self.modules[i].name.as_str()) {
                let ghost before = self.modules@;
                proof {
                    lemma_module_map_remove(before, i as int);
                }
                self.modules.remove(i);
                pruned = true;
                proof {
                    assert forall|x: int| 0 <= x < self.modules@.len() implies command_names_unique(
                        #[trigger] self.modules@[x].config.commands@,
                    ) by {
                        let x2 = if x < i { x } else { x + 1 };
                        assert(self.modules@[x] == before[x2]);
                        assert(command_names_unique(before[x2].config.commands@));
                    }
                    assert(dropped(orig, ks, i as int) =~= d_old.insert(nm));
                    assert(module_map(orig).remove_keys(d_old.insert(nm)) =~= module_map(orig).remove_keys(
                        d_old,
                    ).remove(nm));
                    assert(!ks.contains(orig[i as int].name@));
                }
            } else {
                proof {
                    assert(dropped(orig, ks, i as int) =~= d_old);
                }
            }
            proof {
                if exists|j: int| i + 1 <= j < orig.len() && !ks.contains(#[trigger] orig[j].name@) {
                    let j = choose|j: int| i + 1 <= j < orig.len() && !ks.contains(#[trigger] orig[j].name@);
                    assert(i <= j);
                }
            }
        }
        proof {
            let m = module_map(orig);
            assert(dropped(orig, ks, 0) =~= m.dom().difference(ks)) by {
                assert forall|k: Seq<char>| m.dom().contains(k) && !ks.contains(k) implies dropped(orig, ks, 0).contains(k) by {
                    let j = choose|j: int| 0 <= j < orig.len() && orig[j].name@ == k;
                }
            }
            assert(m.remove_keys(m.dom().difference(ks)) =~= m.restrict(ks));
            if !m.dom().subset_of(ks) {
                let k = choose|k: Seq<char>| m.dom().contains(k) && !ks.contains(k);
                let j = choose|j: int| 0 <= j < orig.len() && orig[j].name@ == k;
                assert(!ks.contains(orig[j].name@));
            }
            if pruned {
                let j = choose|j: int| 0 <= j < orig.len() && !ks.contains(#[trigger] orig[j].name@);
                lemma_module_map_at(orig, j);
            }
        }
        pruned
    }
}

/// A disabled switch refuses, whatever the rules say.
pub proof fn lemma_disabled_refuses(verdict: Option<bool>)
    ensures
        !gate(false, verdict),
{
}

/// With the switch on, rules that decide nothing permit.
pub proof fn lemma_inconclusive_permits()
    ensures
        gate(true, None),
{
}

/// A declared command that `cmds` lacks gets the entry of its first
/// declaration.
pub proof fn lemma_merge_new_entry(cmds: Map<Seq<char>, CommandState>, decl: Seq<(Seq<char>, CommandState)>, i: int)
    requires
        0 <= i < decl.len(),
        !cmds.dom().contains(decl[i].0),
        forall|j: int| 0 <= j < i ==> decl[j].0 != decl[i].0,
    ensures
        merge_commands(cmds, decl)[decl[i].0] == decl[i].1,
    decreases decl.len(),
{
    let rest = decl.drop_last();
    if i < decl.len() - 1 {
        assert(rest[i] == decl[i]);
        assert forall|j: int| 0 <= j < i implies rest[j].0 != rest[i].0 by {
            assert(rest[j] == decl[j]);
        }
        lemma_merge_new_entry(cmds, rest, i);
        lemma_merge_keeps_existing(cmds, rest);
    } else {
        lemma_merge_keeps_existing(cmds, rest);
        if merge_commands(cmds, rest).dom().contains(decl[i].0) {
            let j = choose|j: int| 0 <= j < rest.len() && #[trigger] rest[j].0 == decl[i].0;
            assert(decl[j] == rest[j]);
        }
    }
}

/// Registering a known module keeps its switch, its rules and every command
/// entry it had, gives each newly declared command its default entry, and
/// leaves the other modules alone.
pub proof fn lemma_register_heals(
    sw: Map<Seq<char>, ModuleState>,
    name: Seq<char>,
    decl: Seq<(Seq<char>, CommandState)>,
)
    requires
        sw.dom().contains(name),
    ensures
        after_register(sw, name, decl)[name].enabled == sw[name].enabled,
        after_register(sw, name, decl)[name].rules == sw[name].rules,
        forall|c: Seq<char>|
            sw[name].commands.dom().contains(c) ==> #[trigger] after_register(sw, name, decl)[name].commands[c]
                == sw[name].commands[c],
        forall|i: int|
            0 <= i < decl.len() ==> after_register(sw, name, decl)[name].commands.dom().contains(
                #[trigger] decl[i].0,
            ),
        forall|i: int|
            0 <= i < decl.len() && !sw[name].commands.dom().contains(#[trigger] decl[i].0) && (forall|
                j: int,
            | 0 <= j < i ==> decl[j].0 != decl[i].0) ==> after_register(sw, name, decl)[name].commands[decl[i].0]
                == decl[i].1,
        forall|m: Seq<char>| m != name ==> #[trigger] after_register(sw, name, decl).dom().contains(m)
            == sw.dom().contains(m),
        forall|m: Seq<char>|
            m != name && sw.dom().contains(m) ==> #[trigger] after_register(sw, name, decl)[m] == sw[m],
{
    lemma_merge_keeps_existing(sw[name].commands, decl);
    assert forall|i: int|
        0 <= i < decl.len() && !sw[name].commands.dom().contains(#[trigger] decl[i].0) && (forall|
            j: int,
        | 0 <= j < i ==> decl[j].0 != decl[i].0) implies after_register(sw, name, decl)[name].commands[decl[i].0]
        == decl[i].1 by {
        lemma_merge_new_entry(sw[name].commands, decl, i);
    }
    assert forall|i: int| 0 <= i < decl.len() implies after_register(sw, name, decl)[name].commands.dom().contains(
        #[trigger] decl[i].0,
    ) by {
        assert(exists|j: int| 0 <= j < decl.len() && #[trigger] decl[j].0 == decl[i].0);
    }
}

/// Names of `orig` at `i` or later that `ks` lacks.
spec fn dropped(orig: Seq<ModuleEntry>, ks: Set<Seq<char>>, i: int) -> Set<Seq<char>> {
    Set::new(
        |k: Seq<char>|
            !ks.contains(k) && exists|j: int| i <= j < orig.len() && #[trigger] orig[j].name@ == k,
    )
}

} // verus!
