//! The router: from a tokenized command line to the module that should
//! handle it, after alias expansion and the module switch.

use vstd::prelude::*;
use vstd::string::StringExecFns;
use crate::clearance::{copy_rules, rules_view};
use crate::switch::{after_register, decl_view, lacks_some, CommandEntry, MasterSwitch, ModuleState};
use crate::clearance::{evaluate, Clearance};
use crate::rule::EvalContext;
use crate::switch::gate;
use crate::text::{
    lower_of, lowercase, shell_split, split_char, split_char_spec, split_words, str_eq, words_view,
};

verus! {

/// What the router knows of a module: its name and the names of its
/// commands, and the command line to run when it is invoked without a
/// command it knows.
pub struct ModuleInfo {
    pub name: String,
    pub commands: Vec<String>,
    pub default_command: Option<Vec<String>>,
}

/// An alias: a phrase of one or more words and the words it stands for.
pub struct Alias {
    pub phrase: String,
    pub expansion: Vec<String>,
}

/// The routing table: registered modules and aliases. A later entry with
/// the same name or phrase shadows an earlier one.
pub struct CommandHandler {
    pub modules: Vec<ModuleInfo>,
    pub alias: Vec<Alias>,
}

/// Where a command line goes.
pub enum Route {
    /// Nothing happens.
    Ignore,
    /// Show help for the given words.
    Help(Vec<String>),
    /// Hand the remaining words to the module.
    Module { module: String, args: Vec<String> },
}

/// A route, as character sequences.
pub enum RouteView {
    Ignore,
    Help(Seq<Seq<char>>),
    Module(Seq<char>, Seq<Seq<char>>),
}

impl View for Route {
    type V = RouteView;

    open spec fn view(&self) -> RouteView {
        match self {
            Route::Ignore => RouteView::Ignore,
            Route::Help(a) => RouteView::Help(rules_view(a@)),
            Route::Module { module, args } => RouteView::Module(module@, rules_view(args@)),
        }
    }
}

pub open spec fn help_word() -> Seq<char> {
    seq!['h', 'e', 'l', 'p']
}

/// The last module registered under `name`.
pub open spec fn find_module(mods: Seq<ModuleInfo>, name: Seq<char>) -> Option<ModuleInfo>
    decreases mods.len(),
{
    if mods.len() == 0 {
        None
    } else if mods.last().name@ == name {
        Some(mods.last())
    } else {
        find_module(mods.drop_last(), name)
    }
}

/// The words that the last alias registered under `phrase` stands for.
pub open spec fn find_alias(al: Seq<Alias>, phrase: Seq<char>) -> Option<Seq<Seq<char>>>
    decreases al.len(),
{
    if al.len() == 0 {
        None
    } else if al.last().phrase@ == phrase {
        Some(rules_view(al.last().expansion@))
    } else {
        find_alias(al.drop_last(), phrase)
    }
}

/// Words joined by single spaces.
pub open spec fn join_words(ws: Seq<Seq<char>>) -> Seq<char>
    decreases ws.len(),
{
    if ws.len() == 0 {
        Seq::empty()
    } else if ws.len() == 1 {
        ws[0]
    } else {
        join_words(ws.drop_last()) + seq![' '] + ws.last()
    }
}

/// The shortest prefix of `args`, of at least `i + 1` words, that is an
/// alias: its length less one, and the alias's words.
pub open spec fn first_alias(al: Seq<Alias>, args: Seq<Seq<char>>, i: nat) -> Option<(nat, Seq<Seq<char>>)>
    decreases args.len() - i,
{
    if i >= args.len() {
        None
    } else {
        match find_alias(al, join_words(args.take(i + 1 as int))) {
            Some(e) => Some((i, e)),
            None => first_alias(al, args, i + 1),
        }
    }
}

/// Whether the table holds module `name` switched off.
pub open spec fn disabled(sw: Map<Seq<char>, ModuleState>, name: Seq<char>) -> bool {
    sw.dom().contains(name) && !sw[name].enabled
}

/// Where `args` goes, following at most `fuel` alias expansions: the help
/// keyword goes to help; a disabled module is dropped; a module gets the
/// remaining words; otherwise the shortest prefix that is an alias is
/// replaced by its words and the result routed again. Anything else, and
/// an expansion beyond `fuel`, is ignored.
pub open spec fn route_spec(
    mods: Seq<ModuleInfo>,
    al: Seq<Alias>,
    sw: Map<Seq<char>, ModuleState>,
    args: Seq<Seq<char>>,
    fuel: nat,
) -> RouteView
    decreases fuel,
{
    if args.len() == 0 {
        RouteView::Ignore
    } else if args[0] == help_word() {
        RouteView::Help(args.skip(1))
    } else if disabled(sw, args[0]) {
        RouteView::Ignore
    } else if find_module(mods, args[0]) is Some {
        RouteView::Module(args[0], args.skip(1))
    } else {
        match first_alias(al, args, 0) {
            Some((i, e)) => if fuel == 0 {
                RouteView::Ignore
            } else {
                route_spec(mods, al, sw, e + args.skip(i + 1 as int), (fuel - 1) as nat)
            },
            None => RouteView::Ignore,
        }
    }
}

/// Whether routing `args` reaches a module, help, or nothing within `fuel`
/// alias expansions.
pub open spec fn route_ends(
    mods: Seq<ModuleInfo>,
    al: Seq<Alias>,
    sw: Map<Seq<char>, ModuleState>,
    args: Seq<Seq<char>>,
    fuel: nat,
) -> bool
    decreases fuel,
{
    if args.len() == 0 || args[0] == help_word() || disabled(sw, args[0]) || find_module(
        mods,
        args[0],
    ) is Some {
        true
    } else {
        match first_alias(al, args, 0) {
            Some((i, e)) => fuel > 0 && route_ends(mods, al, sw, e + args.skip(i + 1 as int), (fuel - 1) as nat),
            None => true,
        }
    }
}

/// Routing that ends within `f` expansions gives the same route with any
/// larger bound.
pub proof fn lemma_route_fuel(
    mods: Seq<ModuleInfo>,
    al: Seq<Alias>,
    sw: Map<Seq<char>, ModuleState>,
    args: Seq<Seq<char>>,
    f: nat,
    g: nat,
)
    requires
        route_ends(mods, al, sw, args, f),
        f <= g,
    ensures
        route_ends(mods, al, sw, args, g),
        route_spec(mods, al, sw, args, f) == route_spec(mods, al, sw, args, g),
    decreases f,
{
    if !(args.len() == 0 || args[0] == help_word() || disabled(sw, args[0]) || find_module(
        mods,
        args[0],
    ) is Some) {
        match first_alias(al, args, 0) {
            Some((i, e)) => {
                lemma_route_fuel(mods, al, sw, e + args.skip(i + 1 as int), (f - 1) as nat, (g - 1) as nat);
            },
            None => {},
        }
    }
}

/// Aliases as their phrases and words.
pub open spec fn alias_views(al: Seq<Alias>) -> Seq<(Seq<char>, Seq<Seq<char>>)> {
    al.map_values(|a: Alias| (a.phrase@, rules_view(a.expansion@)))
}

/// `(alias, command line)` pairs as character sequences.
pub open spec fn pair_views(v: Seq<(&str, &str)>) -> Seq<(Seq<char>, Seq<char>)> {
    v.map_values(|p: (&str, &str)| (p.0@, p.1@))
}

/// The aliases that registering `pairs` adds, in order: each pair whose
/// command line splits into words.
pub open spec fn added_aliases(pairs: Seq<(Seq<char>, Seq<char>)>) -> Seq<(Seq<char>, Seq<Seq<char>>)>
    decreases pairs.len(),
{
    if pairs.len() == 0 {
        Seq::empty()
    } else {
        let prev = added_aliases(pairs.drop_last());
        let p = pairs.last();
        match shell_split(p.1) {
            Some(w) => prev.push((p.0, w)),
            None => prev,
        }
    }
}

/// The outcome of one routing step.
enum Step {
    Done(Route),
    Expand(Vec<String>),
}

fn find_module_exec(mods: &Vec<ModuleInfo>, name: &str) -> (r: Option<usize>)
    ensures
        match r {
            Some(i) => i < mods@.len() && find_module(mods@, name@) == Some(mods@[i as int])
                && mods@[i as int].name@ == name@,
            None => find_module(mods@, name@) is None,
        },
{
    let mut i: usize = mods.len();
    assert(mods@.take(i as int) =~= mods@);
    while i > 0
        invariant
            i <= mods@.len(),
            find_module(mods@, name@) == find_module(mods@.take(i as int), name@),
        decreases i,
    {
        let ghost pre = mods@.take(i as int);
        assert(pre.drop_last() =~= mods@.take(i - 1));
        if str_eq(mods[i - 1].name.as_str(), name) {
            return Some(i - 1);
        }
        i = i - 1;
    }
    None
}

fn find_alias_exec(al: &Vec<Alias>, phrase: &str) -> (r: Option<usize>)
    ensures
        match r {
            Some(i) => i < al@.len() && find_alias(al@, phrase@) == Some(
                rules_view(al@[i as int].expansion@),
            ),
            None => find_alias(al@, phrase@) is None,
        },
{
    let mut i: usize = al.len();
    assert(al@.take(i as int) =~= al@);
    while i > 0
        invariant
            i <= al@.len(),
            find_alias(al@, phrase@) == find_alias(al@.take(i as int), phrase@),
        decreases i,
    {
        let ghost pre = al@.take(i as int);
        assert(pre.drop_last() =~= al@.take(i - 1));
        if str_eq(al[i - 1].phrase.as_str(), phrase) {
            return Some(i - 1);
        }
        i = i - 1;
    }
    None
}

/// `a` followed by `b[from..]`.
fn concat_from(a: &Vec<String>, b: &Vec<String>, from: usize) -> (r: Vec<String>)
    requires
        from <= b@.len(),
    ensures
        rules_view(r@) == rules_view(a@) + rules_view(b@).skip(from as int),
{
    let mut r = copy_rules(a);
    let mut i: usize = from;
    while i < b.len()
        invariant
            from <= i <= b@.len(),
            r@ =~= a@ + b@.subrange(from as int, i as int),
        decreases b@.len() - i,
    {
        r.push(b[i].clone());
        i = i + 1;
    }
    assert(r@ =~= a@ + b@.skip(from as int));
    assert(rules_view(r@) =~= rules_view(a@) + rules_view(b@).skip(from as int));
    r
}

/// `b[from..]`.
pub fn tail(b: &Vec<String>, from: usize) -> (r: Vec<String>)
    requires
        from <= b@.len(),
    ensures
        rules_view(r@) == rules_view(b@).skip(from as int),
{
    let empty: Vec<String> = Vec::new();
    let r = concat_from(&empty, b, from);
    assert(rules_view(empty@) =~= Seq::<Seq<char>>::empty());
    assert(Seq::<Seq<char>>::empty() + rules_view(b@).skip(from as int) =~= rules_view(b@).skip(
        from as int,
    ));
    r
}

impl CommandHandler {
    /// An empty table.
    pub fn new() -> (h: CommandHandler)
        ensures
            h.modules@.len() == 0,
            h.alias@.len() == 0,
    {
        CommandHandler { modules: Vec::new(), alias: Vec::new() }
    }

    /// Registers a module.
    pub fn add_module(&mut self, module: ModuleInfo)
        ensures
            final(self).modules@ == old(self).modules@.push(module),
            final(self).alias@ == old(self).alias@,
    {
        self.modules.push(module);
    }

    /// Registers an alias from its words.
    pub fn add_alias_words(&mut self, phrase: String, expansion: Vec<String>)
        ensures
            final(self).alias@ == old(self).alias@.push(Alias { phrase, expansion }),
            final(self).modules@ == old(self).modules@,
    {
        self.alias.push(Alias { phrase, expansion });
    }

    /// Where `args` goes. Alias expansion goes on until the words reach a
    /// module, help, or nothing; the result is that of the unbounded
    /// routing wherever it ends within `usize::MAX` expansions.
    pub fn run(&self, switch: &MasterSwitch, args: &Vec<String>) -> (r: Route)
        requires
            switch.wf(),
        ensures
            r@ == route_spec(self.modules@, self.alias@, switch@, rules_view(args@), usize::MAX as nat),
            forall|f: nat|
                f <= usize::MAX && #[trigger] route_ends(self.modules@, self.alias@, switch@, rules_view(args@), f)
                    ==> r@ == route_spec(self.modules@, self.alias@, switch@, rules_view(args@), f),
    {
        let ghost av = rules_view(args@);
        let ghost target = route_spec(self.modules@, self.alias@, switch@, av, usize::MAX as nat);
        proof {
            assert forall|f: nat|
                f <= usize::MAX && #[trigger] route_ends(self.modules@, self.alias@, switch@, av, f)
                    implies target == route_spec(self.modules@, self.alias@, switch@, av, f) by {
                lemma_route_fuel(self.modules@, self.alias@, switch@, av, f, usize::MAX as nat);
            }
        }
        let mut cur = copy_rules(args);
        let mut fuel: usize = usize::MAX;
        loop
            invariant
                switch.wf(),
                av == rules_view(args@),
                target == route_spec(self.modules@, self.alias@, switch@, av, usize::MAX as nat),
                forall|f: nat|
                    f <= usize::MAX && #[trigger] route_ends(self.modules@, self.alias@, switch@, av, f)
                        ==> target == route_spec(self.modules@, self.alias@, switch@, av, f),
                target == route_spec(self.modules@, self.alias@, switch@, rules_view(cur@), fuel as nat),
            decreases fuel,
        {
            match self.route_step(switch, &cur, fuel) {
                Step::Done(r) => return r,
                Step::Expand(next) => {
                    cur = next;
                    fuel = fuel - 1;
                },
            }
        }
    }

    /// One step of routing: the route, or the words after one alias
    /// expansion.
    fn route_step(&self, switch: &MasterSwitch, args: &Vec<String>, fuel: usize) -> (r: Step)
        requires
            switch.wf(),
        ensures
            match r {
                Step::Done(route) => route@ == route_spec(
                    self.modules@,
                    self.alias@,
                    switch@,
                    rules_view(args@),
                    fuel as nat,
                ),
                Step::Expand(next) => fuel > 0 && route_spec(
                    self.modules@,
                    self.alias@,
                    switch@,
                    rules_view(args@),
                    fuel as nat,
                ) == route_spec(self.modules@, self.alias@, switch@, rules_view(next@), (fuel - 1) as nat),
            },
    {
        let ghost av = rules_view(args@);
        if args.len() == 0 {
            return Step::Done(Route::Ignore);
        }
        proof {
            reveal_strlit("help");
            assert("help"@ =~= help_word());
        }
        if str_eq(args[0].as_str(), "help") {
            return Step::Done(Route::Help(tail(args, 1)));
        }
        match switch.get(args[0].as_str()) {
            Some(c) => {
                if !c.enabled {
                    return Step::Done(Route::Ignore);
                }
            },
            None => {},
        }
        if find_module_exec(&self.modules, args[0].as_str()).is_some() {
            let rest = tail(args, 1);
            return Step::Done(Route::Module { module: args[0].clone(), args: rest });
        }
        // the shortest prefix that is an alias
        let mut joined = args[0].clone();
        let mut i: usize = 0;
        assert(join_words(av.take(1)) =~= av[0]);
        let ghost target = route_spec(self.modules@, self.alias@, switch@, av, fuel as nat);
        assert(target == match first_alias(self.alias@, av, 0) {
            Some((i, e)) => if fuel == 0 {
                RouteView::Ignore
            } else {
                route_spec(self.modules@, self.alias@, switch@, e + av.skip(i + 1 as int), (fuel - 1) as nat)
            },
            None => RouteView::Ignore,
        });
        while i < args.len()
            invariant
                switch.wf(),
                target == route_spec(self.modules@, self.alias@, switch@, av, fuel as nat),
                target == match first_alias(self.alias@, av, 0) {
                    Some((i, e)) => if fuel == 0 {
                        RouteView::Ignore
                    } else {
                        route_spec(self.modules@, self.alias@, switch@, e + av.skip(i + 1 as int), (fuel - 1) as nat)
                    },
                    None => RouteView::Ignore,
                },
                av == rules_view(args@),
                i < args@.len() ==> joined@ == join_words(av.take(i + 1)),
                i <= args@.len(),
                first_alias(self.alias@, av, 0) == first_alias(self.alias@, av, i as nat),
            decreases args@.len() - i,
        {
            match find_alias_exec(&self.alias, joined.as_str()) {
                Some(k) => {
                    if fuel == 0 {
                        return Step::Done(Route::Ignore);
                    }
                    let next = concat_from(&self.alias[k].expansion, args, i + 1);
                    return Step::Expand(next);
                },
                None => {},
            }
            i = i + 1;
            if i < args.len() {
                proof {
                    reveal_strlit(" ");
                    let t = av.take(i + 1);
                    assert(t.drop_last() =~= av.take(i as int));
                    assert(t.last() == av[i as int]);
                }
                joined.append(" ");
                joined.append(args[i].as_str());
            }
        }
        Step::Done(Route::Ignore)
    }
}

/// What a module does with the words handed to it.
pub enum Dispatch {
    /// Run the command with the remaining words.
    Run { command: String, args: Vec<String> },
    /// The module or the command refuses the invocation; nothing is shown.
    Denied,
    /// Route these words instead (the module's default command).
    Reroute(Vec<String>),
    /// Show help for these words.
    Help(Vec<String>),
}

pub enum DispatchView {
    Run(Seq<char>, Seq<Seq<char>>),
    Denied,
    Reroute(Seq<Seq<char>>),
    Help(Seq<Seq<char>>),
}

impl View for Dispatch {
    type V = DispatchView;

    open spec fn view(&self) -> DispatchView {
        match self {
            Dispatch::Run { command, args } => DispatchView::Run(command@, rules_view(args@)),
            Dispatch::Denied => DispatchView::Denied,
            Dispatch::Reroute(a) => DispatchView::Reroute(rules_view(a@)),
            Dispatch::Help(a) => DispatchView::Help(rules_view(a@)),
        }
    }
}

/// Whether `names` holds `name`.
pub open spec fn has_name(names: Seq<String>, name: Seq<char>) -> bool {
    exists|i: int| 0 <= i < names.len() && #[trigger] names[i]@ == name
}

/// Whether module `module` of the table lets the invocation through.
pub open spec fn module_gate(
    sw: Map<Seq<char>, ModuleState>,
    store: Map<Seq<char>, Seq<Seq<char>>>,
    module: Seq<char>,
    ctx: EvalContext,
) -> bool {
    sw.dom().contains(module) && gate(sw[module].enabled, evaluate(store, sw[module].rules, ctx))
}

/// Whether command `command` of module `module` lets the invocation through.
pub open spec fn command_gate(
    sw: Map<Seq<char>, ModuleState>,
    store: Map<Seq<char>, Seq<Seq<char>>>,
    module: Seq<char>,
    command: Seq<char>,
    ctx: EvalContext,
) -> bool {
    &&& sw.dom().contains(module)
    &&& sw[module].commands.dom().contains(command)
    &&& gate(
        sw[module].commands[command].enabled,
        evaluate(store, sw[module].commands[command].rules, ctx),
    )
}

/// What module `info` does with `args`, whose first word reads `command`
/// once lower-cased: a known command runs when both the module and the
/// command let the invocation through, and is refused otherwise; anything
/// else goes to the module's default command, or to the module's help.
pub open spec fn dispatch_spec(
    info: ModuleInfo,
    sw: Map<Seq<char>, ModuleState>,
    store: Map<Seq<char>, Seq<Seq<char>>>,
    ctx: EvalContext,
    args: Seq<Seq<char>>,
    command: Seq<char>,
) -> DispatchView {
    if args.len() > 0 && has_name(info.commands@, command) {
        if module_gate(sw, store, info.name@, ctx) && command_gate(sw, store, info.name@, command, ctx) {
            DispatchView::Run(command, args.skip(1))
        } else {
            DispatchView::Denied
        }
    } else {
        match info.default_command {
            Some(d) => DispatchView::Reroute(rules_view(d@)),
            None => DispatchView::Help(seq![info.name@]),
        }
    }
}

/// The page that help shows.
pub enum HelpPage {
    /// One command of a module.
    Command { module: String, command: String },
    /// One module.
    Module(String),
    /// The list of modules.
    Modules,
}

pub enum HelpPageView {
    Command(Seq<char>, Seq<char>),
    Module(Seq<char>),
    Modules,
}

impl View for HelpPage {
    type V = HelpPageView;

    open spec fn view(&self) -> HelpPageView {
        match self {
            HelpPage::Command { module, command } => HelpPageView::Command(module@, command@),
            HelpPage::Module(m) => HelpPageView::Module(m@),
            HelpPage::Modules => HelpPageView::Modules,
        }
    }
}

/// Every word cut at its dots.
pub open spec fn split_dots(ws: Seq<Seq<char>>) -> Seq<Seq<char>>
    decreases ws.len(),
{
    if ws.len() == 0 {
        Seq::empty()
    } else {
        split_dots(ws.drop_last()) + split_char_spec(ws.last(), '.')
    }
}

/// The help page for `words` (already cut at dots): `module command`,
/// then `module`, then a lone alias, whose words are looked up in turn, at
/// most `fuel` times; the list of modules otherwise.
pub open spec fn help_spec(mods: Seq<ModuleInfo>, al: Seq<Alias>, words: Seq<Seq<char>>, fuel: nat) -> HelpPageView
    decreases fuel,
{
    if words.len() >= 2 && find_module(mods, words[0]) is Some && has_name(
        find_module(mods, words[0])->0.commands@,
        words[1],
    ) {
        HelpPageView::Command(words[0], words[1])
    } else if words.len() >= 1 && find_module(mods, words[0]) is Some {
        HelpPageView::Module(words[0])
    } else if words.len() == 1 && find_alias(al, words[0]) is Some && fuel > 0 {
        help_spec(mods, al, split_dots(find_alias(al, words[0])->0), (fuel - 1) as nat)
    } else {
        HelpPageView::Modules
    }
}

fn has_name_exec(names: &Vec<String>, name: &str) -> (r: bool)
    ensures
        r == has_name(names@, name@),
{
    let mut i: usize = 0;
    while i < names.len()
        invariant
            i <= names@.len(),
            forall|j: int| 0 <= j < i ==> names@[j]@ != name@,
        decreases names@.len() - i,
    {
        if str_eq(names[i].as_str(), name) {
            assert(names@[i as int]@ == name@);
            return true;
        }
        i = i + 1;
    }
    false
}

/// Every word of `ws` cut at its dots.
pub fn split_all_dots(ws: &Vec<String>) -> (r: Vec<String>)
    ensures
        rules_view(r@) == split_dots(rules_view(ws@)),
{
    let mut r: Vec<String> = Vec::new();
    let mut i: usize = 0;
    assert(rules_view(ws@).take(0) =~= Seq::<Seq<char>>::empty());
    while i < ws.len()
        invariant
            i <= ws@.len(),
            rules_view(r@) == split_dots(rules_view(ws@).take(i as int)),
        decreases ws@.len() - i,
    {
        let mut parts = split_char(ws[i].as_str(), '.');
        let ghost before = r@;
        let ghost added = parts@;
        r.append(&mut parts);
        proof {
            let t = rules_view(ws@).take(i + 1);
            assert(t.drop_last() =~= rules_view(ws@).take(i as int));
            assert(t.last() == ws@[i as int]@);
            assert(r@ =~= before + added);
            assert(rules_view(r@) =~= rules_view(before) + words_view(added));
        }
        i = i + 1;
    }
    assert(rules_view(ws@).take(ws@.len() as int) =~= rules_view(ws@));
    r
}

impl ModuleInfo {
    /// A module whose default command is written as a command line; a line
    /// with an open quote gives no default command.
    pub fn from_text(name: String, commands: Vec<String>, default_command: Option<&str>) -> (m:
        ModuleInfo)
        ensures
            m.name == name,
            m.commands == commands,
            match default_command {
                Some(t) => match shell_split(t@) {
                    Some(w) => m.default_command is Some && rules_view(m.default_command->0@) == w,
                    None => m.default_command is None,
                },
                None => m.default_command is None,
            },
    {
        let d = match default_command {
            Some(t) => split_words(t),
            None => None,
        };
        ModuleInfo { name, commands, default_command: d }
    }
}

impl CommandHandler {
    /// Registers an alias written as a command line; fails, registering
    /// nothing, when a quote is left open.
    pub fn add_alias(&mut self, phrase: String, expansion: &str) -> (ok: bool)
        ensures
            ok == (shell_split(expansion@) is Some),
            final(self).modules@ == old(self).modules@,
            ok ==> final(self).alias@.len() == old(self).alias@.len() + 1 && final(self).alias@.drop_last()
                == old(self).alias@ && final(self).alias@.last().phrase == phrase && rules_view(
                final(self).alias@.last().expansion@,
            ) == shell_split(expansion@)->0,
            !ok ==> final(self).alias@ == old(self).alias@,
    {
        match split_words(expansion) {
            Some(words) => {
                self.add_alias_words(phrase, words);
                assert(self.alias@.drop_last() =~= old(self).alias@);
                true
            },
            None => false,
        }
    }

    /// What module `module` does with `args`, given the first word already
    /// lower-cased as `command`. A module missing from the table refuses.
    pub fn dispatch_lowered(
        &self,
        module: &str,
        command: &str,
        args: &Vec<String>,
        switch: &MasterSwitch,
        store: &Clearance,
        ctx: &EvalContext,
    ) -> (r: Dispatch)
        requires
            switch.wf(),
            store.wf(),
        ensures
            match find_module(self.modules@, module@) {
                Some(info) => r@ == dispatch_spec(info, switch@, store@, *ctx, rules_view(args@), command@),
                None => r@ == DispatchView::Denied,
            },
    {
        let i = match find_module_exec(&self.modules, module) {
            Some(i) => i,
            None => return Dispatch::Denied,
        };
        let info = &self.modules[i];
        if args.len() > 0 && has_name_exec(&info.commands, command) {
            let permod = match switch.get(module) {
                Some(p) => p,
                None => return Dispatch::Denied,
            };
            if !permod.is_allowed(store, ctx) {
                return Dispatch::Denied;
            }
            let percmd = match permod.command(command) {
                Some(c) => c,
                None => return Dispatch::Denied,
            };
            if !percmd.is_allowed(store, ctx) {
                return Dispatch::Denied;
            }
            return Dispatch::Run { command: String::from_str(command), args: tail(args, 1) };
        }
        match &info.default_command {
            Some(d) => Dispatch::Reroute(copy_rules(d)),
            None => {
                let mut h: Vec<String> = Vec::new();
                h.push(info.name.clone());
                assert(rules_view(h@) =~= seq![info.name@]);
                Dispatch::Help(h)
            },
        }
    }

    /// What module `module` does with `args`; the first word names the
    /// command whatever its case.
    pub fn dispatch(
        &self,
        module: &str,
        args: &Vec<String>,
        switch: &MasterSwitch,
        store: &Clearance,
        ctx: &EvalContext,
    ) -> (r: Dispatch)
        requires
            switch.wf(),
            store.wf(),
        ensures
            match find_module(self.modules@, module@) {
                Some(info) => r@ == dispatch_spec(
                    info,
                    switch@,
                    store@,
                    *ctx,
                    rules_view(args@),
                    if args@.len() > 0 {
                        lower_of(args@[0]@)
                    } else {
                        Seq::empty()
                    },
                ),
                None => r@ == DispatchView::Denied,
            },
    {
        let command = if args.len() > 0 {
            lowercase(args[0].as_str())
        } else {
            String::new()
        };
        self.dispatch_lowered(module, command.as_str(), args, switch, store, ctx)
    }

    /// The help page for `args`, whose words are first cut at dots; a lone
    /// alias is looked up until its words name something, within
    /// `usize::MAX` lookups.
    pub fn help(&self, args: &Vec<String>) -> (p: HelpPage)
        ensures
            p@ == help_spec(self.modules@, self.alias@, split_dots(rules_view(args@)), usize::MAX as nat),
    {
        let ghost target = help_spec(self.modules@, self.alias@, split_dots(rules_view(args@)), usize::MAX as nat);
        let mut words = split_all_dots(args);
        let mut fuel: usize = usize::MAX;
        loop
            invariant
                target == help_spec(self.modules@, self.alias@, split_dots(rules_view(args@)), usize::MAX as nat),
                target == help_spec(self.modules@, self.alias@, rules_view(words@), fuel as nat),
            decreases fuel,
        {
            if words.len() >= 1 {
                match find_module_exec(&self.modules, words[0].as_str()) {
                    Some(i) => {
                        if words.len() >= 2 && has_name_exec(&self.modules[i].commands, words[1].as_str()) {
                            return HelpPage::Command { module: words[0].clone(), command: words[1].clone() };
                        }
                        return HelpPage::Module(words[0].clone());
                    },
                    None => {},
                }
            }
            if words.len() == 1 && fuel > 0 {
                match find_alias_exec(&self.alias, words[0].as_str()) {
                    Some(k) => {
                        words = split_all_dots(&self.alias[k].expansion);
                        fuel = fuel - 1;
                        continue ;
                    },
                    None => {},
                }
            }
            return HelpPage::Modules;
        }
    }
}

impl CommandHandler {
    /// Registers a module in the switch table (see
    /// `MasterSwitch::register_module`) and, unless the table has it
    /// switched off, in the router with its aliases; an alias whose command
    /// line leaves a quote open is skipped. Reports whether the switch table
    /// changed and must be saved.
    pub fn load_module(
        &mut self,
        switch: &mut MasterSwitch,
        info: ModuleInfo,
        decl: &Vec<CommandEntry>,
        aliases: &Vec<(&str, &str)>,
    ) -> (modified: bool)
        requires
            old(switch).wf(),
        ensures
            final(switch).wf(),
            final(switch)@ == after_register(old(switch)@, info.name@, decl_view(decl@)),
            modified == (!old(switch)@.dom().contains(info.name@) || lacks_some(
                old(switch)@[info.name@].commands,
                decl_view(decl@),
            )),
            final(switch)@[info.name@].enabled ==> final(self).modules@ == old(self).modules@.push(info)
                && alias_views(final(self).alias@) == alias_views(old(self).alias@) + added_aliases(
                pair_views(aliases@),
            ),
            !final(switch)@[info.name@].enabled ==> final(self).modules@ == old(self).modules@
                && final(self).alias@ == old(self).alias@,
    {
        let modified = switch.register_module(info.name.clone(), decl);
        let enabled = match switch.get(info.name.as_str()) {
            Some(c) => c.enabled,
            None => false,
        };
        if !enabled {
            return modified;
        }
        let ghost mods = old(self).modules@.push(info);
        self.add_module(info);
        let ghost start = self.alias@;
        let ghost pv = pair_views(aliases@);
        assert(pv.take(0) =~= Seq::<(Seq<char>, Seq<char>)>::empty());
        assert(alias_views(start) + added_aliases(pv.take(0)) =~= alias_views(start));
        let mut i: usize = 0;
        while i < aliases.len()
            invariant
                i <= aliases@.len(),
                pv == pair_views(aliases@),
                alias_views(self.alias@) == alias_views(start) + added_aliases(pv.take(i as int)),
                self.modules@ == mods,
            decreases aliases@.len() - i,
        {
            let (from, to) = aliases[i];
            let ghost before = self.alias@;
            let ok = self.add_alias(String::from_str(from), to);
            proof {
                let t = pv.take(i + 1);
                assert(t.drop_last() =~= pv.take(i as int));
                assert(t.last() == (from@, to@));
                if ok {
                    assert(alias_views(self.alias@) =~= alias_views(before).push(
                        (from@, shell_split(to@)->0),
                    )) by {
                        assert(self.alias@ =~= before.push(self.alias@.last()));
                    }
                    assert(alias_views(self.alias@) =~= alias_views(start) + added_aliases(t));
                }
            }
            i = i + 1;
        }
        assert(pv.take(aliases@.len() as int) =~= pv);
        modified
    }
}

/// A one-word alias that names no module routes as its expansion does,
/// followed by the remaining words.
pub proof fn lemma_alias_routes_as_expansion(
    mods: Seq<ModuleInfo>,
    al: Seq<Alias>,
    sw: Map<Seq<char>, ModuleState>,
    w: Seq<char>,
    rest: Seq<Seq<char>>,
    fuel: nat,
)
    requires
        find_alias(al, w) is Some,
        w != help_word(),
        !disabled(sw, w),
        find_module(mods, w) is None,
    ensures
        route_spec(mods, al, sw, seq![w] + rest, fuel + 1) == route_spec(
            mods,
            al,
            sw,
            find_alias(al, w)->0 + rest,
            fuel,
        ),
{
    let args = seq![w] + rest;
    assert(args[0] == w);
    assert(args.take(1) =~= seq![w]);
    assert(args.skip(1) =~= rest);
}

/// The help shown when a command reports malformed usage: the module's
/// name, then the words it was given.
pub fn usage_help(module: &str, args: &Vec<String>) -> (r: Vec<String>)
    ensures
        rules_view(r@) == seq![module@] + rules_view(args@),
{
    let mut first: Vec<String> = Vec::new();
    first.push(String::from_str(module));
    let r = concat_from(&first, args, 0);
    assert(rules_view(first@) =~= seq![module@]);
    assert(rules_view(args@).skip(0) =~= rules_view(args@));
    r
}

} // verus!
