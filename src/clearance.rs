//! Named rule-list presets, and the evaluator that reads rule lists.

use vstd::prelude::*;
use vstd::string::StrSliceExecFns;
use crate::rule::{
    all_valid, is_preset_ref, matches_context, preset_name, rule_allows, rule_matches,
    validate_rules, EvalContext,
};
use vstd::string::StringExecFns;
use crate::text::{decimal_string, decimal_text, find_char, find_char_index, str_eq};

verus! {

/// A rule list as character sequences.
pub open spec fn rules_view(v: Seq<String>) -> Seq<Seq<char>> {
    v.map_values(|s: String| s@)
}

/// One named preset: a rule list that other lists reference as `?name`.
pub struct Preset {
    pub name: String,
    pub rules: Vec<String>,
}

/// The store of presets, keyed by name.
///
/// No preset reaches itself through `?name` references; `set` keeps it so.
pub struct Clearance {
    presets: Vec<Preset>,
}

/// Whether `q` is referenced by some rule of `rules`.
pub open spec fn references(rules: Seq<Seq<char>>, q: Seq<char>) -> bool {
    exists|i: int|
        0 <= i < rules.len() && #[trigger] is_preset_ref(rules[i]) && preset_name(rules[i]) == q
}

/// A rank that strictly decreases along every reference from a stored preset.
pub open spec fn valid_rank(
    store: Map<Seq<char>, Seq<Seq<char>>>,
    rank: spec_fn(Seq<char>) -> nat,
) -> bool {
    forall|p: Seq<char>, i: int|
        store.dom().contains(p) && 0 <= i < store[p].len() && #[trigger] is_preset_ref(
            store[p][i],
        ) ==> rank(preset_name(store[p][i])) < rank(p)
}

/// No chain of references leads from a preset back to itself.
pub open spec fn acyclic(store: Map<Seq<char>, Seq<Seq<char>>>) -> bool {
    exists|rank: spec_fn(Seq<char>) -> nat| valid_rank(store, rank)
}

/// Whether `t` is reached from `p` by following exactly `k` references.
pub open spec fn reach(store: Map<Seq<char>, Seq<Seq<char>>>, p: Seq<char>, t: Seq<char>, k: nat) -> bool
    decreases k,
{
    if k == 0 {
        p == t
    } else {
        store.dom().contains(p) && exists|i: int|
            0 <= i < store[p].len() && #[trigger] is_preset_ref(store[p][i]) && reach(
                store,
                preset_name(store[p][i]),
                t,
                (k - 1) as nat,
            )
    }
}

/// Whether giving preset `name` the list `rules` would let it reach itself.
pub open spec fn creates_cycle(
    store: Map<Seq<char>, Seq<Seq<char>>>,
    name: Seq<char>,
    rules: Seq<Seq<char>>,
) -> bool {
    exists|k: nat| k >= 1 && #[trigger] reach(store.insert(name, rules), name, name, k)
}

/// Whether `set(name, rules)` accepts the list.
pub open spec fn set_accepts(
    store: Map<Seq<char>, Seq<Seq<char>>>,
    name: Seq<char>,
    rules: Seq<Seq<char>>,
) -> bool {
    all_valid(rules) && !creates_cycle(store, name, rules)
}

/// The rules stored under `name`; empty when there is no such preset.
pub open spec fn preset_rules(store: Map<Seq<char>, Seq<Seq<char>>>, name: Seq<char>) -> Seq<Seq<char>> {
    if store.dom().contains(name) {
        store[name]
    } else {
        Seq::empty()
    }
}

/// One more than the highest rank among the presets that `rules` references.
pub open spec fn ref_bound(rank: spec_fn(Seq<char>) -> nat, rules: Seq<Seq<char>>) -> nat
    decreases rules.len(),
{
    if rules.len() == 0 {
        0
    } else {
        let b = ref_bound(rank, rules.drop_last());
        let r = rules.last();
        if is_preset_ref(r) && rank(preset_name(r)) + 1 > b {
            rank(preset_name(r)) + 1
        } else {
            b
        }
    }
}

/// Every preset that `rules` references ranks below `bound`.
pub open spec fn refs_below(
    rank: spec_fn(Seq<char>) -> nat,
    rules: Seq<Seq<char>>,
    bound: nat,
) -> bool {
    forall|i: int|
        0 <= i < rules.len() && #[trigger] is_preset_ref(rules[i]) ==> rank(preset_name(rules[i]))
            < bound
}

/// The verdict of `rules`, scanned from the last rule to the first: the first
/// rule that matches decides; a reference decides when its preset's own
/// verdict is decisive, and is passed over otherwise. Presets are entered
/// only while their rank stays below `bound`, which makes the recursion
/// well founded.
pub open spec fn eval_bounded(
    store: Map<Seq<char>, Seq<Seq<char>>>,
    rank: spec_fn(Seq<char>) -> nat,
    rules: Seq<Seq<char>>,
    ctx: EvalContext,
    bound: nat,
) -> Option<bool>
    decreases bound, rules.len(),
{
    if rules.len() == 0 {
        None
    } else {
        let r = rules.last();
        if is_preset_ref(r) {
            let q = preset_name(r);
            let inner = if store.dom().contains(q) && rank(q) < bound {
                eval_bounded(store, rank, store[q], ctx, rank(q))
            } else {
                None
            };
            match inner {
                Some(b) => Some(b),
                None => eval_bounded(store, rank, rules.drop_last(), ctx, bound),
            }
        } else if rule_matches(r, ctx) {
            Some(rule_allows(r))
        } else {
            eval_bounded(store, rank, rules.drop_last(), ctx, bound)
        }
    }
}

/// A rank witnessing that `store` is acyclic.
pub open spec fn store_rank(store: Map<Seq<char>, Seq<Seq<char>>>) -> spec_fn(Seq<char>) -> nat {
    choose|rank: spec_fn(Seq<char>) -> nat| valid_rank(store, rank)
}

/// The verdict of `rules` against `ctx` with the presets of `store`:
/// `Some(true)` allow, `Some(false)` deny, `None` when no rule applies.
pub open spec fn evaluate(
    store: Map<Seq<char>, Seq<Seq<char>>>,
    rules: Seq<Seq<char>>,
    ctx: EvalContext,
) -> Option<bool> {
    let rank = store_rank(store);
    eval_bounded(store, rank, rules, ctx, ref_bound(rank, rules))
}

/// The verdict of preset `name`; `None` when there is no such preset.
pub open spec fn preset_verdict(
    store: Map<Seq<char>, Seq<Seq<char>>>,
    name: Seq<char>,
    ctx: EvalContext,
) -> Option<bool> {
    if store.dom().contains(name) {
        evaluate(store, store[name], ctx)
    } else {
        None
    }
}

pub proof fn lemma_ref_bound(rank: spec_fn(Seq<char>) -> nat, rules: Seq<Seq<char>>)
    ensures
        refs_below(rank, rules, ref_bound(rank, rules)),
    decreases rules.len(),
{
    if rules.len() > 0 {
        lemma_ref_bound(rank, rules.drop_last());
        assert forall|i: int| 0 <= i < rules.len() && #[trigger] is_preset_ref(rules[i]) implies rank(
            preset_name(rules[i]),
        ) < ref_bound(rank, rules) by {
            if i < rules.len() - 1 {
                assert(rules.drop_last()[i] == rules[i]);
            }
        }
    }
}

/// The verdict does not depend on the bound, once the bound is above every
/// rank that the list references.
pub proof fn lemma_eval_bound_irrelevant(
    store: Map<Seq<char>, Seq<Seq<char>>>,
    rank: spec_fn(Seq<char>) -> nat,
    rules: Seq<Seq<char>>,
    ctx: EvalContext,
    b1: nat,
    b2: nat,
)
    requires
        refs_below(rank, rules, b1),
        refs_below(rank, rules, b2),
    ensures
        eval_bounded(store, rank, rules, ctx, b1) == eval_bounded(store, rank, rules, ctx, b2),
    decreases rules.len(),
{
    if rules.len() > 0 {
        let rest = rules.drop_last();
        assert forall|i: int| 0 <= i < rest.len() && #[trigger] is_preset_ref(rest[i]) implies rank(
            preset_name(rest[i]),
        ) < b1 && rank(preset_name(rest[i])) < b2 by {
            assert(rest[i] == rules[i]);
            assert(is_preset_ref(rules[i]));
        }
        lemma_eval_bound_irrelevant(store, rank, rest, ctx, b1, b2);
        if is_preset_ref(rules.last()) {
            assert(is_preset_ref(rules[rules.len() - 1]));
        }
    }
}

impl View for Clearance {
    type V = Map<Seq<char>, Seq<Seq<char>>>;

    closed spec fn view(&self) -> Map<Seq<char>, Seq<Seq<char>>> {
        Map::new(
            |k: Seq<char>| exists|i: int| 0 <= i < self.presets@.len() && self.presets@[i].name@ == k,
            |k: Seq<char>|
                rules_view(
                    self.presets@[choose|i: int|
                        0 <= i < self.presets@.len() && self.presets@[i].name@ == k].rules@,
                ),
        )
    }
}

impl Clearance {
    /// Names are unique, every stored rule is well formed, and no preset
    /// reaches itself.
    pub closed spec fn wf(&self) -> bool {
        &&& names_unique(self.presets@)
        &&& forall|i: int|
            0 <= i < self.presets@.len() ==> all_valid(rules_view(#[trigger] self.presets@[i].rules@))
        &&& acyclic(self@)
    }
}

/// No two presets share a name.
pub open spec fn names_unique(s: Seq<Preset>) -> bool {
    forall|i: int, j: int|
        0 <= i < s.len() && 0 <= j < s.len() && i != j ==> s[i].name@ != s[j].name@
}

impl Clearance {
    /// A well-formed store is acyclic.
    pub proof fn lemma_wf_acyclic(&self)
        requires
            self.wf(),
        ensures
            acyclic(self@),
    {
    }

    proof fn lemma_view_at(&self, i: int)
        requires
            names_unique(self.presets@),
            0 <= i < self.presets@.len(),
        ensures
            self@.dom().contains(self.presets@[i].name@),
            self@[self.presets@[i].name@] == rules_view(self.presets@[i].rules@),
    {
        let k = self.presets@[i].name@;
        assert(exists|j: int| 0 <= j < self.presets@.len() && self.presets@[j].name@ == k);
        let c = choose|j: int| 0 <= j < self.presets@.len() && self.presets@[j].name@ == k;
        assert(c == i);
    }

    proof fn lemma_view_all(&self)
        requires
            names_unique(self.presets@),
        ensures
            forall|i: int|
                0 <= i < self.presets@.len() ==> self@.dom().contains(#[trigger] self.presets@[i].name@)
                    && self@[self.presets@[i].name@] == rules_view(self.presets@[i].rules@),
            forall|k: Seq<char>|
                self@.dom().contains(k) ==> exists|i: int|
                    0 <= i < self.presets@.len() && #[trigger] self.presets@[i].name@ == k,
    {
        assert forall|i: int| 0 <= i < self.presets@.len() implies self@.dom().contains(
            #[trigger] self.presets@[i].name@,
        ) && self@[self.presets@[i].name@] == rules_view(self.presets@[i].rules@) by {
            self.lemma_view_at(i);
        }
    }

    /// An empty store.
    pub fn new() -> (c: Clearance)
        ensures
            c.wf(),
            c@ == Map::<Seq<char>, Seq<Seq<char>>>::empty(),
    {
        let c = Clearance { presets: Vec::new() };
        assert(c@ =~= Map::<Seq<char>, Seq<Seq<char>>>::empty());
        let ghost rank = |q: Seq<char>| 0nat;
        assert(valid_rank(c@, rank));
        c
    }

    /// Position of the preset called `name`.
    fn find(&self, name: &str) -> (r: Option<usize>)
        requires
            names_unique(self.presets@),
        ensures
            match r {
                Some(i) => i < self.presets@.len() && self.presets@[i as int].name@ == name@,
                None => !self@.dom().contains(name@),
            },
    {
        proof {
            self.lemma_view_all();
        }
        let mut i: usize = 0;
        while i < self.presets.len()
            invariant
                i <= self.presets@.len(),
                forall|j: int| 0 <= j < i ==> self.presets@[j].name@ != name@,
            decreases self.presets@.len() - i,
        {
            if str_eq(self.presets[i].name.as_str(), name) {
                return Some(i);
            }
            i = i + 1;
        }
        None
    }

    /// Whether a preset called `name` exists.
    pub fn contains(&self, name: &str) -> (r: bool)
        requires
            self.wf(),
        ensures
            r == self@.dom().contains(name@),
    {
        match self.find(name) {
            Some(i) => {
                proof {
                    self.lemma_view_at(i as int);
                }
                true
            },
            None => false,
        }
    }

    /// The rules of preset `name`, or no rules when it does not exist.
    pub fn get(&self, name: &str) -> (r: Vec<String>)
        requires
            self.wf(),
        ensures
            rules_view(r@) == preset_rules(self@, name@),
    {
        match self.find(name) {
            Some(i) => {
                proof {
                    self.lemma_view_at(i as int);
                }
                copy_rules(&self.presets[i].rules)
            },
            None => {
                let r: Vec<String> = Vec::new();
                assert(rules_view(r@) =~= Seq::<Seq<char>>::empty());
                r
            },
        }
    }

    /// The names of all presets.
    pub fn list_all(&self) -> (r: Vec<String>)
        requires
            self.wf(),
        ensures
            forall|k: Seq<char>|
                self@.dom().contains(k) <==> exists|i: int| 0 <= i < r@.len() && #[trigger] r@[i]@ == k,
            r@.len() == self@.dom().len(),
    {
        proof {
            self.lemma_view_all();
        }
        let mut r: Vec<String> = Vec::new();
        let mut i: usize = 0;
        while i < self.presets.len()
            invariant
                i <= self.presets@.len(),
                r@.len() == i,
                forall|j: int| 0 <= j < i ==> #[trigger] r@[j]@ == self.presets@[j].name@,
            decreases self.presets@.len() - i,
        {
            r.push(self.presets[i].name.clone());
            i = i + 1;
        }
        proof {
            assert forall|k: Seq<char>| self@.dom().contains(k) implies exists|i: int|
                0 <= i < r@.len() && #[trigger] r@[i]@ == k by {
                let j = choose|j: int| 0 <= j < self.presets@.len() && #[trigger] self.presets@[j].name@ == k;
                assert(r@[j]@ == k);
            }
            self.lemma_dom_len();
        }
        r
    }

    proof fn lemma_dom_len(&self)
        requires
            names_unique(self.presets@),
        ensures
            self@.dom().finite(),
            self@.dom().len() == self.presets@.len(),
        decreases self.presets@.len(),
    {
        let names = self.presets@.map_values(|p: Preset| p.name@);
        assert(self@.dom() =~= names.to_set()) by {
            assert forall|k: Seq<char>| self@.dom().contains(k) implies names.to_set().contains(k) by {
                let j = choose|j: int| 0 <= j < self.presets@.len() && self.presets@[j].name@ == k;
                assert(names[j] == k);
            }
        }
        assert(names.no_duplicates()) by {
            assert forall|a: int, b: int| 0 <= a < names.len() && 0 <= b < names.len() && a != b
                implies names[a] != names[b] by {
                assert(self.presets@[a].name@ != self.presets@[b].name@);
            }
        }
        names.unique_seq_to_set();
    }
}

impl Clearance {
    fn eval_list(
        &self,
        rules: &Vec<String>,
        ctx: &EvalContext,
        Ghost(rank): Ghost<spec_fn(Seq<char>) -> nat>,
        Ghost(bound): Ghost<nat>,
    ) -> (r: Option<bool>)
        requires
            self.wf(),
            valid_rank(self@, rank),
            refs_below(rank, rules_view(rules@), bound),
        ensures
            r == eval_bounded(self@, rank, rules_view(rules@), *ctx, bound),
        decreases bound, rules@.len(),
    {
        let ghost view = rules_view(rules@);
        let mut i: usize = rules.len();
        assert(view.take(i as int) =~= view);
        while i > 0
            invariant
                i <= rules@.len(),
                view == rules_view(rules@),
                self.wf(),
                valid_rank(self@, rank),
                refs_below(rank, view, bound),
                eval_bounded(self@, rank, view, *ctx, bound) == eval_bounded(
                    self@,
                    rank,
                    view.take(i as int),
                    *ctx,
                    bound,
                ),
            decreases i,
        {
            let ghost pre = view.take(i as int);
            assert(pre.drop_last() =~= view.take(i - 1));
            assert(pre.last() == view[i - 1]);
            let rule = rules[i - 1].as_str();
            let n = rule.unicode_len();
            if n > 0 && rule.get_char(0) == '?' {
                let name = rule.substring_char(1, n);
                assert(name@ =~= preset_name(rule@));
                assert(is_preset_ref(view[i - 1]));
                match self.find(name) {
                    Some(j) => {
                        proof {
                            self.lemma_view_at(j as int);
                            let q = name@;
                            assert forall|k: int|
                                0 <= k < self@[q].len() && #[trigger] is_preset_ref(self@[q][k]) implies rank(
                                    preset_name(self@[q][k]),
                                ) < rank(q) by {
                                assert(is_preset_ref(self@[q][k]));
                            }
                        }
                        let inner = self.eval_list(
                            &self.presets[j].rules,
                            ctx,
                            Ghost(rank),
                            Ghost(rank(name@)),
                        );
                        if inner.is_some() {
                            return inner;
                        }
                    },
                    None => {},
                }
            } else if matches_context(rule, ctx) {
                return Some(rule.get_char(0) == '+');
            }
            i = i - 1;
        }
        None
    }

    /// The verdict of `rules` against `ctx`: `Some(true)` allow, `Some(false)`
    /// deny, `None` when no rule applies.
    pub fn is_allowed(&self, rules: &Vec<String>, ctx: &EvalContext) -> (r: Option<bool>)
        requires
            self.wf(),
        ensures
            r == evaluate(self@, rules_view(rules@), *ctx),
    {
        let ghost rank = store_rank(self@);
        proof {
            lemma_ref_bound(rank, rules_view(rules@));
        }
        self.eval_list(rules, ctx, Ghost(rank), Ghost(ref_bound(rank, rules_view(rules@))))
    }

    /// The verdict of preset `name`; `None` when there is no such preset.
    pub fn eval(&self, name: &str, ctx: &EvalContext) -> (r: Option<bool>)
        requires
            self.wf(),
        ensures
            r == preset_verdict(self@, name@, *ctx),
    {
        match self.find(name) {
            Some(j) => {
                proof {
                    self.lemma_view_at(j as int);
                }
                self.is_allowed(&self.presets[j].rules, ctx)
            },
            None => None,
        }
    }
}

/// Number of marked entries.
spec fn count_true(s: Seq<bool>) -> nat
    decreases s.len(),
{
    if s.len() == 0 {
        0
    } else {
        count_true(s.drop_last()) + if s.last() {
            1nat
        } else {
            0nat
        }
    }
}

proof fn lemma_count_true_update(s: Seq<bool>, j: int)
    requires
        0 <= j < s.len(),
        !s[j],
    ensures
        count_true(s.update(j, true)) == count_true(s) + 1,
        count_true(s) < s.len(),
    decreases s.len(),
{
    let u = s.update(j, true);
    if j == s.len() - 1 {
        assert(u.drop_last() =~= s.drop_last());
        lemma_count_true_le(s.drop_last());
    } else {
        assert(u.drop_last() =~= s.drop_last().update(j, true));
        lemma_count_true_update(s.drop_last(), j);
    }
}

proof fn lemma_count_true_le(s: Seq<bool>)
    ensures
        count_true(s) <= s.len(),
    decreases s.len(),
{
    if s.len() > 0 {
        lemma_count_true_le(s.drop_last());
    }
}

/// Following one more reference at the end of a chain.
proof fn lemma_reach_step(
    store: Map<Seq<char>, Seq<Seq<char>>>,
    p: Seq<char>,
    m: Seq<char>,
    k: nat,
    i: int,
)
    requires
        reach(store, p, m, k),
        store.dom().contains(m),
        0 <= i < store[m].len(),
        is_preset_ref(store[m][i]),
    ensures
        reach(store, p, preset_name(store[m][i]), k + 1),
    decreases k,
{
    if k == 0 {
        assert(reach(store, preset_name(store[m][i]), preset_name(store[m][i]), 0));
    } else {
        let j = choose|j: int|
            0 <= j < store[p].len() && #[trigger] is_preset_ref(store[p][j]) && reach(
                store,
                preset_name(store[p][j]),
                m,
                (k - 1) as nat,
            );
        lemma_reach_step(store, preset_name(store[p][j]), m, (k - 1) as nat, i);
    }
}

/// A set of names that is closed under references and avoids `a` is never
/// left for `a`.
proof fn lemma_closed_avoids(
    store: Map<Seq<char>, Seq<Seq<char>>>,
    closed: spec_fn(Seq<char>) -> bool,
    a: Seq<char>,
    x: Seq<char>,
    t: Seq<char>,
    k: nat,
)
    requires
        closed(x),
        forall|y: Seq<char>| #[trigger] closed(y) ==> y != a,
        forall|y: Seq<char>, i: int|
            #[trigger] closed(y) && store.dom().contains(y) && 0 <= i < store[y].len()
                && #[trigger] is_preset_ref(store[y][i]) ==> {
                let q = preset_name(store[y][i]);
                q != a && (store.dom().contains(q) ==> closed(q))
            },
        reach(store, x, t, k),
    ensures
        t != a,
    decreases k,
{
    if k > 0 {
        let j = choose|j: int|
            0 <= j < store[x].len() && #[trigger] is_preset_ref(store[x][j]) && reach(
                store,
                preset_name(store[x][j]),
                t,
                (k - 1) as nat,
            );
        let q = preset_name(store[x][j]);
        assert(q != a && (store.dom().contains(q) ==> closed(q)));
        if k > 1 {
            lemma_closed_avoids(store, closed, a, q, t, (k - 1) as nat);
        }
    }
}

impl Clearance {
    spec fn marked_name(&self, marks: Seq<bool>, q: Seq<char>) -> bool {
        exists|j: int| 0 <= j < marks.len() && marks[j] && #[trigger] self.presets@[j].name@ == q
    }

    /// The references of slot `j` are all handled: none leads to `a`, and
    /// every stored preset among them is marked.
    spec fn slot_closed(&self, marks: Seq<bool>, a: Seq<char>, j: int) -> bool {
        let rv = rules_view(self.presets@[j].rules@);
        forall|t: int|
            0 <= t < rv.len() && #[trigger] is_preset_ref(rv[t]) ==> preset_name(rv[t]) != a && (
            self@.dom().contains(preset_name(rv[t])) ==> self.marked_name(marks, preset_name(rv[t])))
    }

    proof fn lemma_marked_grow(&self, m1: Seq<bool>, m2: Seq<bool>, q: Seq<char>)
        requires
            self.marked_name(m1, q),
            m1.len() == m2.len(),
            forall|j: int| 0 <= j < m1.len() && m1[j] ==> m2[j],
        ensures
            self.marked_name(m2, q),
    {
        let j = choose|j: int| 0 <= j < m1.len() && m1[j] && #[trigger] self.presets@[j].name@ == q;
        assert(m2[j]);
    }

    /// Handles one reference `q` met while searching from `name`: reports
    /// whether it avoids `name`, and marks and queues its preset if unmarked.
    fn visit(&self, q: &str, name: &str, marks: &mut Vec<bool>, work: &mut Vec<usize>) -> (cont:
        bool)
        requires
            names_unique(self.presets@),
            old(marks)@.len() == self.presets@.len(),
        ensures
            final(marks)@.len() == old(marks)@.len(),
            cont == (q@ != name@),
            cont && self@.dom().contains(q@) ==> self.marked_name(final(marks)@, q@),
            (final(marks)@ == old(marks)@ && final(work)@ == old(work)@) || (exists|j: int|
                0 <= j < old(marks)@.len() && !old(marks)@[j] && self.presets@[j].name@ == q@
                    && final(marks)@ == old(marks)@.update(j, true) && final(work)@ == old(
                    work,
                )@.push(j as usize)),
    {
        if str_eq(q, name) {
            return false;
        }
        match self.find(q) {
            Some(j) => {
                if !marks[j] {
                    marks.set(j, true);
                    work.push(j);
                }
                assert(marks@[j as int]);
            },
            None => {},
        }
        true
    }

    /// Whether giving preset `name` the list `rules` keeps every preset
    /// from reaching itself through references.
    pub fn no_cycles(&self, name: &str, rules: &Vec<String>) -> (r: bool)
        requires
            self.wf(),
        ensures
            r == !creates_cycle(self@, name@, rules_view(rules@)),
    {
        let ghost a = name@;
        let ghost rv = rules_view(rules@);
        let ghost s2 = self@.insert(a, rv);
        proof {
            self.lemma_view_all();
        }
        let n = self.presets.len();
        let mut marks: Vec<bool> = Vec::new();
        let mut k: usize = 0;
        while k < n
            invariant
                k <= n,
                n == self.presets@.len(),
                marks@.len() == k,
                forall|j: int| 0 <= j < k ==> !#[trigger] marks@[j],
            decreases n - k,
        {
            marks.push(false);
            k = k + 1;
        }
        let mut work: Vec<usize> = Vec::new();
        // the presets that the new list references directly
        let mut t: usize = 0;
        while t < rules.len()
            invariant
                self.wf(),
                n == self.presets@.len(),
                rv == rules_view(rules@),
                s2 == self@.insert(a, rv),
                a == name@,
                t <= rules@.len(),
                marks@.len() == n,
                forall|j: int|
                    0 <= j < n && #[trigger] marks@[j] ==> self.presets@[j].name@ != a && exists|
                        k: nat,
                    | k >= 1 && #[trigger] reach(s2, a, self.presets@[j].name@, k),
                forall|j: int| 0 <= j < n && #[trigger] marks@[j] ==> work@.contains(j as usize),
                forall|w: int| 0 <= w < work@.len() ==> #[trigger] work@[w] < n && marks@[work@[w] as int],
                forall|u: int|
                    0 <= u < t && #[trigger] is_preset_ref(rv[u]) ==> preset_name(rv[u]) != a && (
                    self@.dom().contains(preset_name(rv[u])) ==> self.marked_name(
                        marks@,
                        preset_name(rv[u]),
                    )),
            decreases rules@.len() - t,
        {
            let rule = rules[t].as_str();
            let len = rule.unicode_len();
            if len > 0 && rule.get_char(0) == '?' {
                let q = rule.substring_char(1, len);
                assert(q@ =~= preset_name(rv[t as int]));
                let ghost m0 = marks@;
                let ghost w0 = work@;
                proof {
                    assert(s2.dom().contains(a) && s2[a] == rv);
                    assert(is_preset_ref(s2[a][t as int]));
                    assert(reach(s2, q@, q@, 0));
                    assert(reach(s2, a, q@, 1));
                }
                if !self.visit(q, name, &mut marks, &mut work) {
                    assert(creates_cycle(self@, name@, rv));
                    return false;
                }
                proof {
                    assert forall|u: int|
                        0 <= u < t && #[trigger] is_preset_ref(rv[u]) && self@.dom().contains(
                            preset_name(rv[u]),
                        ) implies self.marked_name(marks@, preset_name(rv[u])) by {
                        self.lemma_marked_grow(m0, marks@, preset_name(rv[u]));
                    }
                    if marks@ != m0 {
                        let j = choose|j: int|
                            0 <= j < m0.len() && !m0[j] && self.presets@[j].name@ == q@ && marks@
                                == m0.update(j, true) && work@ == w0.push(j as usize);
                        assert(work@[w0.len() as int] == j);
                        assert forall|i: int| 0 <= i < n && #[trigger] marks@[i] implies work@.contains(
                            i as usize,
                        ) by {
                            if i != j {
                                assert(m0[i]);
                                assert(w0.contains(i as usize));
                                let w = choose|w: int| 0 <= w < w0.len() && w0[w] == i as usize;
                                assert(work@[w] == w0[w]);
                            }
                        }
                    }
                }
            }
            t = t + 1;
        }
        // follow references until every marked preset is handled
        while work.len() > 0
            invariant
                self.wf(),
                n == self.presets@.len(),
                rv == rules_view(rules@),
                s2 == self@.insert(a, rv),
                a == name@,
                marks@.len() == n,
                forall|j: int|
                    0 <= j < n && #[trigger] marks@[j] ==> self.presets@[j].name@ != a && exists|
                        k: nat,
                    | k >= 1 && #[trigger] reach(s2, a, self.presets@[j].name@, k),
                forall|w: int| 0 <= w < work@.len() ==> #[trigger] work@[w] < n && marks@[work@[w] as int],
                forall|j: int|
                    0 <= j < n && #[trigger] marks@[j] && !work@.contains(j as usize)
                        ==> self.slot_closed(marks@, a, j),
                forall|u: int|
                    0 <= u < rv.len() && #[trigger] is_preset_ref(rv[u]) ==> preset_name(rv[u]) != a && (
                    self@.dom().contains(preset_name(rv[u])) ==> self.marked_name(
                        marks@,
                        preset_name(rv[u]),
                    )),
            decreases n - count_true(marks@), work@.len(),
        {
            let ghost wb = work@;
            let j = work.pop().unwrap();
            assert(wb.last() == j && work@ =~= wb.drop_last());
            assert(marks@[j as int]);
            let ghost mj = marks@;
            let ghost wj = work@;
            let ghost rj = rules_view(self.presets@[j as int].rules@);
            let ghost kj = choose|k: nat| k >= 1 && #[trigger] reach(s2, a, self.presets@[j as int].name@, k);
            proof {
                self.lemma_view_at(j as int);
                lemma_count_true_le(marks@);
            }
            let mut t: usize = 0;
            while t < self.presets[j].rules.len()
                invariant
                    self.wf(),
                    n == self.presets@.len(),
                    j < n,
                    rv == rules_view(rules@),
                    s2 == self@.insert(a, rv),
                    a == name@,
                    rj == rules_view(self.presets@[j as int].rules@),
                    self.presets@[j as int].name@ != a,
                    s2[self.presets@[j as int].name@] == rj,
                    s2.dom().contains(self.presets@[j as int].name@),
                    kj >= 1,
                    reach(s2, a, self.presets@[j as int].name@, kj),
                    t <= rj.len(),
                    marks@.len() == n,
                    mj.len() == n,
                    forall|i: int| 0 <= i < n && mj[i] ==> #[trigger] marks@[i],
                    work@.len() >= wj.len(),
                    count_true(marks@) == count_true(mj) + (work@.len() - wj.len()),
                    count_true(marks@) <= n,
                    forall|i: int| 0 <= i < wj.len() ==> #[trigger] work@[i] == wj[i],
                    forall|i: int|
                        0 <= i < n && #[trigger] marks@[i] ==> self.presets@[i].name@ != a && exists|
                            k: nat,
                        | k >= 1 && #[trigger] reach(s2, a, self.presets@[i].name@, k),
                    forall|w: int|
                        0 <= w < work@.len() ==> #[trigger] work@[w] < n && marks@[work@[w] as int],
                    forall|i: int| 0 <= i < n && marks@[i] && !mj[i] ==> #[trigger] work@.contains(i as usize),
                    forall|u: int|
                        0 <= u < t && #[trigger] is_preset_ref(rj[u]) ==> preset_name(rj[u]) != a && (
                        self@.dom().contains(preset_name(rj[u])) ==> self.marked_name(
                            marks@,
                            preset_name(rj[u]),
                        )),
                decreases rj.len() - t,
            {
                let rule = self.presets[j].rules[t].as_str();
                let len = rule.unicode_len();
                if len > 0 && rule.get_char(0) == '?' {
                    let q = rule.substring_char(1, len);
                    assert(q@ =~= preset_name(rj[t as int]));
                    let ghost m0 = marks@;
                    let ghost w0 = work@;
                    proof {
                        assert(is_preset_ref(s2[self.presets@[j as int].name@][t as int]));
                        lemma_reach_step(s2, a, self.presets@[j as int].name@, kj, t as int);
                    }
                    if !self.visit(q, name, &mut marks, &mut work) {
                        assert(reach(s2, a, a, kj + 1));
                        assert(creates_cycle(self@, name@, rv));
                        return false;
                    }
                    proof {
                        assert forall|u: int|
                            0 <= u < t && #[trigger] is_preset_ref(rj[u]) && self@.dom().contains(
                                preset_name(rj[u]),
                            ) implies self.marked_name(marks@, preset_name(rj[u])) by {
                            self.lemma_marked_grow(m0, marks@, preset_name(rj[u]));
                        }
                        if marks@ != m0 {
                            let x = choose|x: int|
                                0 <= x < m0.len() && !m0[x] && self.presets@[x].name@ == q@ && marks@
                                    == m0.update(x, true) && work@ == w0.push(x as usize);
                            assert(work@[w0.len() as int] == x);
                            assert forall|i: int| 0 <= i < n && marks@[i] && !mj[i] implies #[trigger] work@.contains(
                                i as usize,
                            ) by {
                                if i != x {
                                    assert(m0[i]);
                                    assert(w0.contains(i as usize));
                                    let w = choose|w: int| 0 <= w < w0.len() && w0[w] == i as usize;
                                    assert(work@[w] == w0[w]);
                                }
                            }
                            lemma_count_true_update(m0, x);
                            lemma_count_true_le(marks@);
                            assert(reach(s2, a, self.presets@[x].name@, kj + 1));
                        }
                    }
                }
                t = t + 1;
            }
            proof {
                assert(self.slot_closed(marks@, a, j as int));
                assert forall|i: int|
                    0 <= i < n && #[trigger] marks@[i] && !work@.contains(i as usize)
                        implies self.slot_closed(marks@, a, i) by {
                    if i != j as int {
                        assert(mj[i]);
                        if wb.contains(i as usize) {
                            let w = choose|w: int| 0 <= w < wb.len() && wb[w] == i as usize;
                            if w < wj.len() {
                                assert(work@[w] == wj[w]);
                            }
                        }
                        assert(self.slot_closed(mj, a, i));
                        let rv_i = rules_view(self.presets@[i].rules@);
                        assert forall|u: int|
                            0 <= u < rv_i.len() && #[trigger] is_preset_ref(rv_i[u])
                                && self@.dom().contains(preset_name(rv_i[u])) implies self.marked_name(
                            marks@, preset_name(rv_i[u])) by {
                            self.lemma_marked_grow(mj, marks@, preset_name(rv_i[u]));
                        }
                    }
                }
                assert forall|u: int|
                    0 <= u < rv.len() && #[trigger] is_preset_ref(rv[u]) && self@.dom().contains(
                        preset_name(rv[u]),
                    ) implies self.marked_name(marks@, preset_name(rv[u])) by {
                    self.lemma_marked_grow(mj, marks@, preset_name(rv[u]));
                }
            }
        }
        proof {
            let closed = |y: Seq<char>| self.marked_name(marks@, y);
            assert forall|y: Seq<char>| #[trigger] closed(y) implies y != a by {
                let j = choose|j: int| 0 <= j < marks@.len() && marks@[j] && #[trigger] self.presets@[j].name@ == y;
            }
            assert forall|y: Seq<char>, i: int|
                #[trigger] closed(y) && s2.dom().contains(y) && 0 <= i < s2[y].len()
                    && #[trigger] is_preset_ref(s2[y][i]) implies {
                let q = preset_name(s2[y][i]);
                q != a && (s2.dom().contains(q) ==> closed(q))
            } by {
                let j = choose|j: int| 0 <= j < marks@.len() && marks@[j] && #[trigger] self.presets@[j].name@ == y;
                self.lemma_view_at(j);
                assert(!work@.contains(j as usize));
                assert(self.slot_closed(marks@, a, j));
            }
            if creates_cycle(self@, a, rv) {
                let k = choose|k: nat| k >= 1 && #[trigger] reach(s2, a, a, k);
                let i = choose|i: int|
                    0 <= i < s2[a].len() && #[trigger] is_preset_ref(s2[a][i]) && reach(
                        s2,
                        preset_name(s2[a][i]),
                        a,
                        (k - 1) as nat,
                    );
                let q = preset_name(rv[i]);
                assert(is_preset_ref(rv[i]));
                if k > 1 {
                    assert(s2.dom().contains(q));
                    lemma_closed_avoids(s2, closed, a, q, a, (k - 1) as nat);
                }
            }
        }
        true
    }
}

/// A list that does not lead back to its own preset keeps the store acyclic.
proof fn lemma_insert_acyclic(
    store: Map<Seq<char>, Seq<Seq<char>>>,
    a: Seq<char>,
    rv: Seq<Seq<char>>,
)
    requires
        acyclic(store),
        !creates_cycle(store, a, rv),
    ensures
        acyclic(store.insert(a, rv)),
{
    let r = store_rank(store);
    let s2 = store.insert(a, rv);
    let big = ref_bound(r, rv);
    lemma_ref_bound(r, rv);
    let r2 = |p: Seq<char>|
        if exists|k: nat| #[trigger] reach(s2, p, a, k) {
            r(p) + big
        } else {
            r(p)
        };
    assert(reach(s2, a, a, 0));
    assert forall|p: Seq<char>, i: int|
        s2.dom().contains(p) && 0 <= i < s2[p].len() && #[trigger] is_preset_ref(
            s2[p][i],
        ) implies r2(preset_name(s2[p][i])) < r2(p) by {
        let q = preset_name(s2[p][i]);
        if exists|k: nat| #[trigger] reach(s2, q, a, k) {
            let k = choose|k: nat| #[trigger] reach(s2, q, a, k);
            assert(reach(s2, p, a, k + 1));
            if p == a {
                assert(creates_cycle(store, a, rv));
            }
        } else if p == a {
            assert(is_preset_ref(rv[i]));
        } else {
            assert(is_preset_ref(store[p][i]));
        }
    }
    assert(valid_rank(s2, r2));
}

impl Clearance {
    /// Replaces the rules of preset `name`, or adds the preset. The list is
    /// refused, and the store left as it was, when a rule is malformed or
    /// when the preset would reach itself through references.
    pub fn set(&mut self, name: String, rules: Vec<String>) -> (ok: bool)
        requires
            old(self).wf(),
        ensures
            final(self).wf(),
            ok == set_accepts(old(self)@, name@, rules_view(rules@)),
            ok ==> final(self)@ == old(self)@.insert(name@, rules_view(rules@)),
            !ok ==> final(self)@ == old(self)@,
    {
        if !validate_rules(&rules) {
            return false;
        }
        if !self.no_cycles(name.as_str(), &rules) {
            return false;
        }
        let ghost old_self = *self;
        let ghost rv = rules_view(rules@);
        proof {
            old_self.lemma_view_all();
            lemma_insert_acyclic(old_self@, name@, rv);
        }
        match self.find(name.as_str()) {
            Some(i) => {
                self.presets[i].rules = rules;
                proof {
                    assert(names_unique(self.presets@)) by {
                        assert forall|x: int, y: int|
                            0 <= x < self.presets@.len() && 0 <= y < self.presets@.len() && x != y
                                implies self.presets@[x].name@ != self.presets@[y].name@ by {
                            assert(old_self.presets@[x].name@ != old_self.presets@[y].name@);
                        }
                    }
                    self.lemma_view_all();
                    assert(self@ =~= old_self@.insert(name@, rv)) by {
                        assert forall|k: Seq<char>| #[trigger] self@.dom().contains(k) == old_self@.insert(
                            name@,
                            rv,
                        ).dom().contains(k) by {
                            if old_self@.dom().contains(k) {
                                let j = choose|j: int|
                                    0 <= j < old_self.presets@.len() && #[trigger] old_self.presets@[j].name@ == k;
                                assert(self.presets@[j].name@ == k);
                            }
                            if self@.dom().contains(k) {
                                let j = choose|j: int|
                                    0 <= j < self.presets@.len() && #[trigger] self.presets@[j].name@ == k;
                                assert(old_self.presets@[j].name@ == k);
                            }
                        }
                        assert forall|k: Seq<char>| #[trigger] self@.dom().contains(k) implies self@[k]
                            == old_self@.insert(name@, rv)[k] by {
                            let j = choose|j: int|
                                0 <= j < self.presets@.len() && #[trigger] self.presets@[j].name@ == k;
                            assert(old_self.presets@[j].name@ == k);
                        }
                    }
                }
            },
            None => {
                let ghost nm = name@;
                self.presets.push(Preset { name, rules });
                proof {
                    let last = old_self.presets@.len() as int;
                    assert(self.presets@[last].name@ == nm);
                    assert(names_unique(self.presets@)) by {
                        assert forall|x: int, y: int|
                            0 <= x < self.presets@.len() && 0 <= y < self.presets@.len() && x != y
                                implies self.presets@[x].name@ != self.presets@[y].name@ by {
                            if x < last && y < last {
                                assert(old_self.presets@[x].name@ != old_self.presets@[y].name@);
                            } else if x < last {
                                assert(old_self.presets@[x] == self.presets@[x]);
                            } else {
                                assert(old_self.presets@[y] == self.presets@[y]);
                            }
                        }
                    }
                    self.lemma_view_all();
                    assert(self@ =~= old_self@.insert(nm, rv)) by {
                        assert forall|k: Seq<char>| #[trigger] self@.dom().contains(k) == old_self@.insert(
                            nm,
                            rv,
                        ).dom().contains(k) by {
                            if old_self@.dom().contains(k) {
                                let j = choose|j: int|
                                    0 <= j < old_self.presets@.len() && #[trigger] old_self.presets@[j].name@ == k;
                                assert(self.presets@[j] == old_self.presets@[j]);
                            }
                            if self@.dom().contains(k) && k != nm {
                                let j = choose|j: int|
                                    0 <= j < self.presets@.len() && #[trigger] self.presets@[j].name@ == k;
                                assert(self.presets@[j] == old_self.presets@[j]);
                            }
                        }
                        assert forall|k: Seq<char>| #[trigger] self@.dom().contains(k) implies self@[k]
                            == old_self@.insert(nm, rv)[k] by {
                            let j = choose|j: int|
                                0 <= j < self.presets@.len() && #[trigger] self.presets@[j].name@ == k;
                            if j < last {
                                assert(self.presets@[j] == old_self.presets@[j]);
                            }
                        }
                    }
                }
            },
        }
        true
    }

    /// Deletes preset `name`; reports whether it existed.
    pub fn remove(&mut self, name: &str) -> (removed: bool)
        requires
            old(self).wf(),
        ensures
            final(self).wf(),
            removed == old(self)@.dom().contains(name@),
            final(self)@ == old(self)@.remove(name@),
    {
        let ghost old_self = *self;
        proof {
            old_self.lemma_view_all();
        }
        match self.find(name) {
            Some(i) => {
                self.presets.remove(i);
                proof {
                    let ii = i as int;
                    assert forall|x: int| 0 <= x < self.presets@.len() implies #[trigger] self.presets@[x]
                        == old_self.presets@[if x < ii { x } else { x + 1 }] by {}
                    assert(names_unique(self.presets@)) by {
                        assert forall|x: int, y: int|
                            0 <= x < self.presets@.len() && 0 <= y < self.presets@.len() && x != y
                                implies self.presets@[x].name@ != self.presets@[y].name@ by {
                            let x2 = if x < ii { x } else { x + 1 };
                            let y2 = if y < ii { y } else { y + 1 };
                            assert(old_self.presets@[x2].name@ != old_self.presets@[y2].name@);
                        }
                    }
                    self.lemma_view_all();
                    assert(self@ =~= old_self@.remove(name@)) by {
                        assert forall|k: Seq<char>| #[trigger] self@.dom().contains(k) == old_self@.remove(
                            name@,
                        ).dom().contains(k) by {
                            if old_self@.dom().contains(k) && k != name@ {
                                let j = choose|j: int|
                                    0 <= j < old_self.presets@.len() && #[trigger] old_self.presets@[j].name@ == k;
                                let j2 = if j < ii { j } else { j - 1 };
                                assert(self.presets@[j2].name@ == k);
                            }
                            if self@.dom().contains(k) {
                                let j = choose|j: int|
                                    0 <= j < self.presets@.len() && #[trigger] self.presets@[j].name@ == k;
                                let j2 = if j < ii { j } else { j + 1 };
                                assert(old_self.presets@[j2].name@ == k);
                            }
                        }
                        assert forall|k: Seq<char>| #[trigger] self@.dom().contains(k) implies self@[k]
                            == old_self@.remove(name@)[k] by {
                            let j = choose|j: int|
                                0 <= j < self.presets@.len() && #[trigger] self.presets@[j].name@ == k;
                            let j2 = if j < ii { j } else { j + 1 };
                            assert(old_self.presets@[j2].name@ == k);
                        }
                    }
                    let r = store_rank(old_self@);
                    assert(valid_rank(self@, r));
                }
                true
            },
            None => {
                assert(old_self@.remove(name@) =~= old_self@);
                false
            },
        }
    }
}

/// The store after `set(name, rules)`.
pub open spec fn after_set(
    store: Map<Seq<char>, Seq<Seq<char>>>,
    name: Seq<char>,
    rules: Seq<Seq<char>>,
) -> Map<Seq<char>, Seq<Seq<char>>> {
    if set_accepts(store, name, rules) {
        store.insert(name, rules)
    } else {
        store
    }
}

/// The store after setting each preset of `entries` in turn.
pub open spec fn after_set_all(
    store: Map<Seq<char>, Seq<Seq<char>>>,
    entries: Seq<Preset>,
) -> Map<Seq<char>, Seq<Seq<char>>>
    decreases entries.len(),
{
    if entries.len() == 0 {
        store
    } else {
        let last = entries.last();
        after_set(after_set_all(store, entries.drop_last()), last.name@, rules_view(last.rules@))
    }
}

/// A role rule without a guild (`+&role`), which names a role of the
/// guild it is used from.
pub open spec fn needs_guild(r: Seq<char>) -> bool {
    r.len() >= 2 && r[1] == '&' && find_char(r, ':') is None
}

/// `r` with guild `g` written into it when it is a role rule without one.
pub open spec fn qualify_rule(r: Seq<char>, g: u64) -> Seq<char> {
    if needs_guild(r) {
        r.take(2) + decimal_text(g as nat) + seq![':'] + r.skip(2)
    } else {
        r
    }
}

fn needs_guild_exec(r: &str) -> (b: bool)
    ensures
        b == needs_guild(r@),
{
    r.unicode_len() >= 2 && r.get_char(1) == '&' && find_char_index(r, ':').is_none()
}

impl Default for Clearance {
    /// The store with one preset, `admin`, that denies everyone.
    fn default() -> (c: Clearance)
        ensures
            c.wf(),
            c@.dom() == set![seq!['a', 'd', 'm', 'i', 'n']],
            c@[seq!['a', 'd', 'm', 'i', 'n']] == seq![seq!['-', 'e', 'v', 'e', 'r', 'y', 'o', 'n', 'e']],
    {
        proof {
            reveal_strlit("admin");
            reveal_strlit("-everyone");
        }
        let mut rules: Vec<String> = Vec::new();
        rules.push(String::from_str("-everyone"));
        let mut presets: Vec<Preset> = Vec::new();
        presets.push(Preset { name: String::from_str("admin"), rules });
        let c = Clearance { presets };
        proof {
            assert(names_unique(c.presets@));
            c.lemma_view_all();
            assert(c.presets@[0].name@ =~= seq!['a', 'd', 'm', 'i', 'n']);
            assert(c.presets@[0].rules@[0]@ =~= seq!['-', 'e', 'v', 'e', 'r', 'y', 'o', 'n', 'e']);
            assert(rules_view(c.presets@[0].rules@) =~= seq![seq!['-', 'e', 'v', 'e', 'r', 'y', 'o', 'n', 'e']]);
            assert(c@.dom() =~= set![seq!['a', 'd', 'm', 'i', 'n']]) by {
                assert forall|k: Seq<char>| c@.dom().contains(k) implies k == seq!['a', 'd', 'm', 'i', 'n'] by {
                    let j = choose|j: int| 0 <= j < c.presets@.len() && #[trigger] c.presets@[j].name@ == k;
                }
            }
            let rv = rules_view(c.presets@[0].rules@);
            assert(rv[0].skip(1) =~= crate::rule::everyone_word());
            assert(crate::rule::valid_rule(rv[0]));
            let rank = |q: Seq<char>| 0nat;
            assert forall|p: Seq<char>, i: int|
                c@.dom().contains(p) && 0 <= i < c@[p].len() && #[trigger] is_preset_ref(c@[p][i])
                    implies rank(preset_name(c@[p][i])) < rank(p) by {
                assert(p == seq!['a', 'd', 'm', 'i', 'n']);
            }
            assert(valid_rank(c@, rank));
        }
        c
    }
}

impl Clearance {
    /// A store built by setting each preset of `entries` in turn; entries
    /// that `set` refuses are left out.
    pub fn from_presets(entries: Vec<Preset>) -> (c: Clearance)
        ensures
            c.wf(),
            c@ == after_set_all(Map::empty(), entries@),
    {
        let mut c = Clearance::new();
        let mut entries = entries;
        let total = entries.len();
        let ghost all = entries@;
        let mut rest: Vec<Preset> = Vec::new();
        // take the entries out back to front, then set them front to back
        while entries.len() > 0
            invariant
                all == entries@ + rest@.reverse(),
                all.len() <= usize::MAX,
            decreases entries@.len(),
        {
            let e = entries.pop().unwrap();
            rest.push(e);
            proof {
                assert(all =~= entries@ + rest@.reverse());
            }
        }
        assert(rest@.reverse() =~= all);
        let mut done: usize = 0;
        while rest.len() > 0
            invariant
                c.wf(),
                done <= all.len(),
                all.len() <= usize::MAX,
                rest@.reverse() =~= all.skip(done as int),
                c@ == after_set_all(Map::empty(), all.take(done as int)),
            decreases rest@.len(),
        {
            let ghost r0 = rest@;
            let e = rest.pop().unwrap();
            proof {
                assert(r0.reverse()[0] == e);
                assert(all.skip(done as int)[0] == e);
                assert(r0.drop_last().reverse() =~= r0.reverse().skip(1));
                assert(all.skip(done as int).skip(1) =~= all.skip(done as int + 1));
                assert(all.take(done as int + 1).drop_last() =~= all.take(done as int));
                assert(all.take(done as int + 1).last() == e);
            }
            let Preset { name, rules } = e;
            c.set(name, rules);
            done = done + 1;
            proof {
                assert(rest@.reverse() =~= all.skip(done as int));
            }
        }
        assert(all.take(done as int) =~= all);
        c
    }

    /// Every preset, for saving.
    pub fn presets(&self) -> (r: Vec<Preset>)
        requires
            self.wf(),
        ensures
            r@.len() == self@.dom().len(),
            names_unique(r@),
            forall|i: int|
                0 <= i < r@.len() ==> self@.dom().contains(#[trigger] r@[i].name@) && self@[r@[i].name@]
                    == rules_view(r@[i].rules@),
    {
        proof {
            self.lemma_view_all();
            self.lemma_dom_len();
        }
        let mut r: Vec<Preset> = Vec::new();
        let mut i: usize = 0;
        while i < self.presets.len()
            invariant
                self.wf(),
                i <= self.presets@.len(),
                r@.len() == i,
                forall|j: int| 0 <= j < i ==> (#[trigger] r@[j]).name@ == self.presets@[j].name@
                    && r@[j].rules@ == self.presets@[j].rules@,
            decreases self.presets@.len() - i,
        {
            r.push(Preset { name: self.presets[i].name.clone(), rules: copy_rules(&self.presets[i].rules) });
            i = i + 1;
        }
        proof {
            assert forall|x: int, y: int| 0 <= x < r@.len() && 0 <= y < r@.len() && x != y implies r@[x].name@
                != r@[y].name@ by {
                assert(self.presets@[x].name@ != self.presets@[y].name@);
            }
            assert forall|j: int| 0 <= j < r@.len() implies self@.dom().contains(#[trigger] r@[j].name@)
                && self@[r@[j].name@] == rules_view(r@[j].rules@) by {
                self.lemma_view_at(j);
            }
        }
        r
    }

    /// Writes the guild `guild` into every role rule of `list` that names
    /// none, since a preset has no guild of its own. Fails, leaving `list`
    /// as it was, when such a rule exists and there is no guild.
    pub fn map_rules(list: &mut Vec<String>, guild: Option<u64>) -> (ok: bool)
        ensures
            ok == (guild is Some || forall|i: int| 0 <= i < old(list)@.len() ==> !needs_guild(
                #[trigger] old(list)@[i]@,
            )),
            ok && guild is Some ==> final(list)@.len() == old(list)@.len() && forall|i: int|
                0 <= i < old(list)@.len() ==> #[trigger] final(list)@[i]@ == qualify_rule(
                    old(list)@[i]@,
                    guild->0,
                ),
            !(ok && guild is Some) ==> final(list)@ == old(list)@,
    {
        let g = match guild {
            Some(g) => g,
            None => {
                let mut i: usize = 0;
                while i < list.len()
                    invariant
                        i <= list@.len(),
                        list@ == old(list)@,
                        guild is None,
                        forall|j: int| 0 <= j < i ==> !needs_guild(#[trigger] list@[j]@),
                    decreases list@.len() - i,
                {
                    if needs_guild_exec(list[i].as_str()) {
                        assert(needs_guild(old(list)@[i as int]@));
                        assert(!(forall|j: int| 0 <= j < old(list)@.len() ==> !needs_guild(
                            #[trigger] old(list)@[j]@,
                        )));
                        return false;
                    }
                    i = i + 1;
                }
                return true;
            },
        };
        let ghost orig = list@;
        let mut i: usize = 0;
        while i < list.len()
            invariant
                i <= list@.len(),
                list@.len() == orig.len(),
                forall|j: int| 0 <= j < i ==> #[trigger] list@[j]@ == qualify_rule(orig[j]@, g),
                forall|j: int| i <= j < list@.len() ==> #[trigger] list@[j] == orig[j],
            decreases list@.len() - i,
        {
            if needs_guild_exec(list[i].as_str()) {
                let r = list[i].as_str();
                let n = r.unicode_len();
                proof {
                    reveal_strlit(":");
                }
                let mut out = String::from_str(r.substring_char(0, 2));
                out.append(decimal_string(g).as_str());
                out.append(":");
                out.append(r.substring_char(2, n));
                assert(out@ =~= qualify_rule(orig[i as int]@, g));
                list[i] = out;
            }
            i = i + 1;
        }
        true
    }
}

/// The rule `?name`.
pub open spec fn ref_rule(name: Seq<char>) -> Seq<char> {
    seq!['?'] + name
}

/// A rule appended to a list overrides every earlier rule for each context
/// that it matches.
pub proof fn lemma_last_rule_decides(
    store: Map<Seq<char>, Seq<Seq<char>>>,
    rules: Seq<Seq<char>>,
    r: Seq<char>,
    ctx: EvalContext,
)
    requires
        rule_matches(r, ctx),
    ensures
        evaluate(store, rules.push(r), ctx) == Some(rule_allows(r)),
{
    assert(rules.push(r).last() == r);
}

/// An empty rule list decides nothing.
pub proof fn lemma_empty_inconclusive(store: Map<Seq<char>, Seq<Seq<char>>>, ctx: EvalContext)
    ensures
        evaluate(store, Seq::empty(), ctx) is None,
{
}

/// A reference to a preset with a decisive verdict, as the last rule of a
/// list, gives that verdict whatever the earlier rules say.
pub proof fn lemma_decisive_preset_short_circuits(
    store: Map<Seq<char>, Seq<Seq<char>>>,
    rules: Seq<Seq<char>>,
    name: Seq<char>,
    ctx: EvalContext,
    b: bool,
)
    requires
        acyclic(store),
        preset_verdict(store, name, ctx) == Some(b),
    ensures
        evaluate(store, rules.push(ref_rule(name)), ctx) == Some(b),
{
    let rank = store_rank(store);
    let all = rules.push(ref_rule(name));
    assert(all.last() == ref_rule(name));
    assert(preset_name(ref_rule(name)) =~= name);
    lemma_ref_bound(rank, all);
    assert(is_preset_ref(all[all.len() - 1]));
    let inner = store[name];
    assert forall|i: int| 0 <= i < inner.len() && #[trigger] is_preset_ref(inner[i]) implies rank(
        preset_name(inner[i]),
    ) < rank(name) by {
        assert(is_preset_ref(store[name][i]));
    }
    lemma_ref_bound(rank, inner);
    lemma_eval_bound_irrelevant(store, rank, inner, ctx, rank(name), ref_bound(rank, inner));
}

/// Once `a` references `b`, `b` may not reference `a`: the second `set` is
/// refused and the store stays as the first left it.
pub proof fn lemma_mutual_reference_refused(
    store: Map<Seq<char>, Seq<Seq<char>>>,
    a: Seq<char>,
    b: Seq<char>,
)
    ensures
        !set_accepts(store.insert(a, seq![ref_rule(b)]), b, seq![ref_rule(a)]),
        set_accepts(store, a, seq![ref_rule(b)]) ==> after_set(
            after_set(store, a, seq![ref_rule(b)]),
            b,
            seq![ref_rule(a)],
        ) == store.insert(a, seq![ref_rule(b)]),
{
    let s1 = store.insert(a, seq![ref_rule(b)]);
    let s2 = s1.insert(b, seq![ref_rule(a)]);
    assert(preset_name(ref_rule(a)) =~= a);
    assert(preset_name(ref_rule(b)) =~= b);
    assert(is_preset_ref(s2[b][0]));
    assert(reach(s2, b, b, 0));
    if a == b {
        assert(reach(s2, b, b, 1));
    } else {
        assert(is_preset_ref(s2[a][0]));
        assert(reach(s2, a, b, 1));
        assert(reach(s2, b, b, 2));
    }
    assert(creates_cycle(s1, b, seq![ref_rule(a)]));
}

/// Removing an absent preset changes nothing; after a removal the preset
/// has no rules.
pub proof fn lemma_remove_idempotent(store: Map<Seq<char>, Seq<Seq<char>>>, name: Seq<char>)
    ensures
        !store.dom().contains(name) ==> store.remove(name) == store,
        preset_rules(store.remove(name), name) == Seq::<Seq<char>>::empty(),
        store.remove(name).remove(name) == store.remove(name),
{
    if !store.dom().contains(name) {
        assert(store.remove(name) =~= store);
    }
    assert(store.remove(name).remove(name) =~= store.remove(name));
}

impl Clearance {
    /// Whether `list` is well formed and, when it is meant for preset
    /// `preset`, would not let that preset reach itself.
    pub fn validate(&self, list: &Vec<String>, preset: Option<&str>) -> (ok: bool)
        requires
            self.wf(),
        ensures
            ok == match preset {
                Some(p) => set_accepts(self@, p@, rules_view(list@)),
                None => all_valid(rules_view(list@)),
            },
    {
        if !validate_rules(list) {
            return false;
        }
        match preset {
            Some(p) => self.no_cycles(p, list),
            None => true,
        }
    }
}

/// A copy of a rule list.
pub fn copy_rules(v: &Vec<String>) -> (r: Vec<String>)
    ensures
        r@ == v@,
{
    let mut r: Vec<String> = Vec::new();
    let mut i: usize = 0;
    while i < v.len()
        invariant
            i <= v@.len(),
            r@ =~= v@.take(i as int),
        decreases v@.len() - i,
    {
        r.push(v[i].clone());
        i = i + 1;
    }
    assert(v@.take(v@.len() as int) =~= v@);
    r
}

} // verus!
