//! Records of the coordinates database: categories, subcategories and
//! coordinate entries, and the lookups made on them.

use vstd::prelude::*;
use crate::clearance::{evaluate, rules_view, Clearance};
use crate::rule::EvalContext;
use crate::switch::gate;
use crate::text::{split_once, split_once_spec, str_eq};

verus! {

/// The dimension a coordinate lies in.
#[derive(Clone, Copy, PartialEq, Eq, Structural)]
pub enum Dimension {
    Overworld,
    Nether,
    End,
}

pub open spec fn dimension_of(s: Seq<char>) -> Option<Dimension> {
    if s == seq!['o', 'w'] {
        Some(Dimension::Overworld)
    } else if s == seq!['n', 'e', 't', 'h', 'e', 'r'] {
        Some(Dimension::Nether)
    } else if s == seq!['e', 'n', 'd'] {
        Some(Dimension::End)
    } else {
        None
    }
}

impl Dimension {
    /// The dimension's name in text.
    pub fn label(&self) -> (r: &'static str)
        ensures
            r@ == match self {
                Dimension::Overworld => seq!['o', 'v', 'e', 'r', 'w', 'o', 'r', 'l', 'd'],
                Dimension::Nether => seq!['n', 'e', 't', 'h', 'e', 'r'],
                Dimension::End => seq!['e', 'n', 'd'],
            },
    {
        proof {
            reveal_strlit("overworld");
            reveal_strlit("nether");
            reveal_strlit("end");
        }
        let r = match self {
            Dimension::Overworld => "overworld",
            Dimension::Nether => "nether",
            Dimension::End => "end",
        };
        assert(r@ =~= match self {
            Dimension::Overworld => seq!['o', 'v', 'e', 'r', 'w', 'o', 'r', 'l', 'd'],
            Dimension::Nether => seq!['n', 'e', 't', 'h', 'e', 'r'],
            Dimension::End => seq!['e', 'n', 'd'],
        });
        r
    }

    /// Reads `ow`, `nether` or `end`.
    pub fn from_str(s: &str) -> (r: Option<Dimension>)
        ensures
            r == dimension_of(s@),
    {
        proof {
            reveal_strlit("ow");
            reveal_strlit("nether");
            reveal_strlit("end");
            assert("ow"@ =~= seq!['o', 'w']);
            assert("nether"@ =~= seq!['n', 'e', 't', 'h', 'e', 'r']);
            assert("end"@ =~= seq!['e', 'n', 'd']);
        }
        if str_eq(s, "ow") {
            Some(Dimension::Overworld)
        } else if str_eq(s, "nether") {
            Some(Dimension::Nether)
        } else if str_eq(s, "end") {
            Some(Dimension::End)
        } else {
            None
        }
    }
}

/// A subcategory of a category.
pub struct Subcategory {
    pub id: i64,
    pub name: String,
    pub display_name: String,
    pub description: String,
    pub allowed: Vec<String>,
    pub attachment_path: Option<String>,
}

/// A category of coordinate entries, with its subcategories.
pub struct Category {
    pub id: i64,
    pub name: String,
    pub display_name: String,
    pub description: String,
    pub allowed: Vec<String>,
    /// The id the next subcategory gets.
    pub subcogcounter: i64,
    pub subcategories: Vec<Subcategory>,
    pub attachment_path: Option<String>,
}

/// A coordinate entry.
pub struct Coord {
    pub id: i64,
    pub cog: i64,
    pub subcog: i64,
    pub name: String,
    pub display_name: String,
    pub description: String,
    pub x: i64,
    pub z: i64,
    pub author_id: u64,
    pub dim: Dimension,
    /// Seconds since the epoch when the entry was added.
    pub added: i64,
    pub tags: Vec<String>,
}

/// A position in three dimensions.
pub struct Coords {
    pub x: i64,
    pub y: i64,
    pub z: i64,
}

/// An entry of the older record format.
pub struct CoordsEntry {
    pub id: i64,
    pub kind: String,
    pub subtype: String,
    pub access_level: String,
    pub coords: Coords,
}

/// Options of the coordinates module.
pub struct CoordsConfig {
    /// No entry may be added this close to an existing one.
    pub prevent_add_radius: u64,
}

/// A counter from which ids are drawn.
pub struct Counter {
    pub count: i64,
}

impl Default for CoordsConfig {
    fn default() -> (c: CoordsConfig)
        ensures
            c.prevent_add_radius == 100,
    {
        CoordsConfig { prevent_add_radius: 100 }
    }
}

impl Subcategory {
    /// A subcategory without rules.
    pub fn new(
        name: String,
        display_name: String,
        description: String,
        id: i64,
        attachment_path: Option<String>,
    ) -> (s: Subcategory)
        ensures
            s.id == id,
            s.name == name,
            s.display_name == display_name,
            s.description == description,
            s.allowed@.len() == 0,
            s.attachment_path == attachment_path,
    {
        Subcategory { id, name, display_name, description, allowed: Vec::new(), attachment_path }
    }
}

/// Whether some subcategory is called `name`.
pub open spec fn has_subcog(subs: Seq<Subcategory>, name: Seq<char>) -> bool {
    exists|i: int| 0 <= i < subs.len() && #[trigger] subs[i].name@ == name
}

/// The first subcategory called `name`.
pub open spec fn first_subcog(subs: Seq<Subcategory>, name: Seq<char>) -> int {
    choose|i: int|
        0 <= i < subs.len() && subs[i].name@ == name && forall|j: int| 0 <= j < i ==> subs[j].name@ != name
}

impl Category {
    fn find_subcog(&self, subcog: &str) -> (r: Option<usize>)
        ensures
            match r {
                Some(i) => i < self.subcategories@.len() && i as int == first_subcog(
                    self.subcategories@,
                    subcog@,
                ) && self.subcategories@[i as int].name@ == subcog@,
                None => !has_subcog(self.subcategories@, subcog@),
            },
    {
        let mut i: usize = 0;
        while i < self.subcategories.len()
            invariant
                i <= self.subcategories@.len(),
                forall|j: int| 0 <= j < i ==> self.subcategories@[j].name@ != subcog@,
            decreases self.subcategories@.len() - i,
        {
            if str_eq(self.subcategories[i].name.as_str(), subcog) {
                let ghost w = first_subcog(self.subcategories@, subcog@);
                assert(exists|k: int| 0 <= k < self.subcategories@.len() && self.subcategories@[k].name@ == subcog@
                    && forall|j: int| 0 <= j < k ==> self.subcategories@[j].name@ != subcog@);
                assert(w == i as int) by {
                    if w < i as int {
                        assert(self.subcategories@[w].name@ != subcog@);
                    } else if w > i as int {
                        assert(self.subcategories@[i as int].name@ != subcog@);
                    }
                }
                return Some(i);
            }
            i = i + 1;
        }
        None
    }

    /// Whether some subcategory is called `subcog`.
    pub fn contains(&self, subcog: &str) -> (r: bool)
        ensures
            r == has_subcog(self.subcategories@, subcog@),
    {
        self.find_subcog(subcog).is_some()
    }

    /// The first subcategory called `subcog`.
    pub fn get_subcog(&self, subcog: &str) -> (r: Option<&Subcategory>)
        ensures
            match r {
                Some(s) => has_subcog(self.subcategories@, subcog@) && *s == self.subcategories@[first_subcog(
                    self.subcategories@,
                    subcog@,
                )],
                None => !has_subcog(self.subcategories@, subcog@),
            },
    {
        match self.find_subcog(subcog) {
            Some(i) => Some(&self.subcategories[i]),
            None => None,
        }
    }

    /// The first subcategory called `subcog`, to change it.
    pub fn get_subcog_mut(&mut self, subcog: &str) -> (r: Option<&mut Subcategory>)
        ensures
            match r {
                Some(s) => has_subcog(old(self).subcategories@, subcog@) && *s == old(self).subcategories@[first_subcog(
                    old(self).subcategories@,
                    subcog@,
                )] && final(self).subcategories@ == old(self).subcategories@.update(
                    first_subcog(old(self).subcategories@, subcog@),
                    *final(s),
                ),
                None => !has_subcog(old(self).subcategories@, subcog@) && *final(self) == *old(self),
            },
            final(self).id == old(self).id,
            final(self).name == old(self).name,
            final(self).display_name == old(self).display_name,
            final(self).description == old(self).description,
            final(self).allowed == old(self).allowed,
            final(self).subcogcounter == old(self).subcogcounter,
            final(self).attachment_path == old(self).attachment_path,
    {
        match self.find_subcog(subcog) {
            Some(i) => Some(&mut self.subcategories[i]),
            None => None,
        }
    }
}

/// The subcategory with id `id`, if any: the first such.
pub open spec fn subcog_with_id(subs: Seq<Subcategory>, id: i64) -> Option<Subcategory> {
    if exists|i: int| 0 <= i < subs.len() && subs[i].id == id {
        Some(
            subs[choose|i: int|
                0 <= i < subs.len() && subs[i].id == id && forall|j: int| 0 <= j < i ==> subs[j].id != id],
        )
    } else {
        None
    }
}

fn find_subcog_id(subs: &Vec<Subcategory>, id: i64) -> (r: Option<usize>)
    ensures
        match r {
            Some(i) => i < subs@.len() && subcog_with_id(subs@, id) == Some(subs@[i as int]),
            None => subcog_with_id(subs@, id) is None,
        },
{
    let mut i: usize = 0;
    while i < subs.len()
        invariant
            i <= subs@.len(),
            forall|j: int| 0 <= j < i ==> subs@[j].id != id,
        decreases subs@.len() - i,
    {
        if subs[i].id == id {
            let ghost w = choose|k: int|
                0 <= k < subs@.len() && subs@[k].id == id && forall|j: int| 0 <= j < k ==> subs@[j].id != id;
            assert(exists|k: int|
                0 <= k < subs@.len() && subs@[k].id == id && forall|j: int| 0 <= j < k ==> subs@[j].id != id);
            assert(w == i as int) by {
                if w < i as int {
                    assert(subs@[w].id != id);
                } else if w > i as int {
                    assert(subs@[i as int].id != id);
                }
            }
            return Some(i);
        }
        i = i + 1;
    }
    None
}

/// Whether entries of category `cog`, subcategory `subcog`, are visible to
/// `ctx`: `0.0` (unspecified) to everyone, `0.1` (private) to the author,
/// and otherwise when neither the category's rules nor, if it exists, the
/// subcategory's rules deny. An unknown category hides its entries.
pub open spec fn coord_visible(
    coord: Coord,
    cog: Option<Category>,
    store: Map<Seq<char>, Seq<Seq<char>>>,
    ctx: EvalContext,
) -> bool {
    if coord.cog == 0 && coord.subcog == 0 {
        true
    } else if coord.cog == 0 && coord.subcog == 1 {
        coord.author_id == ctx.user_id
    } else {
        match cog {
            None => false,
            Some(c) => gate(true, evaluate(store, rules_view(c.allowed@), ctx)) && match subcog_with_id(
                c.subcategories@,
                coord.subcog,
            ) {
                Some(s) => gate(true, evaluate(store, rules_view(s.allowed@), ctx)),
                None => true,
            },
        }
    }
}

/// The square of an integer.
pub open spec fn sq(v: int) -> int {
    v * v
}

impl Coord {
    /// Whether the entry is visible to `ctx`; `cog` is the entry's
    /// category as stored, if found.
    pub fn is_allowed(&self, cog: Option<&Category>, store: &Clearance, ctx: &EvalContext) -> (r: bool)
        requires
            store.wf(),
        ensures
            r == coord_visible(*self, match cog {
                Some(c) => Some(*c),
                None => None,
            }, store@, *ctx),
    {
        if self.cog == 0 && self.subcog == 0 {
            return true;
        }
        if self.cog == 0 && self.subcog == 1 {
            return self.author_id == ctx.user_id;
        }
        let c = match cog {
            Some(c) => c,
            None => return false,
        };
        let mut allowed = match store.is_allowed(&c.allowed, ctx) {
            Some(b) => b,
            None => true,
        };
        match find_subcog_id(&c.subcategories, self.subcog) {
            Some(i) => {
                let sub = match store.is_allowed(&c.subcategories[i].allowed, ctx) {
                    Some(b) => b,
                    None => true,
                };
                allowed = allowed && sub;
            },
            None => {},
        }
        allowed
    }

    /// Whether the entry lies in dimension `dim` within distance `r` of
    /// `(x, z)`.
    pub fn is_near(&self, x: i64, z: i64, r: u64, dim: Dimension) -> (near: bool)
        ensures
            near == (self.dim == dim && sq(x - self.x) + sq(z - self.z) <= sq(r as int)),
    {
        let dx = abs_diff(x, self.x) as u128;
        let dz = abs_diff(z, self.z) as u128;
        let ru = r as u128;
        assert(ru * ru <= 0xffff_ffff_ffff_ffff * 0xffff_ffff_ffff_ffffu128) by (nonlinear_arith)
            requires ru <= 0xffff_ffff_ffff_ffff;
        let r2 = ru * ru;
        assert(dx * dx <= 0xffff_ffff_ffff_ffff * 0xffff_ffff_ffff_ffffu128) by (nonlinear_arith)
            requires dx <= 0xffff_ffff_ffff_ffff;
        assert(dz * dz <= 0xffff_ffff_ffff_ffff * 0xffff_ffff_ffff_ffffu128) by (nonlinear_arith)
            requires dz <= 0xffff_ffff_ffff_ffff;
        let sx = dx * dx;
        let sz = dz * dz;
        proof {
            assert(sq(x - self.x) == dx * dx) by (nonlinear_arith)
                requires dx == (if x >= self.x { x - self.x } else { self.x - x });
            assert(sq(z - self.z) == dz * dz) by (nonlinear_arith)
                requires dz == (if z >= self.z { z - self.z } else { self.z - z });
        }
        let within = match sx.checked_add(sz) {
            Some(total) => total <= r2,
            None => {
                assert(r2 <= 0xffff_ffff_ffff_ffff * 0xffff_ffff_ffff_ffffu128) by (nonlinear_arith)
                    requires r2 == ru * ru, ru <= 0xffff_ffff_ffff_ffff;
                false
            },
        };
        within && self.dim == dim
    }
}

/// `|a - b|`, which always fits in 64 unsigned bits.
fn abs_diff(a: i64, b: i64) -> (d: u64)
    ensures
        d as int == if a >= b {
            a - b
        } else {
            b - a
        },
{
    if a >= b {
        ((a as i128) - (b as i128)) as u64
    } else {
        ((b as i128) - (a as i128)) as u64
    }
}

/// The directory for the attachments of a subcategory: its own, else its
/// category's, else `default_path`.
pub open spec fn attachment_dir(cog: Option<Category>, subcog: i64, default_path: Seq<char>) -> Seq<char> {
    match cog {
        None => default_path,
        Some(c) => {
            let own = match subcog_with_id(c.subcategories@, subcog) {
                Some(s) => s.attachment_path,
                None => None,
            };
            match own {
                Some(p) => p@,
                None => match c.attachment_path {
                    Some(p) => p@,
                    None => default_path,
                },
            }
        },
    }
}

/// A category name as written in commands.
pub enum CogName {
    /// One of the built-in categories: a category id and maybe a
    /// subcategory id.
    Builtin(i64, Option<i64>),
    /// A category, and maybe a subcategory, by name.
    Named(String, Option<String>),
}

pub open spec fn generic_word() -> Seq<char> {
    seq!['g', 'e', 'n', 'e', 'r', 'i', 'c']
}

impl Category {
    /// The directory for the attachments of subcategory `subcog` of `cog`.
    pub fn path(cog: Option<&Category>, subcog: i64, default_path: &String) -> (p: String)
        ensures
            p@ == attachment_dir(match cog {
                Some(c) => Some(*c),
                None => None,
            }, subcog, default_path@),
    {
        let c = match cog {
            Some(c) => c,
            None => return default_path.clone(),
        };
        match find_subcog_id(&c.subcategories, subcog) {
            Some(i) => match &c.subcategories[i].attachment_path {
                Some(p) => return p.clone(),
                None => {},
            },
            None => {},
        }
        match &c.attachment_path {
            Some(p) => p.clone(),
            None => default_path.clone(),
        }
    }

    /// Reads `generic`, `generic.unspecified` and `generic.private` as the
    /// built-in categories, and `cog` or `cog.sub` as names.
    pub fn cogs_from_name(name: &str) -> (r: CogName)
        ensures
            name@ == generic_word() ==> r == CogName::Builtin(0, None),
            name@ == generic_word() + seq!['.', 'u', 'n', 's', 'p', 'e', 'c', 'i', 'f', 'i', 'e', 'd'] ==> r
                == CogName::Builtin(0, Some(0)),
            name@ == generic_word() + seq!['.', 'p', 'r', 'i', 'v', 'a', 't', 'e'] ==> r == CogName::Builtin(
                0,
                Some(1),
            ),
            !(name@ == generic_word() || name@ == generic_word() + seq![
                '.',
                'u',
                'n',
                's',
                'p',
                'e',
                'c',
                'i',
                'f',
                'i',
                'e',
                'd',
            ] || name@ == generic_word() + seq!['.', 'p', 'r', 'i', 'v', 'a', 't', 'e']) ==> match r {
                CogName::Named(c, s) => match split_once_spec(name@, '.') {
                    Some((a, b)) => c@ == a && s is Some && s->0@ == b,
                    None => c@ == name@ && s is None,
                },
                _ => false,
            },
    {
        proof {
            reveal_strlit("generic");
            reveal_strlit("generic.unspecified");
            reveal_strlit("generic.private");
            assert("generic"@ =~= generic_word());
            assert("generic.unspecified"@ =~= generic_word() + seq![
                '.',
                'u',
                'n',
                's',
                'p',
                'e',
                'c',
                'i',
                'f',
                'i',
                'e',
                'd',
            ]);
            assert("generic.private"@ =~= generic_word() + seq!['.', 'p', 'r', 'i', 'v', 'a', 't', 'e']);
        }
        if str_eq(name, "generic.unspecified") {
            return CogName::Builtin(0, Some(0));
        }
        if str_eq(name, "generic.private") {
            return CogName::Builtin(0, Some(1));
        }
        if str_eq(name, "generic") {
            return CogName::Builtin(0, None);
        }
        match split_once(name, '.') {
            Some((a, b)) => CogName::Named(a.to_owned(), Some(b.to_owned())),
            None => CogName::Named(name.to_owned(), None),
        }
    }
}

} // verus!
