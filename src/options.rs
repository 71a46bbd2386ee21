//! The bot's own options: the command prefix and the login token.

use vstd::prelude::*;
use vstd::string::{StrSliceExecFns, StringExecFns};
use crate::text::{shell_split, split_words, words_view};

verus! {

/// The bot's own options.
pub struct MasterOptions {
    /// Text that starts every command message.
    pub prefix: String,
    pub token: String,
}

impl Default for MasterOptions {
    /// Prefix `.`, and a token that must be changed.
    fn default() -> (o: MasterOptions)
        ensures
            o.prefix@ == seq!['.'],
    {
        proof {
            reveal_strlit(".");
        }
        let o = MasterOptions {
            prefix: String::from_str("."),
            token: String::from_str("CHANGE ME"),
        };
        assert(o.prefix@ =~= seq!['.']);
        o
    }
}

impl MasterOptions {
    /// The words of a message that starts with the prefix; `None` for any
    /// other message, and for one with a quote left open.
    pub fn command_words(&self, content: &str) -> (r: Option<Vec<String>>)
        ensures
            match r {
                Some(w) => self.prefix@.is_prefix_of(content@) && shell_split(
                    content@.skip(self.prefix@.len() as int),
                ) == Some(words_view(w@)),
                None => !self.prefix@.is_prefix_of(content@) || shell_split(
                    content@.skip(self.prefix@.len() as int),
                ) is None,
            },
    {
        let p = self.prefix.as_str();
        let np = p.unicode_len();
        let nc = content.unicode_len();
        if np > nc {
            return None;
        }
        let mut i: usize = 0;
        while i < np
            invariant
                np == self.prefix@.len(),
                nc == content@.len(),
                np <= nc,
                i <= np,
                p@ == self.prefix@,
                forall|k: int| 0 <= k < i ==> self.prefix@[k] == content@[k],
            decreases np - i,
        {
            if p.get_char(i) != content.get_char(i) {
                return None;
            }
            i = i + 1;
        }
        assert(self.prefix@ =~= content@.take(np as int));
        let rest = content.substring_char(np, nc);
        assert(rest@ =~= content@.skip(np as int));
        split_words(rest)
    }
}

} // verus!
