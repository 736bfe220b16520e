//! Fresh names for the temporaries introduced when nested expressions are
//! hoisted into sequential statements.

use vstd::prelude::*;
use vstd::string::StringExecFns;
use crate::export::{decimal, usize_text};

verus! {

/// The next fresh temporary to hand out.
#[derive(Clone, Copy, Debug)]
pub struct State {
    pub fresh_id: usize,
}

/// The name of the `n`-th temporary: `<n>_auto`.
pub open spec fn auto_name(n: nat) -> Seq<char> {
    decimal(n) + seq!['_', 'a', 'u', 't', 'o']
}

impl State {
    pub fn new() -> (r: State)
        ensures
            r.fresh_id == 0,
    {
        State { fresh_id: 0 }
    }

    /// Hands out the next temporary name; names never repeat.
    pub fn produce_id(&mut self) -> (r: String)
        requires
            old(self).fresh_id < usize::MAX,
        ensures
            r@ == auto_name(old(self).fresh_id as nat),
            final(self).fresh_id == old(self).fresh_id + 1,
    {
        let fresh = self.fresh_id;
        self.fresh_id = self.fresh_id + 1;
        let mut r = usize_text(fresh);
        proof {
            reveal_strlit("_auto");
        }
        r.append("_auto");
        proof {
            assert(r@ =~= auto_name(fresh as nat));
        }
        r
    }
}

} // verus!
