//! The proof-of-control capability handed to every mutating entry point.
//!
//! The host environment authenticates principals before it invokes the
//! contracts; inside the library that fact is represented as an explicit
//! capability value.  An entry point that demands proof of control of a
//! principal checks the capability and fails without touching state when the
//! principal is not covered.

use vstd::prelude::*;

verus! {

/// A principal: an account or contract identity, as the host names it.
pub type Principal = u64;

/// The set of principals that have proven control for the current invocation.
pub enum AuthContext {
    /// Every principal counts as authenticated (a fully permissive harness).
    Any,
    /// Exactly the listed principals have proven control.
    Signers(Vec<Principal>),
}

impl AuthContext {
    /// Whether principal `p` has proven control under this capability.
    pub open spec fn authorizes(self, p: Principal) -> bool {
        match self {
            AuthContext::Any => true,
            AuthContext::Signers(v) => v@.contains(p),
        }
    }

    /// Decides `authorizes` executably.
    pub fn allows(&self, p: Principal) -> (r: bool)
        ensures
            r == self.authorizes(p),
    {
        match self {
            AuthContext::Any => true,
            AuthContext::Signers(v) => {
                let mut i: usize = 0;
                while i < v.len()
                    invariant
                        i <= v@.len(),
                        self.authorizes(p) == v@.contains(p),
                        forall|k: int| 0 <= k < i ==> v@[k] != p,
                    decreases v@.len() - i,
                {
                    if v[i] == p {
                        assert(v@.contains(p)) by {
                            assert(v@[i as int] == p);
                        }
                        return true;
                    }
                    i += 1;
                }
                false
            },
        }
    }
}

} // verus!
