//! A process identifier that is known to be positive.

use vstd::prelude::*;

verus! {

/// A process identifier. Its value is strictly positive.
#[derive(Copy, Clone, Debug, Eq, PartialEq, Hash)]
pub struct Pid {
    raw: i32,
}

impl View for Pid {
    type V = int;

    closed spec fn view(&self) -> int {
        self.raw as int
    }
}

impl Pid {
    #[verifier::type_invariant]
    spec fn positive(self) -> bool {
        self.raw > 0
    }

    /// The identifier with the value `pid`, or `None` for a negative number. Zero is no
    /// identifier and is not accepted.
    pub fn from_raw(pid: i32) -> (r: Option<Pid>)
        requires
            pid != 0,
        ensures
            pid < 0 ==> r is None,
            pid > 0 ==> r is Some && r->0@ == pid,
    {
        if pid < 0 {
            None
        } else {
            Some(Pid { raw: pid })
        }
    }

    /// The value of `this`, which is strictly positive, or 0 for `None`.
    pub fn as_raw(this: Option<Pid>) -> (r: i32)
        ensures
            this is None ==> r == 0,
            this is Some ==> r == this->0@ && r > 0,
    {
        match this {
            Some(p) => {
                proof {
                    use_type_invariant(&p);
                }
                p.raw
            },
            None => 0,
        }
    }

    /// The value, which is never zero.
    pub fn as_raw_nonzero(self) -> (r: i32)
        ensures
            r == self@,
            r > 0,
    {
        proof {
            use_type_invariant(&self);
        }
        self.raw
    }
}

} // verus!
