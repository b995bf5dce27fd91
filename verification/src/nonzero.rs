//! Counts and ports that are never zero.

use vstd::prelude::*;

verus! {

/// A count that is never zero.
#[derive(Clone, Copy, Debug)]
pub struct NonZeroCount {
    value: usize,
}

impl NonZeroCount {
    #[verifier::type_invariant]
    spec fn positive(self) -> bool {
        self.value > 0
    }

    pub closed spec fn spec_get(self) -> usize {
        self.value
    }

    /// The count.
    pub fn get(&self) -> (value: usize)
        ensures
            value == self.spec_get(),
            value > 0,
    {
        proof {
            use_type_invariant(self);
        }
        self.value
    }
}

/// A nonzero count of `value`; zero becomes the smallest count, one.
pub fn nonzero(value: usize) -> (count: NonZeroCount)
    ensures
        count.spec_get() == if value == 0 { 1 } else { value },
{
    if value == 0 {
        NonZeroCount { value: 1 }
    } else {
        NonZeroCount { value }
    }
}

/// A port number that is never zero.
#[derive(Clone, Copy, Debug)]
pub struct NonZeroPort {
    port: u16,
}

impl NonZeroPort {
    #[verifier::type_invariant]
    spec fn positive(self) -> bool {
        self.port > 0
    }

    pub closed spec fn spec_get(self) -> u16 {
        self.port
    }

    /// The port number.
    pub fn get(&self) -> (port: u16)
        ensures
            port == self.spec_get(),
            port > 0,
    {
        proof {
            use_type_invariant(self);
        }
        self.port
    }
}

/// The nonzero port `value`; port zero becomes the smallest port, one.
pub fn port_nonzero(value: u16) -> (port: NonZeroPort)
    ensures
        port.spec_get() == if value == 0 { 1 } else { value },
{
    if value == 0 {
        NonZeroPort { port: 1 }
    } else {
        NonZeroPort { port: value }
    }
}

/// The nonzero port `port`, as `port_nonzero` builds it.
pub fn nonzero_port(port: u16) -> (nonzero: NonZeroPort)
    ensures
        nonzero.spec_get() == if port == 0 { 1 } else { port },
{
    port_nonzero(port)
}

} // verus!
