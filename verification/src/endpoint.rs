//! Advertised broker endpoints compared by value.

use vstd::prelude::*;
use crate::nonzero::NonZeroPort;

verus! {

/// A broker's advertised host and TCP port.
#[derive(Debug)]
pub struct BrokerEndpoint {
    pub host: Vec<u8>,
    pub port: u16,
}

impl BrokerEndpoint {
    /// The endpoint as a value: host bytes and port.
    pub open spec fn value(&self) -> (Seq<u8>, u16) {
        (self.host@, self.port)
    }

    /// The endpoint `host`:`port`.
    pub fn new(host: Vec<u8>, port: NonZeroPort) -> (endpoint: BrokerEndpoint)
        ensures
            endpoint.host@ == host@,
            endpoint.port == port.spec_get(),
            endpoint.port > 0,
    {
        BrokerEndpoint { host, port: port.get() }
    }

    /// Whether both name the same host and port.
    pub fn same_as(&self, other: &BrokerEndpoint) -> (same: bool)
        ensures
            same == (self.value() == other.value()),
    {
        if self.port != other.port || self.host.len() != other.host.len() {
            proof {
                if self.host.len() != other.host.len() {
                    assert(self.host@.len() != other.host@.len());
                }
            }
            return false;
        }
        let mut index: usize = 0;
        while index < self.host.len()
            invariant
                index <= self.host.len(),
                self.host.len() == other.host.len(),
                forall|i: int| 0 <= i < index ==> self.host@[i] == other.host@[i],
            decreases self.host.len() - index,
        {
            if self.host[index] != other.host[index] {
                return false;
            }
            index = index + 1;
        }
        assert(self.host@ =~= other.host@);
        true
    }

    /// An independent copy of this endpoint.
    pub fn duplicate(&self) -> (copy: BrokerEndpoint)
        ensures
            copy.value() == self.value(),
    {
        let mut host: Vec<u8> = Vec::new();
        let mut index: usize = 0;
        while index < self.host.len()
            invariant
                index <= self.host.len(),
                host@ == self.host@.take(index as int),
            decreases self.host.len() - index,
        {
            host.push(self.host[index]);
            index = index + 1;
            assert(host@ =~= self.host@.take(index as int));
        }
        assert(self.host@.take(self.host.len() as int) =~= self.host@);
        BrokerEndpoint { host, port: self.port }
    }
}

} // verus!
