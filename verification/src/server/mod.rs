//! The echo server: its address, the workers it starts, and the decisions
//! each worker makes while it serves its connections.

pub mod listener;
pub mod worker;

use vstd::prelude::*;

use crate::text::{decimal, push_char, push_decimal};

verus! {

/// The number of worker threads the server starts.
pub const THREAD_POOL_SIZE: usize = 4;

/// Where the server listens.
pub struct Server {
    host: String,
    port: u16,
}

impl Server {
    pub fn new(host: &str, port: u16) -> (s: Self)
        ensures
            s.host_spec() == host@,
            s.port_spec() == port,
    {
        Self { host: host.to_owned(), port }
    }

    pub closed spec fn host_spec(&self) -> Seq<char> {
        self.host@
    }

    pub closed spec fn port_spec(&self) -> u16 {
        self.port
    }

    pub fn host(&self) -> (h: &str)
        ensures
            h@ == self.host_spec(),
    {
        self.host.as_str()
    }

    pub fn port(&self) -> (p: u16)
        ensures
            p == self.port_spec(),
    {
        self.port
    }

    /// The address the server binds to, `host:port`.
    pub fn address(&self) -> (a: String)
        ensures
            a@ == self.host_spec() + seq![':'] + decimal(self.port_spec() as nat),
    {
        let mut a = self.host.clone();
        push_char(&mut a, ':');
        push_decimal(&mut a, self.port as usize);
        assert(a@ =~= self.host@ + seq![':'] + decimal(self.port as nat));
        a
    }
}

} // verus!
