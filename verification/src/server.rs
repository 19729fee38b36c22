//! Configuration of the TCP server.
use vstd::prelude::*;
use vstd::string::*;
use vstd::utf8::*;

use crate::text::{decimal, decimal_text, empty_string, push_text, string_bytes, string_text};

verus! {

/// The largest request, in bytes, that the server reads.
pub const MAX_REQUEST_SIZE: usize = 1024;

/// Where the server listens.
pub struct Server {
    host: String,
    port: u16,
}

impl Server {
    pub closed spec fn spec_host(&self) -> Seq<u8> {
        string_bytes(&self.host)
    }

    pub closed spec fn spec_port(&self) -> u16 {
        self.port
    }

    pub fn new(host: String, port: u16) -> (res: Self)
        ensures
            res.spec_host() == string_bytes(&host),
            res.spec_port() == port,
    {
        Server { host, port }
    }

    /// The address to listen on: `<host>:<port>`.
    pub fn address(&self) -> (res: String)
        ensures
            string_bytes(&res) == self.spec_host() + encode_utf8(":"@) + decimal(
                self.spec_port() as nat,
            ),
    {
        let port_text = decimal_text(self.port as u64);
        let mut address = empty_string();
        push_text(&mut address, string_text(&self.host));
        push_text(&mut address, ":");
        push_text(&mut address, string_text(&port_text));
        address
    }
}

} // verus!
