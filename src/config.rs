//! The routing table: which backend serves a requested host and port, and
//! what to answer for status requests that no backend serves.

use vstd::prelude::*;
use vstd::utf8::*;

verus! {

/// Declares `serde_json::Value` as an opaque type: the library carries a
/// configured JSON value to the status document without reading it.
#[verifier::external_type_specification]
#[verifier::external_body]
pub struct ExValue(serde_json::Value);

/// The proxy's configuration: where to listen, the routing entries in the
/// order they were declared, and the status document for unrouted requests.
#[derive(Debug, Clone)]
pub struct Config {
    pub host: String,
    pub port: u16,
    pub motd: Option<Motd>,
    pub servers: Option<Vec<Server>>,
}

/// A routing entry: requests that `src` matches go to the address `dst`.
#[derive(Debug, Clone)]
pub struct Server {
    pub src: Target,
    pub dst: String,
}

/// A host and port pattern; an absent part matches anything.
#[derive(Debug, Clone)]
pub struct Target {
    pub host: Option<String>,
    pub port: Option<u16>,
}

/// The status document served when no routing entry matches.
#[derive(Debug, Clone)]
pub struct Motd {
    pub version: MotdVersion,
    pub description: Option<serde_json::Value>,
    pub favicon: Option<String>,
    pub players: Option<MotdPlayers>,
    /// Whether ping packets are echoed back.
    pub ping: bool,
}

/// Whether ping packets are echoed when the configuration does not say.
pub fn default_ping() -> (r: bool)
    ensures
        r,
{
    true
}

/// The version block of a status document.
#[derive(Debug, Clone)]
pub struct MotdVersion {
    pub name: Option<String>,
    /// The protocol number to report; the client's own when absent.
    pub protocol: Option<i32>,
}

impl Default for MotdVersion {
    fn default() -> (r: Self)
        ensures
            r.name is None,
            r.protocol is None,
    {
        MotdVersion { name: None, protocol: None }
    }
}

/// The player counts of a status document.
#[derive(Debug, Clone)]
pub struct MotdPlayers {
    pub max: Option<i32>,
    pub online: Option<i32>,
    pub sample: Option<Vec<MotdPlayer>>,
}

/// One player listed in a status document.
#[derive(Debug, Clone)]
pub struct MotdPlayer {
    pub name: String,
    pub id: String,
}

/// Whether two strings hold the same characters.
fn str_eq(a: &str, b: &str) -> (r: bool)
    ensures
        r == (a@ == b@),
{
    broadcast use encode_utf8_decode_utf8, encode_utf8_valid_utf8;

    let x = a.as_bytes();
    let y = b.as_bytes();
    assert(x@ == encode_utf8(a@) && y@ == encode_utf8(b@));
    if x.len() != y.len() {
        return false;
    }
    let mut i: usize = 0;
    while i < x.len()
        invariant
            x@ == encode_utf8(a@),
            y@ == encode_utf8(b@),
            x@.len() == y@.len(),
            i <= x@.len(),
            forall|j: int| 0 <= j < i ==> x@[j] == y@[j],
        decreases x@.len() - i,
    {
        if x[i] != y[i] {
            return false;
        }
        i = i + 1;
    }
    assert(x@ =~= y@);
    assert(decode_utf8(encode_utf8(a@)) == a@);
    true
}

impl Target {
    /// Whether this pattern admits the host and port.
    pub open spec fn admits(&self, host: Seq<char>, port: u16) -> bool {
        &&& (self.host matches Some(h) ==> h@ == host)
        &&& (self.port matches Some(p) ==> p == port)
    }

    /// Whether this pattern admits the host and port: each part that is set
    /// must be equal to the one given.
    pub fn matches(&self, host: &str, port: u16) -> (r: bool)
        ensures
            r == self.admits(host@, port),
    {
        let host_ok = match &self.host {
            Some(h) => str_eq(h.as_str(), host),
            None => true,
        };
        let port_ok = match self.port {
            Some(p) => p == port,
            None => true,
        };
        host_ok && port_ok
    }
}

/// The first of `entries` whose pattern admits the host and port.
pub open spec fn first_match(entries: Seq<Server>, host: Seq<char>, port: u16) -> Option<Server>
    decreases entries.len(),
{
    if entries.len() == 0 {
        None
    } else if entries[0].src.admits(host, port) {
        Some(entries[0])
    } else {
        first_match(entries.drop_first(), host, port)
    }
}

impl Config {
    /// The routing entries, in the order they were declared.
    pub open spec fn entries(&self) -> Seq<Server> {
        match &self.servers {
            Some(v) => v@,
            None => seq![],
        }
    }

    /// The backend for a request: the first routing entry whose pattern
    /// admits the host and port.
    pub open spec fn route(&self, host: Seq<char>, port: u16) -> Option<Server> {
        first_match(self.entries(), host, port)
    }

    /// Finds the first routing entry, in declaration order, whose pattern
    /// admits the host and port.
    pub fn find_server(&self, host: &str, port: u16) -> (r: Option<&Server>)
        ensures
            match r {
                Some(s) => self.route(host@, port) == Some(*s),
                None => self.route(host@, port) is None,
            },
    {
        let servers = match &self.servers {
            Some(v) => v,
            None => return None,
        };
        let mut i: usize = 0;
        assert(servers@.subrange(0, servers@.len() as int) =~= servers@);
        while i < servers.len()
            invariant
                servers@ == self.entries(),
                i <= servers@.len(),
                self.route(host@, port) == first_match(
                    servers@.subrange(i as int, servers@.len() as int),
                    host@,
                    port,
                ),
            decreases servers@.len() - i,
        {
            let ghost rest = servers@.subrange(i as int, servers@.len() as int);
            assert(rest.drop_first() =~= servers@.subrange(i + 1, servers@.len() as int));
            if servers[i].src.matches(host, port) {
                return Some(&servers[i]);
            }
            i = i + 1;
        }
        None
    }
}

} // verus!
