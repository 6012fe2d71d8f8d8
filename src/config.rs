use vstd::prelude::*;
use vstd::utf8::{encode_utf8, encode_utf8_decode_utf8};

verus! {

/// The relay's settings. `auth` lists the accepted credentials as
/// (client id, secret) pairs.
pub struct Config {
    pub auth: Vec<(String, String)>,
    pub uds_monitor_path: Option<String>,
    pub uds_client_path: Option<String>,
    pub tcp_monitor_host: Option<String>,
    pub tcp_client_host: Option<String>,
    pub pfx_cert_path: String,
    pub pfx_pass: String,
    pub thread_count: usize,
    pub enable_log: bool,
}

/// Whether `auth` holds a client id whose UTF-8 bytes are `id` with the
/// secret whose UTF-8 bytes are `secret`. An id that is not valid UTF-8
/// matches no entry.
pub open spec fn credentials_accepted(auth: Seq<(String, String)>, id: Seq<u8>, secret: Seq<u8>) -> bool {
    exists|i: int|
        0 <= i < auth.len() && encode_utf8((#[trigger] auth[i]).0@) == id && encode_utf8(auth[i].1@)
            == secret
}

/// No client id is listed twice.
pub open spec fn ids_unique(auth: Seq<(String, String)>) -> bool {
    forall|i: int, j: int| 0 <= i < j < auth.len() ==> (#[trigger] auth[i]).0@ != (#[trigger] auth[j]).0@
}

/// With unique ids, a client id has at most one accepted secret.
pub proof fn lemma_one_secret_per_id(auth: Seq<(String, String)>, id: Seq<u8>, s1: Seq<u8>, s2: Seq<u8>)
    requires
        ids_unique(auth),
        credentials_accepted(auth, id, s1),
        credentials_accepted(auth, id, s2),
    ensures
        s1 == s2,
{
    let i = choose|i: int|
        0 <= i < auth.len() && encode_utf8((#[trigger] auth[i]).0@) == id && encode_utf8(auth[i].1@) == s1;
    let j = choose|j: int|
        0 <= j < auth.len() && encode_utf8((#[trigger] auth[j]).0@) == id && encode_utf8(auth[j].1@) == s2;
    encode_utf8_decode_utf8(auth[i].0@);
    encode_utf8_decode_utf8(auth[j].0@);
    if i < j {
        assert(auth[i].0@ != auth[j].0@);
    } else if j < i {
        assert(auth[j].0@ != auth[i].0@);
    }
}

/// Whether two byte strings are equal.
pub fn bytes_equal(a: &[u8], b: &[u8]) -> (r: bool)
    ensures
        r == (a@ == b@),
{
    if a.len() != b.len() {
        return false;
    }
    let mut i: usize = 0;
    while i < a.len()
        invariant
            a@.len() == b@.len(),
            i <= a@.len(),
            forall|j: int| 0 <= j < i ==> a@[j] == b@[j],
        decreases a@.len() - i,
    {
        if a[i] != b[i] {
            return false;
        }
        i = i + 1;
    }
    assert(a@ =~= b@);
    true
}

impl Config {
    /// Whether both Unix socket paths are set.
    pub fn use_uds(&self) -> (r: bool)
        ensures
            r == (self.uds_monitor_path.is_some() && self.uds_client_path.is_some()),
    {
        self.uds_monitor_path.is_some() && self.uds_client_path.is_some()
    }

    pub fn uds_client_path(&self) -> (r: &str)
        requires
            self.uds_client_path.is_some(),
        ensures
            r@ == self.uds_client_path.unwrap()@,
    {
        self.uds_client_path.as_ref().unwrap().as_str()
    }

    pub fn uds_monitor_path(&self) -> (r: &str)
        requires
            self.uds_monitor_path.is_some(),
        ensures
            r@ == self.uds_monitor_path.unwrap()@,
    {
        self.uds_monitor_path.as_ref().unwrap().as_str()
    }

    /// Whether both TCP hosts are set.
    pub fn use_tcp(&self) -> (r: bool)
        ensures
            r == (self.tcp_monitor_host.is_some() && self.tcp_client_host.is_some()),
    {
        self.tcp_monitor_host.is_some() && self.tcp_client_host.is_some()
    }

    pub fn tcp_client_host(&self) -> (r: &str)
        requires
            self.tcp_client_host.is_some(),
        ensures
            r@ == self.tcp_client_host.unwrap()@,
    {
        self.tcp_client_host.as_ref().unwrap().as_str()
    }

    pub fn tcp_monitor_host(&self) -> (r: &str)
        requires
            self.tcp_monitor_host.is_some(),
        ensures
            r@ == self.tcp_monitor_host.unwrap()@,
    {
        self.tcp_monitor_host.as_ref().unwrap().as_str()
    }

    /// Whether no client id is listed twice.
    pub fn has_unique_ids(&self) -> (r: bool)
        ensures
            r == ids_unique(self.auth@),
    {
        let mut i: usize = 0;
        while i < self.auth.len()
            invariant
                i <= self.auth@.len(),
                forall|a: int, b: int|
                    0 <= a < i && a < b < self.auth@.len() ==> (#[trigger] self.auth@[a]).0@
                        != (#[trigger] self.auth@[b]).0@,
            decreases self.auth@.len() - i,
        {
            let mut j: usize = i + 1;
            while j < self.auth.len()
                invariant
                    i < self.auth@.len(),
                    i + 1 <= j <= self.auth@.len(),
                    forall|a: int, b: int|
                        0 <= a < i && a < b < self.auth@.len() ==> (#[trigger] self.auth@[a]).0@
                            != (#[trigger] self.auth@[b]).0@,
                    forall|b: int| i < b < j ==> self.auth@[i as int].0@ != (#[trigger] self.auth@[b]).0@,
                decreases self.auth@.len() - j,
            {
                if self.auth[i].0 == self.auth[j].0 {
                    return false;
                }
                j = j + 1;
            }
            i = i + 1;
        }
        true
    }

    /// Whether `secret` is the secret configured for the client id `id`.
    pub fn accepts(&self, id: &[u8], secret: &[u8]) -> (r: bool)
        ensures
            r == credentials_accepted(self.auth@, id@, secret@),
    {
        let mut i: usize = 0;
        while i < self.auth.len()
            invariant
                i <= self.auth@.len(),
                forall|j: int|
                    0 <= j < i ==> !(encode_utf8((#[trigger] self.auth@[j]).0@) == id@ && encode_utf8(
                        self.auth@[j].1@,
                    ) == secret@),
            decreases self.auth@.len() - i,
        {
            let name = self.auth[i].0.as_str().as_bytes();
            let pass = self.auth[i].1.as_str().as_bytes();
            if bytes_equal(name, id) && bytes_equal(pass, secret) {
                return true;
            }
            i = i + 1;
        }
        false
    }
}

/// A stage that exists only where it is enabled.
pub struct Optional<T> {
    pub reactor: Option<T>,
}

impl<T> Optional<T> {
    /// Builds the stage with `f` when `enabled`, and calls `f` only then.
    pub fn new<F: FnOnce() -> T>(enabled: bool, f: F) -> (r: Self)
        requires
            enabled ==> f.requires(()),
        ensures
            r.reactor.is_some() == enabled,
            enabled ==> f.ensures((), r.reactor.unwrap()),
    {
        let reactor = if enabled {
            Some(f())
        } else {
            None
        };
        Optional { reactor }
    }
}

} // verus!
