use vstd::prelude::*;
use vstd::slice::slice_to_vec;
use std::collections::HashMap;

use crate::config::{Config, credentials_accepted, ids_unique};
use crate::throttle::{
    GateModel, MAX_THROTTLE, Throttle, gate_admit, gate_insert, lemma_throttle_admits_after_window,
    lemma_throttle_denies_within_window, run_gate,
};

verus! {

broadcast use vstd::std_specs::hash::group_hash_axioms;

/// How long a failed challenge bans its peer, in milliseconds.
pub const THROTTLE_TIME: u64 = 10000;

/// The progress of one connection through the challenge.
#[derive(Debug)]
pub enum AuthState {
    NotAuthenticated,
    ClientId(Vec<u8>),
    Authenticated,
    Throttled(Throttle),
}

/// What an [`AuthState`] stands for.
pub enum AuthPhase {
    NotAuthenticated,
    ClientId(Seq<u8>),
    Authenticated,
    Throttled(Throttle),
}

impl View for AuthState {
    type V = AuthPhase;

    open spec fn view(&self) -> AuthPhase {
        match self {
            AuthState::NotAuthenticated => AuthPhase::NotAuthenticated,
            AuthState::ClientId(id) => AuthPhase::ClientId(id@),
            AuthState::Authenticated => AuthPhase::Authenticated,
            AuthState::Throttled(t) => AuthPhase::Throttled(*t),
        }
    }
}

/// The ban that a failed challenge at `now` brings.
pub open spec fn ban_at(now: u64) -> Throttle {
    Throttle { instant: now, duration: THROTTLE_TIME }
}

/// Whether the challenge has ended, one way or the other.
pub open spec fn is_final(s: AuthPhase) -> bool {
    s is Authenticated || s is Throttled
}

/// One step of the challenge on a frame with payload `data`, received at
/// `now`: the first frame names the client, the second must carry its
/// secret; a stale ban clears itself.
pub open spec fn auth_step(s: AuthPhase, data: Seq<u8>, auth: Seq<(String, String)>, now: u64) -> AuthPhase {
    match s {
        AuthPhase::NotAuthenticated => AuthPhase::ClientId(data),
        AuthPhase::ClientId(id) => if credentials_accepted(auth, id, data) {
            AuthPhase::Authenticated
        } else {
            AuthPhase::Throttled(ban_at(now))
        },
        AuthPhase::Throttled(t) => if t.expired_at(now as int) {
            AuthPhase::ClientId(data)
        } else {
            AuthPhase::Throttled(t)
        },
        AuthPhase::Authenticated => AuthPhase::Authenticated,
    }
}

/// The frames of one read, in order, from the state `s`: a frame that could
/// not be decoded counts as a wrong secret. The run stops at the first frame
/// that ends the challenge; the result is the state reached and the number
/// of frames taken.
pub open spec fn auth_run(
    s: AuthPhase,
    frames: Seq<Option<Seq<u8>>>,
    auth: Seq<(String, String)>,
    now: u64,
) -> (AuthPhase, nat)
    decreases frames.len(),
{
    if frames.len() == 0 || is_final(s) {
        (s, 0)
    } else {
        let next = match frames[0] {
            Some(data) => auth_step(s, data, auth, now),
            None => AuthPhase::Throttled(ban_at(now)),
        };
        let (last, n) = auth_run(next, frames.drop_first(), auth, now);
        (last, n + 1)
    }
}

impl AuthState {
    pub fn is_final(&self) -> (r: bool)
        ensures
            r == is_final(self@),
    {
        match self {
            AuthState::Authenticated | AuthState::Throttled(_) => true,
            _ => false,
        }
    }

    /// The state after a frame with payload `data`, received at `now`. An
    /// authenticated connection takes no further challenge frames.
    pub fn authenticate(&self, data: &[u8], config: &Config, now: u64) -> (r: AuthState)
        requires
            !(self@ is Authenticated),
        ensures
            r@ == auth_step(self@, data@, config.auth@, now),
    {
        match self {
            AuthState::NotAuthenticated => AuthState::ClientId(slice_to_vec(data)),
            AuthState::ClientId(id) => {
                if config.accepts(id.as_slice(), data) {
                    AuthState::Authenticated
                } else {
                    AuthState::Throttled(Throttle::new(now, THROTTLE_TIME))
                }
            },
            AuthState::Throttled(t) => {
                if t.expired(now) {
                    AuthState::ClientId(slice_to_vec(data))
                } else {
                    AuthState::Throttled(*t)
                }
            },
            AuthState::Authenticated => AuthState::Authenticated,
        }
    }
}

/// One decoded challenge frame: its payload, or a frame that did not parse.
pub enum AuthFrame {
    Payload(Vec<u8>),
    Malformed,
}

pub open spec fn frame_view(f: AuthFrame) -> Option<Seq<u8>> {
    match f {
        AuthFrame::Payload(p) => Some(p@),
        AuthFrame::Malformed => None,
    }
}

pub open spec fn frames_view(frames: Seq<AuthFrame>) -> Seq<Option<Seq<u8>>> {
    frames.map_values(|f: AuthFrame| frame_view(f))
}

/// What the challenge table decided on a read.
#[derive(Debug, PartialEq, Eq)]
pub enum AuthOutcome {
    /// The connection is not in this table.
    NotMine,
    /// The challenge goes on.
    Pending,
    /// The peer passed; it took this many frames of the read. The
    /// connection has left the table and moves on to its role.
    Authenticated { consumed: usize },
    /// The peer failed: its key is to be banned with this throttle and the
    /// connection dropped. It has left the table.
    Throttled(Throttle),
}

/// The connections that are going through the challenge, by token.
pub struct Authentication {
    connections: HashMap<u64, AuthState>,
    config: Config,
}

impl Authentication {
    /// The state of each connection in the table.
    pub closed spec fn table(&self) -> Map<u64, AuthPhase> {
        self.connections@.map_values(|s: AuthState| s@)
    }

    pub closed spec fn config(&self) -> Config {
        self.config
    }

    /// Only connections whose challenge is under way stand in the table.
    pub closed spec fn wf(&self) -> bool {
        forall|t: u64| #[trigger] self.connections@.contains_key(t) ==> !is_final(self.connections@[t]@)
    }

    /// An empty table that checks against `config`, whose client ids are
    /// unique, as those of a map.
    pub fn new(config: Config) -> (r: Self)
        requires
            ids_unique(config.auth@),
        ensures
            r.wf(),
            r.table() == Map::<u64, AuthPhase>::empty(),
            r.config() == config,
    {
        let r = Authentication { connections: HashMap::new(), config };
        assert(r.table() =~= Map::<u64, AuthPhase>::empty());
        r
    }

    pub fn contains(&self, token: u64) -> (r: bool)
        ensures
            r == self.table().contains_key(token),
    {
        self.connections.contains_key(&token)
    }

    /// Takes in a new connection; it has sent nothing yet.
    pub fn insert(&mut self, token: u64)
        requires
            old(self).wf(),
        ensures
            final(self).wf(),
            final(self).config() == old(self).config(),
            final(self).table() == old(self).table().insert(token, AuthPhase::NotAuthenticated),
    {
        self.connections.insert(token, AuthState::NotAuthenticated);
        assert(self.table() =~= old(self).table().insert(token, AuthPhase::NotAuthenticated));
    }

    /// Drops a connection, as on a read error or a closed peer.
    pub fn remove(&mut self, token: u64) -> (r: bool)
        requires
            old(self).wf(),
        ensures
            final(self).wf(),
            final(self).config() == old(self).config(),
            r == old(self).table().contains_key(token),
            final(self).table() == old(self).table().remove(token),
    {
        let r = self.connections.remove(&token).is_some();
        assert(self.table() =~= old(self).table().remove(token));
        r
    }

    /// Runs the frames of one read of the connection `token`, received at
    /// `now`, through its challenge.
    pub fn on_frames(&mut self, token: u64, frames: &Vec<AuthFrame>, now: u64) -> (r: AuthOutcome)
        requires
            old(self).wf(),
        ensures
            final(self).wf(),
            final(self).config() == old(self).config(),
            r matches AuthOutcome::Authenticated { consumed } ==> consumed <= frames@.len(),
            !old(self).table().contains_key(token) ==> r == AuthOutcome::NotMine && final(self).table()
                == old(self).table(),
            old(self).table().contains_key(token) ==> {
                let (last, n) = auth_run(
                    old(self).table()[token],
                    frames_view(frames@),
                    old(self).config().auth@,
                    now,
                );
                match last {
                    AuthPhase::Authenticated => r == AuthOutcome::Authenticated { consumed: n as usize }
                        && final(self).table() == old(self).table().remove(token),
                    AuthPhase::Throttled(t) => r == AuthOutcome::Throttled(t) && final(self).table()
                        == old(self).table().remove(token),
                    _ => r == AuthOutcome::Pending && final(self).table() == old(self).table().insert(
                        token,
                        last,
                    ),
                }
            },
    {
        let ghost fv = frames_view(frames@);
        let ghost before = self.table();
        let taken = self.connections.remove(&token);
        match taken {
            None => {
                assert(self.table() =~= before);
                AuthOutcome::NotMine
            },
            Some(first) => {
                let mut st = first;
                let mut i: usize = 0;
                proof {
                    assert(fv.skip(0) =~= fv);
                    assert(before[token] == st@);
                }
                while i < frames.len() && !st.is_final()
                    invariant
                        i <= frames@.len(),
                        fv == frames_view(frames@),
                        fv.len() == frames@.len(),
                        before.contains_key(token),
                        auth_run(before[token], fv, self.config.auth@, now).0 == auth_run(
                            st@,
                            fv.skip(i as int),
                            self.config.auth@,
                            now,
                        ).0,
                        auth_run(before[token], fv, self.config.auth@, now).1 == i + auth_run(
                            st@,
                            fv.skip(i as int),
                            self.config.auth@,
                            now,
                        ).1,
                        self.connections@ == old(self).connections@.remove(token),
                        before == old(self).table(),
                        old(self).wf(),
                    decreases frames@.len() - i,
                {
                    proof {
                        assert(fv.skip(i as int).drop_first() =~= fv.skip(i as int + 1));
                        assert(fv.skip(i as int)[0] == frame_view(frames@[i as int]));
                    }
                    st = match &frames[i] {
                        AuthFrame::Payload(data) => st.authenticate(data.as_slice(), &self.config, now),
                        AuthFrame::Malformed => AuthState::Throttled(Throttle::new(now, THROTTLE_TIME)),
                    };
                    i = i + 1;
                }
                proof {
                    if i == frames@.len() {
                        assert(fv.skip(i as int).len() == 0);
                    }
                }
                match st {
                    AuthState::Authenticated => {
                        assert(self.table() =~= before.remove(token));
                        AuthOutcome::Authenticated { consumed: i }
                    },
                    AuthState::Throttled(t) => {
                        assert(self.table() =~= before.remove(token));
                        AuthOutcome::Throttled(t)
                    },
                    other => {
                        let ghost last = other@;
                        self.connections.insert(token, other);
                        assert(self.table() =~= before.insert(token, last));
                        AuthOutcome::Pending
                    },
                }
            },
        }
    }
}

/// A wrong secret locks its peer out for the ban's whole window and no
/// longer: a challenge that names `id` and then sends a secret that `auth`
/// does not pair with it ends in the ban `ban_at(now)`; once a gate takes
/// that ban in under the peer's key, every admission of the key up to the
/// window's end is refused, whatever other peers come in between, and one
/// after it succeeds.
pub proof fn lemma_wrong_secret_locks_out(
    auth: Seq<(String, String)>,
    id: Seq<u8>,
    secret: Seq<u8>,
    now: u64,
    g: GateModel,
    key: Seq<char>,
    r: GateModel,
    attempts: Seq<(Option<Seq<char>>, int)>,
    later: int,
)
    requires
        !credentials_accepted(auth, id, secret),
        gate_insert(g, key, ban_at(now), now as int, r),
        g.entries.contains_key(key) || g.entries.len() < MAX_THROTTLE,
        forall|i: int|
            0 <= i < attempts.len() ==> (#[trigger] attempts[i]).1 <= now + THROTTLE_TIME,
        later > now + THROTTLE_TIME,
    ensures
        auth_run(AuthPhase::NotAuthenticated, seq![Some(id), Some(secret)], auth, now) == (
            AuthPhase::Throttled(ban_at(now)),
            2nat,
        ),
        forall|i: int|
            0 <= i < attempts.len() && (#[trigger] attempts[i]).0 == Some(key) ==> !run_gate(
                r,
                attempts,
            ).1[i],
        gate_admit(run_gate(r, attempts).0, Some(key), later).1,
{
    let fs = seq![Some(id), Some(secret)];
    assert(fs.drop_first() =~= seq![Some(secret)]);
    assert(fs.drop_first().drop_first() =~= Seq::<Option<Seq<u8>>>::empty());
    let s1 = auth_step(AuthPhase::NotAuthenticated, id, auth, now);
    assert(s1 == AuthPhase::ClientId(id));
    let s2 = auth_step(s1, secret, auth, now);
    assert(s2 == AuthPhase::Throttled(ban_at(now)));
    assert(auth_run(s2, fs.drop_first().drop_first(), auth, now) == (s2, 0nat));
    assert(auth_run(s1, fs.drop_first(), auth, now) == (s2, 1nat));
    lemma_throttle_denies_within_window(g, key, ban_at(now), now as int, r, attempts);
    lemma_throttle_admits_after_window(g, key, ban_at(now), now as int, r, attempts, later);
}

} // verus!
