use vstd::prelude::*;

use crate::auth::{AuthFrame, AuthOutcome, AuthPhase, Authentication, auth_run, frames_view};
use crate::buffer::{bytes_clone, bytes_content};
use crate::clients::{Clients, greeted};
use crate::config::{Config, ids_unique};
use crate::connections2::ConnView;
use crate::broadcast::Broadcast;
use crate::connections2::{MonitorFrame, after_push_all, error_replies, valid_messages};
use crate::monitors::{Monitors, publish_all};

verus! {

/// The other role.
pub open spec fn other_role(role: Role) -> Role {
    match role {
        Role::Client => Role::Monitor,
        Role::Monitor => Role::Client,
    }
}

/// What one read of challenge frames does to the challenge tables, given
/// the outcome `r`: the table of `role` runs `auth_run` on the frames, the
/// other one is untouched.
pub open spec fn challenge_step(
    w0: &Worker,
    w1: &Worker,
    token: u64,
    role: Role,
    frames: Seq<AuthFrame>,
    now: u64,
    r: AuthOutcome,
) -> bool {
    &&& w1.auth_table(other_role(role)) == w0.auth_table(other_role(role))
    &&& !w0.auth_table(role).contains_key(token) ==> r == AuthOutcome::NotMine && w1.auth_table(
        role,
    ) == w0.auth_table(role)
    &&& w0.auth_table(role).contains_key(token) ==> {
        let (last, n) = auth_run(
            w0.auth_table(role)[token],
            frames_view(frames),
            w0.auth_credentials(role),
            now,
        );
        match last {
            AuthPhase::Authenticated => r == AuthOutcome::Authenticated { consumed: n as usize }
                && w1.auth_table(role) == w0.auth_table(role).remove(token),
            AuthPhase::Throttled(t) => r == AuthOutcome::Throttled(t) && w1.auth_table(role)
                == w0.auth_table(role).remove(token),
            _ => r == AuthOutcome::Pending && w1.auth_table(role) == w0.auth_table(role).insert(
                token,
                last,
            ),
        }
    }
}

/// What a worker did with the frames of one read.
#[derive(Debug, PartialEq, Eq)]
pub enum Dispatch {
    /// The connection is in its challenge; this is the challenge's outcome.
    Challenge(AuthOutcome),
    /// The connection is a monitor past its challenge; its frames went out.
    Published,
    /// Nothing to do: the connection is a client past its challenge (what a
    /// client sends means nothing), or it is not in the worker.
    Ignored,
}

/// The frames that follow the first `n`, or none where there are fewer.
pub open spec fn frames_after(fs: Seq<MonitorFrame>, n: int) -> Seq<MonitorFrame> {
    if n <= fs.len() {
        fs.skip(n)
    } else {
        Seq::empty()
    }
}

/// Which side of the relay a peer connected to.
#[derive(Debug, Clone, Copy, PartialEq, Eq, Structural)]
pub enum Role {
    Client,
    Monitor,
}

/// How a peer connected: over TCP it must pass the challenge, over a Unix
/// socket it is trusted.
#[derive(Debug, Clone, Copy, PartialEq, Eq, Structural)]
pub enum Transport {
    Tcp,
    Uds,
}

/// The stages of one worker thread: a challenge table per role, and the
/// client and monitor tables that connections reach once they pass.
pub struct Worker {
    pub client_auth: Authentication,
    pub monitor_auth: Authentication,
    pub clients: Clients,
    pub monitors: Monitors,
    pub greeting: bytes::Bytes,
}

impl Worker {
    /// The greeting that each installed connection gets first.
    pub open spec fn greeting(&self) -> Seq<u8> {
        bytes_content(self.greeting)
    }

    /// The number of the worker's tables that hold `token`.
    pub open spec fn holders(&self, token: u64) -> nat {
        (if self.client_auth.table().contains_key(token) { 1nat } else { 0nat }) + (
        if self.monitor_auth.table().contains_key(token) {
            1nat
        } else {
            0nat
        }) + (if self.clients.connections.table().contains_key(token) {
            1nat
        } else {
            0nat
        }) + (if self.monitors.connections.table().contains_key(token) {
            1nat
        } else {
            0nat
        })
    }

    /// Each table is well formed and no token stands in two of them.
    pub open spec fn wf(&self) -> bool {
        &&& self.client_auth.wf()
        &&& self.monitor_auth.wf()
        &&& self.clients.connections.wf()
        &&& self.monitors.connections.wf()
        &&& forall|t: u64| #[trigger] self.holders(t) <= 1
    }

    /// Whether some table of the worker holds `token`.
    pub open spec fn knows(&self, token: u64) -> bool {
        self.holders(token) > 0
    }

    /// The challenge table of `role`.
    pub open spec fn auth_table(&self, role: Role) -> Map<u64, AuthPhase> {
        match role {
            Role::Client => self.client_auth.table(),
            Role::Monitor => self.monitor_auth.table(),
        }
    }

    /// The credentials that the challenge of `role` checks against.
    pub open spec fn auth_credentials(&self, role: Role) -> Seq<(String, String)> {
        match role {
            Role::Client => self.client_auth.config().auth@,
            Role::Monitor => self.monitor_auth.config().auth@,
        }
    }

    /// The table of `role` that holds connections past their challenge.
    pub open spec fn conn_table(&self, role: Role) -> Map<u64, ConnView> {
        match role {
            Role::Client => self.clients.connections.table(),
            Role::Monitor => self.monitors.connections.table(),
        }
    }

    /// Whether the two workers have the same challenge configurations,
    /// greeting and subscriber.
    pub open spec fn same_setup(&self, other: &Worker) -> bool {
        &&& self.client_auth.config() == other.client_auth.config()
        &&& self.monitor_auth.config() == other.monitor_auth.config()
        &&& self.greeting() == other.greeting()
        &&& self.clients.subscriber == other.clients.subscriber
    }

    /// Empty tables. The client challenge checks against `client_config`,
    /// the monitor challenge against `monitor_config`; the client table
    /// receives what the bus holds for `subscriber`, and `greeting` is what
    /// each installed connection gets first.
    pub fn new(client_config: Config, monitor_config: Config, subscriber: u64, greeting: bytes::Bytes) -> (r: Self)
        requires
            ids_unique(client_config.auth@),
            ids_unique(monitor_config.auth@),
        ensures
            r.wf(),
            r.greeting() == bytes_content(greeting),
            r.clients.subscriber == subscriber,
            r.client_auth.config() == client_config,
            r.monitor_auth.config() == monitor_config,
            forall|t: u64| !r.knows(t),
    {
        Worker {
            client_auth: Authentication::new(client_config),
            monitor_auth: Authentication::new(monitor_config),
            clients: Clients::new(subscriber),
            monitors: Monitors::new(),
            greeting,
        }
    }

    /// Whether some table of the worker holds `token`.
    pub fn contains(&self, token: u64) -> (r: bool)
        requires
            self.wf(),
        ensures
            r == self.knows(token),
    {
        self.client_auth.contains(token) || self.monitor_auth.contains(token)
            || self.clients.connections.contains(token) || self.monitors.connections.contains(token)
    }

    fn install(&mut self, token: u64, role: Role)
        requires
            old(self).wf(),
            !old(self).knows(token),
        ensures
            final(self).wf(),
            final(self).greeting() == old(self).greeting(),
            final(self).client_auth == old(self).client_auth,
            final(self).monitor_auth == old(self).monitor_auth,
            final(self).clients.subscriber == old(self).clients.subscriber,
            role == Role::Client ==> final(self).clients.connections.table() == old(
                self,
            ).clients.connections.table().insert(token, greeted(old(self).greeting()))
                && final(self).monitors.connections.table() == old(self).monitors.connections.table(),
            role == Role::Monitor ==> final(self).monitors.connections.table() == old(
                self,
            ).monitors.connections.table().insert(token, greeted(old(self).greeting()))
                && final(self).clients.connections.table() == old(self).clients.connections.table(),
    {
        let g = bytes_clone(&self.greeting);
        match role {
            Role::Client => self.clients.install(token, g),
            Role::Monitor => self.monitors.install(token, g),
        }
        assert forall|t: u64| #[trigger] self.holders(t) <= 1 by {
            assert(old(self).holders(t) <= 1);
        }
    }

    /// Takes in a socket that was just accepted. Over TCP it enters the
    /// challenge of its role; over a Unix socket it is installed at once.
    pub fn accept(&mut self, token: u64, role: Role, transport: Transport)
        requires
            old(self).wf(),
            !old(self).knows(token),
        ensures
            final(self).wf(),
            final(self).knows(token),
            final(self).same_setup(old(self)),
            transport == Transport::Tcp ==> {
                &&& final(self).auth_table(role) == old(self).auth_table(role).insert(
                    token,
                    AuthPhase::NotAuthenticated,
                )
                &&& final(self).auth_table(other_role(role)) == old(self).auth_table(other_role(role))
                &&& final(self).conn_table(role) == old(self).conn_table(role)
                &&& final(self).conn_table(other_role(role)) == old(self).conn_table(other_role(role))
            },
            transport == Transport::Uds ==> {
                &&& final(self).conn_table(role) == old(self).conn_table(role).insert(
                    token,
                    greeted(old(self).greeting()),
                )
                &&& final(self).conn_table(other_role(role)) == old(self).conn_table(other_role(role))
                &&& final(self).auth_table(role) == old(self).auth_table(role)
                &&& final(self).auth_table(other_role(role)) == old(self).auth_table(other_role(role))
            },
    {
        match transport {
            Transport::Tcp => {
                match role {
                    Role::Client => self.client_auth.insert(token),
                    Role::Monitor => self.monitor_auth.insert(token),
                }
                assert forall|t: u64| #[trigger] self.holders(t) <= 1 by {
                    assert(old(self).holders(t) <= 1);
                }
            },
            Transport::Uds => self.install(token, role),
        }
    }

    /// Runs the challenge frames of one read of `token`, received at `now`,
    /// through the challenge of `role`. A connection that passes leaves the
    /// challenge table and is installed, greeted, in the table of its role,
    /// in the same step.
    pub fn on_auth_frames(&mut self, token: u64, role: Role, frames: &Vec<AuthFrame>, now: u64) -> (r: AuthOutcome)
        requires
            old(self).wf(),
        ensures
            final(self).wf(),
            final(self).same_setup(old(self)),
            challenge_step(old(self), final(self), token, role, frames@, now, r),
            r matches AuthOutcome::Authenticated { consumed } ==> consumed <= frames@.len(),
            r is Authenticated ==> final(self).conn_table(role) == old(self).conn_table(role).insert(
                token,
                greeted(old(self).greeting()),
            ),
            !(r is Authenticated) ==> final(self).conn_table(role) == old(self).conn_table(role),
            final(self).conn_table(other_role(role)) == old(self).conn_table(other_role(role)),
    {
        let r = match role {
            Role::Client => self.client_auth.on_frames(token, frames, now),
            Role::Monitor => self.monitor_auth.on_frames(token, frames, now),
        };
        assert forall|t: u64| #[trigger] self.holders(t) <= 1 by {
            assert(old(self).holders(t) <= 1);
        }
        match r {
            AuthOutcome::Authenticated { consumed } => {
                assert(old(self).holders(token) <= 1);
                self.install(token, role);
            },
            _ => {},
        }
        r
    }

    /// Handles the frames of one read of `token`, received at `now`. Each
    /// frame comes twice, as the challenge reads it (`auth_frames`) and as a
    /// monitor's message (`monitor_frames`). A connection in its challenge
    /// runs the challenge frames; a monitor that passes has the frames after
    /// those the challenge took published at once. A monitor past its
    /// challenge publishes its frames. A client's frames are dropped.
    pub fn on_read(
        &mut self,
        token: u64,
        role: Role,
        auth_frames: &Vec<AuthFrame>,
        monitor_frames: Vec<MonitorFrame>,
        now: u64,
        bus: &mut Broadcast,
    ) -> (r: Dispatch)
        requires
            old(self).wf(),
            old(bus).wf(),
        ensures
            final(self).wf(),
            final(bus).wf(),
            final(self).same_setup(old(self)),
            final(self).conn_table(other_role(role)) == old(self).conn_table(other_role(role)),
            old(self).auth_table(role).contains_key(token) ==> {
                &&& r matches Dispatch::Challenge(o)
                &&& challenge_step(old(self), final(self), token, role, auth_frames@, now, r->Challenge_0)
                &&& match r->Challenge_0 {
                    AuthOutcome::Authenticated { consumed } => if role == Role::Monitor {
                        let rest = frames_after(monitor_frames@, consumed as int);
                        &&& final(self).conn_table(role) == old(self).conn_table(role).insert(
                            token,
                            after_push_all(greeted(old(self).greeting()), error_replies(rest)),
                        )
                        &&& final(bus).model() == publish_all(old(bus).model(), valid_messages(rest))
                    } else {
                        &&& final(self).conn_table(role) == old(self).conn_table(role).insert(
                            token,
                            greeted(old(self).greeting()),
                        )
                        &&& final(bus).model() == old(bus).model()
                    },
                    _ => final(self).conn_table(role) == old(self).conn_table(role) && final(bus).model()
                        == old(bus).model(),
                }
            },
            !old(self).auth_table(role).contains_key(token) ==> {
                &&& final(self).auth_table(role) == old(self).auth_table(role)
                &&& final(self).auth_table(other_role(role)) == old(self).auth_table(other_role(role))
            },
            !old(self).auth_table(role).contains_key(token) && role == Role::Monitor
                && old(self).conn_table(role).contains_key(token) ==> {
                &&& r == Dispatch::Published
                &&& final(self).conn_table(role) == old(self).conn_table(role).insert(
                    token,
                    after_push_all(old(self).conn_table(role)[token], error_replies(monitor_frames@)),
                )
                &&& final(bus).model() == publish_all(old(bus).model(), valid_messages(monitor_frames@))
            },
            !old(self).auth_table(role).contains_key(token) && !(role == Role::Monitor
                && old(self).conn_table(role).contains_key(token)) ==> {
                &&& r == Dispatch::Ignored
                &&& final(self).conn_table(role) == old(self).conn_table(role)
                &&& final(bus).model() == old(bus).model()
            },
    {
        let in_challenge = match role {
            Role::Client => self.client_auth.contains(token),
            Role::Monitor => self.monitor_auth.contains(token),
        };
        if in_challenge {
            let o = self.on_auth_frames(token, role, auth_frames, now);
            match o {
                AuthOutcome::Authenticated { consumed } => {
                    if role == Role::Monitor {
                        let mut frames = monitor_frames;
                        let rest = if consumed <= frames.len() {
                            frames.split_off(consumed)
                        } else {
                            Vec::new()
                        };
                        proof {
                            if consumed as int <= monitor_frames@.len() {
                                assert(rest@ =~= frames_after(monitor_frames@, consumed as int));
                            } else {
                                assert(rest@ =~= frames_after(monitor_frames@, consumed as int));
                            }
                        }
                        let ghost before = self.monitors.connections.table();
                        self.monitors.on_frames(token, rest, bus);
                        proof {
                            assert(self.monitors.connections.table().dom() =~= before.dom());
                            assert forall|t: u64| #[trigger] self.holders(t) <= 1 by {
                                assert(old(self).holders(t) <= 1);
                            }
                        }
                    }
                },
                _ => {},
            }
            Dispatch::Challenge(o)
        } else if role == Role::Monitor && self.monitors.connections.contains(token) {
            let ghost before = self.monitors.connections.table();
            self.monitors.on_frames(token, monitor_frames, bus);
            proof {
                assert(self.monitors.connections.table().dom() =~= before.dom());
                assert forall|t: u64| #[trigger] self.holders(t) <= 1 by {
                    assert(old(self).holders(t) <= 1);
                }
            }
            Dispatch::Published
        } else {
            Dispatch::Ignored
        }
    }

    /// Drops `token` from whichever table holds it.
    pub fn close(&mut self, token: u64)
        requires
            old(self).wf(),
        ensures
            final(self).wf(),
            !final(self).knows(token),
            final(self).same_setup(old(self)),
            final(self).client_auth.table() == old(self).client_auth.table().remove(token),
            final(self).monitor_auth.table() == old(self).monitor_auth.table().remove(token),
            final(self).clients.connections.table() == old(self).clients.connections.table().remove(
                token,
            ),
            final(self).monitors.connections.table() == old(
                self,
            ).monitors.connections.table().remove(token),
    {
        self.client_auth.remove(token);
        self.monitor_auth.remove(token);
        self.clients.connections.remove(token);
        self.monitors.connections.remove(token);
        assert forall|t: u64| #[trigger] self.holders(t) <= 1 by {
            assert(old(self).holders(t) <= 1);
        }
    }
}

/// A token that a worker holds stands in exactly one of its tables: a
/// challenge table, the client table or the monitor table.
pub proof fn lemma_token_in_one_table(w: &Worker, token: u64)
    requires
        w.wf(),
        w.knows(token),
    ensures
        w.holders(token) == 1,
{
    assert(w.holders(token) <= 1);
}

} // verus!
