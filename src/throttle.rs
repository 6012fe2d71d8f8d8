use vstd::prelude::*;

use crate::table::{
    entries_map, keys_unique, lemma_entries_map_contains, lemma_entries_map_finite,
    lemma_entries_map_index, lemma_entries_map_remove, lemma_push_unique,
};

verus! {

/// The most entries that the deny list of a gate holds.
pub const MAX_THROTTLE: usize = 8192;

/// The number of admissions between two sweeps of expired entries.
pub const THROTTLE_CHECK: usize = 20;

/// A deny-list entry: from `instant` on, for `duration` more units of the
/// process clock (milliseconds in the program), the key is refused.
#[derive(Clone, Copy, Debug, PartialEq, Eq, Structural)]
pub struct Throttle {
    pub instant: u64,
    pub duration: u64,
}

impl Throttle {
    /// Whether the throttle has run out at time `now`: more than `duration`
    /// has passed since `instant`.
    pub open spec fn expired_at(self, now: int) -> bool {
        now > self.instant + self.duration
    }

    pub fn new(instant: u64, duration: u64) -> (r: Self)
        ensures
            r.instant == instant,
            r.duration == duration,
    {
        Throttle { instant, duration }
    }

    /// The time that has passed since `instant` saturates at zero, as a
    /// monotonic clock's does.
    pub fn expired(&self, now: u64) -> (r: bool)
        ensures
            r == self.expired_at(now as int),
    {
        now > self.instant && now - self.instant > self.duration
    }
}

/// The abstract state of a gate: the deny list by key, and the admissions
/// left before the next sweep.
pub struct GateModel {
    pub entries: Map<Seq<char>, Throttle>,
    pub check: nat,
}

/// The entries of `m` that are still live at `now`.
pub open spec fn live_entries(m: Map<Seq<char>, Throttle>, now: int) -> Map<Seq<char>, Throttle> {
    Map::new(|k: Seq<char>| m.contains_key(k) && !m[k].expired_at(now), |k: Seq<char>| m[k])
}

/// Whether `key` is refused by the deny list `m` at `now`.
pub open spec fn denies(m: Map<Seq<char>, Throttle>, key: Seq<char>, now: int) -> bool {
    m.contains_key(key) && !m[key].expired_at(now)
}

/// Whether a gate state is well formed.
pub open spec fn gate_wf(g: GateModel) -> bool {
    &&& g.entries.dom().finite()
    &&& g.entries.len() <= MAX_THROTTLE
    &&& 1 <= g.check <= THROTTLE_CHECK
}

/// One admission: the counter ticks and, when it runs out, every expired
/// entry is swept. A key that is absent from the deny list, expired there,
/// or not known at all is admitted; an expired entry of the key is removed.
pub open spec fn gate_admit(g: GateModel, key: Option<Seq<char>>, now: int) -> (GateModel, bool) {
    let swept = if g.check == 1 { live_entries(g.entries, now) } else { g.entries };
    let check: nat = if g.check == 1 { THROTTLE_CHECK as nat } else { (g.check - 1) as nat };
    match key {
        None => (GateModel { entries: swept, check }, true),
        Some(k) => if swept.contains_key(k) && swept[k].expired_at(now) {
            (GateModel { entries: swept.remove(k), check }, true)
        } else {
            (GateModel { entries: swept, check }, !denies(swept, k, now))
        },
    }
}

/// Whether `k` is the expired entry of `m` at `now` that was throttled
/// earliest.
pub open spec fn oldest_expired(m: Map<Seq<char>, Throttle>, k: Seq<char>, now: int) -> bool {
    &&& m.contains_key(k)
    &&& m[k].expired_at(now)
    &&& forall|j: Seq<char>| #[trigger]
        m.contains_key(j) && m[j].expired_at(now) ==> m[k].instant <= m[j].instant
}

/// One throttle signal: the key's entry is set when the key is listed or
/// there is room; at the cap, the oldest expired entry makes room, and when
/// every entry is live the signal is dropped.
pub open spec fn gate_insert(
    g: GateModel,
    key: Seq<char>,
    t: Throttle,
    now: int,
    r: GateModel,
) -> bool {
    &&& r.check == g.check
    &&& if g.entries.contains_key(key) || g.entries.len() < MAX_THROTTLE {
        r.entries == g.entries.insert(key, t)
    } else if exists|k: Seq<char>| #[trigger] g.entries.contains_key(k) && g.entries[k].expired_at(
        now,
    ) {
        exists|k: Seq<char>|
            #[trigger] oldest_expired(g.entries, k, now) && r.entries == g.entries.remove(k).insert(
                key,
                t,
            )
    } else {
        r.entries == g.entries
    }
}


/// A run of admissions, each a throttle key (or none) and a time, from the
/// gate state `g`: the state after the run and each decision in order.
pub open spec fn run_gate(g: GateModel, attempts: Seq<(Option<Seq<char>>, int)>) -> (
    GateModel,
    Seq<bool>,
)
    decreases attempts.len(),
{
    if attempts.len() == 0 {
        (g, Seq::empty())
    } else {
        let (g1, b) = gate_admit(g, attempts[0].0, attempts[0].1);
        let (gn, bs) = run_gate(g1, attempts.drop_first());
        (gn, seq![b] + bs)
    }
}

/// A throttle that was taken in denies its key at every admission up to
/// the end of its window, whatever other keys come in between.
pub proof fn lemma_throttle_denies_within_window(
    g: GateModel,
    key: Seq<char>,
    t: Throttle,
    at: int,
    r: GateModel,
    attempts: Seq<(Option<Seq<char>>, int)>,
)
    requires
        gate_insert(g, key, t, at, r),
        g.entries.contains_key(key) || g.entries.len() < MAX_THROTTLE || exists|k: Seq<char>|
            #[trigger] g.entries.contains_key(k) && g.entries[k].expired_at(at),
        forall|i: int| 0 <= i < attempts.len() ==> (#[trigger] attempts[i]).1 <= t.instant + t.duration,
    ensures
        run_gate(r, attempts).1.len() == attempts.len(),
        forall|i: int|
            0 <= i < attempts.len() && (#[trigger] attempts[i]).0 == Some(key) ==> !run_gate(
                r,
                attempts,
            ).1[i],
{
    lemma_live_entry_stays(r, key, t, attempts);
}

proof fn lemma_live_entry_stays(
    g: GateModel,
    key: Seq<char>,
    t: Throttle,
    attempts: Seq<(Option<Seq<char>>, int)>,
)
    requires
        g.entries.contains_key(key),
        g.entries[key] == t,
        forall|i: int| 0 <= i < attempts.len() ==> (#[trigger] attempts[i]).1 <= t.instant + t.duration,
    ensures
        run_gate(g, attempts).1.len() == attempts.len(),
        run_gate(g, attempts).0.entries.contains_key(key),
        run_gate(g, attempts).0.entries[key] == t,
        forall|i: int|
            0 <= i < attempts.len() && (#[trigger] attempts[i]).0 == Some(key) ==> !run_gate(
                g,
                attempts,
            ).1[i],
    decreases attempts.len(),
{
    if attempts.len() > 0 {
        let (g1, b) = gate_admit(g, attempts[0].0, attempts[0].1);
        let rest = attempts.drop_first();
        assert forall|i: int| 0 <= i < rest.len() implies (#[trigger] rest[i]).1 <= t.instant
            + t.duration by {
            assert(rest[i] == attempts[i + 1]);
        }
        lemma_live_entry_stays(g1, key, t, rest);
        let bs = run_gate(g1, rest).1;
        assert forall|i: int|
            0 <= i < attempts.len() && (#[trigger] attempts[i]).0 == Some(key) implies !run_gate(
            g,
            attempts,
        ).1[i] by {
            if i > 0 {
                assert(rest[i - 1] == attempts[i]);
            }
        }
    }
}

/// After its window a throttle denies its key no more: once it was taken
/// in, an admission of the key later than the window's end succeeds,
/// whatever admissions came in between.
pub proof fn lemma_throttle_admits_after_window(
    g: GateModel,
    key: Seq<char>,
    t: Throttle,
    at: int,
    r: GateModel,
    attempts: Seq<(Option<Seq<char>>, int)>,
    now: int,
)
    requires
        gate_insert(g, key, t, at, r),
        now > t.instant + t.duration,
    ensures
        gate_admit(run_gate(r, attempts).0, Some(key), now).1,
{
    lemma_entry_only_leaves(r, key, t, attempts);
}

proof fn lemma_entry_only_leaves(
    g: GateModel,
    key: Seq<char>,
    t: Throttle,
    attempts: Seq<(Option<Seq<char>>, int)>,
)
    requires
        g.entries.contains_key(key) ==> g.entries[key] == t,
    ensures
        run_gate(g, attempts).0.entries.contains_key(key) ==> run_gate(g, attempts).0.entries[key]
            == t,
    decreases attempts.len(),
{
    if attempts.len() > 0 {
        let (g1, b) = gate_admit(g, attempts[0].0, attempts[0].1);
        lemma_entry_only_leaves(g1, key, t, attempts.drop_first());
    }
}

/// An entry that has expired is gone after at most `THROTTLE_CHECK` further
/// admissions, whatever keys they carry.
pub proof fn lemma_expired_entry_swept(
    g: GateModel,
    key: Seq<char>,
    attempts: Seq<(Option<Seq<char>>, int)>,
)
    requires
        gate_wf(g),
        g.entries.contains_key(key),
        attempts.len() == THROTTLE_CHECK,
        forall|i: int|
            0 <= i < attempts.len() ==> g.entries[key].expired_at((#[trigger] attempts[i]).1),
    ensures
        !run_gate(g, attempts).0.entries.contains_key(key),
{
    lemma_expired_entry_countdown(g, key, g.entries[key], attempts);
}

/// Once every entry has expired, `THROTTLE_CHECK` admissions empty the
/// deny list, whatever keys they carry.
pub proof fn lemma_all_expired_swept(g: GateModel, attempts: Seq<(Option<Seq<char>>, int)>)
    requires
        gate_wf(g),
        attempts.len() >= THROTTLE_CHECK,
        forall|k: Seq<char>, i: int|
            #![trigger g.entries[k], attempts[i]]
            g.entries.contains_key(k) && 0 <= i < attempts.len() ==> g.entries[k].expired_at(
                attempts[i].1,
            ),
    ensures
        run_gate(g, attempts).0.entries.is_empty(),
{
    let fin = run_gate(g, attempts).0.entries;
    assert forall|k: Seq<char>| !#[trigger] fin.contains_key(k) by {
        lemma_run_only_removes(g, attempts, k);
        if g.entries.contains_key(k) {
            let t = g.entries[k];
            assert forall|i: int| 0 <= i < attempts.len() implies t.expired_at((#[trigger] attempts[i]).1) by {
                assert(g.entries[k].expired_at(attempts[i].1));
            }
            lemma_expired_entry_countdown(g, k, t, attempts);
        }
    }
    assert(fin.dom() =~= Set::<Seq<char>>::empty());
}

proof fn lemma_run_only_removes(g: GateModel, attempts: Seq<(Option<Seq<char>>, int)>, k: Seq<char>)
    ensures
        run_gate(g, attempts).0.entries.contains_key(k) ==> g.entries.contains_key(k),
    decreases attempts.len(),
{
    if attempts.len() > 0 {
        let (g1, b) = gate_admit(g, attempts[0].0, attempts[0].1);
        lemma_run_only_removes(g1, attempts.drop_first(), k);
    }
}

proof fn lemma_expired_entry_countdown(
    g: GateModel,
    key: Seq<char>,
    t: Throttle,
    attempts: Seq<(Option<Seq<char>>, int)>,
)
    requires
        1 <= g.check,
        g.entries.contains_key(key) ==> g.entries[key] == t && g.check <= attempts.len(),
        forall|i: int| 0 <= i < attempts.len() ==> t.expired_at((#[trigger] attempts[i]).1),
    ensures
        !run_gate(g, attempts).0.entries.contains_key(key),
    decreases attempts.len(),
{
    if attempts.len() > 0 {
        let (g1, b) = gate_admit(g, attempts[0].0, attempts[0].1);
        let rest = attempts.drop_first();
        assert forall|i: int| 0 <= i < rest.len() implies t.expired_at((#[trigger] rest[i]).1) by {
            assert(rest[i] == attempts[i + 1]);
        }
        lemma_expired_entry_countdown(g1, key, t, rest);
    }
}

pub open spec fn view_entries(v: Seq<(String, Throttle)>) -> Seq<(Seq<char>, Throttle)> {
    v.map_values(|e: (String, Throttle)| (e.0@, e.1))
}

/// A gate at the acceptor: the deny list that throttle signals fill, and
/// the countdown to the next sweep of expired entries.
pub struct ThrottledOutput {
    throttled: Vec<(String, Throttle)>,
    throttle_check: usize,
}

impl ThrottledOutput {
    pub closed spec fn entries(&self) -> Seq<(Seq<char>, Throttle)> {
        view_entries(self.throttled@)
    }

    /// The abstract state of the deny list and its countdown.
    pub closed spec fn model(&self) -> GateModel {
        GateModel { entries: entries_map(self.entries()), check: self.throttle_check as nat }
    }

    pub closed spec fn wf(&self) -> bool {
        &&& keys_unique(self.entries())
        &&& self.throttled@.len() <= MAX_THROTTLE
        &&& 1 <= self.throttle_check <= THROTTLE_CHECK
    }

    proof fn lemma_wf_model(&self)
        requires
            self.wf(),
        ensures
            gate_wf(self.model()),
    {
        lemma_entries_map_finite(self.entries());
    }

    /// An empty deny list, a full countdown.
    pub fn new() -> (r: Self)
        ensures
            r.wf(),
            gate_wf(r.model()),
            r.model().entries == Map::<Seq<char>, Throttle>::empty(),
            r.model().check == THROTTLE_CHECK,
    {
        let r = ThrottledOutput { throttled: Vec::new(), throttle_check: THROTTLE_CHECK };
        assert(r.entries() =~= Seq::<(Seq<char>, Throttle)>::empty());
        r
    }

    /// The number of entries on the deny list.
    pub fn throttled_count(&self) -> (r: usize)
        requires
            self.wf(),
        ensures
            r == self.model().entries.len(),
    {
        proof {
            lemma_entries_map_finite(self.entries());
        }
        self.throttled.len()
    }

    /// The index of the entry of `key`, if there is one.
    fn find(&self, key: &String) -> (r: Option<usize>)
        requires
            self.wf(),
        ensures
            match r {
                Some(i) => i < self.entries().len() && self.entries()[i as int].0 == key@,
                None => !self.model().entries.contains_key(key@),
            },
    {
        let mut i: usize = 0;
        while i < self.throttled.len()
            invariant
                i <= self.throttled@.len(),
                forall|j: int| 0 <= j < i ==> #[trigger] self.entries()[j].0 != key@,
            decreases self.throttled@.len() - i,
        {
            if self.throttled[i].0 == *key {
                return Some(i);
            }
            i = i + 1;
        }
        proof {
            lemma_entries_map_contains(self.entries(), key@);
        }
        None
    }

    /// Removes the entry at index `i`.
    fn remove_at(&mut self, i: usize)
        requires
            old(self).wf(),
            i < old(self).entries().len(),
        ensures
            final(self).wf(),
            final(self).throttle_check == old(self).throttle_check,
            final(self).throttled@.len() == old(self).throttled@.len() - 1,
            final(self).model().entries == old(self).model().entries.remove(
                old(self).entries()[i as int].0,
            ),
    {
        let ghost before = self.entries();
        self.throttled.remove(i);
        proof {
            assert(self.entries() =~= before.remove(i as int));
            lemma_entries_map_remove(before, i as int);
        }
    }

    /// Appends an entry for a key that is not listed.
    fn push_new(&mut self, key: String, t: Throttle)
        requires
            old(self).wf(),
            old(self).throttled@.len() < MAX_THROTTLE,
            !old(self).model().entries.contains_key(key@),
        ensures
            final(self).wf(),
            final(self).throttle_check == old(self).throttle_check,
            final(self).model().entries == old(self).model().entries.insert(key@, t),
    {
        let ghost before = self.entries();
        let ghost k = key@;
        self.throttled.push((key, t));
        proof {
            assert(self.entries() =~= before.push((k, t)));
            lemma_push_unique(before, k, t);
        }
    }

    /// Drops every entry that has expired at `now`.
    fn sweep(&mut self, now: u64)
        requires
            old(self).wf(),
        ensures
            final(self).wf(),
            final(self).throttle_check == old(self).throttle_check,
            final(self).model().entries == live_entries(old(self).model().entries, now as int),
    {
        let ghost all = self.entries();
        let mut kept: Vec<(String, Throttle)> = Vec::new();
        let mut i: usize = 0;
        proof {
            assert(view_entries(kept@) =~= Seq::<(Seq<char>, Throttle)>::empty());
            assert(all.take(0) =~= Seq::<(Seq<char>, Throttle)>::empty());
            assert(live_entries(entries_map(all.take(0)), now as int) =~= Map::empty());
        }
        while i < self.throttled.len()
            invariant
                all == self.entries(),
                keys_unique(all),
                i <= all.len(),
                kept@.len() <= i,
                keys_unique(view_entries(kept@)),
                entries_map(view_entries(kept@)) == live_entries(
                    entries_map(all.take(i as int)),
                    now as int,
                ),
            decreases all.len() - i,
        {
            let t = self.throttled[i].1;
            let ghost k = all[i as int].0;
            let ghost prev = view_entries(kept@);
            proof {
                assert(all.take(i as int + 1).drop_last() =~= all.take(i as int));
                assert(keys_unique(all.take(i as int)));
                lemma_entries_map_contains(all.take(i as int), k);
                if entries_map(all.take(i as int)).contains_key(k) {
                    let j = choose|j: int|
                        0 <= j < all.take(i as int).len() && #[trigger] all.take(i as int)[j].0
                            == k;
                    assert(all[j].0 == all[i as int].0);
                }
            }
            if !t.expired(now) {
                let key = self.throttled[i].0.clone();
                kept.push((key, t));
                proof {
                    assert(view_entries(kept@) =~= prev.push((k, t)));
                    lemma_push_unique(prev, k, t);
                }
            }
            proof {
                assert(entries_map(view_entries(kept@)) =~= live_entries(
                    entries_map(all.take(i as int + 1)),
                    now as int,
                ));
            }
            i = i + 1;
        }
        proof {
            assert(all.take(i as int) =~= all);
        }
        self.throttled = kept;
    }

    /// The index of the expired entry with the earliest start, if any entry
    /// has expired at `now`.
    fn find_oldest_expired(&self, now: u64) -> (r: Option<usize>)
        requires
            self.wf(),
        ensures
            match r {
                Some(j) => {
                    &&& j < self.entries().len()
                    &&& self.entries()[j as int].1.expired_at(now as int)
                    &&& forall|m: int|
                        0 <= m < self.entries().len() && (#[trigger] self.entries()[m]).1.expired_at(
                            now as int,
                        ) ==> self.entries()[j as int].1.instant <= self.entries()[m].1.instant
                },
                None => forall|m: int|
                    0 <= m < self.entries().len() ==> !(#[trigger] self.entries()[m]).1.expired_at(
                        now as int,
                    ),
            },
    {
        let mut best: Option<usize> = None;
        let mut i: usize = 0;
        while i < self.throttled.len()
            invariant
                i <= self.entries().len(),
                self.entries().len() == self.throttled@.len(),
                match best {
                    Some(j) => {
                        &&& j < i
                        &&& self.entries()[j as int].1.expired_at(now as int)
                        &&& forall|m: int|
                            0 <= m < i && (#[trigger] self.entries()[m]).1.expired_at(now as int)
                                ==> self.entries()[j as int].1.instant
                                <= self.entries()[m].1.instant
                    },
                    None => forall|m: int|
                        0 <= m < i ==> !(#[trigger] self.entries()[m]).1.expired_at(now as int),
                },
            decreases self.throttled@.len() - i,
        {
            let t = self.throttled[i].1;
            if t.expired(now) {
                match best {
                    Some(j) => {
                        if t.instant < self.throttled[j].1.instant {
                            best = Some(i);
                        }
                    },
                    None => {
                        best = Some(i);
                    },
                }
            }
            i = i + 1;
        }
        best
    }

    /// Takes in a throttle signal for `key`, received at `now`.
    pub fn insert(&mut self, key: String, t: Throttle, now: u64)
        requires
            old(self).wf(),
        ensures
            final(self).wf(),
            gate_wf(final(self).model()),
            gate_insert(old(self).model(), key@, t, now as int, final(self).model()),
    {
        let ghost g = self.model();
        proof {
            lemma_entries_map_finite(self.entries());
        }
        match self.find(&key) {
            Some(i) => {
                self.remove_at(i);
                self.push_new(key, t);
                proof {
                    assert(self.model().entries =~= g.entries.insert(key@, t));
                }
            },
            None => {
                if self.throttled.len() < MAX_THROTTLE {
                    self.push_new(key, t);
                } else {
                    let ghost s = self.entries();
                    match self.find_oldest_expired(now) {
                        Some(j) => {
                            let ghost kj = s[j as int].0;
                            proof {
                                lemma_entries_map_index(s, j as int);
                                assert forall|k2: Seq<char>| #[trigger]
                                    g.entries.contains_key(k2) && g.entries[k2].expired_at(
                                        now as int,
                                    ) implies g.entries[kj].instant <= g.entries[k2].instant by {
                                    lemma_entries_map_contains(s, k2);
                                    let m = choose|m: int| 0 <= m < s.len() && #[trigger] s[m].0 == k2;
                                    lemma_entries_map_index(s, m);
                                }
                                assert(oldest_expired(g.entries, kj, now as int));
                            }
                            self.remove_at(j);
                            proof {
                                lemma_entries_map_finite(self.entries());
                            }
                            self.push_new(key, t);
                        },
                        None => {
                            proof {
                                assert forall|k2: Seq<char>| #[trigger]
                                    g.entries.contains_key(k2) implies !g.entries[k2].expired_at(
                                        now as int,
                                    ) by {
                                    lemma_entries_map_contains(s, k2);
                                    let m = choose|m: int| 0 <= m < s.len() && #[trigger] s[m].0 == k2;
                                    lemma_entries_map_index(s, m);
                                }
                            }
                        },
                    }
                }
            },
        }
        proof {
            self.lemma_wf_model();
        }
    }

    /// Decides on one connection attempt at `now` from a peer whose throttle
    /// key is `key` (`None` where the key could not be read): `true` admits
    /// it, `false` drops it.
    pub fn gate(&mut self, key: Option<String>, now: u64) -> (r: bool)
        requires
            old(self).wf(),
        ensures
            final(self).wf(),
            gate_wf(final(self).model()),
            (final(self).model(), r) == gate_admit(
                old(self).model(),
                match key {
                    Some(k) => Some(k@),
                    None => None,
                },
                now as int,
            ),
    {
        if self.throttle_check == 1 {
            self.sweep(now);
            self.throttle_check = THROTTLE_CHECK;
        } else {
            self.throttle_check = self.throttle_check - 1;
        }
        let r = match key {
            None => true,
            Some(k) => {
                match self.find(&k) {
                    Some(i) => {
                        let t = self.throttled[i].1;
                        proof {
                            lemma_entries_map_index(self.entries(), i as int);
                        }
                        if t.expired(now) {
                            self.remove_at(i);
                            true
                        } else {
                            false
                        }
                    },
                    None => true,
                }
            },
        };
        proof {
            self.lemma_wf_model();
        }
        r
    }
}

} // verus!
