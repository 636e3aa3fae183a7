//! Idle sessions by host, first released first handed out, and the
//! bookkeeping of the task that evicts expired ones.
use vstd::prelude::*;
use std::collections::VecDeque;
use crate::session::TcpSession;

verus! {

/// Milliseconds without an acquire or release after which an empty pool
/// stops its eviction task.
pub const POOL_GRACE_MS: u64 = 30000;

/// The idle sessions of one host, oldest release first.
pub struct HostQueue<C> {
    pub host: String,
    pub sessions: VecDeque<TcpSession<C>>,
}

/// Idle sessions by host.
pub struct SessionPool<C> {
    pub host_lookup: Vec<HostQueue<C>>,
    pub last_interaction: u64,
    pub evicting: bool,
}

pub type QueueView<C> = (Seq<char>, Seq<TcpSession<C>>);

pub open spec fn queues_view<C>(v: Seq<HostQueue<C>>) -> Seq<QueueView<C>> {
    v.map_values(|q: HostQueue<C>| (q.host@, q.sessions@))
}

/// The index of the queue of `host` at or after `i`, or -1.
pub open spec fn host_index_from<C>(qs: Seq<QueueView<C>>, host: Seq<char>, i: int) -> int
    decreases qs.len() - i,
{
    if i < 0 || i >= qs.len() {
        -1
    } else if qs[i].0 == host {
        i
    } else {
        host_index_from(qs, host, i + 1)
    }
}

/// The idle sessions of `host`, oldest release first.
pub open spec fn queue_of<C>(qs: Seq<QueueView<C>>, host: Seq<char>) -> Seq<TcpSession<C>> {
    let j = host_index_from(qs, host, 0);
    if j >= 0 {
        qs[j].1
    } else {
        Seq::empty()
    }
}

/// Each host has at most one queue.
pub open spec fn hosts_distinct<C>(qs: Seq<QueueView<C>>) -> bool {
    forall|i: int, j: int| 0 <= i < j < qs.len() ==> qs[i].0 != qs[j].0
}

/// The session as it is after `set_idle(now)`.
pub open spec fn idled<C>(s: TcpSession<C>, now: u64) -> TcpSession<C> {
    TcpSession { idle_from: Some(now), is_fresh_conn: false, ..s }
}

pub open spec fn not_expired<C>(now: u64) -> spec_fn(TcpSession<C>) -> bool {
    |s: TcpSession<C>| !s.expired_at(now)
}

/// The queues with their expired sessions removed, and the queues left empty
/// dropped.
pub open spec fn without_expired<C>(qs: Seq<QueueView<C>>, now: u64) -> Seq<QueueView<C>>
    decreases qs.len(),
{
    if qs.len() == 0 {
        qs
    } else {
        let rest = without_expired(qs.drop_last(), now);
        let kept = qs.last().1.filter(not_expired(now));
        if kept.len() > 0 {
            rest.push((qs.last().0, kept))
        } else {
            rest
        }
    }
}

/// A found index holds the host looked for, and no earlier one does.
pub proof fn lemma_host_index<C>(qs: Seq<QueueView<C>>, host: Seq<char>, i: int)
    requires
        0 <= i,
    ensures
        host_index_from(qs, host, i) >= 0 ==> i <= host_index_from(qs, host, i) < qs.len()
            && qs[host_index_from(qs, host, i)].0 == host,
        host_index_from(qs, host, i) < 0 ==> forall|k: int| i <= k < qs.len() ==> qs[k].0 != host,
        host_index_from(qs, host, i) >= -1,
    decreases qs.len() - i,
{
    if i >= qs.len() {
    } else if qs[i].0 == host {
    } else {
        lemma_host_index(qs, host, i + 1);
    }
}

/// With distinct hosts, the queue at the index of `host` is the queue of
/// `host`.
pub proof fn lemma_index_of_host<C>(qs: Seq<QueueView<C>>, host: Seq<char>, j: int)
    requires
        hosts_distinct(qs),
        0 <= j < qs.len(),
        qs[j].0 == host,
    ensures
        host_index_from(qs, host, 0) == j,
{
    lemma_host_index(qs, host, 0);
    let k = host_index_from(qs, host, 0);
    if k < 0 {
    } else if k < j {
    } else if k > j {
        lemma_first_at_or_before(qs, host, 0, j);
    }
}

proof fn lemma_first_at_or_before<C>(qs: Seq<QueueView<C>>, host: Seq<char>, i: int, j: int)
    requires
        0 <= i <= j < qs.len(),
        qs[j].0 == host,
    ensures
        0 <= host_index_from(qs, host, i) <= j,
    decreases j - i,
{
    if qs[i].0 != host {
        lemma_first_at_or_before(qs, host, i + 1, j);
    }
}

/// Changing the sessions of the queue at `j`, and no host, leaves the index
/// of every host as it was.
pub proof fn lemma_same_hosts<C>(a: Seq<QueueView<C>>, b: Seq<QueueView<C>>, h: Seq<char>, i: int)
    requires
        a.len() == b.len(),
        forall|k: int| 0 <= k < a.len() ==> a[k].0 == b[k].0,
        0 <= i,
    ensures
        host_index_from(a, h, i) == host_index_from(b, h, i),
    decreases a.len() - i,
{
    if i < a.len() {
        lemma_same_hosts(a, b, h, i + 1);
    }
}

impl<C> SessionPool<C> {
    pub open spec fn queues(&self) -> Seq<QueueView<C>> {
        queues_view(self.host_lookup@)
    }

    pub open spec fn wf(&self) -> bool {
        hosts_distinct(self.queues())
    }

    /// An empty pool whose eviction task is not running.
    pub fn new() -> (r: SessionPool<C>)
        ensures
            r.wf(),
            r.queues().len() == 0,
            r.last_interaction == 0,
            !r.evicting,
    {
        let r = SessionPool { host_lookup: Vec::new(), last_interaction: 0, evicting: false };
        assert(r.queues() =~= Seq::<QueueView<C>>::empty());
        r
    }

    fn index_of(&self, host: &String) -> (r: Option<usize>)
        ensures
            match r {
                Some(j) => host_index_from(self.queues(), host@, 0) == j as int && j
                    < self.host_lookup@.len(),
                None => host_index_from(self.queues(), host@, 0) == -1,
            },
    {
        let mut i: usize = 0;
        while i < self.host_lookup.len()
            invariant
                i <= self.host_lookup@.len(),
                host_index_from(self.queues(), host@, 0) == host_index_from(
                    self.queues(),
                    host@,
                    i as int,
                ),
            decreases self.host_lookup@.len() - i,
        {
            if self.host_lookup[i].host == *host {
                return Some(i);
            }
            i = i + 1;
        }
        None
    }

    /// The oldest idle session of `host`, taken from the pool; a new,
    /// unconnected one where the pool holds none.
    pub fn acquire(&mut self, host: &String, now: u64) -> (r: TcpSession<C>)
        requires
            old(self).wf(),
        ensures
            final(self).wf(),
            final(self).last_interaction == now,
            final(self).evicting == old(self).evicting,
            ({
                let q = queue_of(old(self).queues(), host@);
                if q.len() > 0 {
                    r == q[0] && queue_of(final(self).queues(), host@) == q.drop_first()
                } else {
                    r.host@ == host@ && r.idle_from.is_none() && r.is_fresh_conn
                        && r.stream.is_none() && r.buffer@.len() == 0 && final(self).queues()
                        == old(self).queues()
                }
            }),
            forall|h: Seq<char>|
                h != host@ ==> queue_of(#[trigger] final(self).queues(), h) == queue_of(
                    old(self).queues(),
                    h,
                ),
    {
        self.last_interaction = now;
        let ghost qs = self.queues();
        proof {
            lemma_host_index(qs, host@, 0);
        }
        if let Some(j) = self.index_of(host) {
            if self.host_lookup[j].sessions.len() > 0 {
                let mut q = self.host_lookup.remove(j);
                let s = q.sessions.pop_front().unwrap();
                self.host_lookup.insert(j, q);
                let ghost qs2 = self.queues();
                assert(qs2 =~= qs.update(j as int, (qs[j as int].0, qs[j as int].1.drop_first())));
                assert forall|h: Seq<char>| h != host@ implies queue_of(qs2, h) == queue_of(qs, h) by {
                    lemma_same_hosts(qs2, qs, h, 0);
                    lemma_host_index(qs, h, 0);
                }
                proof {
                    lemma_same_hosts(qs2, qs, host@, 0);
                }
                assert(hosts_distinct(qs2));
                return s;
            }
        }
        TcpSession::new(host.clone())
    }

    /// Marks `session` idle from `now` and puts it at the back of its host's
    /// queue. Returns whether the eviction task has to be started.
    pub fn release(&mut self, session: TcpSession<C>, now: u64) -> (start_evicting: bool)
        requires
            old(self).wf(),
        ensures
            final(self).wf(),
            final(self).last_interaction == now,
            final(self).evicting,
            start_evicting == !old(self).evicting,
            queue_of(final(self).queues(), session.host@) == queue_of(
                old(self).queues(),
                session.host@,
            ).push(idled(session, now)),
            forall|h: Seq<char>|
                h != session.host@ ==> queue_of(#[trigger] final(self).queues(), h) == queue_of(
                    old(self).queues(),
                    h,
                ),
    {
        self.last_interaction = now;
        let ghost qs = self.queues();
        let ghost host = session.host@;
        let mut s = session;
        s.set_idle(now);
        assert(s == idled(session, now));
        proof {
            lemma_host_index(qs, host, 0);
        }
        match self.index_of(&s.host) {
            Some(j) => {
                let mut q = self.host_lookup.remove(j);
                q.sessions.push_back(s);
                self.host_lookup.insert(j, q);
                let ghost qs2 = self.queues();
                assert(qs2 =~= qs.update(
                    j as int,
                    (qs[j as int].0, qs[j as int].1.push(idled(session, now))),
                ));
                assert forall|h: Seq<char>| h != host implies queue_of(qs2, h) == queue_of(qs, h) by {
                    lemma_same_hosts(qs2, qs, h, 0);
                    lemma_host_index(qs, h, 0);
                }
                proof {
                    lemma_same_hosts(qs2, qs, host, 0);
                }
                assert(hosts_distinct(qs2));
            },
            None => {
                let host_key = s.host.clone();
                let mut sessions: VecDeque<TcpSession<C>> = VecDeque::new();
                sessions.push_back(s);
                self.host_lookup.push(HostQueue { host: host_key, sessions });
                let ghost qs2 = self.queues();
                assert(qs2 =~= qs.push((host, seq![idled(session, now)])));
                assert(hosts_distinct(qs2));
                assert forall|h: Seq<char>| h != host implies queue_of(qs2, h) == queue_of(qs, h) by {
                    lemma_host_index(qs, h, 0);
                    lemma_host_index(qs2, h, 0);
                    if host_index_from(qs, h, 0) >= 0 {
                        lemma_index_of_host(qs2, h, host_index_from(qs, h, 0));
                    }
                }
                proof {
                    lemma_index_of_host(qs2, host, qs.len() as int);
                }
            },
        }
        let start = !self.evicting;
        self.evicting = true;
        start
    }

    /// Drops the expired sessions at `now`, and the queues left empty.
    /// Returns whether the eviction task stops: the pool is empty and more
    /// than thirty seconds passed since the last acquire or release.
    pub fn remove_expired(&mut self, now: u64) -> (stop: bool)
        requires
            old(self).wf(),
        ensures
            final(self).queues() == without_expired(old(self).queues(), now),
            final(self).last_interaction == old(self).last_interaction,
            stop == (final(self).queues().len() == 0 && now > old(self).last_interaction && now
                - old(self).last_interaction > POOL_GRACE_MS),
            final(self).evicting == (old(self).evicting && !stop),
    {
        let ghost qs = self.queues();
        let mut rest: Vec<HostQueue<C>> = Vec::new();
        std::mem::swap(&mut rest, &mut self.host_lookup);
        let ghost all = rest@;
        let total = rest.len();
        let mut done: usize = 0;
        while rest.len() > 0
            invariant
                qs == queues_view(all),
                total == all.len(),
                self.last_interaction == old(self).last_interaction,
                self.evicting == old(self).evicting,
                done + rest@.len() == all.len(),
                rest@ == all.subrange(done as int, all.len() as int),
                queues_view(self.host_lookup@) == without_expired(
                    queues_view(all.subrange(0, done as int)),
                    now,
                ),
            decreases rest@.len(),
        {
            let mut q = rest.remove(0);
            let ghost qv = q.sessions@;
            let ghost qh = q.host@;
            assert(q == all[done as int]);
            let mut kept: VecDeque<TcpSession<C>> = VecDeque::new();
            let count = q.sessions.len();
            let mut taken: usize = 0;
            while q.sessions.len() > 0
                invariant
                    count == qv.len(),
                    q.host@ == qh,
                    taken + q.sessions@.len() == qv.len(),
                    q.sessions@ == qv.subrange(taken as int, qv.len() as int),
                    kept@ == qv.subrange(0, taken as int).filter(not_expired(now)),
                decreases q.sessions@.len(),
            {
                let s = q.sessions.pop_front().unwrap();
                assert(s == qv[taken as int]);
                assert(qv.subrange(0, taken + 1).drop_last() =~= qv.subrange(0, taken as int));
                assert(qv.subrange(0, taken + 1).last() == s);
                proof {
                    reveal(Seq::filter);
                }
                if !s.is_expired(now) {
                    kept.push_back(s);
                }
                taken = taken + 1;
                assert(q.sessions@ =~= qv.subrange(taken as int, qv.len() as int));
            }
            assert(qv.subrange(0, taken as int) =~= qv);
            let ghost before = all.subrange(0, done as int);
            assert(all.subrange(0, done + 1) =~= before.push(all[done as int]));
            assert(queues_view(all.subrange(0, done + 1)) =~= queues_view(before).push(
                (all[done as int].host@, qv),
            ));
            assert(queues_view(all.subrange(0, done + 1)).drop_last() =~= queues_view(before));
            if kept.len() > 0 {
                let ghost prev = self.host_lookup@;
                self.host_lookup.push(HostQueue { host: q.host, sessions: kept });
                assert(queues_view(self.host_lookup@) =~= queues_view(prev).push(
                    (qh, qv.filter(not_expired(now))),
                ));
            }
            done = done + 1;
        }
        assert(all.subrange(0, done as int) =~= all);
        let stop = self.host_lookup.len() == 0 && now > self.last_interaction && now
            - self.last_interaction > POOL_GRACE_MS;
        if stop {
            self.evicting = false;
        }
        stop
    }
}

/// A released session goes to the back of its host's queue; where the queue
/// of that host was empty, it is the session that the next acquire for the
/// host hands out.
pub proof fn lemma_release_then_acquire<C>(
    before: Seq<QueueView<C>>,
    after: Seq<QueueView<C>>,
    session: TcpSession<C>,
    now: u64,
)
    requires
        queue_of(after, session.host@) == queue_of(before, session.host@).push(
            idled(session, now),
        ),
    ensures
        queue_of(after, session.host@).last() == idled(session, now),
        queue_of(after, session.host@).len() > 0,
        queue_of(before, session.host@).len() == 0 ==> queue_of(after, session.host@)[0] == idled(
            session,
            now,
        ),
{
}

} // verus!
