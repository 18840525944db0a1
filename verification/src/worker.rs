//! The decisions of the tray client's background worker: which requests it
//! answers, when it dials a device, which port a tunnel gets and what the UI
//! is told. The worker's loop performs the actions and feeds back the events.
use vstd::prelude::*;
use crate::connections::{ConnectionBook, FIRST_PROXY_PORT, ports_ok};

verus! {

/// What the worker learns: a device found by a scan, a request from the
/// menu, or how a tunnel attempt it started ended.
pub enum WorkerEvent {
    Found { id: String },
    ConnectAsked { id: String },
    TunnelReady { id: String },
    TunnelFailed { id: String },
    DisconnectAsked { id: String },
    QuitAsked,
}

/// What the worker does in answer.
#[derive(PartialEq, Eq, Structural, Debug, Clone, Copy)]
pub enum WorkerAction {
    /// Nothing, and the UI is told nothing.
    Ignore,
    /// Tell the UI `Connecting`, then connect to the device and open its tunnel.
    StartTunnel,
    /// Serve the tunnel on the local port and tell the UI `TunnelUp`.
    Serve { port: u16 },
    /// Tell the UI the attempt failed.
    ReportFailure,
    /// Close the device's tunnel and tell the UI `TunnelDown`.
    TearDown,
    /// Close every tunnel and stop.
    Stop,
}

/// The worker's state as seen by contracts: (devices found, devices being
/// dialled, port of each open tunnel, next port to hand out).
pub type WorkerView = (Set<Seq<char>>, Set<Seq<char>>, Map<Seq<char>, u16>, u16);

/// The state a new worker starts in.
pub open spec fn worker_start() -> WorkerView {
    (Set::empty(), Set::empty(), Map::empty(), FIRST_PROXY_PORT)
}

/// The state after an event, and the action taken.
pub open spec fn worker_next(s: WorkerView, ev: WorkerEvent) -> (WorkerView, WorkerAction) {
    match ev {
        WorkerEvent::Found { id } => ((s.0.insert(id@), s.1, s.2, s.3), WorkerAction::Ignore),
        WorkerEvent::ConnectAsked { id } => if s.0.contains(id@) {
            ((s.0, s.1.insert(id@), s.2, s.3), WorkerAction::StartTunnel)
        } else {
            (s, WorkerAction::Ignore)
        },
        WorkerEvent::TunnelReady { id } => if s.1.contains(id@) && s.3 < u16::MAX {
            ((s.0, s.1.remove(id@), s.2.insert(id@, s.3), (s.3 + 1) as u16), WorkerAction::Serve { port: s.3 })
        } else {
            (s, WorkerAction::Ignore)
        },
        WorkerEvent::TunnelFailed { id } => if s.1.contains(id@) {
            ((s.0, s.1.remove(id@), s.2, s.3), WorkerAction::ReportFailure)
        } else {
            (s, WorkerAction::Ignore)
        },
        WorkerEvent::DisconnectAsked { id } => if s.2.contains_key(id@) {
            ((s.0, s.1, s.2.remove(id@), s.3), WorkerAction::TearDown)
        } else {
            (s, WorkerAction::Ignore)
        },
        WorkerEvent::QuitAsked => ((s.0, s.1, Map::empty(), s.3), WorkerAction::Stop),
    }
}

/// One of the first `n` names is `k`.
pub open spec fn names_before(v: Seq<String>, n: int, k: Seq<char>) -> bool {
    exists|j: int| 0 <= j < n && #[trigger] v[j]@ == k
}

/// The worker: the book of devices and tunnels, and the devices being dialled.
pub struct Worker {
    book: ConnectionBook,
    dialling: Vec<String>,
}

impl Worker {
    /// The devices being dialled.
    pub closed spec fn pending(&self) -> Set<Seq<char>> {
        Set::new(|k: Seq<char>| names_before(self.dialling@, self.dialling@.len() as int, k))
    }

    pub closed spec fn state(&self) -> WorkerView {
        (self.book.known_ids(), self.pending(), self.book.ports(), self.book.next_port())
    }

    /// Nothing found, nothing dialled, nothing open.
    pub fn new() -> (w: Worker)
        ensures
            w.state() == worker_start(),
    {
        let w = Worker { book: ConnectionBook::new(), dialling: Vec::new() };
        assert(w.pending() =~= Set::<Seq<char>>::empty());
        w
    }

    fn is_dialling(&self, id: &String) -> (r: bool)
        ensures
            r == self.pending().contains(id@),
    {
        let mut i: usize = 0;
        while i < self.dialling.len()
            invariant
                i <= self.dialling@.len(),
                forall|j: int| 0 <= j < i ==> #[trigger] self.dialling@[j]@ != id@,
            decreases self.dialling@.len() - i,
        {
            if self.dialling[i] == *id {
                assert(self.dialling@[i as int]@ == id@);
                return true;
            }
            i = i + 1;
        }
        false
    }

    fn add_dialling(&mut self, id: &String)
        ensures
            final(self).pending() == old(self).pending().insert(id@),
            final(self).book == old(self).book,
    {
        let ghost d0 = self.dialling@;
        self.dialling.push(id.clone());
        let ghost d1 = self.dialling@;
        assert(d1[d0.len() as int]@ == id@);
        assert(self.pending() =~= old(self).pending().insert(id@)) by {
            assert forall|k: Seq<char>| #[trigger] self.pending().contains(k) <==> old(self).pending().insert(id@).contains(k) by {
                if exists|i: int| 0 <= i < d0.len() && #[trigger] d0[i]@ == k {
                    let i = choose|i: int| 0 <= i < d0.len() && #[trigger] d0[i]@ == k;
                    assert(d1[i] == d0[i]);
                }
                if exists|i: int| 0 <= i < d1.len() && #[trigger] d1[i]@ == k {
                    let i = choose|i: int| 0 <= i < d1.len() && #[trigger] d1[i]@ == k;
                    if i < d0.len() {
                        assert(d1[i] == d0[i]);
                    }
                }
            }
        }
    }

    fn drop_dialling(&mut self, id: &String)
        ensures
            final(self).pending() == old(self).pending().remove(id@),
            final(self).book == old(self).book,
    {
        let ghost d0 = self.dialling@;
        let mut kept: Vec<String> = Vec::new();
        let mut i: usize = 0;
        while i < self.dialling.len()
            invariant
                i <= d0.len(),
                self.dialling@ == d0,
                forall|k: Seq<char>| #[trigger] names_before(kept@, kept@.len() as int, k) <==> (k != id@ && names_before(d0, i as int, k)),
            decreases d0.len() - i,
        {
            let ghost k0 = kept@;
            if self.dialling[i] != *id {
                kept.push(self.dialling[i].clone());
                assert forall|k: Seq<char>| #[trigger] names_before(kept@, kept@.len() as int, k) <==> (k != id@ && names_before(d0, i + 1, k)) by {
                    if names_before(kept@, kept@.len() as int, k) {
                        let j = choose|j: int| 0 <= j < kept@.len() && #[trigger] kept@[j]@ == k;
                        if j < k0.len() {
                            assert(kept@[j] == k0[j]);
                            assert(names_before(k0, k0.len() as int, k));
                        } else {
                            assert(d0[i as int]@ == k);
                        }
                    }
                    if k != id@ && names_before(d0, i + 1, k) {
                        let j = choose|j: int| 0 <= j < i + 1 && #[trigger] d0[j]@ == k;
                        if j < i {
                            assert(names_before(d0, i as int, k));
                            assert(names_before(k0, k0.len() as int, k));
                            let j2 = choose|j2: int| 0 <= j2 < k0.len() && #[trigger] k0[j2]@ == k;
                            assert(kept@[j2] == k0[j2]);
                        } else {
                            assert(kept@[k0.len() as int]@ == k);
                        }
                    }
                }
            } else {
                assert forall|k: Seq<char>| #[trigger] names_before(kept@, kept@.len() as int, k) <==> (k != id@ && names_before(d0, i + 1, k)) by {
                    if k != id@ && names_before(d0, i + 1, k) {
                        let j = choose|j: int| 0 <= j < i + 1 && #[trigger] d0[j]@ == k;
                        assert(j < i);
                        assert(names_before(d0, i as int, k));
                    }
                    if names_before(kept@, kept@.len() as int, k) {
                        assert(names_before(d0, i as int, k));
                        let j = choose|j: int| 0 <= j < i && #[trigger] d0[j]@ == k;
                        assert(names_before(d0, i + 1, k));
                    }
                }
            }
            i = i + 1;
        }
        self.dialling = kept;
        assert(self.pending() =~= old(self).pending().remove(id@)) by {
            assert forall|k: Seq<char>| #[trigger] self.pending().contains(k) <==> old(self).pending().remove(id@).contains(k) by {
                assert(names_before(self.dialling@, self.dialling@.len() as int, k) <==> (k != id@ && names_before(d0, d0.len() as int, k)));
            }
        }
    }

    /// Decides what to do on an event: a `Connect` for a device no scan has
    /// found and a `Disconnect` for a device without a tunnel are ignored; a
    /// ready tunnel gets the next port. A tunnel that becomes ready when every
    /// port has been handed out is refused by `requires`: the port count would
    /// overflow.
    pub fn step(&mut self, ev: &WorkerEvent) -> (a: WorkerAction)
        requires
            ev matches WorkerEvent::TunnelReady { id } ==> (old(self).state().1.contains(id@)
                ==> old(self).state().3 < u16::MAX),
        ensures
            (final(self).state(), a) == worker_next(old(self).state(), *ev),
    {
        match ev {
            WorkerEvent::Found { id } => {
                self.book.remember(id.as_str());
                WorkerAction::Ignore
            },
            WorkerEvent::ConnectAsked { id } => {
                if self.book.knows(id.as_str()) {
                    self.add_dialling(id);
                    WorkerAction::StartTunnel
                } else {
                    WorkerAction::Ignore
                }
            },
            WorkerEvent::TunnelReady { id } => {
                if self.is_dialling(id) {
                    self.drop_dialling(id);
                    let port = self.book.open(id.as_str());
                    WorkerAction::Serve { port }
                } else {
                    WorkerAction::Ignore
                }
            },
            WorkerEvent::TunnelFailed { id } => {
                if self.is_dialling(id) {
                    self.drop_dialling(id);
                    WorkerAction::ReportFailure
                } else {
                    WorkerAction::Ignore
                }
            },
            WorkerEvent::DisconnectAsked { id } => {
                match self.book.close(id.as_str()) {
                    Some(_) => WorkerAction::TearDown,
                    None => WorkerAction::Ignore,
                }
            },
            WorkerEvent::QuitAsked => {
                let _ = self.book.close_all();
                WorkerAction::Stop
            },
        }
    }

    /// Whether a tunnel becoming ready for the device can be given a port.
    pub fn can_serve(&self, id: &String) -> (r: bool)
        ensures
            r == (self.state().1.contains(id@) ==> self.state().3 < u16::MAX),
    {
        !self.is_dialling(id) || self.book.can_open()
    }
}

/// The state after a run of events from a new worker, and the action taken
/// on each event.
pub open spec fn worker_run(events: Seq<WorkerEvent>) -> (WorkerView, Seq<WorkerAction>)
    decreases events.len(),
{
    if events.len() == 0 {
        (worker_start(), seq![])
    } else {
        let r = worker_run(events.drop_last());
        let n = worker_next(r.0, events.last());
        (n.0, r.1.push(n.1))
    }
}

/// The ports of the `Serve` actions, in order: the ports the UI is told in
/// its `TunnelUp` messages.
pub open spec fn served_ports(actions: Seq<WorkerAction>) -> Seq<u16>
    decreases actions.len(),
{
    if actions.len() == 0 {
        seq![]
    } else {
        let p = served_ports(actions.drop_last());
        match actions.last() {
            WorkerAction::Serve { port } => p.push(port),
            _ => p,
        }
    }
}

/// The event is a scan finding device `id`.
pub open spec fn is_found(ev: WorkerEvent, id: Seq<char>) -> bool {
    match ev {
        WorkerEvent::Found { id: k } => k@ == id,
        _ => false,
    }
}

/// The event is a request to connect device `id`.
pub open spec fn is_connect_for(ev: WorkerEvent, id: Seq<char>) -> bool {
    match ev {
        WorkerEvent::ConnectAsked { id: k } => k@ == id,
        _ => false,
    }
}

/// A scan found device `id` among the first `n` events.
pub open spec fn found_before(events: Seq<WorkerEvent>, n: int, id: Seq<char>) -> bool {
    exists|j: int| 0 <= j < n && #[trigger] is_found(events[j], id)
}

/// Among the first `n` events, a request to connect device `id` was
/// answered by dialling it (the UI was told `Connecting`).
pub open spec fn dialled_before(events: Seq<WorkerEvent>, actions: Seq<WorkerAction>, n: int, id: Seq<char>) -> bool {
    exists|j: int| 0 <= j < n && #[trigger] is_connect_for(events[j], id) && actions[j] == WorkerAction::StartTunnel
}

/// Event `i` is a ready tunnel of a device dialled at an earlier event.
pub open spec fn ready_after_dial(events: Seq<WorkerEvent>, actions: Seq<WorkerAction>, i: int) -> bool {
    match events[i] {
        WorkerEvent::TunnelReady { id } => dialled_before(events, actions, i, id@),
        _ => false,
    }
}

/// Event `i` is a request to connect a device, answered by nothing exactly
/// when no earlier scan found that device.
pub open spec fn connect_answered(events: Seq<WorkerEvent>, actions: Seq<WorkerAction>, i: int) -> bool {
    match events[i] {
        WorkerEvent::ConnectAsked { id } => (actions[i] == WorkerAction::Ignore) == !found_before(events, i, id@),
        _ => true,
    }
}

proof fn lemma_worker_run(events: Seq<WorkerEvent>)
    ensures
        ({
            let r = worker_run(events);
            let acts = r.1;
            &&& acts.len() == events.len()
            &&& served_ports(acts) == Seq::new(served_ports(acts).len(), |k: int| (FIRST_PROXY_PORT + k) as u16)
            &&& r.0.3 == FIRST_PROXY_PORT + served_ports(acts).len()
            &&& ports_ok(r.0.2, r.0.3)
            &&& forall|id: Seq<char>| #[trigger] r.0.0.contains(id) <==> found_before(events, events.len() as int, id)
            &&& forall|id: Seq<char>| #[trigger] r.0.1.contains(id) ==> dialled_before(events, acts, events.len() as int, id)
            &&& forall|i: int| 0 <= i < acts.len() && acts[i] is Serve ==> #[trigger] ready_after_dial(events, acts, i)
            &&& forall|i: int| 0 <= i < acts.len() ==> #[trigger] connect_answered(events, acts, i)
        }),
    decreases events.len(),
{
    if events.len() == 0 {
        assert(worker_start().0 =~= Set::<Seq<char>>::empty());
        assert(served_ports(Seq::<WorkerAction>::empty()) =~= Seq::new(0, |k: int| (FIRST_PROXY_PORT + k) as u16));
    } else {
        let init = events.drop_last();
        lemma_worker_run(init);
        let r0 = worker_run(init);
        let s = r0.0;
        let a0 = r0.1;
        let ev = events.last();
        let step = worker_next(s, ev);
        let acts = a0.push(step.1);
        let n = init.len() as int;
        assert(worker_run(events) == (step.0, acts));
        assert forall|j: int| 0 <= j < n implies #[trigger] events[j] == init[j] && acts[j] == a0[j] by {}
        assert(events[n] == ev && acts[n] == step.1);
        // what scans found
        assert forall|id: Seq<char>| found_before(init, n, id) <==> #[trigger] found_before(events, n, id) by {
            if found_before(init, n, id) {
                let j = choose|j: int| 0 <= j < n && #[trigger] is_found(init[j], id);
                assert(is_found(events[j], id));
            }
            if found_before(events, n, id) {
                let j = choose|j: int| 0 <= j < n && #[trigger] is_found(events[j], id);
                assert(is_found(init[j], id));
            }
        }
        assert forall|id: Seq<char>| #[trigger] step.0.0.contains(id) <==> found_before(events, n + 1, id) by {
            if found_before(events, n + 1, id) && !found_before(events, n, id) {
                let j = choose|j: int| 0 <= j < n + 1 && #[trigger] is_found(events[j], id);
                assert(j == n);
            }
            if found_before(events, n, id) {
                let j = choose|j: int| 0 <= j < n && #[trigger] is_found(events[j], id);
                assert(is_found(events[j], id));
            }
            if is_found(ev, id) {
                assert(is_found(events[n], id));
            }
        }
        // who was dialled
        assert forall|id: Seq<char>| dialled_before(init, a0, n, id) implies #[trigger] dialled_before(events, acts, n + 1, id) by {
            let j = choose|j: int| 0 <= j < n && #[trigger] is_connect_for(init[j], id) && a0[j] == WorkerAction::StartTunnel;
            assert(is_connect_for(events[j], id));
        }
        assert forall|id: Seq<char>| #[trigger] step.0.1.contains(id) implies dialled_before(events, acts, n + 1, id) by {
            if s.1.contains(id) {
                assert(dialled_before(init, a0, n, id));
            } else {
                assert(is_connect_for(events[n], id));
            }
        }
        // served tunnels were dialled
        assert forall|i: int| 0 <= i < acts.len() && acts[i] is Serve implies #[trigger] ready_after_dial(events, acts, i) by {
            if i < n {
                assert(ready_after_dial(init, a0, i));
                match init[i] {
                    WorkerEvent::TunnelReady { id } => {
                        let j = choose|j: int| 0 <= j < i && #[trigger] is_connect_for(init[j], id@) && a0[j] == WorkerAction::StartTunnel;
                        assert(is_connect_for(events[j], id@));
                    },
                    _ => {},
                }
            } else {
                match ev {
                    WorkerEvent::TunnelReady { id } => {
                        assert(s.1.contains(id@));
                        assert(dialled_before(init, a0, n, id@));
                        let j = choose|j: int| 0 <= j < n && #[trigger] is_connect_for(init[j], id@) && a0[j] == WorkerAction::StartTunnel;
                        assert(is_connect_for(events[j], id@));
                    },
                    _ => {},
                }
            }
        }
        // connect requests
        assert forall|i: int| 0 <= i < acts.len() implies #[trigger] connect_answered(events, acts, i) by {
            if i < n {
                assert(connect_answered(init, a0, i));
                match init[i] {
                    WorkerEvent::ConnectAsked { id } => {
                        assert forall|j: int| 0 <= j < i implies #[trigger] is_found(init[j], id@) == is_found(events[j], id@) by {}
                        if found_before(init, i, id@) {
                            let j = choose|j: int| 0 <= j < i && #[trigger] is_found(init[j], id@);
                            assert(is_found(events[j], id@));
                        }
                        if found_before(events, i, id@) {
                            let j = choose|j: int| 0 <= j < i && #[trigger] is_found(events[j], id@);
                            assert(is_found(init[j], id@));
                        }
                    },
                    _ => {},
                }
            } else {
                match ev {
                    WorkerEvent::ConnectAsked { id } => {
                        assert(s.0.contains(id@) == found_before(init, n, id@));
                    },
                    _ => {},
                }
            }
        }
        // ports
        let sp0 = served_ports(a0);
        assert(acts.drop_last() =~= a0);
        match step.1 {
            WorkerAction::Serve { port } => {
                assert(served_ports(acts) == sp0.push(port));
                assert(sp0.push(port) =~= Seq::new(sp0.len() + 1, |k: int| (FIRST_PROXY_PORT + k) as u16));
            },
            _ => {
                assert(served_ports(acts) == sp0);
            },
        }
        match ev {
            WorkerEvent::TunnelReady { id } => {
                if s.1.contains(id@) && s.3 < u16::MAX {
                    crate::connections::law_open_then_close(s.2, s.3, id@, id@);
                }
            },
            WorkerEvent::DisconnectAsked { id } => {
                crate::port_runs::lemma_ports_ok_remove(s.2, s.3, id@);
            },
            WorkerEvent::QuitAsked => {
                assert(ports_ok(Map::<Seq<char>, u16>::empty(), s.3));
            },
            _ => {},
        }
    }
}

/// Over any run of events from a new worker:
/// - the ports of the tunnels served (told to the UI in `TunnelUp`) are
///   2222, 2223, ... in order, so no port is given twice, even after a
///   disconnect, and no two open tunnels share a port;
/// - a tunnel is served only for a device the worker was asked to connect
///   and started dialling earlier (telling the UI `Connecting`);
/// - a request to connect a device is ignored, with nothing told to the UI,
///   exactly when no earlier scan found it.
pub proof fn law_worker_runs(events: Seq<WorkerEvent>)
    ensures
        ({
            let r = worker_run(events);
            let acts = r.1;
            &&& acts.len() == events.len()
            &&& served_ports(acts) == Seq::new(served_ports(acts).len(), |k: int| (FIRST_PROXY_PORT + k) as u16)
            &&& forall|a: int, b: int|
                0 <= a < b < served_ports(acts).len() ==> served_ports(acts)[a] < served_ports(acts)[b]
            &&& ports_ok(r.0.2, r.0.3)
            &&& forall|i: int| 0 <= i < acts.len() && acts[i] is Serve ==> #[trigger] ready_after_dial(events, acts, i)
            &&& forall|i: int| 0 <= i < acts.len() ==> #[trigger] connect_answered(events, acts, i)
        }),
{
    lemma_worker_run(events);
}

} // verus!
