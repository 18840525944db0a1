//! The tray client's book of devices: the devices a scan has found, and the
//! local proxy port given to each device with an open tunnel. Ports are
//! handed out from 2222 upwards and never given twice.
use vstd::prelude::*;

verus! {

/// The first local port given to a tunnel.
pub const FIRST_PROXY_PORT: u16 = 2222;

/// The map from device id to port that a list of links denotes (later
/// entries win).
pub open spec fn port_map(links: Seq<(String, u16)>) -> Map<Seq<char>, u16>
    decreases links.len(),
{
    if links.len() == 0 {
        Map::empty()
    } else {
        port_map(links.drop_last()).insert(links.last().0@, links.last().1)
    }
}

/// No device id occurs twice.
pub open spec fn ids_unique(links: Seq<(String, u16)>) -> bool {
    forall|i: int, j: int|
        0 <= i < links.len() && 0 <= j < links.len() && i != j ==> #[trigger] links[i].0@
            != #[trigger] links[j].0@
}

/// No port occurs twice, and every port was handed out before `next`.
pub open spec fn ports_fresh(links: Seq<(String, u16)>, next: u16) -> bool {
    &&& forall|i: int| 0 <= i < links.len() ==> FIRST_PROXY_PORT <= #[trigger] links[i].1 < next
    &&& forall|i: int, j: int|
        0 <= i < links.len() && 0 <= j < links.len() && i != j ==> #[trigger] links[i].1
            != #[trigger] links[j].1
}

/// The ports of a book: each below the next port to hand out, none given
/// to two devices.
pub open spec fn ports_ok(ports: Map<Seq<char>, u16>, next: u16) -> bool {
    &&& FIRST_PROXY_PORT <= next
    &&& forall|k: Seq<char>| #[trigger] ports.contains_key(k) ==> FIRST_PROXY_PORT <= ports[k] < next
    &&& forall|k1: Seq<char>, k2: Seq<char>|
        #[trigger] ports.contains_key(k1) && #[trigger] ports.contains_key(k2) && k1 != k2
            ==> ports[k1] != ports[k2]
}

proof fn lemma_port_map(links: Seq<(String, u16)>, k: Seq<char>)
    requires
        ids_unique(links),
    ensures
        port_map(links).contains_key(k) <==> exists|i: int| 0 <= i < links.len() && #[trigger] links[i].0@ == k,
        forall|i: int| 0 <= i < links.len() && #[trigger] links[i].0@ == k ==> port_map(links)[k] == links[i].1,
    decreases links.len(),
{
    if links.len() > 0 {
        let init = links.drop_last();
        assert(ids_unique(init)) by {
            assert forall|i: int, j: int| 0 <= i < init.len() && 0 <= j < init.len() && i != j implies #[trigger] init[i].0@ != #[trigger] init[j].0@ by {
                assert(init[i] == links[i] && init[j] == links[j]);
            }
        }
        lemma_port_map(init, k);
        if exists|i: int| 0 <= i < links.len() && #[trigger] links[i].0@ == k {
            let i = choose|i: int| 0 <= i < links.len() && #[trigger] links[i].0@ == k;
            if i < links.len() - 1 {
                assert(init[i] == links[i]);
            }
        }
        if exists|i: int| 0 <= i < init.len() && #[trigger] init[i].0@ == k {
            let i = choose|i: int| 0 <= i < init.len() && #[trigger] init[i].0@ == k;
            assert(links[i] == init[i]);
        }
        assert forall|i: int| 0 <= i < links.len() && #[trigger] links[i].0@ == k implies port_map(links)[k] == links[i].1 by {
            if i < links.len() - 1 {
                assert(links[i] == init[i]);
                assert(links.last().0@ != k);
            }
        }
    }
}

/// The two maps agree on key `k`.
pub open spec fn same_at(m1: Map<Seq<char>, u16>, m2: Map<Seq<char>, u16>, k: Seq<char>) -> bool {
    &&& m1.contains_key(k) == m2.contains_key(k)
    &&& m1.contains_key(k) ==> m1[k] == m2[k]
}

proof fn lemma_same_maps(m1: Map<Seq<char>, u16>, m2: Map<Seq<char>, u16>)
    requires
        forall|k: Seq<char>| #[trigger] same_at(m1, m2, k),
    ensures
        m1 == m2,
{
    assert forall|k: Seq<char>| m1.contains_key(k) == m2.contains_key(k) by {
        assert(same_at(m1, m2, k));
    }
    assert forall|k: Seq<char>| m1.contains_key(k) implies m1[k] == m2[k] by {
        assert(same_at(m1, m2, k));
    }
    assert(m1 =~= m2);
}

proof fn lemma_ports_ok(links: Seq<(String, u16)>, next: u16)
    requires
        ids_unique(links),
        ports_fresh(links, next),
        FIRST_PROXY_PORT <= next,
    ensures
        ports_ok(port_map(links), next),
{
    let m = port_map(links);
    assert forall|k: Seq<char>| #[trigger] m.contains_key(k) implies FIRST_PROXY_PORT <= m[k] < next by {
        lemma_port_map(links, k);
        let i = choose|i: int| 0 <= i < links.len() && #[trigger] links[i].0@ == k;
        assert(FIRST_PROXY_PORT <= links[i].1 < next);
    }
    assert forall|k1: Seq<char>, k2: Seq<char>|
        #[trigger] m.contains_key(k1) && #[trigger] m.contains_key(k2) && k1 != k2 implies m[k1] != m[k2] by {
        lemma_port_map(links, k1);
        lemma_port_map(links, k2);
        let i = choose|i: int| 0 <= i < links.len() && #[trigger] links[i].0@ == k1;
        let j = choose|j: int| 0 <= j < links.len() && #[trigger] links[j].0@ == k2;
        assert(i != j);
        assert(links[i].1 != links[j].1);
    }
}

/// The devices found and the tunnels open, with the next port to hand out.
pub struct ConnectionBook {
    known: Vec<String>,
    links: Vec<(String, u16)>,
    next_port: u16,
}

impl ConnectionBook {
    #[verifier::type_invariant]
    closed spec fn inv(self) -> bool {
        &&& ids_unique(self.links@)
        &&& ports_fresh(self.links@, self.next_port)
        &&& FIRST_PROXY_PORT <= self.next_port
    }

    /// The ids of the devices found.
    pub closed spec fn known_ids(&self) -> Set<Seq<char>> {
        Set::new(|k: Seq<char>| exists|i: int| 0 <= i < self.known@.len() && #[trigger] self.known@[i]@ == k)
    }

    /// The port of each device with an open tunnel.
    pub closed spec fn ports(&self) -> Map<Seq<char>, u16> {
        port_map(self.links@)
    }

    /// The port the next tunnel gets.
    pub closed spec fn next_port(&self) -> u16 {
        self.next_port
    }

    /// Nothing found, nothing open; the first tunnel gets port 2222.
    pub fn new() -> (b: ConnectionBook)
        ensures
            b.known_ids() == Set::<Seq<char>>::empty(),
            b.ports() == Map::<Seq<char>, u16>::empty(),
            b.next_port() == FIRST_PROXY_PORT,
            ports_ok(b.ports(), b.next_port()),
    {
        let b = ConnectionBook { known: Vec::new(), links: Vec::new(), next_port: FIRST_PROXY_PORT };
        assert(b.known_ids() =~= Set::<Seq<char>>::empty());
        b
    }

    /// Whether a scan has found the device.
    pub fn knows(&self, id: &str) -> (r: bool)
        ensures
            r == self.known_ids().contains(id@),
    {
        let key = String::from_str(id);
        let mut i: usize = 0;
        while i < self.known.len()
            invariant
                i <= self.known@.len(),
                key@ == id@,
                forall|j: int| 0 <= j < i ==> #[trigger] self.known@[j]@ != id@,
            decreases self.known@.len() - i,
        {
            if self.known[i] == key {
                assert(self.known@[i as int]@ == id@);
                return true;
            }
            i = i + 1;
        }
        false
    }

    /// Records a device found by a scan.
    pub fn remember(&mut self, id: &str)
        ensures
            final(self).known_ids() == old(self).known_ids().insert(id@),
            final(self).ports() == old(self).ports(),
            final(self).next_port() == old(self).next_port(),
    {
        proof {
            use_type_invariant(&*self);
        }
        if !self.knows(id) {
            let ghost k0 = self.known@;
            let mut known: Vec<String> = Vec::new();
            std::mem::swap(&mut known, &mut self.known);
            known.push(String::from_str(id));
            self.known = known;
            assert(self.known_ids() =~= old(self).known_ids().insert(id@)) by {
                assert forall|k: Seq<char>| #[trigger] self.known_ids().contains(k) <==> old(self).known_ids().insert(id@).contains(k) by {
                    if k == id@ {
                        assert(self.known@[k0.len() as int]@ == k);
                    }
                    if exists|i: int| 0 <= i < k0.len() && #[trigger] k0[i]@ == k {
                        let i = choose|i: int| 0 <= i < k0.len() && #[trigger] k0[i]@ == k;
                        assert(self.known@[i] == k0[i]);
                    }
                    if exists|i: int| 0 <= i < self.known@.len() && #[trigger] self.known@[i]@ == k {
                        let i = choose|i: int| 0 <= i < self.known@.len() && #[trigger] self.known@[i]@ == k;
                        if i < k0.len() {
                            assert(self.known@[i] == k0[i]);
                        }
                    }
                }
            }
        } else {
            assert(self.known_ids() =~= old(self).known_ids().insert(id@));
        }
    }

    /// Index of the link of `id`, if any.
    fn position(&self, id: &str) -> (r: Option<usize>)
        ensures
            r matches Some(i) ==> i < self.links@.len() && self.links@[i as int].0@ == id@,
            r is None ==> forall|i: int| 0 <= i < self.links@.len() ==> #[trigger] self.links@[i].0@ != id@,
    {
        let key = String::from_str(id);
        let mut i: usize = 0;
        while i < self.links.len()
            invariant
                i <= self.links@.len(),
                key@ == id@,
                forall|j: int| 0 <= j < i ==> #[trigger] self.links@[j].0@ != id@,
            decreases self.links@.len() - i,
        {
            if self.links[i].0 == key {
                return Some(i);
            }
            i = i + 1;
        }
        None
    }

    /// Whether another port can be handed out.
    pub fn can_open(&self) -> (r: bool)
        ensures
            r == (self.next_port() < u16::MAX),
    {
        self.next_port < u16::MAX
    }

    /// Records a tunnel opened for `id`: it gets the next port (replacing
    /// any port it had), and the next port moves up by one.
    pub fn open(&mut self, id: &str) -> (port: u16)
        requires
            old(self).next_port() < u16::MAX,
        ensures
            port == old(self).next_port(),
            final(self).next_port() == old(self).next_port() + 1,
            final(self).ports() == old(self).ports().insert(id@, port),
            final(self).known_ids() == old(self).known_ids(),
            ports_ok(final(self).ports(), final(self).next_port()),
    {
        proof {
            use_type_invariant(&*self);
        }
        let port = self.next_port;
        let key = String::from_str(id);
        let mut links: Vec<(String, u16)> = Vec::new();
        std::mem::swap(&mut links, &mut self.links);
        let ghost e0 = links@;
        match self.position_in(&links, id) {
            Some(i) => {
                links.set(i, (key, port));
                proof {
                    assert(ids_unique(links@)) by {
                        assert forall|a: int, b: int| 0 <= a < links@.len() && 0 <= b < links@.len() && a != b implies #[trigger] links@[a].0@ != #[trigger] links@[b].0@ by {
                            if a != i && b != i {
                                assert(links@[a] == e0[a] && links@[b] == e0[b]);
                            } else if a == i {
                                assert(links@[b] == e0[b]);
                            } else {
                                assert(links@[a] == e0[a]);
                            }
                        }
                    }
                    assert(ports_fresh(links@, (port + 1) as u16)) by {
                        assert forall|a: int| 0 <= a < links@.len() implies FIRST_PROXY_PORT <= #[trigger] links@[a].1 < port + 1 by {
                            if a != i {
                                assert(links@[a] == e0[a]);
                            }
                        }
                        assert forall|a: int, b: int| 0 <= a < links@.len() && 0 <= b < links@.len() && a != b implies #[trigger] links@[a].1 != #[trigger] links@[b].1 by {
                            if a != i && b != i {
                                assert(links@[a] == e0[a] && links@[b] == e0[b]);
                            } else if a == i {
                                assert(links@[b] == e0[b]);
                            } else {
                                assert(links@[a] == e0[a]);
                            }
                        }
                    }
                    assert forall|k: Seq<char>| #[trigger] same_at(port_map(links@), port_map(e0).insert(id@, port), k) by {
                        lemma_port_map(links@, k);
                        lemma_port_map(e0, k);
                        if k == id@ {
                            assert(links@[i as int].0@ == k);
                        } else {
                            if exists|j: int| 0 <= j < e0.len() && #[trigger] e0[j].0@ == k {
                                let j = choose|j: int| 0 <= j < e0.len() && #[trigger] e0[j].0@ == k;
                                assert(links@[j] == e0[j]);
                            }
                            if exists|j: int| 0 <= j < links@.len() && #[trigger] links@[j].0@ == k {
                                let j = choose|j: int| 0 <= j < links@.len() && #[trigger] links@[j].0@ == k;
                                assert(links@[j] == e0[j]);
                            }
                        }
                    }
                    lemma_same_maps(port_map(links@), port_map(e0).insert(id@, port));
                }
            },
            None => {
                links.push((key, port));
                proof {
                    assert(links@.drop_last() =~= e0);
                    assert(ids_unique(links@)) by {
                        assert forall|a: int, b: int| 0 <= a < links@.len() && 0 <= b < links@.len() && a != b implies #[trigger] links@[a].0@ != #[trigger] links@[b].0@ by {
                            if a < e0.len() && b < e0.len() {
                                assert(links@[a] == e0[a] && links@[b] == e0[b]);
                            } else if a < e0.len() {
                                assert(links@[a] == e0[a]);
                            } else {
                                assert(links@[b] == e0[b]);
                            }
                        }
                    }
                    assert(ports_fresh(links@, (port + 1) as u16)) by {
                        assert forall|a: int| 0 <= a < links@.len() implies FIRST_PROXY_PORT <= #[trigger] links@[a].1 < port + 1 by {
                            if a < e0.len() {
                                assert(links@[a] == e0[a]);
                            }
                        }
                        assert forall|a: int, b: int| 0 <= a < links@.len() && 0 <= b < links@.len() && a != b implies #[trigger] links@[a].1 != #[trigger] links@[b].1 by {
                            if a < e0.len() && b < e0.len() {
                                assert(links@[a] == e0[a] && links@[b] == e0[b]);
                            } else if a < e0.len() {
                                assert(links@[a] == e0[a]);
                            } else {
                                assert(links@[b] == e0[b]);
                            }
                        }
                    }
                }
            },
        }
        self.next_port = port + 1;
        self.links = links;
        proof {
            lemma_ports_ok(self.links@, self.next_port);
        }
        port
    }

    /// Index of the link of `id` in `links`, if any.
    fn position_in(&self, links: &Vec<(String, u16)>, id: &str) -> (r: Option<usize>)
        ensures
            r matches Some(i) ==> i < links@.len() && links@[i as int].0@ == id@,
            r is None ==> forall|i: int| 0 <= i < links@.len() ==> #[trigger] links@[i].0@ != id@,
    {
        let key = String::from_str(id);
        let mut i: usize = 0;
        while i < links.len()
            invariant
                i <= links@.len(),
                key@ == id@,
                forall|j: int| 0 <= j < i ==> #[trigger] links@[j].0@ != id@,
            decreases links@.len() - i,
        {
            if links[i].0 == key {
                return Some(i);
            }
            i = i + 1;
        }
        None
    }

    /// Records a tunnel closed for `id`, giving back its port if it had one.
    pub fn close(&mut self, id: &str) -> (r: Option<u16>)
        ensures
            r == (if old(self).ports().contains_key(id@) { Some(old(self).ports()[id@]) } else { None::<u16> }),
            final(self).ports() == old(self).ports().remove(id@),
            final(self).next_port() == old(self).next_port(),
            final(self).known_ids() == old(self).known_ids(),
            ports_ok(final(self).ports(), final(self).next_port()),
    {
        proof {
            use_type_invariant(&*self);
            lemma_port_map(self.links@, id@);
        }
        match self.position(id) {
            Some(i) => {
                let mut links: Vec<(String, u16)> = Vec::new();
                std::mem::swap(&mut links, &mut self.links);
                let ghost e0 = links@;
                let (_, port) = links.remove(i);
                proof {
                    assert forall|a: int| 0 <= a < links@.len() implies #[trigger] links@[a] == (if a < i { e0[a] } else { e0[a + 1] }) by {}
                    assert(ids_unique(links@)) by {
                        assert forall|a: int, b: int| 0 <= a < links@.len() && 0 <= b < links@.len() && a != b implies #[trigger] links@[a].0@ != #[trigger] links@[b].0@ by {
                            let a2 = if a < i { a } else { a + 1 };
                            let b2 = if b < i { b } else { b + 1 };
                            assert(links@[a] == e0[a2] && links@[b] == e0[b2]);
                        }
                    }
                    assert(ports_fresh(links@, self.next_port)) by {
                        assert forall|a: int| 0 <= a < links@.len() implies FIRST_PROXY_PORT <= #[trigger] links@[a].1 < self.next_port by {
                            let a2 = if a < i { a } else { a + 1 };
                            assert(links@[a] == e0[a2]);
                        }
                        assert forall|a: int, b: int| 0 <= a < links@.len() && 0 <= b < links@.len() && a != b implies #[trigger] links@[a].1 != #[trigger] links@[b].1 by {
                            let a2 = if a < i { a } else { a + 1 };
                            let b2 = if b < i { b } else { b + 1 };
                            assert(links@[a] == e0[a2] && links@[b] == e0[b2]);
                        }
                    }
                    assert forall|k: Seq<char>| #[trigger] same_at(port_map(links@), port_map(e0).remove(id@), k) by {
                        lemma_port_map(links@, k);
                        lemma_port_map(e0, k);
                        if exists|j: int| 0 <= j < e0.len() && #[trigger] e0[j].0@ == k {
                            let j = choose|j: int| 0 <= j < e0.len() && #[trigger] e0[j].0@ == k;
                            if k != id@ {
                                assert(j != i);
                                let j2 = if j < i { j } else { j - 1 };
                                assert(links@[j2] == e0[j]);
                            }
                        }
                        if exists|j: int| 0 <= j < links@.len() && #[trigger] links@[j].0@ == k {
                            let j = choose|j: int| 0 <= j < links@.len() && #[trigger] links@[j].0@ == k;
                            let j2 = if j < i { j } else { j + 1 };
                            assert(links@[j] == e0[j2]);
                            assert(j2 != i);
                        }
                    }
                    lemma_same_maps(port_map(links@), port_map(e0).remove(id@));
                }
                self.links = links;
                proof {
                    lemma_ports_ok(self.links@, self.next_port);
                }
                Some(port)
            },
            None => {
                proof {
                    assert(self.ports() =~= self.ports().remove(id@));
                    lemma_ports_ok(self.links@, self.next_port);
                }
                None
            },
        }
    }

    /// Closes every tunnel, handing back the devices and their ports.
    pub fn close_all(&mut self) -> (r: Vec<(String, u16)>)
        ensures
            port_map(r@) == old(self).ports(),
            final(self).ports() == Map::<Seq<char>, u16>::empty(),
            final(self).next_port() == old(self).next_port(),
            final(self).known_ids() == old(self).known_ids(),
    {
        proof {
            use_type_invariant(&*self);
        }
        let mut links: Vec<(String, u16)> = Vec::new();
        std::mem::swap(&mut links, &mut self.links);
        links
    }
}

/// Opening a tunnel and closing it again: the close gives back the port the
/// open handed out, and the other devices keep their ports.
pub proof fn law_open_then_close(ports: Map<Seq<char>, u16>, next: u16, id: Seq<char>, other: Seq<char>)
    requires
        ports_ok(ports, next),
        next < u16::MAX,
    ensures
        ports.insert(id, next).contains_key(id),
        ports.insert(id, next)[id] == next,
        !ports.insert(id, next).remove(id).contains_key(id),
        other != id ==> ports.insert(id, next).remove(id).contains_key(other) == ports.contains_key(other),
        other != id && ports.contains_key(other) ==> ports.insert(id, next).remove(id)[other] == ports[other],
        ports_ok(ports.insert(id, next), (next + 1) as u16),
{
    let m = ports.insert(id, next);
    assert forall|k: Seq<char>| #[trigger] m.contains_key(k) implies FIRST_PROXY_PORT <= m[k] < next + 1 by {
        if k != id {
            assert(ports.contains_key(k));
        }
    }
    assert forall|k1: Seq<char>, k2: Seq<char>|
        #[trigger] m.contains_key(k1) && #[trigger] m.contains_key(k2) && k1 != k2 implies m[k1] != m[k2] by {
        if k1 != id && k2 != id {
            assert(ports.contains_key(k1) && ports.contains_key(k2));
        } else if k1 == id {
            assert(ports.contains_key(k2));
        } else {
            assert(ports.contains_key(k1));
        }
    }
}

} // verus!
