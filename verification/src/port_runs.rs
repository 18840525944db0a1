//! Runs of calls on a `ConnectionBook`: the order in which ports are handed out.
use vstd::prelude::*;
use crate::connections::{FIRST_PROXY_PORT, ports_ok, law_open_then_close};

verus! {

/// A call that changes the ports of a `ConnectionBook`: `open`, `close` or
/// `close_all` (`remember` and the reads leave the ports alone).
pub enum BookCall {
    Open { id: String },
    Close { id: String },
    CloseAll,
}

/// The number of `open` calls.
pub open spec fn opens_in(calls: Seq<BookCall>) -> nat
    decreases calls.len(),
{
    if calls.len() == 0 {
        0
    } else {
        opens_in(calls.drop_last()) + if calls.last() is Open {
            1nat
        } else {
            0nat
        }
    }
}

/// From ports and next port `start`, the ports and next port after the
/// calls and the ports `open` returned, in order; each call acts as its
/// contract says.
pub open spec fn book_run(start: (Map<Seq<char>, u16>, u16), calls: Seq<BookCall>) -> (
    Map<Seq<char>, u16>,
    u16,
    Seq<u16>,
)
    decreases calls.len(),
{
    if calls.len() == 0 {
        (start.0, start.1, seq![])
    } else {
        let r = book_run(start, calls.drop_last());
        match calls.last() {
            BookCall::Open { id } => (r.0.insert(id@, r.1), (r.1 + 1) as u16, r.2.push(r.1)),
            BookCall::Close { id } => (r.0.remove(id@), r.1, r.2),
            BookCall::CloseAll => (Map::empty(), r.1, r.2),
        }
    }
}

pub(crate) proof fn lemma_ports_ok_remove(ports: Map<Seq<char>, u16>, next: u16, id: Seq<char>)
    requires
        ports_ok(ports, next),
    ensures
        ports_ok(ports.remove(id), next),
{
    let m = ports.remove(id);
    assert forall|k: Seq<char>| #[trigger] m.contains_key(k) implies FIRST_PROXY_PORT <= m[k] < next by {
        assert(ports.contains_key(k));
    }
    assert forall|k1: Seq<char>, k2: Seq<char>|
        #[trigger] m.contains_key(k1) && #[trigger] m.contains_key(k2) && k1 != k2 implies m[k1] != m[k2] by {
        assert(ports.contains_key(k1) && ports.contains_key(k2));
    }
}

proof fn lemma_book_run(start: (Map<Seq<char>, u16>, u16), calls: Seq<BookCall>)
    requires
        ports_ok(start.0, start.1),
        start.1 + opens_in(calls) <= u16::MAX,
    ensures
        book_run(start, calls).2 == Seq::new(opens_in(calls), |k: int| (start.1 + k) as u16),
        book_run(start, calls).1 == start.1 + opens_in(calls),
        ports_ok(book_run(start, calls).0, book_run(start, calls).1),
    decreases calls.len(),
{
    if calls.len() > 0 {
        let init = calls.drop_last();
        lemma_book_run(start, init);
        let r = book_run(start, init);
        let n = opens_in(init);
        match calls.last() {
            BookCall::Open { id } => {
                assert(r.1 < u16::MAX);
                law_open_then_close(r.0, r.1, id@, id@);
                assert(Seq::new(n, |k: int| (start.1 + k) as u16).push(r.1) =~= Seq::new(
                    n + 1,
                    |k: int| (start.1 + k) as u16,
                ));
            },
            BookCall::Close { id } => {
                lemma_ports_ok_remove(r.0, r.1, id@);
            },
            BookCall::CloseAll => {
                assert(ports_ok(Map::<Seq<char>, u16>::empty(), r.1));
            },
        }
    }
}

/// Over any run of `open`, `close` and `close_all` calls on a new book, the
/// ports `open` hands out are 2222, 2223, ... in the order of the calls, so
/// no port is given twice, even after the tunnel holding it closed; at
/// every point no two devices hold the same port. This holds while the
/// ports fit in a `u16` (at most 63313 opens), as `open` requires.
pub proof fn law_ports_in_order(calls: Seq<BookCall>)
    requires
        FIRST_PROXY_PORT + opens_in(calls) <= u16::MAX,
    ensures
        ({
            let r = book_run((Map::empty(), FIRST_PROXY_PORT), calls);
            &&& r.2 == Seq::new(opens_in(calls), |k: int| (FIRST_PROXY_PORT + k) as u16)
            &&& forall|a: int, b: int| 0 <= a < b < r.2.len() ==> r.2[a] < r.2[b]
            &&& r.1 == FIRST_PROXY_PORT + opens_in(calls)
            &&& ports_ok(r.0, r.1)
        }),
{
    let start = (Map::<Seq<char>, u16>::empty(), FIRST_PROXY_PORT);
    assert(ports_ok(start.0, start.1));
    lemma_book_run(start, calls);
}

} // verus!
