//! The rendezvous helper's pairing rules: the first client to post an
//! identifier waits in the table; the second is introduced to it, each
//! getting the other's endpoint, and the entry goes once both replies are
//! out.

use vstd::prelude::*;
use crate::endpoint::{
    endpoint_text, format_socket_info, lemma_endpoint_text_injective, lemma_reply_round_trip, padded,
    without_trailing_zeros, Endpoint, SLOT_LEN,
};

verus! {

/// A client waiting for its partner.
pub struct Pending {
    pub identifier: Vec<u8>,
    pub first: Endpoint,
}

/// What the helper does with one datagram.
#[derive(Debug, PartialEq, Eq)]
pub enum HelperStep {
    /// Not a 200-byte identifier: dropped.
    Ignored,
    /// First sighting of the identifier: the sender now waits in the table.
    Stored,
    /// Second sighting: send `to_first` to `first` and `to_second` to
    /// `second`.
    Introduce { first: Endpoint, second: Endpoint, to_first: Vec<u8>, to_second: Vec<u8> },
}

/// The table after a datagram `d` from `from`.
pub open spec fn after_receive(t: Map<Seq<u8>, Endpoint>, d: Seq<u8>, from: Endpoint) -> Map<
    Seq<u8>,
    Endpoint,
> {
    if d.len() == SLOT_LEN && !t.contains_key(d) {
        t.insert(d, from)
    } else {
        t
    }
}

/// The two clients that a datagram `d` from `from` introduces, the one
/// that waited first.
pub open spec fn introduction(t: Map<Seq<u8>, Endpoint>, d: Seq<u8>, from: Endpoint) -> Option<
    (Endpoint, Endpoint),
> {
    if d.len() == SLOT_LEN && t.contains_key(d) {
        Some((t[d], from))
    } else {
        None
    }
}

spec fn entries_map(es: Seq<Pending>) -> Map<Seq<u8>, Endpoint>
    decreases es.len(),
{
    if es.len() == 0 {
        Map::empty()
    } else {
        entries_map(es.drop_last()).insert(es.last().identifier@, es.last().first)
    }
}

spec fn unique_keys(es: Seq<Pending>) -> bool {
    forall|i: int, j: int|
        0 <= i < es.len() && 0 <= j < es.len() && i != j ==> #[trigger] es[i].identifier@
            != #[trigger] es[j].identifier@
}

proof fn lemma_entries_map(es: Seq<Pending>)
    requires
        unique_keys(es),
    ensures
        forall|i: int|
            0 <= i < es.len() ==> #[trigger] entries_map(es).contains_key(es[i].identifier@)
                && entries_map(es)[es[i].identifier@] == es[i].first,
        forall|k: Seq<u8>|
            #[trigger] entries_map(es).contains_key(k) ==> exists|i: int|
                0 <= i < es.len() && es[i].identifier@ == k,
    decreases es.len(),
{
    if es.len() > 0 {
        let p = es.drop_last();
        assert(unique_keys(p)) by {
            assert forall|i: int, j: int|
                0 <= i < p.len() && 0 <= j < p.len() && i != j implies #[trigger] p[i].identifier@
                != #[trigger] p[j].identifier@ by {
                assert(p[i] == es[i] && p[j] == es[j]);
            }
        }
        lemma_entries_map(p);
        assert forall|i: int| 0 <= i < es.len() implies #[trigger] entries_map(es).contains_key(
            es[i].identifier@,
        ) && entries_map(es)[es[i].identifier@] == es[i].first by {
            if i < es.len() - 1 {
                assert(es[i] == p[i]);
                assert(es[i].identifier@ != es[es.len() - 1].identifier@);
                assert(entries_map(p).contains_key(p[i].identifier@));
            } else {
                assert(es.last() == es[i]);
            }
        }
        assert forall|k: Seq<u8>| #[trigger] entries_map(es).contains_key(k) implies exists|i: int|
            0 <= i < es.len() && es[i].identifier@ == k by {
            if k != es.last().identifier@ {
                assert(entries_map(p).contains_key(k));
                let i = choose|i: int| 0 <= i < p.len() && p[i].identifier@ == k;
                assert(es[i] == p[i]);
            } else {
                assert(es[es.len() - 1].identifier@ == k);
            }
        }
    }
}

proof fn lemma_entries_map_remove(es: Seq<Pending>, i: int)
    requires
        unique_keys(es),
        0 <= i < es.len(),
    ensures
        unique_keys(es.remove(i)),
        entries_map(es.remove(i)) == entries_map(es).remove(es[i].identifier@),
    decreases es.len(),
{
    let r = es.remove(i);
    assert(unique_keys(r)) by {
        assert forall|a: int, b: int|
            0 <= a < r.len() && 0 <= b < r.len() && a != b implies #[trigger] r[a].identifier@
            != #[trigger] r[b].identifier@ by {
            let a2 = if a < i { a } else { a + 1 };
            let b2 = if b < i { b } else { b + 1 };
            assert(r[a] == es[a2] && r[b] == es[b2]);
        }
    }
    let p = es.drop_last();
    lemma_entries_map(p);
    let k = es[i].identifier@;
    if i == es.len() - 1 {
        assert(r =~= p);
        assert(!entries_map(p).contains_key(k)) by {
            if entries_map(p).contains_key(k) {
                let j = choose|j: int| 0 <= j < p.len() && p[j].identifier@ == k;
                assert(p[j] == es[j]);
            }
        }
        assert(entries_map(es).remove(k) =~= entries_map(p));
    } else {
        assert(unique_keys(p)) by {
            assert forall|a: int, b: int|
                0 <= a < p.len() && 0 <= b < p.len() && a != b implies #[trigger] p[a].identifier@
                != #[trigger] p[b].identifier@ by {
                assert(p[a] == es[a] && p[b] == es[b]);
            }
        }
        lemma_entries_map_remove(p, i);
        assert(r.drop_last() =~= p.remove(i));
        assert(r.last() == es.last());
        assert(p[i] == es[i]);
        assert(es.last().identifier@ != k);
        assert(entries_map(r) =~= entries_map(es).remove(k));
    }
}

proof fn lemma_entries_len(es: Seq<Pending>)
    requires
        unique_keys(es),
    ensures
        entries_map(es).dom().finite(),
        entries_map(es).len() == es.len(),
    decreases es.len(),
{
    if es.len() > 0 {
        let p = es.drop_last();
        assert(unique_keys(p)) by {
            assert forall|i: int, j: int|
                0 <= i < p.len() && 0 <= j < p.len() && i != j implies #[trigger] p[i].identifier@
                != #[trigger] p[j].identifier@ by {
                assert(p[i] == es[i] && p[j] == es[j]);
            }
        }
        lemma_entries_len(p);
        lemma_entries_map(p);
        let k = es.last().identifier@;
        assert(!entries_map(p).contains_key(k)) by {
            if entries_map(p).contains_key(k) {
                let j = choose|j: int| 0 <= j < p.len() && p[j].identifier@ == k;
                assert(p[j] == es[j]);
            }
        }
    }
}

/// Whether two byte strings are equal.
fn bytes_equal(a: &[u8], b: &[u8]) -> (r: bool)
    ensures
        r == (a@ == b@),
{
    if a.len() != b.len() {
        return false;
    }
    let mut i: usize = 0;
    while i < a.len()
        invariant
            a@.len() == b@.len(),
            i <= a@.len(),
            forall|k: int| 0 <= k < i ==> a@[k] == b@[k],
        decreases a@.len() - i,
    {
        if a[i] != b[i] {
            return false;
        }
        i += 1;
    }
    assert(a@ =~= b@);
    true
}

/// The helper's table of clients waiting for a partner.
pub struct PairingTable {
    entries: Vec<Pending>,
}

impl PairingTable {
    /// Waiting clients by identifier.
    pub closed spec fn table(&self) -> Map<Seq<u8>, Endpoint> {
        entries_map(self.entries@)
    }

    /// Each identifier waits at most once.
    pub closed spec fn wf(&self) -> bool {
        unique_keys(self.entries@)
    }

    /// An empty table.
    pub fn new() -> (r: PairingTable)
        ensures
            r.wf(),
            r.table() == Map::<Seq<u8>, Endpoint>::empty(),
    {
        PairingTable { entries: Vec::new() }
    }

    /// Number of clients waiting.
    pub fn len(&self) -> (r: usize)
        requires
            self.wf(),
        ensures
            r == self.table().len(),
    {
        proof {
            lemma_entries_len(self.entries@);
        }
        self.entries.len()
    }

    /// Index of the waiting entry for an identifier.
    fn find(&self, identifier: &[u8]) -> (r: Option<usize>)
        requires
            self.wf(),
        ensures
            match r {
                Some(i) => i < self.entries@.len() && self.entries@[i as int].identifier@ == identifier@,
                None => !self.table().contains_key(identifier@),
            },
    {
        proof {
            lemma_entries_map(self.entries@);
        }
        let mut i: usize = 0;
        while i < self.entries.len()
            invariant
                i <= self.entries@.len(),
                forall|k: int| 0 <= k < i ==> self.entries@[k].identifier@ != identifier@,
            decreases self.entries@.len() - i,
        {
            if bytes_equal(self.entries[i].identifier.as_slice(), identifier) {
                return Some(i);
            }
            i += 1;
        }
        None
    }

    /// Handles one datagram from `from`: a 200-byte identifier seen for the
    /// first time is stored; seen a second time, the two clients are
    /// introduced, each to be sent the other's endpoint slot. The entry
    /// stays until [`PairingTable::introduced`] says both replies went out.
    pub fn receive(&mut self, datagram: &[u8], from: Endpoint) -> (r: HelperStep)
        requires
            old(self).wf(),
        ensures
            final(self).wf(),
            final(self).table() == after_receive(old(self).table(), datagram@, from),
            match introduction(old(self).table(), datagram@, from) {
                Some((first, second)) => match r {
                    HelperStep::Introduce { first: f, second: s, to_first, to_second } => {
                        &&& f == first
                        &&& s == second
                        &&& to_first@ == padded(endpoint_text(second))
                        &&& to_second@ == padded(endpoint_text(first))
                    },
                    _ => false,
                },
                None => r == if datagram@.len() == SLOT_LEN {
                    HelperStep::Stored
                } else {
                    HelperStep::Ignored
                },
            },
    {
        proof {
            lemma_entries_map(self.entries@);
        }
        if datagram.len() != SLOT_LEN {
            return HelperStep::Ignored;
        }
        match self.find(datagram) {
            Some(i) => {
                let first = self.entries[i].first;
                let to_first = format_socket_info(&from);
                let to_second = format_socket_info(&first);
                HelperStep::Introduce { first, second: from, to_first, to_second }
            },
            None => {
                let mut identifier: Vec<u8> = Vec::with_capacity(SLOT_LEN);
                let mut k: usize = 0;
                while k < datagram.len()
                    invariant
                        k <= datagram@.len(),
                        identifier@ =~= datagram@.take(k as int),
                    decreases datagram@.len() - k,
                {
                    identifier.push(datagram[k]);
                    k += 1;
                    assert(identifier@ =~= datagram@.take(k as int));
                }
                assert(datagram@.take(k as int) =~= datagram@);
                let ghost before = self.entries@;
                self.entries.push(Pending { identifier, first: from });
                assert(self.entries@.drop_last() =~= before);
                proof {
                    assert(unique_keys(self.entries@)) by {
                        assert forall|a: int, b: int|
                            0 <= a < self.entries@.len() && 0 <= b < self.entries@.len() && a != b
                            implies #[trigger] self.entries@[a].identifier@
                            != #[trigger] self.entries@[b].identifier@ by {
                            if a < before.len() && b < before.len() {
                                assert(self.entries@[a] == before[a] && self.entries@[b] == before[b]);
                            } else if a < before.len() {
                                assert(self.entries@[a] == before[a]);
                            } else {
                                assert(self.entries@[b] == before[b]);
                            }
                        }
                    }
                }
                HelperStep::Stored
            },
        }
    }

    /// Both replies of an introduction went out: the identifier leaves the
    /// table.
    pub fn introduced(&mut self, identifier: &[u8])
        requires
            old(self).wf(),
        ensures
            final(self).wf(),
            final(self).table() == old(self).table().remove(identifier@),
    {
        match self.find(identifier) {
            Some(i) => {
                proof {
                    lemma_entries_map_remove(self.entries@, i as int);
                }
                self.entries.remove(i);
            },
            None => {
                assert(self.table().remove(identifier@) =~= self.table());
            },
        }
    }
}

/// Two clients that post the same identifier are introduced to each other,
/// and the reply that each gets reads back as exactly the other's endpoint.
/// Once both replies are out the identifier leaves the table, so a third
/// client posting it is stored anew and is paired only with a fourth.
pub proof fn lemma_pairing(
    t: Map<Seq<u8>, Endpoint>,
    id: Seq<u8>,
    a: Endpoint,
    b: Endpoint,
    c: Endpoint,
    d: Endpoint,
)
    requires
        id.len() == SLOT_LEN,
        !t.contains_key(id),
    ensures
        introduction(t, id, a) is None,
        introduction(after_receive(t, id, a), id, b) == Some((a, b)),
        after_receive(after_receive(t, id, a), id, b) == t.insert(id, a),
        forall|e: Endpoint|
            without_trailing_zeros(padded(endpoint_text(b))) == #[trigger] endpoint_text(e) ==> e
                == b,
        forall|e: Endpoint|
            without_trailing_zeros(padded(endpoint_text(a))) == #[trigger] endpoint_text(e) ==> e
                == a,
        t.insert(id, a).remove(id) == t,
        introduction(t, id, c) is None,
        introduction(after_receive(t, id, c), id, d) == Some((c, d)),
{
    lemma_reply_round_trip(a);
    lemma_reply_round_trip(b);
    assert forall|e: Endpoint|
        without_trailing_zeros(padded(endpoint_text(b))) == #[trigger] endpoint_text(e) implies e
        == b by {
        lemma_endpoint_text_injective(e, b);
    }
    assert forall|e: Endpoint|
        without_trailing_zeros(padded(endpoint_text(a))) == #[trigger] endpoint_text(e) implies e
        == a by {
        lemma_endpoint_text_injective(e, a);
    }
    assert(t.insert(id, a).remove(id) =~= t);
}

} // verus!
