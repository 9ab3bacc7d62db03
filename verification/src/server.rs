use vstd::prelude::*;

use crate::electrum::Client;

verus! {

/// What a peer's reader task reported about the connection itself; request
/// lines go to the dispatcher once parsed.
pub enum PeerEvent {
    Connected,
    Disconnected,
}

/// The connected peers' protocol state, keyed by peer id.  The sockets stay
/// outside; the loop around this map performs the reads and writes.
pub struct PeerMap {
    pub peers: Vec<(u64, Client)>,
}

impl PeerMap {
    /// Peer ids are distinct.
    pub open spec fn wf(self) -> bool {
        forall|i: int, j: int|
            0 <= i < j < self.peers@.len() ==> (#[trigger] self.peers@[i]).0 != (
            #[trigger] self.peers@[j]).0
    }

    /// Whether a peer id is present.
    pub open spec fn has_peer(self, id: u64) -> bool {
        exists|i: int| 0 <= i < self.peers@.len() && (#[trigger] self.peers@[i]).0 == id
    }

    /// An empty map.
    pub fn new() -> (r: PeerMap)
        ensures
            r.wf(),
            r.peers@.len() == 0,
    {
        PeerMap { peers: Vec::new() }
    }

    /// The position of a peer id, if present.
    pub fn find(&self, id: u64) -> (r: Option<usize>)
        ensures
            r is Some <==> self.has_peer(id),
            r matches Some(i) ==> i < self.peers@.len() && self.peers@[i as int].0 == id,
    {
        let mut i: usize = 0;
        while i < self.peers.len()
            invariant
                i <= self.peers@.len(),
                forall|x: int| 0 <= x < i ==> (#[trigger] self.peers@[x]).0 != id,
            decreases self.peers@.len() - i,
        {
            if self.peers[i].0 == id {
                return Some(i);
            }
            i += 1;
        }
        proof {
            if self.has_peer(id) {
                let x = choose|x: int|
                    0 <= x < self.peers@.len() && (#[trigger] self.peers@[x]).0 == id;
                assert(false);
            }
        }
        None
    }

    /// Applies a connection event: a fresh client is registered on connect
    /// (a duplicate id is ignored), and the peer's state is dropped on
    /// disconnect.
    pub fn handle_event(&mut self, id: u64, event: PeerEvent)
        requires
            old(self).wf(),
        ensures
            final(self).wf(),
            event is Connected ==> final(self).has_peer(id),
            event is Disconnected ==> !final(self).has_peer(id),
            event is Connected && old(self).has_peer(id) ==> *final(self) == *old(self),
            event is Connected && !old(self).has_peer(id) ==> ({
                &&& final(self).peers@.len() == old(self).peers@.len() + 1
                &&& forall|x: int|
                    0 <= x < old(self).peers@.len() ==> #[trigger] final(self).peers@[x] == old(
                        self,
                    ).peers@[x]
                &&& final(self).peers@.last().0 == id
                &&& final(self).peers@.last().1.tip is None
                &&& final(self).peers@.last().1.status@.len() == 0
            }),
            event is Disconnected ==> ((!old(self).has_peer(id) && *final(self) == *old(self))
                || (exists|i: int|
                0 <= i < old(self).peers@.len() && (#[trigger] old(self).peers@[i]).0 == id
                    && final(self).peers@ == old(self).peers@.remove(i))),
    {
        match event {
            PeerEvent::Connected => {
                if self.find(id).is_none() {
                    let ghost before = self.peers@;
                    self.peers.push((id, Client::new()));
                    proof {
                        assert(forall|x: int|
                            0 <= x < before.len() ==> #[trigger] self.peers@[x] == before[x]);
                        assert(self.peers@[before.len() as int].0 == id);
                        assert forall|i: int, j: int|
                            0 <= i < j < self.peers@.len() implies (#[trigger] self.peers@[i]).0
                            != (#[trigger] self.peers@[j]).0 by {
                            if j == before.len() {
                                if self.peers@[i].0 == id {
                                    assert(old(self).has_peer(id));
                                }
                            }
                        }
                    }
                } else {
                    proof {
                        assert(self.has_peer(id));
                    }
                }
            },
            PeerEvent::Disconnected => {
                match self.find(id) {
                    Some(i) => {
                        let ghost before = self.peers@;
                        let _ = self.peers.remove(i);
                        proof {
                            assert(forall|x: int|
                                0 <= x < self.peers@.len() ==> #[trigger] self.peers@[x] == if x
                                    < i {
                                    before[x]
                                } else {
                                    before[x + 1]
                                });
                            assert forall|x: int, y: int|
                                0 <= x < y < self.peers@.len() implies (
                            #[trigger] self.peers@[x]).0 != (#[trigger] self.peers@[y]).0 by {
                                let xx = if x < i {
                                    x
                                } else {
                                    x + 1
                                };
                                let yy = if y < i {
                                    y
                                } else {
                                    y + 1
                                };
                                assert(before[xx].0 != before[yy].0);
                            }
                            if self.has_peer(id) {
                                let x = choose|x: int|
                                    0 <= x < self.peers@.len() && (#[trigger] self.peers@[x]).0
                                        == id;
                                let xx = if x < i {
                                    x
                                } else {
                                    x + 1
                                };
                                assert(before[xx].0 == id);
                                assert(xx != i);
                                assert(before[xx].0 != before[i as int].0);
                                assert(false);
                            }
                        }
                    },
                    None => {
                        proof {
                            assert(!self.has_peer(id));
                        }
                    },
                }
            },
        }
    }
}

} // verus!
