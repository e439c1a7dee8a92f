use crate::bus::{BusAction, BusView, Task};
use crate::cache::{Cache, CacheView};
use crate::protocol::{issuer_state, LineState, ProcessorAction, ProtocolView, Stage};
use crate::utils::AddressLayout;
use vstd::prelude::*;

verus! {

/// Whether two addresses lie in the same block: they have the same set and the same tag.
pub open spec fn same_block(layout: AddressLayout, a: u32, b: u32) -> bool {
    layout.index_of(a) == layout.index_of(b) && layout.tag_of(a) == layout.tag_of(b)
}

/// Whether a transaction is one that goes to memory: no cache has answered it.
pub open spec fn from_memory(action: BusAction) -> bool {
    action is BusRdMem || action is BusRdXMem || action is BusUpdMem
}

impl CacheView {
    /// The state in which the cache holds the block of `addr`; invalid where it does not
    /// hold it.
    pub open spec fn held(self, addr: u32) -> LineState {
        match self.protocol.find(addr) {
            Some(idx) => self.protocol.state(idx as int),
            None => LineState::Invalid,
        }
    }

    /// A lookup in the table of the protocol finds what a lookup in the tag array finds:
    /// a slot of the set of the address that is not empty and carries its tag.
    pub proof fn lemma_held(self, a: u32)
        requires
            self.wf(),
        ensures
            self.protocol.find(a) == self.search(a),
            match self.protocol.find(a) {
                Some(idx) => {
                    &&& self.set_start(a) <= idx < self.set_start(a) + self.ways()
                    &&& idx < self.tags.len()
                    &&& self.protocol.tag(idx as int) == self.layout.tag_of(a)
                    &&& self.keys()[idx as int] == Some(self.layout.tag_of(a))
                },
                None => true,
            },
    {
        self.lemma_set(a);
        if self.protocol.find(a) is Some {
            let idx = self.protocol.find(a).unwrap() as int;
            assert(self.protocol.tag(idx) == self.tags[idx]);
        }
    }

    /// Addresses of one block are held alike; and two addresses for which a lookup finds
    /// the same slot lie in one block.
    pub proof fn lemma_block(self, a: u32, b: u32)
        requires
            self.wf(),
        ensures
            same_block(self.layout, a, b) ==> self.protocol.find(a) == self.protocol.find(b)
                && self.held(a) == self.held(b) && self.search(a) == self.search(b),
            self.protocol.find(a) is Some && self.protocol.find(a) == self.protocol.find(b)
                ==> same_block(self.layout, a, b),
    {
        self.lemma_held(a);
        self.lemma_held(b);
        if self.protocol.find(a) is Some && self.protocol.find(a) == self.protocol.find(b) {
            self.lemma_same_set(a, b, self.protocol.find(a).unwrap() as int);
        }
    }

    /// After the slots other than `e` kept what a lookup sees in them, a lookup of an
    /// address whose tag is not seen in `e` finds what it found before, or nothing where
    /// it found that slot.
    pub proof fn lemma_search_after_store(self, other: CacheView, e: int, a: u32)
        requires
            self.wf(),
            other.wf(),
            other.layout == self.layout,
            other.lru.ways == self.lru.ways,
            other.tags.len() == self.tags.len(),
            forall|i: int|
                0 <= i < self.tags.len() && i != e ==> #[trigger] other.keys()[i] == self.keys()[i],
            other.keys()[e] != Some(self.layout.tag_of(a)) || !(self.set_start(a) <= e
                < self.set_start(a) + self.ways()),
        ensures
            other.search(a) == if self.search(a) is Some && self.search(a).unwrap() == e {
                None
            } else {
                self.search(a)
            },
    {
        self.lemma_set(a);
        other.lemma_set(a);
        let tag = self.layout.tag_of(a);
        match self.search(a) {
            Some(i) => {
                if i != e {
                    assert(other.set_start(a) <= i && other.keys()[i as int] == Some(tag));
                } else {
                    if other.search(a) is Some {
                        let j = other.search(a).unwrap() as int;
                        assert(self.set_start(a) <= j && self.keys()[j] == Some(tag));
                    }
                }
            },
            None => {
                if other.search(a) is Some {
                    let j = other.search(a).unwrap() as int;
                    assert(other.keys()[j] == Some(tag));
                    assert(self.keys()[j] == Some(tag));
                }
            },
        }
    }

    /// Where a cache differs from another in the state of the slot that holds the block
    /// of `a0` only, it holds every other block as the other holds it.
    pub proof fn lemma_held_after_states(self, other: CacheView, a0: u32)
        requires
            self.wf(),
            other.wf(),
            other.layout == self.layout,
            other.lru.ways == self.lru.ways,
            other.tags == self.tags,
            other.protocol.same_shape(self.protocol),
            forall|i: int|
                0 <= i < self.tags.len() && self.protocol.find(a0) != Some(i as usize)
                    ==> #[trigger] other.protocol.state(i) == self.protocol.state(i),
        ensures
            forall|a: u32|
                !same_block(self.layout, a, a0) ==> #[trigger] other.held(a) == self.held(a),
            forall|a: u32|
                same_block(self.layout, a, a0) ==> #[trigger] other.held(a) == other.held(a0),
            other.held(a0) == match self.protocol.find(a0) {
                Some(idx) => other.protocol.state(idx as int),
                None => self.held(a0),
            },
    {
        self.lemma_held(a0);
        other.lemma_held(a0);
        let e = match self.protocol.find(a0) {
            Some(idx) => idx as int,
            None => -1,
        };
        assert forall|i: int| 0 <= i < self.tags.len() && i != e implies #[trigger] other.keys()[i]
            == self.keys()[i] by {
            assert(other.protocol.state(i) == self.protocol.state(i));
        }
        assert forall|a: u32| !same_block(self.layout, a, a0) implies #[trigger] other.held(a)
            == self.held(a) by {
            self.lemma_held(a);
            other.lemma_held(a);
            self.lemma_block(a, a0);
            if self.set_start(a) <= e < self.set_start(a) + self.ways() {
                self.lemma_same_set(a, a0, e);
            }
            self.lemma_search_after_store(other, e, a);
        }
        assert forall|a: u32| same_block(self.layout, a, a0) implies #[trigger] other.held(a)
            == other.held(a0) by {
            other.lemma_block(a, a0);
        }
        if self.protocol.find(a0) is None {
            self.lemma_search_after_store(other, e, a0);
        } else if other.keys()[e] == Some(self.layout.tag_of(a0)) {
            assert(other.set_start(a0) <= e);
        } else {
            self.lemma_search_after_store(other, e, a0);
            assert(other.vacant(e));
        }
    }

    /// How an access that the protocol takes changes what the cache holds, where the
    /// slot written is `target`, which carried and carries the tag of `addr` or carries
    /// it from now on: the block of `addr` is held in the state written, the block that
    /// the slot held before is not held any more, and every other block is held as
    /// before.
    pub proof fn lemma_held_after_access(self, other: CacheView, addr: u32, target: int)
        requires
            self.wf(),
            other.wf(),
            other.layout == self.layout,
            other.lru.ways == self.lru.ways,
            self.set_start(addr) <= target < self.set_start(addr) + self.ways(),
            other.tags == self.tags.update(target, self.layout.tag_of(addr)),
            !(other.protocol.state(target) is Invalid),
            self.search(addr) == Some(target as usize) || self.search(addr) is None,
            forall|i: int|
                0 <= i < self.tags.len() && i != target ==> #[trigger] other.protocol.state(i)
                    == self.protocol.state(i),
        ensures
            forall|a: u32|
                same_block(self.layout, a, addr) ==> #[trigger] other.held(a)
                    == other.protocol.state(target),
            forall|a: u32|
                !same_block(self.layout, a, addr) ==> #[trigger] other.held(a) == self.held(a)
                    || other.held(a) is Invalid,
    {
        self.lemma_set(addr);
        assert forall|i: int| 0 <= i < self.tags.len() && i != target implies #[trigger] other.keys()[i]
            == self.keys()[i] by {
            assert(other.protocol.state(i) == self.protocol.state(i));
        }
        assert(other.keys()[target] == Some(self.layout.tag_of(addr)));
        assert forall|a: u32| same_block(self.layout, a, addr) implies #[trigger] other.held(a)
            == other.protocol.state(target) by {
            other.lemma_held(a);
            other.lemma_set(a);
            assert(other.set_start(a) <= target && other.keys()[target] == Some(
                other.layout.tag_of(a),
            ));
        }
        assert forall|a: u32| !same_block(self.layout, a, addr) implies #[trigger] other.held(a)
            == self.held(a) || other.held(a) is Invalid by {
            self.lemma_held(a);
            other.lemma_held(a);
            if self.set_start(a) <= target < self.set_start(a) + self.ways() {
                self.lemma_same_set(a, addr, target);
            }
            self.lemma_search_after_store(other, target, a);
        }
    }

    /// How a load changes what the cache holds and what is on the bus. The bus is left
    /// alone, or it was free and now holds a write-back or a read from memory of this
    /// cache for the address loaded, whose block the cache then holds exclusively.
    /// Every block is held as before, or not any more, or is the block loaded.
    pub proof fn lemma_loaded_held(self, addr: u32, bus: BusView)
        requires
            self.wf(),
        ensures
            self.issues(self.loaded(addr, bus).0, bus, self.loaded(addr, bus).1),
    {
        self.lemma_set(addr);
        self.lemma_loaded(addr, bus);
        self.lemma_accepts(addr, ProcessorAction::Read, bus.task is Some);
        let r = self.loaded(addr, bus);
        let hit = self.search(addr);
        let evict = self.evict_slot(addr);
        if hit is None && self.protocol.state(evict).is_owner() {
            if bus.task is None {
                self.protocol.lemma_invalidated(evict);
                assert(r.0.vacant(evict));
                assert forall|i: int|
                    0 <= i < self.tags.len() && i != evict implies #[trigger] r.0.keys()[i]
                    == self.keys()[i] by {
                    assert(r.0.protocol.state(i) == self.protocol.state(i));
                }
                assert forall|a: u32| #[trigger] r.0.held(a) == self.held(a) || r.0.held(a) is Invalid by {
                    self.lemma_held(a);
                    r.0.lemma_held(a);
                    self.lemma_search_after_store(r.0, evict, a);
                }
            }
        } else {
            self.protocol.lemma_processed(
                addr,
                hit,
                evict as usize,
                hit is Some,
                ProcessorAction::Read,
                bus.task is Some,
            );
            let (protocol, action) = self.protocol.processed(
                addr,
                hit,
                evict as usize,
                hit is Some,
                ProcessorAction::Read,
                bus.task is Some,
            );
            if !(action is Some && bus.task is Some) {
                let target = if hit is Some {
                    hit.unwrap() as int
                } else {
                    evict
                };
                if hit is Some {
                    assert(r.0.tags =~= self.tags.update(target, self.layout.tag_of(addr)));
                }
                self.lemma_held_after_access(r.0, addr, target);
                self.lemma_held(addr);
                r.0.lemma_held(addr);
                assert(same_block(self.layout, addr, addr));
                assert forall|a: u32| same_block(self.layout, a, addr) implies self.held(a)
                    == self.held(addr) by {
                    self.lemma_block(a, addr);
                }
            }
        }
    }

    /// How a store changes what the cache holds and what is on the bus: as a load does,
    /// but that what it puts on the bus is an exclusive read or an update, and the
    /// block is then held modified.
    pub proof fn lemma_stored_held(self, addr: u32, bus: BusView)
        requires
            self.wf(),
            self.pending.len() <= 1,
            self.search(addr) is None ==> self.pending.len() == 0,
        ensures
            self.issues(self.stored(addr, bus).0, bus, self.stored(addr, bus).1),
    {
        self.lemma_set(addr);
        self.lemma_stored(addr, bus);
        let r = self.stored(addr, bus);
        if self.search(addr) is Some {
            let idx = self.search(addr).unwrap();
            self.lemma_accepts(addr, ProcessorAction::Write, bus.task is Some);
            self.protocol.lemma_processed(
                addr,
                Some(idx),
                idx,
                true,
                ProcessorAction::Write,
                bus.task is Some,
            );
            let (protocol, action) = self.protocol.processed(
                addr,
                Some(idx),
                idx,
                true,
                ProcessorAction::Write,
                bus.task is Some,
            );
            if !(action is Some && bus.task is Some) {
                assert(r.0.wf());
                assert(r.0.tags =~= self.tags.update(idx as int, self.layout.tag_of(addr)));
                self.lemma_held_after_access(r.0, addr, idx as int);
                self.lemma_held(addr);
                r.0.lemma_held(addr);
                assert(same_block(self.layout, addr, addr));
                assert forall|a: u32| same_block(self.layout, a, addr) implies self.held(a)
                    == self.held(addr) by {
                    self.lemma_block(a, addr);
                }
            }
        } else {
            assert(r.0.protocol == self.protocol);
        }
    }

    /// What a cycle of a cache may do to what it holds and to the bus. The bus is left
    /// alone, or it was free and now holds a transaction of this cache: a write-back,
    /// or a transaction to memory, whose block the cache then holds as the issuer of
    /// such a transaction does. Every block is held as
    /// before, or not any more, or was exclusive and is now modified, or is the block
    /// of the transaction issued.
    pub open spec fn issues(self, after: CacheView, bus: BusView, left: BusView) -> bool {
        &&& left == bus || {
            &&& bus.task is None
            &&& left.task is Some
            &&& left.task.unwrap().issuer_id == self.core_id
            &&& self.protocol.speaks(left.task.unwrap().action)
            &&& left.task.unwrap().action is Flush || {
                &&& from_memory(left.task.unwrap().action)
                &&& issuer_state(
                    left.task.unwrap().action,
                    after.held(left.task.unwrap().action.addr()),
                    Stage::Stepping,
                )
            }
        }
        &&& forall|a: u32|
            {
                ||| #[trigger] after.held(a) == self.held(a)
                ||| after.held(a) is Invalid
                ||| self.held(a) is Exclusive && after.held(a) is Modified
                ||| left != bus && !(left.task.unwrap().action is Flush) && same_block(
                    self.layout,
                    a,
                    left.task.unwrap().action.addr(),
                )
            }
    }

    /// A cycle of a cache does to what it holds and to the bus what `issues` says, and
    /// nothing at all while the cache waits for its own transaction.
    pub proof fn lemma_updated_held(self, bus: BusView)
        requires
            self.wf(),
            !self.overflows(bus),
        ensures
            self.issues(self.updated(bus).0, bus, self.updated(bus).1),
            self.waits_for(bus) ==> self.updated(bus).0 == self && self.updated(bus).1 == bus,
    {
        if !self.waits_for(bus) && self.pending.len() > 0 {
            let (addr, action) = self.pending[0];
            let rest = CacheView { pending: self.pending.skip(1), ..self };
            rest.lemma_rescheduled(self);
            match action {
                ProcessorAction::Read => {
                    rest.lemma_loaded_held(addr, bus);
                },
                ProcessorAction::Write => {
                    rest.lemma_stored_held(addr, bus);
                },
            }
            let r = self.updated(bus);
            assert forall|a: u32|
                {
                    ||| #[trigger] r.0.held(a) == self.held(a)
                    ||| r.0.held(a) is Invalid
                    ||| self.held(a) is Exclusive && r.0.held(a) is Modified
                    ||| r.1 != bus && !(r.1.task.unwrap().action is Flush) && same_block(
                        self.layout,
                        a,
                        r.1.task.unwrap().action.addr(),
                    )
                } by {
                assert(rest.held(a) == self.held(a));
                match action {
                    ProcessorAction::Read => {
                        assert(rest.loaded(addr, bus).0.held(a) == r.0.held(a));
                    },
                    ProcessorAction::Write => {
                        assert(rest.stored(addr, bus).0.held(a) == r.0.held(a));
                    },
                }
            }
        }
    }
}

/// Whether two caches may hold a block in these states at once: beside an exclusive or
/// a modified copy there is no other, and no two caches own a block.
pub open spec fn compatible(x: LineState, y: LineState) -> bool {
    &&& x.is_exclusive() ==> y is Invalid
    &&& y.is_exclusive() ==> x is Invalid
    &&& !(x is SharedModified && y is SharedModified)
}

/// What holds of the copy of a cache other than the issuer while a transaction for the
/// block is on the bus. A transaction that goes to memory was not answered by any cache
/// that has snooped it: such a cache holds no copy. One that a cache answered leaves no
/// exclusive copy anywhere, and a cache that has snooped it holds no copy after an
/// exclusive read and a clean one, if any, after an update.
pub open spec fn answered(action: BusAction, state: LineState, snooped: bool) -> bool {
    match action {
        BusAction::BusRdMem(_, _) | BusAction::BusRdXMem(_, _) | BusAction::BusUpdMem(_, _) => snooped
            ==> state is Invalid,
        BusAction::BusRdShared(_, _) => !state.is_exclusive(),
        BusAction::BusRdXShared(_, _) => !state.is_exclusive() && (snooped ==> state is Invalid),
        BusAction::BusUpdShared(_, _) => !state.is_exclusive() && (snooped ==> state is Invalid
            || state is Shared),
        BusAction::Flush(_, _) => true,
    }
}

/// The caches are well formed, numbered in order, and of one shape and protocol.
pub open spec fn alike(caches: Seq<CacheView>) -> bool {
    forall|i: int|
        0 <= i < caches.len() ==> {
            &&& (#[trigger] caches[i]).wf()
            &&& caches[i].core_id == i
            &&& caches[i].layout == caches[0].layout
            &&& caches[i].block_size == caches[0].block_size
            &&& caches[i].protocol.kind() == caches[0].protocol.kind()
        }
}

/// What holds of the copies that caches `i` and `j` hold of the block of `a`, of which
/// the first `k` caches have snooped. Where `i` is the issuer of the transaction on the
/// bus and the block is the one that the transaction is about, the copy of `j` is as
/// `answered` says. In every other case the two copies are compatible.
pub open spec fn pair_ok(
    caches: Seq<CacheView>,
    task: Option<Task>,
    k: int,
    i: int,
    j: int,
    a: u32,
) -> bool {
    if task is Some && !(task.unwrap().action is Flush) && same_block(
        caches[0].layout,
        a,
        task.unwrap().action.addr(),
    ) && (i == task.unwrap().issuer_id || j == task.unwrap().issuer_id) {
        i == task.unwrap().issuer_id ==> answered(task.unwrap().action, caches[j].held(a), j < k)
    } else {
        compatible(caches[i].held(a), caches[j].held(a))
    }
}

/// Every two caches hold every block in compatible states.
pub open spec fn coherent(caches: Seq<CacheView>) -> bool {
    forall|i: int, j: int, a: u32|
        0 <= i < caches.len() && 0 <= j < caches.len() && i != j ==> #[trigger] pair_ok(
            caches,
            None,
            0,
            i,
            j,
            a,
        )
}

/// The state that the caches and the bus keep to throughout a cycle, of which the first
/// `k` caches have snooped and which has come to `stage`. A transaction on the bus was
/// issued by one of the caches and is one that their protocol knows; unless it is a
/// write-back, its issuer holds the block as `issuer_state` says. And every two caches
/// hold every block as `pair_ok` says.
pub open spec fn orderly(caches: Seq<CacheView>, bus: BusView, k: int, stage: Stage) -> bool {
    &&& alike(caches)
    &&& match bus.task {
        Some(t) => {
            &&& t.issuer_id < caches.len()
            &&& caches[0].protocol.speaks(t.action)
            &&& !(t.action is Flush) ==> issuer_state(
                t.action,
                caches[t.issuer_id as int].held(t.action.addr()),
                stage,
            )
        },
        None => true,
    }
    &&& forall|i: int, j: int, a: u32|
        0 <= i < caches.len() && 0 <= j < caches.len() && i != j ==> #[trigger] pair_ok(
            caches,
            bus.task,
            k,
            i,
            j,
            a,
        )
}

/// The stage to which a cycle has come when the first `k` caches have had their turn
/// at settling: the issuer has settled if it is among them.
pub open spec fn settling(bus: BusView, k: int) -> Stage {
    match bus.task {
        Some(t) => if t.issuer_id < k {
            Stage::Settled
        } else {
            Stage::Snooped
        },
        None => Stage::Settled,
    }
}

/// The caches with cache `c` replaced.
pub open spec fn with_cache(caches: Seq<CacheView>, c: int, cache: CacheView) -> Seq<CacheView> {
    caches.update(c, cache)
}

/// At the end of a cycle every two caches hold every block in compatible states.
pub proof fn lemma_settled_coherent(caches: Seq<CacheView>, bus: BusView)
    requires
        orderly(caches, bus, caches.len() as int, Stage::Settled),
    ensures
        coherent(caches),
{
    assert forall|i: int, j: int, a: u32|
        0 <= i < caches.len() && 0 <= j < caches.len() && i != j implies #[trigger] pair_ok(
        caches,
        None,
        0,
        i,
        j,
        a,
    ) by {
        let n = caches.len() as int;
        assert(pair_ok(caches, bus.task, n, i, j, a));
        assert(pair_ok(caches, bus.task, n, j, i, a));
        assert(caches[i].wf() && caches[j].wf());
        if bus.task is Some {
            let t = bus.task.unwrap();
            caches[t.issuer_id as int].lemma_block(a, t.action.addr());
        }
    }
}

/// The state at the end of a cycle is one from which the next cycle can start, also
/// after the bus has counted the cycle.
pub proof fn lemma_next_cycle(caches: Seq<CacheView>, bus: BusView)
    requires
        orderly(caches, bus, caches.len() as int, Stage::Settled),
    ensures
        orderly(caches, bus.updated(), 0, Stage::Stepping),
        orderly(caches, bus.updated(), caches.len() as int, Stage::Settled),
{
    lemma_settled_coherent(caches, bus);
    let n = caches.len() as int;
    assert forall|i: int, j: int, a: u32|
        0 <= i < caches.len() && 0 <= j < caches.len() && i != j implies #[trigger] pair_ok(
        caches,
        bus.updated().task,
        0,
        i,
        j,
        a,
    ) by {
        assert(pair_ok(caches, bus.task, n, i, j, a));
        assert(pair_ok(caches, None, 0, i, j, a));
    }
    assert forall|i: int, j: int, a: u32|
        0 <= i < caches.len() && 0 <= j < caches.len() && i != j implies #[trigger] pair_ok(
        caches,
        bus.updated().task,
        n,
        i,
        j,
        a,
    ) by {
        assert(pair_ok(caches, bus.task, n, i, j, a));
        assert(pair_ok(caches, None, 0, i, j, a));
    }
}

/// What the caches keep to while the cores step is what they keep to before the first
/// of them snoops.
pub proof fn lemma_start_snoop(caches: Seq<CacheView>, bus: BusView)
    requires
        orderly(caches, bus, 0, Stage::Stepping),
    ensures
        orderly(caches, bus, 0, Stage::Snooped),
{
    assert forall|i: int, j: int, a: u32|
        0 <= i < caches.len() && 0 <= j < caches.len() && i != j implies #[trigger] pair_ok(
        caches,
        bus.task,
        0,
        i,
        j,
        a,
    ) by {
        assert(pair_ok(caches, bus.task, 0, i, j, a));
    }
}

/// A step of cache `c` keeps the caches and the bus orderly.
pub proof fn lemma_step_orderly(
    caches: Seq<CacheView>,
    bus: BusView,
    c: int,
    after: CacheView,
    left: BusView,
)
    requires
        orderly(caches, bus, 0, Stage::Stepping),
        0 <= c < caches.len(),
        caches[c].issues(after, bus, left),
        caches[c].waits_for(bus) ==> after == caches[c] && left == bus,
        after.wf(),
        after.core_id == c,
        after.layout == caches[c].layout,
        after.block_size == caches[c].block_size,
        after.protocol.same_shape(caches[c].protocol),
    ensures
        orderly(with_cache(caches, c, after), left, 0, Stage::Stepping),
{
    let next = with_cache(caches, c, after);
    let layout = caches[0].layout;
    assert(caches[c].wf() && caches[0].wf());
    assert(alike(next)) by {
        assert forall|i: int| 0 <= i < next.len() implies {
            &&& (#[trigger] next[i]).wf()
            &&& next[i].core_id == i
            &&& next[i].layout == next[0].layout
            &&& next[i].block_size == next[0].block_size
            &&& next[i].protocol.kind() == next[0].protocol.kind()
        } by {
            assert(caches[i].wf());
        }
    }
    if left.task is Some && !(left.task.unwrap().action is Flush) {
        let t = left.task.unwrap();
        if left == bus {
            let i0 = t.issuer_id as int;
            if i0 == c {
                assert(caches[c].waits_for(bus));
            }
        }
    }
    assert forall|i: int, j: int, a: u32|
        0 <= i < next.len() && 0 <= j < next.len() && i != j implies #[trigger] pair_ok(
        next,
        left.task,
        0,
        i,
        j,
        a,
    ) by {
        assert(pair_ok(caches, bus.task, 0, i, j, a));
        assert(pair_ok(caches, bus.task, 0, j, i, a));
        assert(caches[i].wf() && caches[j].wf());
        if i == c || j == c {
            let h = after.held(a);
            assert(h == caches[c].held(a) || h is Invalid || (caches[c].held(a) is Exclusive
                && h is Modified) || (left != bus && !(left.task.unwrap().action is Flush)
                && same_block(caches[c].layout, a, left.task.unwrap().action.addr())));
        }
    }
}

/// What the turn of a cache does to the copy that it holds of the block of a
/// transaction of another cache, and to the transaction: `state` and `action` before,
/// `next` and `left` after. An invalid copy and the transaction stay as they are. A
/// valid copy answers: a read becomes a shared read and leaves the copy shared, or owned
/// where the cache owned the block; an exclusive read becomes a shared one and leaves
/// no copy; an update becomes a shared one and leaves the copy shared.
pub open spec fn snoop_effect(
    action: BusAction,
    state: LineState,
    left: BusAction,
    next: LineState,
) -> bool {
    &&& left.addr() == action.addr()
    &&& left.size() == action.size()
    &&& if state is Invalid {
        next is Invalid && left == action
    } else {
        match action {
            BusAction::BusRdMem(_, _) | BusAction::BusRdShared(_, _) => {
                &&& left is BusRdShared
                &&& next is Shared || (next is SharedModified && state.is_owner())
            },
            BusAction::BusRdXMem(_, _) | BusAction::BusRdXShared(_, _) => {
                &&& left is BusRdXShared
                &&& next is Invalid
            },
            BusAction::BusUpdMem(_, _) | BusAction::BusUpdShared(_, _) => {
                &&& left is BusUpdShared
                &&& next is Shared
            },
            BusAction::Flush(_, _) => left == action && next == state,
        }
    }
}

/// What read broadcast does to the copy of a cache and to the transaction: nothing, or
/// the cache had no copy and now has a shared one, and the read is a shared read.
pub open spec fn snarf_effect(
    action: BusAction,
    state: LineState,
    left: BusAction,
    next: LineState,
) -> bool {
    ||| left == action && next == state
    ||| {
        &&& state is Invalid
        &&& next is Shared
        &&& action is BusRdMem || action is BusRdShared
        &&& left == BusAction::BusRdShared(action.addr(), action.size())
    }
}

/// What follows for the states of other caches from what a snooping cache did.
proof fn lemma_snoop_states(
    action: BusAction,
    state: LineState,
    left: BusAction,
    next: LineState,
    other: LineState,
    issuer: LineState,
    snooped: bool,
)
    requires
        snoop_effect(action, state, left, next),
    ensures
        compatible(state, other) ==> compatible(next, other) && compatible(other, next),
        compatible(state, other) && answered(action, other, snooped) ==> answered(
            left,
            other,
            snooped,
        ),
        answered(action, state, false) ==> answered(left, next, true),
        issuer_state(action, issuer, Stage::Snooped) ==> issuer_state(
            left,
            issuer,
            Stage::Snooped,
        ),
        left is Flush == action is Flush,
{
}

/// What follows for the states of other caches from what read broadcast did in one.
proof fn lemma_snarf_states(
    action: BusAction,
    state: LineState,
    left: BusAction,
    next: LineState,
    other: LineState,
    issuer: LineState,
)
    requires
        snarf_effect(action, state, left, next),
        answered(action, state, true),
    ensures
        compatible(state, other) && answered(action, other, true) ==> compatible(next, other)
            && compatible(other, next),
        answered(action, other, true) ==> answered(left, other, true),
        answered(left, next, true),
        issuer_state(action, issuer, Stage::Snooped) ==> issuer_state(
            left,
            issuer,
            Stage::Snooped,
        ),
        left is Flush == action is Flush,
{
}

impl CacheView {
    /// Without a transaction on the bus, or with its own, the turn of a cache at
    /// snooping or at read broadcast changes nothing; and so does its turn at settling
    /// without a transaction or with that of another cache.
    pub proof fn lemma_idle(self, bus: BusView)
        requires
            self.wf(),
        ensures
            bus.task is None || bus.task.unwrap().issuer_id == self.core_id ==> self.snooped(bus)
                == (self, bus) && self.snarfed(bus) == (self, bus),
            bus.task is None || bus.task.unwrap().issuer_id != self.core_id ==> self.settled(bus)
                == (self, bus),
    {
        if bus.task is None || bus.task.unwrap().issuer_id == self.core_id {
            assert(self.snooped(bus).0.protocol == self.protocol);
            assert(self.snarfed(bus).0.protocol == self.protocol);
        }
        if bus.task is None || bus.task.unwrap().issuer_id != self.core_id {
            assert(self.settled(bus).0.protocol == self.protocol);
        }
    }

    /// What the turn of a cache at snooping the transaction of another does: the cache
    /// stays well formed and of its shape, the transaction stays that of its issuer,
    /// the copy of the block of the transaction and the transaction change as
    /// `snoop_effect` says, and every other block is held as before.
    pub proof fn lemma_snoop_local(self, bus: BusView)
        requires
            self.wf(),
            bus.task is Some,
            bus.task.unwrap().issuer_id != self.core_id,
            self.protocol.speaks(bus.task.unwrap().action),
            self.protocol.snoop_allowed(bus.task),
        ensures
            ({
                let after = self.snooped(bus).0;
                let left = self.snooped(bus).1;
                let t = bus.task.unwrap();
                let a0 = t.action.addr();
                &&& self.kept(after)
                &&& left.task is Some
                &&& left.task.unwrap().issuer_id == t.issuer_id
                &&& snoop_effect(
                    t.action,
                    self.held(a0),
                    left.task.unwrap().action,
                    after.held(a0),
                )
                &&& forall|a: u32|
                    !same_block(self.layout, a, a0) ==> #[trigger] after.held(a) == self.held(a)
                &&& forall|a: u32|
                    same_block(self.layout, a, a0) ==> #[trigger] after.held(a) == after.held(a0)
                        && self.held(a) == self.held(a0)
            }),
    {
        let t = bus.task.unwrap();
        let a0 = t.action.addr();
        let after = self.snooped(bus).0;
        self.protocol.lemma_bus_steps(bus.task);
        self.lemma_bus_steps(bus);
        self.lemma_held(a0);
        if self.protocol.find(a0) is Some {
            self.protocol.lemma_snoop_table(t, self.protocol.find(a0).unwrap());
        }
        self.lemma_held_after_states(after, a0);
        assert forall|a: u32| same_block(self.layout, a, a0) implies self.held(a) == self.held(
            a0,
        ) by {
            self.lemma_block(a, a0);
        }
    }

    /// What the turn of a cache at read broadcast of the transaction of another does.
    pub proof fn lemma_snarf_local(self, bus: BusView)
        requires
            self.wf(),
            self.protocol is Mesi,
            bus.task is Some,
            bus.task.unwrap().issuer_id != self.core_id,
        ensures
            ({
                let after = self.snarfed(bus).0;
                let left = self.snarfed(bus).1;
                let t = bus.task.unwrap();
                let a0 = t.action.addr();
                &&& self.kept(after)
                &&& left.task is Some
                &&& left.task.unwrap().issuer_id == t.issuer_id
                &&& snarf_effect(
                    t.action,
                    self.held(a0),
                    left.task.unwrap().action,
                    after.held(a0),
                )
                &&& forall|a: u32|
                    !same_block(self.layout, a, a0) ==> #[trigger] after.held(a) == self.held(a)
                &&& forall|a: u32|
                    same_block(self.layout, a, a0) ==> #[trigger] after.held(a) == after.held(a0)
                        && self.held(a) == self.held(a0)
            }),
    {
        let t = bus.task.unwrap();
        let a0 = t.action.addr();
        let after = self.snarfed(bus).0;
        self.protocol.lemma_bus_steps(bus.task);
        self.lemma_bus_steps(bus);
        self.lemma_held(a0);
        if self.protocol.find(a0) is Some {
            self.protocol.lemma_snarf_table(t, self.protocol.find(a0).unwrap());
        }
        self.lemma_held_after_states(after, a0);
        assert forall|a: u32| same_block(self.layout, a, a0) implies self.held(a) == self.held(
            a0,
        ) by {
            self.lemma_block(a, a0);
        }
    }

    /// What the turn of the issuer at settling does: the cache stays well formed and of
    /// its shape; an update that no cache answered is taken off the bus and the copy
    /// stays as it is; any other transaction stays, and the copy is then as that of an
    /// issuer that has settled; and every other block is held as before.
    pub proof fn lemma_settle_local(self, bus: BusView)
        requires
            self.wf(),
            bus.task is Some,
            bus.task.unwrap().issuer_id == self.core_id,
            self.protocol.speaks(bus.task.unwrap().action),
            !(bus.task.unwrap().action is Flush) ==> issuer_state(
                bus.task.unwrap().action,
                self.held(bus.task.unwrap().action.addr()),
                Stage::Snooped,
            ),
        ensures
            ({
                let after = self.settled(bus).0;
                let left = self.settled(bus).1;
                let t = bus.task.unwrap();
                let a0 = t.action.addr();
                &&& self.kept(after)
                &&& self.holds_own(bus)
                &&& if t.action is BusUpdMem {
                    left.task is None && after.held(a0) == self.held(a0)
                } else {
                    left.task == Some(t) && if t.action is Flush {
                        after.held(a0) == self.held(a0)
                    } else {
                        issuer_state(t.action, after.held(a0), Stage::Settled)
                    }
                }
                &&& forall|a: u32|
                    !same_block(self.layout, a, a0) ==> #[trigger] after.held(a) == self.held(a)
                &&& forall|a: u32|
                    same_block(self.layout, a, a0) ==> #[trigger] after.held(a) == after.held(a0)
                        && self.held(a) == self.held(a0)
            }),
    {
        let t = bus.task.unwrap();
        let a0 = t.action.addr();
        let after = self.settled(bus).0;
        self.protocol.lemma_bus_steps(bus.task);
        self.lemma_bus_steps(bus);
        self.lemma_held(a0);
        if self.protocol.find(a0) is Some && !(t.action is Flush) {
            self.protocol.lemma_settle_table(t, self.protocol.find(a0).unwrap());
        }
        if t.action is Flush {
            match self.protocol {
                ProtocolView::Mesi(m) => {
                    m.lemma_set_in_table(a0);
                },
                ProtocolView::Dragon(d) => {
                    d.lemma_set_in_table(a0);
                },
            }
        }
        self.lemma_held_after_states(after, a0);
        assert forall|a: u32| same_block(self.layout, a, a0) implies self.held(a) == self.held(
            a0,
        ) by {
            self.lemma_block(a, a0);
        }
    }

    /// Whether `after` is a well-formed cache of the number, shape and protocol of
    /// `self`.
    pub open spec fn kept(self, after: CacheView) -> bool {
        &&& after.wf()
        &&& after.core_id == self.core_id
        &&& after.layout == self.layout
        &&& after.block_size == self.block_size
        &&& after.protocol.kind() == self.protocol.kind()
    }
}

/// Replacing a cache by one of its number, shape and protocol leaves the caches alike.
pub proof fn lemma_alike(caches: Seq<CacheView>, c: int, after: CacheView)
    requires
        alike(caches),
        0 <= c < caches.len(),
        caches[c].kept(after),
    ensures
        alike(with_cache(caches, c, after)),
{
    let next = with_cache(caches, c, after);
    assert forall|i: int| 0 <= i < next.len() implies {
        &&& (#[trigger] next[i]).wf()
        &&& next[i].core_id == i
        &&& next[i].layout == next[0].layout
        &&& next[i].block_size == next[0].block_size
        &&& next[i].protocol.kind() == next[0].protocol.kind()
    } by {
        assert(caches[i].wf());
        assert(caches[0].wf());
        assert(caches[c].wf());
    }
}

/// The turn of cache `k` at snooping is allowed, and keeps the caches and the bus
/// orderly.
pub proof fn lemma_snoop_orderly(caches: Seq<CacheView>, bus: BusView, k: int)
    requires
        orderly(caches, bus, k, Stage::Snooped),
        0 <= k < caches.len(),
    ensures
        caches[k].protocol.snoop_allowed(bus.task),
        orderly(
            with_cache(caches, k, caches[k].snooped(bus).0),
            caches[k].snooped(bus).1,
            k + 1,
            Stage::Snooped,
        ),
{
    let me = caches[k];
    let after = me.snooped(bus).0;
    let left = me.snooped(bus).1;
    let next = with_cache(caches, k, after);
    let layout = caches[0].layout;
    assert(me.wf() && caches[0].wf());
    me.lemma_idle(bus);
    if bus.task is Some && bus.task.unwrap().issuer_id != k {
        let t = bus.task.unwrap();
        let a0 = t.action.addr();
        let i0 = t.issuer_id as int;
        assert(caches[i0].wf());
        assert(me.protocol.speaks(t.action));
        if !(t.action is Flush) {
            assert(pair_ok(caches, bus.task, k, i0, k, a0));
        }
        assert(me.protocol.snoop_allowed(bus.task)) by {
            me.lemma_held(a0);
        }
        me.lemma_snoop_local(bus);
        lemma_alike(caches, k, after);
        let act = t.action;
        let lact = left.task.unwrap().action;
        let s = me.held(a0);
        let s2 = after.held(a0);
        lemma_snoop_states(act, s, lact, s2, s, caches[i0].held(a0), false);
        assert forall|i: int, j: int, a: u32|
            0 <= i < next.len() && 0 <= j < next.len() && i != j implies #[trigger] pair_ok(
            next,
            left.task,
            k + 1,
            i,
            j,
            a,
        ) by {
            assert(pair_ok(caches, bus.task, k, i, j, a));
            let x = caches[i].held(a);
            let y = caches[j].held(a);
            if same_block(layout, a, a0) {
                if i == k {
                    lemma_snoop_states(act, s, lact, s2, y, y, j < k);
                } else if j == k {
                    lemma_snoop_states(act, s, lact, s2, x, x, false);
                    if i != i0 {
                        assert(pair_ok(caches, bus.task, k, k, i, a));
                    }
                } else if i == i0 {
                    assert(pair_ok(caches, bus.task, k, k, j, a));
                    lemma_snoop_states(act, s, lact, s2, y, y, j < k);
                }
            }
        }
    } else {
        assert(next =~= caches);
        assert forall|i: int, j: int, a: u32|
            0 <= i < next.len() && 0 <= j < next.len() && i != j implies #[trigger] pair_ok(
            next,
            left.task,
            k + 1,
            i,
            j,
            a,
        ) by {
            assert(pair_ok(caches, bus.task, k, i, j, a));
        }
    }
}

/// The turn of cache `k` at read broadcast keeps the caches and the bus orderly.
pub proof fn lemma_snarf_orderly(caches: Seq<CacheView>, bus: BusView, k: int)
    requires
        orderly(caches, bus, caches.len() as int, Stage::Snooped),
        0 <= k < caches.len(),
        caches[k].protocol is Mesi,
    ensures
        orderly(
            with_cache(caches, k, caches[k].snarfed(bus).0),
            caches[k].snarfed(bus).1,
            caches.len() as int,
            Stage::Snooped,
        ),
{
    let n = caches.len() as int;
    let me = caches[k];
    let after = me.snarfed(bus).0;
    let left = me.snarfed(bus).1;
    let next = with_cache(caches, k, after);
    let layout = caches[0].layout;
    assert(me.wf() && caches[0].wf());
    me.lemma_idle(bus);
    if bus.task is Some && bus.task.unwrap().issuer_id != k {
        let t = bus.task.unwrap();
        let a0 = t.action.addr();
        let i0 = t.issuer_id as int;
        assert(caches[i0].wf());
        me.lemma_snarf_local(bus);
        lemma_alike(caches, k, after);
        let act = t.action;
        let lact = left.task.unwrap().action;
        let s = me.held(a0);
        let s2 = after.held(a0);
        if !(act is Flush) {
            assert(pair_ok(caches, bus.task, n, i0, k, a0));
            lemma_snarf_states(act, s, lact, s2, s, caches[i0].held(a0));
        }
        assert forall|i: int, j: int, a: u32|
            0 <= i < next.len() && 0 <= j < next.len() && i != j implies #[trigger] pair_ok(
            next,
            left.task,
            n,
            i,
            j,
            a,
        ) by {
            assert(pair_ok(caches, bus.task, n, i, j, a));
            let x = caches[i].held(a);
            let y = caches[j].held(a);
            if same_block(layout, a, a0) && !(act is Flush) {
                if i == k {
                    if j != i0 {
                        assert(pair_ok(caches, bus.task, n, i0, j, a));
                    }
                    lemma_snarf_states(act, s, lact, s2, y, y);
                } else if j == k {
                    if i != i0 {
                        assert(pair_ok(caches, bus.task, n, i0, i, a));
                        assert(pair_ok(caches, bus.task, n, k, i, a));
                    }
                    lemma_snarf_states(act, s, lact, s2, x, x);
                } else if i == i0 {
                    lemma_snarf_states(act, s, lact, s2, y, y);
                }
            }
        }
    } else {
        assert(next =~= caches);
        assert forall|i: int, j: int, a: u32|
            0 <= i < next.len() && 0 <= j < next.len() && i != j implies #[trigger] pair_ok(
            next,
            left.task,
            n,
            i,
            j,
            a,
        ) by {
            assert(pair_ok(caches, bus.task, n, i, j, a));
        }
    }
}

/// The turn of cache `k` at settling finds what it classifies, and keeps the caches
/// and the bus orderly.
pub proof fn lemma_settle_orderly(caches: Seq<CacheView>, bus: BusView, k: int)
    requires
        orderly(caches, bus, caches.len() as int, settling(bus, k)),
        0 <= k < caches.len(),
    ensures
        caches[k].holds_own(bus),
        orderly(
            with_cache(caches, k, caches[k].settled(bus).0),
            caches[k].settled(bus).1,
            caches.len() as int,
            settling(caches[k].settled(bus).1, k + 1),
        ),
{
    let n = caches.len() as int;
    let me = caches[k];
    let after = me.settled(bus).0;
    let left = me.settled(bus).1;
    let next = with_cache(caches, k, after);
    let layout = caches[0].layout;
    assert(me.wf() && caches[0].wf());
    me.lemma_idle(bus);
    if bus.task is Some && bus.task.unwrap().issuer_id == k {
        let t = bus.task.unwrap();
        let a0 = t.action.addr();
        me.lemma_settle_local(bus);
        lemma_alike(caches, k, after);
        assert(next[k] == after);
        assert(next[0].layout == layout);
        assert forall|i: int, j: int, a: u32|
            0 <= i < next.len() && 0 <= j < next.len() && i != j implies #[trigger] pair_ok(
            next,
            left.task,
            n,
            i,
            j,
            a,
        ) by {
            assert(pair_ok(caches, bus.task, n, i, j, a));
            assert(pair_ok(caches, bus.task, n, j, i, a));
            let x = caches[i].held(a);
            let y = caches[j].held(a);
            let h = after.held(a);
            let h0 = me.held(a);
            if i != k {
                assert(next[i] == caches[i]);
            }
            if j != k {
                assert(next[j] == caches[j]);
            }
            if same_block(layout, a, a0) {
                assert(h == after.held(a0) && h0 == me.held(a0));
                if t.action is BusUpdMem {
                    assert(left.task is None);
                    assert(h0 is Modified);
                    if i == k {
                        assert(y is Invalid);
                    } else if j == k {
                        assert(x is Invalid);
                    }
                } else {
                    assert(left.task == bus.task);
                }
            } else {
                assert(h == h0);
            }
        }
    } else {
        assert(next =~= caches);
        assert forall|i: int, j: int, a: u32|
            0 <= i < next.len() && 0 <= j < next.len() && i != j implies #[trigger] pair_ok(
            next,
            left.task,
            n,
            i,
            j,
            a,
        ) by {
            assert(pair_ok(caches, bus.task, n, i, j, a));
        }
    }
}

impl CacheView {
    /// A load of a block that the cache holds in a valid state is done at once: it
    /// counts as a hit and as an access to shared or to private data by the state of the
    /// block, leaves the bus and the state alone, and misses nothing.
    pub proof fn lemma_load_hit(self, addr: u32, bus: BusView)
        requires
            self.wf(),
            !(self.held(addr) is Invalid),
        ensures
            ({
                let r = self.loaded(addr, bus);
                &&& r.2
                &&& r.1 == bus
                &&& r.0.stats == self.stats.hit().accessed(self.held(addr).is_shared())
                &&& r.0.held(addr) == self.held(addr)
                &&& r.0.tags == self.tags
            }),
    {
        self.lemma_held(addr);
        self.lemma_set(addr);
        self.lemma_accepts(addr, ProcessorAction::Read, bus.task is Some);
        let idx = self.search(addr).unwrap();
        let r = self.loaded(addr, bus);
        self.lemma_loaded_held(addr, bus);
        self.lemma_loaded(addr, bus);
        r.0.lemma_held(addr);
        match self.protocol {
            ProtocolView::Mesi(m) => {
                m.lemma_set_in_table(addr);
            },
            ProtocolView::Dragon(d) => {
                d.lemma_set_in_table(addr);
            },
        }
        assert(r.0.protocol.state(idx as int) == self.protocol.state(idx as int));
        assert(r.0.keys()[idx as int] == Some(self.layout.tag_of(addr)));
        assert(r.0.set_start(addr) <= idx);
    }

    /// A load of a block that the cache does not store, into a set whose least recently
    /// used slot holds nothing that the cache owns, with the bus free: the load is
    /// done, counts as a miss, puts a read from memory of one block on the bus, and
    /// leaves the cache holding the block exclusively.
    pub proof fn lemma_load_miss(self, addr: u32, bus: BusView)
        requires
            self.wf(),
            self.search(addr) is None,
            bus.task is None,
            !self.protocol.state(self.evict_slot(addr)).is_owner(),
        ensures
            ({
                let r = self.loaded(addr, bus);
                &&& r.2
                &&& r.1 == bus.put_on(self.core_id, BusAction::BusRdMem(addr, self.block_size))
                &&& r.0.stats == self.stats.missed()
                &&& r.0.held(addr) is Exclusive
            }),
    {
        self.lemma_loaded_held(addr, bus);
        self.lemma_set(addr);
        self.lemma_accepts(addr, ProcessorAction::Read, false);
    }
}

/// A read from memory that another cache answers. The cache that held the block
/// exclusively or shared holds it shared once it has snooped, and the read has become a
/// shared read; the reader, which holds the block exclusively for its read, holds it
/// shared once it has settled.
pub proof fn lemma_read_shares(
    holder: CacheView,
    reader: CacheView,
    bus: BusView,
    addr: u32,
    size: usize,
)
    requires
        holder.wf(),
        reader.wf(),
        holder.layout == reader.layout,
        holder.core_id != reader.core_id,
        bus.task is Some,
        bus.task.unwrap().issuer_id == reader.core_id,
        bus.task.unwrap().action == BusAction::BusRdMem(addr, size),
        reader.held(addr) is Exclusive,
        holder.held(addr) is Exclusive || holder.held(addr) is Shared,
    ensures
        holder.snooped(bus).0.held(addr) is Shared,
        holder.snooped(bus).1.task is Some,
        holder.snooped(bus).1.task.unwrap().action == BusAction::BusRdShared(addr, size),
        holder.snooped(bus).1.task.unwrap().issuer_id == reader.core_id,
        reader.settled(holder.snooped(bus).1).0.held(addr) is Shared,
{
    reader.lemma_held(addr);
    holder.lemma_held(addr);
    holder.lemma_snoop_local(bus);
    let left = holder.snooped(bus).1;
    reader.lemma_settle_local(left);
}

impl Cache {
    /// The state in which the cache holds the block of `addr`.
    pub fn held(&self, addr: u32) -> (state: LineState)
        requires
            self@.wf(),
        ensures
            state == self@.held(addr),
    {
        proof {
            self@.lemma_held(addr);
            self@.lemma_set(addr);
        }
        match self.find(addr) {
            Some(idx) => self.state_at(idx),
            None => LineState::Invalid,
        }
    }
}

} // verus!
