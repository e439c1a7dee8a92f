use crate::bus::{Bus, BusAction, Task};
use crate::protocol::dragon::{Dragon, DragonState, DragonView};
use crate::protocol::mesi::{Mesi, MesiState, MesiView};
use crate::utils::AddressLayout;
use vstd::prelude::*;

pub mod dragon;
pub mod mesi;

verus! {

/// Tag stored in a slot that holds no block.
pub const PLACEHOLDER_TAG: u32 = 0;

/// What a processor asks of its cache.
#[derive(Clone, Copy, PartialEq, Eq, Structural, Debug)]
pub enum ProcessorAction {
    Read,
    Write,
}

/// The coherence protocols that can be simulated.
#[derive(Clone, Copy, Debug, PartialEq, Eq, Structural)]
pub enum ProtocolKind {
    Mesi,
    Dragon,
}

/// The first position in `lo..hi` at which `keys` holds `tag`.
pub open spec fn first_match(keys: Seq<Option<u32>>, tag: u32, lo: int, hi: int) -> Option<int>
    decreases hi - lo,
{
    if lo >= hi {
        None
    } else if keys[lo] == Some(tag) {
        Some(lo)
    } else {
        first_match(keys, tag, lo + 1, hi)
    }
}

/// `first_match` returns a position in range that holds the tag and before which no
/// position does, or nothing when no position in range holds it.
pub proof fn lemma_first_match(keys: Seq<Option<u32>>, tag: u32, lo: int, hi: int)
    ensures
        match first_match(keys, tag, lo, hi) {
            Some(i) => lo <= i < hi && keys[i] == Some(tag) && forall|j: int|
                lo <= j < i ==> keys[j] != Some(tag),
            None => forall|j: int| lo <= j < hi ==> keys[j] != Some(tag),
        },
    decreases hi - lo,
{
    if lo < hi && keys[lo] != Some(tag) {
        lemma_first_match(keys, tag, lo + 1, hi);
    }
}

/// A position in range that holds the tag, with none before it, is what `first_match`
/// finds.
pub proof fn lemma_first_match_is(keys: Seq<Option<u32>>, tag: u32, lo: int, hi: int, i: int)
    requires
        lo <= i < hi,
        keys[i] == Some(tag),
        forall|j: int| lo <= j < i ==> keys[j] != Some(tag),
    ensures
        first_match(keys, tag, lo, hi) == Some(i),
    decreases hi - lo,
{
    if lo < i {
        lemma_first_match_is(keys, tag, lo + 1, hi, i);
    }
}

/// Where no position in range holds the tag, `first_match` finds nothing.
pub proof fn lemma_first_match_none(keys: Seq<Option<u32>>, tag: u32, lo: int, hi: int)
    requires
        forall|j: int| lo <= j < hi ==> keys[j] != Some(tag),
    ensures
        first_match(keys, tag, lo, hi) is None,
    decreases hi - lo,
{
    if lo < hi {
        lemma_first_match_none(keys, tag, lo + 1, hi);
    }
}

} // verus!

verus! {

/// What a cache asks of its coherence protocol. The protocol keeps one entry per slot of
/// the cache and is told of every access of the processor and shown every transaction on
/// the bus.
pub trait Protocol {
    /// The table has an entry for every slot that an address can map to.
    spec fn wf(&self) -> bool;

    /// Number of entries of the table.
    spec fn slots(&self) -> nat;

    /// The accesses for which the processor-side transition is defined, and whose entries
    /// lie inside the table. `busy` tells whether the bus is occupied.
    spec fn accepts(
        &self,
        addr: u32,
        cache_idx: Option<usize>,
        store_idx: usize,
        hit: bool,
        action: ProcessorAction,
        busy: bool,
    ) -> bool;

    /// The bus states that this cache can snoop: all but those that the protocol rules out.
    spec fn snoop_allowed(&self, task: Option<Task>) -> bool;

    /// Whether entry `cache_idx` holds the block with tag `tag`.
    spec fn holds_line(&self, cache_idx: usize, tag: u32) -> bool;

    /// Whether the block of `addr` can be classified as shared or private at entry
    /// `cache_idx`, or, where `cache_idx` is `usize::MAX`, at the entry that holds it.
    spec fn classifiable(&self, cache_idx: usize, addr: u32) -> bool;

    /// Whether the protocol knows the read-broadcast optimization.
    spec fn broadcast_allowed(&self) -> bool;

    /// cache_idx contains the flat index of the already stored tag (if stored)
    /// store_idx contains the address at which the tag would be stored (useful if not stored yet)
    fn read(
        &mut self,
        tag: u32,
        cache_idx: Option<usize>,
        store_idx: usize,
        hit: bool,
        bus: &mut Bus,
    ) -> (action: Option<BusAction>)
        requires
            old(self).wf(),
            old(self).accepts(
                tag,
                cache_idx,
                store_idx,
                hit,
                ProcessorAction::Read,
                old(bus)@.task is Some,
            ),
        ensures
            final(self).wf(),
            final(self).slots() == old(self).slots(),
            final(bus)@ == old(bus)@,
    ;

    /// cache_idx contains the flat index of the already stored tag (if stored)
    /// store_idx contains the address at which the tag would be stored (useful if not stored yet)
    fn write(
        &mut self,
        tag: u32,
        cache_idx: Option<usize>,
        store_idx: usize,
        hit: bool,
        bus: &mut Bus,
    ) -> (action: Option<BusAction>)
        requires
            old(self).wf(),
            old(self).accepts(
                tag,
                cache_idx,
                store_idx,
                hit,
                ProcessorAction::Write,
                old(bus)@.task is Some,
            ),
        ensures
            final(self).wf(),
            final(self).slots() == old(self).slots(),
            final(bus)@ == old(bus)@,
    ;

    /// Reads bus state and eventually asks to change the current bus state (state transition)
    fn snoop(&mut self, bus: &mut Bus) -> (rewritten: Option<Task>)
        requires
            old(self).wf(),
            old(self).snoop_allowed(old(bus)@.task),
        ensures
            final(self).wf(),
            final(self).slots() == old(self).slots(),
            final(bus)@ == old(bus)@.with_task(
                if rewritten is Some {
                    rewritten
                } else {
                    old(bus)@.task
                },
            ),
    ;

    /// applies internal protocol state changes based on final bus state
    fn after_snoop(&mut self, bus: &mut Bus)
        requires
            old(self).wf(),
        ensures
            final(self).wf(),
            final(self).slots() == old(self).slots(),
            final(bus)@ == old(bus)@.with_task(final(bus)@.task),
    ;

    /// true if this cache is the owner of the line. Should cause a flush bus transaction.
    fn writeback_required(&self, cache_idx: usize, tag: u32) -> (owner: bool)
        requires
            self.wf(),
            self.holds_line(cache_idx, tag),
    ;

    /// mark cache line as invalid
    fn invalidate(&mut self, cache_idx: usize, tag: u32)
        requires
            old(self).wf(),
            old(self).holds_line(cache_idx, tag),
        ensures
            final(self).wf(),
            final(self).slots() == old(self).slots(),
    ;

    /// true if cache line with the supplied tag and index is shared
    fn is_shared(&self, cache_idx: usize, addr: u32) -> (shared: bool)
        requires
            self.wf(),
            self.classifiable(cache_idx, addr),
    ;

    /// receive the stored tag for the given cache idx (if any)
    fn sanity_check(&self, cache_idx: usize) -> (tag: Option<u32>)
        requires
            cache_idx < self.slots(),
    ;

    /// Read broadcast optimization
    fn read_broadcast(&mut self, bus: &mut Bus)
        requires
            old(self).wf(),
            old(self).broadcast_allowed(),
        ensures
            final(self).wf(),
            final(self).slots() == old(self).slots(),
            final(bus)@ == old(bus)@.with_task(final(bus)@.task),
    ;
}

} // verus!

verus! {

/// What a slot holds, in terms common to the protocols.
#[derive(Clone, Copy, PartialEq, Eq, Structural, Debug)]
pub enum LineState {
    /// No valid copy.
    Invalid,
    /// A clean copy that other caches may hold too.
    Shared,
    /// A modified copy that other caches may hold too; this cache owns the block.
    SharedModified,
    /// The only copy, and clean.
    Exclusive,
    /// The only copy, and modified.
    Modified,
}

impl LineState {
    /// Whether no other cache may hold the block.
    pub open spec fn is_exclusive(self) -> bool {
        self is Exclusive || self is Modified
    }

    /// Whether the cache must write the block back before it gives it up.
    pub open spec fn is_owner(self) -> bool {
        self is Modified || self is SharedModified
    }

    /// Whether other caches may hold the block too.
    pub open spec fn is_shared(self) -> bool {
        self is Shared || self is SharedModified
    }
}

/// The table of a cache, of the one protocol or the other.
pub enum CacheProtocol {
    Mesi(Mesi),
    Dragon(Dragon),
}

/// The table of a cache as a value.
#[verifier::ext_equal]
pub enum ProtocolView {
    Mesi(MesiView),
    Dragon(DragonView),
}

impl View for CacheProtocol {
    type V = ProtocolView;

    open spec fn view(&self) -> ProtocolView {
        match self {
            CacheProtocol::Mesi(m) => ProtocolView::Mesi(m@),
            CacheProtocol::Dragon(d) => ProtocolView::Dragon(d@),
        }
    }
}

impl ProtocolView {
    pub open spec fn kind(self) -> ProtocolKind {
        match self {
            ProtocolView::Mesi(_) => ProtocolKind::Mesi,
            ProtocolView::Dragon(_) => ProtocolKind::Dragon,
        }
    }

    pub open spec fn wf(self) -> bool {
        match self {
            ProtocolView::Mesi(m) => m.wf(),
            ProtocolView::Dragon(d) => d.wf(),
        }
    }

    pub open spec fn core_id(self) -> usize {
        match self {
            ProtocolView::Mesi(m) => m.core_id,
            ProtocolView::Dragon(d) => d.core_id,
        }
    }

    pub open spec fn block_size(self) -> usize {
        match self {
            ProtocolView::Mesi(m) => m.block_size,
            ProtocolView::Dragon(d) => d.block_size,
        }
    }

    pub open spec fn associativity(self) -> usize {
        match self {
            ProtocolView::Mesi(m) => m.associativity,
            ProtocolView::Dragon(d) => d.associativity,
        }
    }

    pub open spec fn layout(self) -> AddressLayout {
        match self {
            ProtocolView::Mesi(m) => m.layout,
            ProtocolView::Dragon(d) => d.layout,
        }
    }

    /// Number of entries of the table.
    pub open spec fn slots(self) -> nat {
        match self {
            ProtocolView::Mesi(m) => m.table.len(),
            ProtocolView::Dragon(d) => d.table.len(),
        }
    }

    /// Whether two tables are of the same protocol, cache and shape.
    pub open spec fn same_shape(self, other: ProtocolView) -> bool {
        match (self, other) {
            (ProtocolView::Mesi(a), ProtocolView::Mesi(b)) => a.same_shape(b),
            (ProtocolView::Dragon(a), ProtocolView::Dragon(b)) => a.same_shape(b),
            _ => false,
        }
    }

    /// What slot `idx` holds.
    pub open spec fn state(self, idx: int) -> LineState {
        match self {
            ProtocolView::Mesi(m) => match m.table[idx].0 {
                MesiState::M => LineState::Modified,
                MesiState::E => LineState::Exclusive,
                MesiState::S => LineState::Shared,
                MesiState::I => LineState::Invalid,
            },
            ProtocolView::Dragon(d) => match d.table[idx] {
                Some((DragonState::M, _)) => LineState::Modified,
                Some((DragonState::E, _)) => LineState::Exclusive,
                Some((DragonState::Sc, _)) => LineState::Shared,
                Some((DragonState::Sm, _)) => LineState::SharedModified,
                None => LineState::Invalid,
            },
        }
    }

    /// The tag that slot `idx` carries; the placeholder where it holds nothing.
    pub open spec fn tag(self, idx: int) -> u32 {
        match self {
            ProtocolView::Mesi(m) => m.table[idx].1,
            ProtocolView::Dragon(d) => match d.table[idx] {
                Some((_, tag)) => tag,
                None => PLACEHOLDER_TAG,
            },
        }
    }

    /// The slot that a lookup of `addr` finds.
    pub open spec fn find(self, addr: u32) -> Option<usize> {
        match self {
            ProtocolView::Mesi(m) => m.find(addr),
            ProtocolView::Dragon(d) => d.find(addr),
        }
    }

    pub open spec fn accepts(
        self,
        addr: u32,
        cache_idx: Option<usize>,
        store_idx: usize,
        hit: bool,
        action: ProcessorAction,
        busy: bool,
    ) -> bool {
        match self {
            ProtocolView::Mesi(m) => m.accepts(addr, cache_idx, store_idx, hit, action, busy),
            ProtocolView::Dragon(d) => d.accepts(addr, cache_idx, store_idx, hit, action, busy),
        }
    }

    /// The table after an access of the processor, and the transaction that the access
    /// needs.
    pub open spec fn processed(
        self,
        addr: u32,
        cache_idx: Option<usize>,
        store_idx: usize,
        hit: bool,
        action: ProcessorAction,
        busy: bool,
    ) -> (ProtocolView, Option<BusAction>) {
        match self {
            ProtocolView::Mesi(m) => {
                let r = m.processed(addr, cache_idx, store_idx, hit, action, busy);
                (ProtocolView::Mesi(r.0), r.1)
            },
            ProtocolView::Dragon(d) => {
                let r = d.processed(addr, cache_idx, store_idx, hit, action, busy);
                (ProtocolView::Dragon(r.0), r.1)
            },
        }
    }

    pub open spec fn snoop_allowed(self, task: Option<Task>) -> bool {
        match self {
            ProtocolView::Mesi(m) => m.snoop_allowed(task),
            ProtocolView::Dragon(d) => true,
        }
    }

    /// The table after snooping `task`, and the task as rewritten, if it is.
    pub open spec fn snooped(self, task: Option<Task>) -> (ProtocolView, Option<Task>) {
        match self {
            ProtocolView::Mesi(m) => (ProtocolView::Mesi(m.snooped(task).0), m.snooped(task).1),
            ProtocolView::Dragon(d) => (
                ProtocolView::Dragon(d.snooped(task).0),
                d.snooped(task).1,
            ),
        }
    }

    /// The table once the issuer of `task` has looked at what became of it, and what is
    /// then on the bus.
    pub open spec fn settled(self, task: Option<Task>) -> (ProtocolView, Option<Task>) {
        match self {
            ProtocolView::Mesi(m) => (ProtocolView::Mesi(m.settled(task)), task),
            ProtocolView::Dragon(d) => (
                ProtocolView::Dragon(d.settled(task).0),
                d.settled(task).1,
            ),
        }
    }

    /// Whether the protocol knows the read-broadcast optimization.
    pub open spec fn broadcast_allowed(self) -> bool {
        self is Mesi
    }

    /// The table after read broadcast, and what is then on the bus.
    pub open spec fn snarfed(self, task: Option<Task>) -> (ProtocolView, Option<Task>) {
        match self {
            ProtocolView::Mesi(m) => (ProtocolView::Mesi(m.snarfed(task).0), m.snarfed(task).1),
            ProtocolView::Dragon(d) => (self, task),
        }
    }

    pub open spec fn holds_line(self, cache_idx: usize, tag: u32) -> bool {
        match self {
            ProtocolView::Mesi(m) => m.holds_line(cache_idx, tag),
            ProtocolView::Dragon(d) => d.holds_line(cache_idx, tag),
        }
    }

    pub open spec fn classified_at(self, cache_idx: usize, addr: u32) -> Option<usize> {
        if cache_idx == usize::MAX {
            self.find(addr)
        } else {
            Some(cache_idx)
        }
    }

    pub open spec fn classifiable(self, cache_idx: usize, addr: u32) -> bool {
        match self {
            ProtocolView::Mesi(m) => m.classifiable(cache_idx, addr),
            ProtocolView::Dragon(d) => d.classifiable(cache_idx, addr),
        }
    }

    /// The table after slot `cache_idx` was given up.
    pub open spec fn invalidated(self, cache_idx: int) -> ProtocolView {
        match self {
            ProtocolView::Mesi(m) => ProtocolView::Mesi(
                MesiView {
                    table: m.table.update(cache_idx, (MesiState::I, PLACEHOLDER_TAG)),
                    ..m
                },
            ),
            ProtocolView::Dragon(d) => ProtocolView::Dragon(
                DragonView { table: d.table.update(cache_idx, None), ..d },
            ),
        }
    }

    /// The tag that a lookup sees in each slot: nothing in an empty slot.
    pub open spec fn keys(self) -> Seq<Option<u32>> {
        match self {
            ProtocolView::Mesi(m) => m.keys(),
            ProtocolView::Dragon(d) => d.keys(),
        }
    }

    /// The tag that each slot of the table carries, where the table has one for it.
    pub open spec fn stored(self) -> Seq<Option<u32>> {
        match self {
            ProtocolView::Mesi(m) => m.stored(),
            ProtocolView::Dragon(d) => d.stored(),
        }
    }

    /// Whether slot `idx` is empty: it carries the placeholder and holds no valid copy.
    pub open spec fn vacant(self, idx: int) -> bool {
        self.tag(idx) == PLACEHOLDER_TAG && self.state(idx) is Invalid
    }

    /// A lookup sees in every slot that is not empty the tag that the slot carries.
    pub proof fn lemma_keys(self, idx: int)
        requires
            0 <= idx < self.slots(),
        ensures
            self.keys().len() == self.slots(),
            self.keys()[idx] == if self.vacant(idx) {
                None
            } else {
                Some(self.tag(idx))
            },
    {
    }
}

impl ProtocolView {
    /// An access of the processor that goes into the table writes the slot named with
    /// the tag of the address and a valid state, and leaves every other slot alone; one
    /// that has to wait for the bus leaves the table alone.
    pub proof fn lemma_processed(
        self,
        addr: u32,
        cache_idx: Option<usize>,
        store_idx: usize,
        hit: bool,
        action: ProcessorAction,
        busy: bool,
    )
        requires
            self.wf(),
            self.accepts(addr, cache_idx, store_idx, hit, action, busy),
        ensures
            ({
                let r = self.processed(addr, cache_idx, store_idx, hit, action, busy);
                let target = cache_idx.unwrap_or(store_idx) as int;
                &&& r.0.same_shape(self)
                &&& r.0.wf()
                &&& r.1 is Some ==> r.1.unwrap().size() == self.block_size() || r.1.unwrap().size()
                    == crate::geometry::WORD_SIZE
                &&& if r.1 is None || !busy {
                    &&& 0 <= target < self.slots()
                    &&& r.0.tag(target) == self.layout().tag_of(addr)
                    &&& !(r.0.state(target) is Invalid)
                    &&& forall|i: int|
                        0 <= i < self.slots() && i != target ==> #[trigger] r.0.tag(i) == self.tag(
                            i,
                        ) && r.0.state(i) == self.state(i)
                } else {
                    r.0 == self
                }
            }),
    {
    }

    /// Giving up a slot empties it and leaves every other slot alone.
    pub proof fn lemma_invalidated(self, cache_idx: int)
        requires
            self.wf(),
            0 <= cache_idx < self.slots(),
        ensures
            self.invalidated(cache_idx).same_shape(self),
            self.invalidated(cache_idx).wf(),
            self.invalidated(cache_idx).tag(cache_idx) == PLACEHOLDER_TAG,
            self.invalidated(cache_idx).state(cache_idx) is Invalid,
            forall|i: int|
                0 <= i < self.slots() && i != cache_idx ==> #[trigger] self.invalidated(
                    cache_idx,
                ).tag(i) == self.tag(i) && self.invalidated(cache_idx).state(i) == self.state(i),
    {
    }

    /// What a lookup finds is a slot of the table that is not empty and carries the tag
    /// of the address.
    pub proof fn lemma_found(self, addr: u32)
        requires
            self.wf(),
        ensures
            match self.find(addr) {
                Some(idx) => {
                    &&& idx < self.slots()
                    &&& self.tag(idx as int) == self.layout().tag_of(addr)
                    &&& !self.vacant(idx as int)
                    &&& self.keys()[idx as int] == Some(self.layout().tag_of(addr))
                },
                None => true,
            },
    {
        match self {
            ProtocolView::Mesi(m) => {
                m.lemma_set_in_table(addr);
            },
            ProtocolView::Dragon(d) => {
                d.lemma_set_in_table(addr);
            },
        }
    }

    /// Snooping, settling and read broadcast keep the shape of the table and the tag of
    /// every slot, change the state of no slot but the one that holds the tag of the
    /// transaction's address, and leave an empty slot empty.
    pub proof fn lemma_bus_steps(self, task: Option<Task>)
        requires
            self.wf(),
        ensures
            self.snooped(task).0.same_shape(self),
            self.settled(task).0.same_shape(self),
            self.snarfed(task).0.same_shape(self),
            self.snooped(task).0.wf(),
            self.settled(task).0.wf(),
            self.snarfed(task).0.wf(),
            self.settled(task).0.keys() == self.keys(),
            self.snarfed(task).0.keys() == self.keys(),
            self.snooped(task).0.keys().len() == self.keys().len(),
            forall|i: int|
                0 <= i < self.slots() ==> #[trigger] self.snooped(task).0.keys()[i]
                    == self.keys()[i] || (self.snooped(task).0.keys()[i] is None && task is Some
                    && self.find(task.unwrap().action.addr()) == Some(i as usize)),
            forall|i: int|
                0 <= i < self.slots() ==> {
                    &&& #[trigger] self.snooped(task).0.tag(i) == self.tag(i)
                    &&& self.settled(task).0.tag(i) == self.tag(i)
                    &&& self.snarfed(task).0.tag(i) == self.tag(i)
                },
            forall|i: int|
                0 <= i < self.slots() && (task is None || self.find(task.unwrap().action.addr())
                    != Some(i as usize)) ==> {
                    &&& #[trigger] self.snooped(task).0.state(i) == self.state(i)
                    &&& self.settled(task).0.state(i) == self.state(i)
                    &&& self.snarfed(task).0.state(i) == self.state(i)
                },
            forall|i: int|
                0 <= i < self.slots() && #[trigger] self.vacant(i) ==> {
                    &&& self.snooped(task).0.state(i) is Invalid
                    &&& self.settled(task).0.state(i) is Invalid
                    &&& self.snarfed(task).0.state(i) is Invalid
                },
    {
        match self {
            ProtocolView::Mesi(m) => {
                m.lemma_shape_kept(task);
                if task is Some {
                    m.lemma_set_in_table(task.unwrap().action.addr());
                }
                assert(m.settled(task).keys() =~= m.keys());
                assert(m.snarfed(task).0.keys() =~= m.keys());
            },
            ProtocolView::Dragon(d) => {
                d.lemma_shape_kept(task);
                if task is Some {
                    d.lemma_set_in_table(task.unwrap().action.addr());
                }
                assert(d.snooped(task).0.keys() =~= d.keys());
                assert(d.settled(task).0.keys() =~= d.keys());
            },
        }
    }

    /// The transactions that a protocol puts on the bus: reads and write-backs with
    /// both, exclusive reads with MESI only, updates with Dragon only.
    pub open spec fn speaks(self, action: BusAction) -> bool {
        match self {
            ProtocolView::Mesi(_) => !(action is BusUpdMem || action is BusUpdShared),
            ProtocolView::Dragon(_) => !(action is BusRdXMem || action is BusRdXShared),
        }
    }

    /// What a line that meets a transaction of another cache becomes, and what becomes
    /// of the transaction. An invalid line and the transaction stay as they are. A valid
    /// line answers: a read becomes a shared read and leaves the line shared, or, where
    /// it was modified and the protocol knows the state, shared and modified; an
    /// exclusive read becomes a shared one and leaves the line invalid; an update
    /// becomes a shared one and leaves the line shared. A write-back changes nothing.
    pub proof fn lemma_snoop_table(self, task: Task, idx: usize)
        requires
            self.wf(),
            task.issuer_id != self.core_id(),
            self.find(task.action.addr()) == Some(idx),
            self.speaks(task.action),
            self.snoop_allowed(Some(task)),
        ensures
            ({
                let before = self.state(idx as int);
                let after = self.snooped(Some(task)).0.state(idx as int);
                let rewritten = self.snooped(Some(task)).1;
                let action = match rewritten {
                    Some(t) => t.action,
                    None => task.action,
                };
                &&& rewritten is Some ==> rewritten.unwrap().issuer_id == task.issuer_id
                &&& action.addr() == task.action.addr()
                &&& action.size() == task.action.size()
                &&& if before is Invalid {
                    after is Invalid && rewritten is None
                } else {
                    match task.action {
                        BusAction::BusRdMem(_, _) | BusAction::BusRdShared(_, _) => {
                            &&& action is BusRdShared
                            &&& after is Shared || (after is SharedModified && before.is_owner())
                        },
                        BusAction::BusRdXMem(_, _) | BusAction::BusRdXShared(_, _) => {
                            &&& action is BusRdXShared
                            &&& after is Invalid
                        },
                        BusAction::BusUpdMem(_, _) | BusAction::BusUpdShared(_, _) => {
                            &&& action is BusUpdShared
                            &&& after is Shared
                        },
                        BusAction::Flush(_, _) => action == task.action && after == before,
                    }
                }
            }),
    {
        match self {
            ProtocolView::Mesi(m) => {
                m.lemma_set_in_table(task.action.addr());
            },
            ProtocolView::Dragon(d) => {
                d.lemma_set_in_table(task.action.addr());
            },
        }
    }

    /// A clean line that meets a read from memory of another cache answers with a
    /// shared read that takes two cycles for every word of the block.
    pub proof fn lemma_snoop_retimed(self, task: Task, idx: usize)
        requires
            self.wf(),
            task.issuer_id != self.core_id(),
            self.find(task.action.addr()) == Some(idx),
            task.action is BusRdMem,
            self.state(idx as int) is Exclusive || self.state(idx as int) is Shared,
        ensures
            self.snooped(Some(task)).1 == Some(
                Task {
                    action: BusAction::BusRdShared(task.action.addr(), task.action.size()),
                    remaining_cycles: (2 * (task.action.size() / 4)) as usize,
                    ..task
                },
            ),
    {
        match self {
            ProtocolView::Mesi(m) => {
                m.lemma_set_in_table(task.action.addr());
            },
            ProtocolView::Dragon(d) => {
                d.lemma_set_in_table(task.action.addr());
            },
        }
    }

    /// A shared line that meets a shared read of another cache stays as it is, and so
    /// does the read.
    pub proof fn lemma_snoop_shared(self, task: Task, idx: usize)
        requires
            self.wf(),
            task.issuer_id != self.core_id(),
            self.find(task.action.addr()) == Some(idx),
            task.action is BusRdShared,
            self.state(idx as int) is Shared,
        ensures
            self.snooped(Some(task)).0 == self,
            self.snooped(Some(task)).1 is Some ==> self.snooped(Some(task)).1 == Some(task),
    {
        match self {
            ProtocolView::Mesi(m) => {
                m.lemma_set_in_table(task.action.addr());
            },
            ProtocolView::Dragon(d) => {
                d.lemma_set_in_table(task.action.addr());
                assert(d.snooped(Some(task)).0.table =~= d.table);
            },
        }
    }

    /// Read broadcast leaves a valid line and the transaction that it meets as they are.
    pub proof fn lemma_snarf_same(self, task: Task, idx: usize)
        requires
            self.wf(),
            task.issuer_id != self.core_id(),
            self.find(task.action.addr()) == Some(idx),
            !(self.state(idx as int) is Invalid),
        ensures
            self.snarfed(Some(task)) == (self, Some(task)),
    {
        match self {
            ProtocolView::Mesi(m) => {
                m.lemma_set_in_table(task.action.addr());
            },
            ProtocolView::Dragon(d) => {},
        }
    }

    /// What read broadcast does to the line that it meets: an invalid line that picks
    /// the block up becomes shared, and the read a shared read; anything else stays as
    /// it is.
    pub proof fn lemma_snarf_table(self, task: Task, idx: usize)
        requires
            self.wf(),
            self is Mesi,
            task.issuer_id != self.core_id(),
            self.find(task.action.addr()) == Some(idx),
        ensures
            ({
                let before = self.state(idx as int);
                let after = self.snarfed(Some(task)).0.state(idx as int);
                let left = self.snarfed(Some(task)).1;
                ||| after == before && left == Some(task)
                ||| {
                    &&& before is Invalid
                    &&& after is Shared
                    &&& task.action is BusRdMem || task.action is BusRdShared
                    &&& left is Some
                    &&& left.unwrap().issuer_id == task.issuer_id
                    &&& left.unwrap().action == BusAction::BusRdShared(
                        task.action.addr(),
                        task.action.size(),
                    )
                }
            }),
    {
        match self {
            ProtocolView::Mesi(m) => {
                m.lemma_set_in_table(task.action.addr());
            },
            ProtocolView::Dragon(d) => {},
        }
    }

    /// What the issuer of a transaction does to its own line once all caches have
    /// snooped, where the line is exclusive for a read that goes to memory or was
    /// answered, modified for an exclusive read, and modified or owned for an update:
    /// a read that was answered leaves the line shared; an update that was answered
    /// leaves it owned; an update that was not is taken off the bus; anything else
    /// stays as it is.
    pub proof fn lemma_settle_table(self, task: Task, idx: usize)
        requires
            self.wf(),
            task.issuer_id == self.core_id(),
            self.find(task.action.addr()) == Some(idx),
            self.speaks(task.action),
            issuer_state(task.action, self.state(idx as int), Stage::Snooped),
        ensures
            ({
                let after = self.settled(Some(task)).0.state(idx as int);
                let left = self.settled(Some(task)).1;
                if task.action is BusUpdMem {
                    left is None && after == self.state(idx as int)
                } else {
                    left == Some(task) && issuer_state(task.action, after, Stage::Settled)
                }
            }),
    {
        match self {
            ProtocolView::Mesi(m) => {
                m.lemma_set_in_table(task.action.addr());
            },
            ProtocolView::Dragon(d) => {
                d.lemma_set_in_table(task.action.addr());
            },
        }
    }
}

/// How far a cycle has come.
pub enum Stage {
    /// The cores take their steps; caches have not snooped what was put on the bus.
    Stepping,
    /// Caches snoop, or have snooped; the issuer has not settled.
    Snooped,
    /// The issuer has settled.
    Settled,
}

/// The states in which the issuer of a transaction holds the block that the transaction
/// is about. It holds the block exclusively for a read from memory, modified for an
/// exclusive read and for an update that goes to memory. Once other caches answered, a
/// read leaves it shared and an update leaves it owned; between their answer and the
/// moment at which the issuer settles, the line is still as it was before the answer.
pub open spec fn issuer_state(action: BusAction, state: LineState, stage: Stage) -> bool {
    match action {
        BusAction::BusRdMem(_, _) => state is Exclusive,
        BusAction::BusRdShared(_, _) => state is Shared || (stage is Snooped && state is Exclusive),
        BusAction::BusRdXMem(_, _) => state is Modified,
        BusAction::BusRdXShared(_, _) => state is Modified,
        BusAction::BusUpdMem(_, _) => state is Modified && !(stage is Settled),
        BusAction::BusUpdShared(_, _) => state is SharedModified || (stage is Snooped
            && state is Modified),
        BusAction::Flush(_, _) => true,
    }
}


impl Protocol for CacheProtocol {
    open spec fn wf(&self) -> bool {
        self@.wf()
    }

    open spec fn slots(&self) -> nat {
        self@.slots()
    }

    open spec fn accepts(
        &self,
        addr: u32,
        cache_idx: Option<usize>,
        store_idx: usize,
        hit: bool,
        action: ProcessorAction,
        busy: bool,
    ) -> bool {
        self@.accepts(addr, cache_idx, store_idx, hit, action, busy)
    }

    open spec fn snoop_allowed(&self, task: Option<Task>) -> bool {
        self@.snoop_allowed(task)
    }

    open spec fn holds_line(&self, cache_idx: usize, tag: u32) -> bool {
        self@.holds_line(cache_idx, tag)
    }

    open spec fn classifiable(&self, cache_idx: usize, addr: u32) -> bool {
        self@.classifiable(cache_idx, addr)
    }

    open spec fn broadcast_allowed(&self) -> bool {
        self@.broadcast_allowed()
    }

    fn read(
        &mut self,
        tag: u32,
        cache_idx: Option<usize>,
        store_idx: usize,
        hit: bool,
        bus: &mut Bus,
    ) -> (action: Option<BusAction>)
        ensures
            (final(self)@, action) == old(self)@.processed(
                tag,
                cache_idx,
                store_idx,
                hit,
                ProcessorAction::Read,
                old(bus)@.task is Some,
            ),
    {
        match self {
            CacheProtocol::Mesi(m) => m.read(tag, cache_idx, store_idx, hit, bus),
            CacheProtocol::Dragon(d) => d.read(tag, cache_idx, store_idx, hit, bus),
        }
    }

    fn write(
        &mut self,
        tag: u32,
        cache_idx: Option<usize>,
        store_idx: usize,
        hit: bool,
        bus: &mut Bus,
    ) -> (action: Option<BusAction>)
        ensures
            (final(self)@, action) == old(self)@.processed(
                tag,
                cache_idx,
                store_idx,
                hit,
                ProcessorAction::Write,
                old(bus)@.task is Some,
            ),
    {
        match self {
            CacheProtocol::Mesi(m) => m.write(tag, cache_idx, store_idx, hit, bus),
            CacheProtocol::Dragon(d) => d.write(tag, cache_idx, store_idx, hit, bus),
        }
    }

    fn snoop(&mut self, bus: &mut Bus) -> (rewritten: Option<Task>)
        ensures
            (final(self)@, rewritten) == old(self)@.snooped(old(bus)@.task),
    {
        match self {
            CacheProtocol::Mesi(m) => m.snoop(bus),
            CacheProtocol::Dragon(d) => d.snoop(bus),
        }
    }

    fn after_snoop(&mut self, bus: &mut Bus)
        ensures
            final(self)@ == old(self)@.settled(old(bus)@.task).0,
            final(bus)@ == old(bus)@.with_task(old(self)@.settled(old(bus)@.task).1),
    {
        match self {
            CacheProtocol::Mesi(m) => m.after_snoop(bus),
            CacheProtocol::Dragon(d) => d.after_snoop(bus),
        }
    }

    fn writeback_required(&self, cache_idx: usize, tag: u32) -> (owner: bool)
        ensures
            owner == self@.state(cache_idx as int).is_owner(),
    {
        match self {
            CacheProtocol::Mesi(m) => m.writeback_required(cache_idx, tag),
            CacheProtocol::Dragon(d) => d.writeback_required(cache_idx, tag),
        }
    }

    fn invalidate(&mut self, cache_idx: usize, tag: u32)
        ensures
            final(self)@ == old(self)@.invalidated(cache_idx as int),
    {
        match self {
            CacheProtocol::Mesi(m) => m.invalidate(cache_idx, tag),
            CacheProtocol::Dragon(d) => d.invalidate(cache_idx, tag),
        }
    }

    fn is_shared(&self, cache_idx: usize, addr: u32) -> (shared: bool)
        ensures
            shared == self@.state(
                self@.classified_at(cache_idx, addr).unwrap() as int,
            ).is_shared(),
    {
        match self {
            CacheProtocol::Mesi(m) => m.is_shared(cache_idx, addr),
            CacheProtocol::Dragon(d) => d.is_shared(cache_idx, addr),
        }
    }

    fn sanity_check(&self, cache_idx: usize) -> (tag: Option<u32>)
        ensures
            tag == self@.stored()[cache_idx as int],
    {
        match self {
            CacheProtocol::Mesi(m) => m.sanity_check(cache_idx),
            CacheProtocol::Dragon(d) => d.sanity_check(cache_idx),
        }
    }

    fn read_broadcast(&mut self, bus: &mut Bus)
        ensures
            (final(self)@, final(bus)@.task) == old(self)@.snarfed(old(bus)@.task),
    {
        match self {
            CacheProtocol::Mesi(m) => m.read_broadcast(bus),
            CacheProtocol::Dragon(d) => d.read_broadcast(bus),
        }
    }
}

impl CacheProtocol {
    /// What slot `cache_idx` holds, in terms common to the protocols.
    pub fn state_at(&self, cache_idx: usize) -> (state: LineState)
        requires
            cache_idx < self@.slots(),
        ensures
            state == self@.state(cache_idx as int),
    {
        match self {
            CacheProtocol::Mesi(m) => match m.line(cache_idx).0 {
                MesiState::M => LineState::Modified,
                MesiState::E => LineState::Exclusive,
                MesiState::S => LineState::Shared,
                MesiState::I => LineState::Invalid,
            },
            CacheProtocol::Dragon(d) => match d.line(cache_idx) {
                Some((DragonState::M, _)) => LineState::Modified,
                Some((DragonState::E, _)) => LineState::Exclusive,
                Some((DragonState::Sc, _)) => LineState::Shared,
                Some((DragonState::Sm, _)) => LineState::SharedModified,
                None => LineState::Invalid,
            },
        }
    }
}

/// Makes the table of a cache for the protocol asked for.
pub struct ProtocolBuilder;

impl ProtocolBuilder {
    pub fn create(
        core_id: usize,
        kind: &ProtocolKind,
        cache_size: usize,
        block_size: usize,
        associativity: usize,
        addr_layout: &AddressLayout,
    ) -> (protocol: CacheProtocol)
        requires
            block_size > 0,
        ensures
            protocol@ == Self::fresh(
                core_id,
                *kind,
                cache_size,
                block_size,
                associativity,
                *addr_layout,
            ),
    {
        match kind {
            ProtocolKind::Dragon => CacheProtocol::Dragon(
                Dragon::new(core_id, cache_size, block_size, associativity, addr_layout),
            ),
            ProtocolKind::Mesi => CacheProtocol::Mesi(
                Mesi::new(core_id, cache_size, block_size, associativity, addr_layout),
            ),
        }
    }

    /// The table of a cache that holds nothing yet.
    pub open spec fn fresh(
        core_id: usize,
        kind: ProtocolKind,
        cache_size: usize,
        block_size: usize,
        associativity: usize,
        layout: AddressLayout,
    ) -> ProtocolView {
        let slots = (cache_size / block_size) as nat;
        match kind {
            ProtocolKind::Mesi => ProtocolView::Mesi(
                MesiView {
                    core_id,
                    table: Seq::new(slots, |i: int| (MesiState::I, PLACEHOLDER_TAG)),
                    block_size,
                    associativity,
                    layout,
                },
            ),
            ProtocolKind::Dragon => ProtocolView::Dragon(
                DragonView {
                    core_id,
                    table: Seq::new(slots, |i: int| None::<(DragonState, u32)>),
                    block_size,
                    associativity,
                    layout,
                },
            ),
        }
    }
}

} // verus!
