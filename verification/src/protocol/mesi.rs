use crate::bus::{Bus, BusAction, Task};
use crate::geometry::WORD_SIZE;
use crate::protocol::{
    first_match, lemma_first_match, lemma_first_match_is, lemma_first_match_none, ProcessorAction,
    Protocol, PLACEHOLDER_TAG,
};
use crate::utils::AddressLayout;
use vstd::prelude::*;

verus! {

#[derive(Clone, Copy, PartialEq, Eq, Structural, Debug)]
pub enum MesiState {
    M,
    E,
    S,
    I,
}

/// The MESI table of one cache: a state and a tag for every slot.
pub struct Mesi {
    core_id: usize,
    cache_state: Vec<(MesiState, u32)>,
    block_size: usize,
    associativity: usize,
    addr_layout: AddressLayout,
}

/// What an access of the processor does to a line: the state that the line takes, and the
/// transaction that must go on the bus for it.
pub open spec fn processor_rule(
    state: MesiState,
    action: ProcessorAction,
    hit: bool,
    addr: u32,
    block_size: usize,
) -> (MesiState, Option<BusAction>) {
    match (state, action, hit) {
        (MesiState::M, _, true) => (MesiState::M, None),
        (MesiState::E, ProcessorAction::Write, true) => (MesiState::M, None),
        (MesiState::E, ProcessorAction::Read, true) => (MesiState::E, None),
        (MesiState::S, ProcessorAction::Read, true) => (MesiState::S, None),
        (MesiState::S, ProcessorAction::Write, true) => (
            MesiState::M,
            Some(BusAction::BusRdXMem(addr, WORD_SIZE)),
        ),
        (MesiState::I, ProcessorAction::Read, true) => (
            MesiState::E,
            Some(BusAction::BusRdMem(addr, block_size)),
        ),
        (MesiState::I, ProcessorAction::Write, true) => (
            MesiState::M,
            Some(BusAction::BusRdXMem(addr, block_size)),
        ),
        (_, ProcessorAction::Read, false) => (
            MesiState::E,
            Some(BusAction::BusRdMem(addr, block_size)),
        ),
        (_, ProcessorAction::Write, false) => (
            MesiState::M,
            Some(BusAction::BusRdXMem(addr, block_size)),
        ),
    }
}

/// The pairs that coherence rules out: a transaction that other caches already answered
/// as sharers, seen by a cache that holds the line exclusively.
pub open spec fn snoop_forbidden(action: BusAction, state: MesiState) -> bool {
    (action is BusRdXShared || action is BusRdShared) && (state is E || state is M)
}

/// What a transaction of another cache does to a line that this cache holds: the state
/// that the line takes and the transaction as this cache rewrites it; `None` where the
/// transaction leaves both alone. A modified line is written back first, which takes
/// the time of a flush; otherwise the rewritten transaction takes its own time.
pub open spec fn snoop_rule(task: Task, state: MesiState, block_size: usize) -> Option<
    (MesiState, Task),
> {
    let flush = BusAction::Flush(0, block_size).price() as usize;
    match (task.action, state) {
        (BusAction::BusRdMem(a, c), MesiState::M) => Some(
            (
                MesiState::S,
                Task { action: BusAction::BusRdShared(a, c), remaining_cycles: flush, ..task },
            ),
        ),
        (BusAction::BusRdXMem(a, c), MesiState::M) => Some(
            (
                MesiState::I,
                Task { action: BusAction::BusRdXShared(a, c), remaining_cycles: flush, ..task },
            ),
        ),
        (BusAction::BusRdMem(a, c), MesiState::E) => Some(
            (MesiState::S, retimed(task, BusAction::BusRdShared(a, c))),
        ),
        (BusAction::BusRdXMem(a, c), MesiState::E) => Some(
            (MesiState::I, retimed(task, BusAction::BusRdXShared(a, c))),
        ),
        (BusAction::BusRdMem(a, c), MesiState::S) => Some(
            (MesiState::S, retimed(task, BusAction::BusRdShared(a, c))),
        ),
        (BusAction::BusRdXMem(a, c), MesiState::S) => Some(
            (MesiState::I, retimed(task, BusAction::BusRdXShared(a, c))),
        ),
        (BusAction::BusRdXShared(a, c), MesiState::S) => Some(
            (MesiState::I, retimed(task, BusAction::BusRdXShared(a, c))),
        ),
        _ => None,
    }
}

/// The task with `action` in place of its own and the time that `action` takes.
pub open spec fn retimed(task: Task, action: BusAction) -> Task {
    Task { action, remaining_cycles: action.price() as usize, ..task }
}

/// A MESI table as a value: whose it is, its shape, and state and tag of every slot.
#[verifier::ext_equal]
pub struct MesiView {
    pub core_id: usize,
    pub table: Seq<(MesiState, u32)>,
    pub block_size: usize,
    pub associativity: usize,
    pub layout: AddressLayout,
}

impl View for Mesi {
    type V = MesiView;

    closed spec fn view(&self) -> MesiView {
        MesiView {
            core_id: self.core_id,
            table: self.cache_state@,
            block_size: self.block_size,
            associativity: self.associativity,
            layout: self.addr_layout,
        }
    }
}

impl MesiView {
    /// The table has an entry for every slot that an address can map to.
    pub open spec fn wf(self) -> bool {
        &&& self.layout.wf()
        &&& self.layout.sets() * self.associativity <= self.table.len() <= usize::MAX
    }

    /// The slot that holds the tag of `addr`: the first one of the set of `addr` that is
    /// not empty and whose tag matches, whatever its state.
    pub open spec fn find(self, addr: u32) -> Option<usize> {
        match first_match(
            self.keys(),
            self.layout.tag_of(addr),
            self.set_start(addr),
            self.set_start(addr) + self.associativity,
        ) {
            Some(i) => Some(i as usize),
            None => None,
        }
    }

    /// The first slot of the set of `addr`.
    pub open spec fn set_start(self, addr: u32) -> int {
        self.layout.index_of(addr) * self.associativity
    }

    /// The tag that a lookup sees in each slot: the tag that the slot carries, but
    /// nothing in an empty slot, which is one that carries the placeholder in the
    /// invalid state.
    pub open spec fn keys(self) -> Seq<Option<u32>> {
        Seq::new(
            self.table.len(),
            |i: int|
                if self.table[i].0 is I && self.table[i].1 == PLACEHOLDER_TAG {
                    None
                } else {
                    Some(self.table[i].1)
                },
        )
    }

    /// The tag that each slot carries.
    pub open spec fn stored(self) -> Seq<Option<u32>> {
        Seq::new(self.table.len(), |i: int| Some(self.table[i].1))
    }

    /// The table after `entry` took `state`, with its tag kept.
    pub open spec fn with_state(self, entry: int, state: MesiState) -> MesiView {
        MesiView { table: self.table.update(entry, (state, self.table[entry].1)), ..self }
    }

    /// Whether the transition of `processor_rule` goes into the table at once: always,
    /// unless it needs the bus and the bus is occupied.
    pub open spec fn commits(rule: (MesiState, Option<BusAction>), busy: bool) -> bool {
        rule.1 is None || !busy
    }

    /// The accesses for which the table has the entries that the transition reads and
    /// writes, and whose tag is the one stored where the access is said to hit.
    pub open spec fn accepts(
        self,
        addr: u32,
        cache_idx: Option<usize>,
        store_idx: usize,
        hit: bool,
        action: ProcessorAction,
        busy: bool,
    ) -> bool {
        let current = cache_idx.unwrap_or(0);
        &&& current < self.table.len()
        &&& hit ==> self.table[current as int].1 == self.layout.tag_of(addr)
        &&& Self::commits(
            processor_rule(self.table[current as int].0, action, hit, addr, self.block_size),
            busy,
        ) ==> cache_idx.unwrap_or(store_idx) < self.table.len()
    }

    /// The table after an access of the processor, and the transaction that the access
    /// needs.
    pub open spec fn processed(
        self,
        addr: u32,
        cache_idx: Option<usize>,
        store_idx: usize,
        hit: bool,
        action: ProcessorAction,
        busy: bool,
    ) -> (MesiView, Option<BusAction>) {
        let current = self.table[cache_idx.unwrap_or(0) as int];
        let rule = processor_rule(current.0, action, hit, addr, self.block_size);
        if Self::commits(rule, busy) {
            (
                MesiView {
                    table: self.table.update(
                        cache_idx.unwrap_or(store_idx) as int,
                        (rule.0, self.layout.tag_of(addr)),
                    ),
                    ..self
                },
                rule.1,
            )
        } else {
            (self, rule.1)
        }
    }

    /// The line that a transaction of another cache meets here: nothing without a task,
    /// for the cache that issued it, or where the cache does not hold the tag.
    pub open spec fn met(self, task: Option<Task>) -> Option<usize> {
        match task {
            None => None,
            Some(t) => if t.issuer_id == self.core_id {
                None
            } else {
                self.find(t.action.addr())
            },
        }
    }

    /// The bus states that this cache can snoop: all but those that coherence rules out.
    pub open spec fn snoop_allowed(self, task: Option<Task>) -> bool {
        match self.met(task) {
            Some(idx) => !snoop_forbidden(task.unwrap().action, self.table[idx as int].0),
            None => true,
        }
    }

    /// What snooping `task` does: the table afterwards, and the task as rewritten, if it
    /// is.
    pub open spec fn snooped(self, task: Option<Task>) -> (MesiView, Option<Task>) {
        match self.met(task) {
            None => (self, None),
            Some(idx) => match snoop_rule(
                task.unwrap(),
                self.table[idx as int].0,
                self.block_size,
            ) {
                None => (self, None),
                Some((state, rewritten)) => (self.with_state(idx as int, state), Some(rewritten)),
            },
        }
    }

    /// The table once the issuer of `task` has looked at what became of it: its own
    /// exclusive copy of a line that turned out to be shared is shared too.
    pub open spec fn settled(self, task: Option<Task>) -> MesiView {
        match task {
            None => self,
            Some(t) => if t.issuer_id != self.core_id {
                self
            } else {
                match self.find(t.action.addr()) {
                    None => self,
                    Some(idx) => if t.action is BusRdShared && self.table[idx as int].0 is E {
                        self.with_state(idx as int, MesiState::S)
                    } else {
                        self
                    },
                }
            },
        }
    }

    /// Read broadcast: an invalid line with the tag of a block that another cache reads
    /// whole picks the block up and becomes shared, and the read is marked as shared.
    /// Gives the table and the task on the bus afterwards.
    pub open spec fn snarfed(self, task: Option<Task>) -> (MesiView, Option<Task>) {
        match self.met(task) {
            None => (self, task),
            Some(idx) => {
                let t = task.unwrap();
                if (t.action is BusRdMem || t.action is BusRdShared) && self.table[idx as int].0 is I
                    && t.action.size() == self.block_size {
                    (
                        self.with_state(idx as int, MesiState::S),
                        Some(
                            Task {
                                action: BusAction::BusRdShared(t.action.addr(), t.action.size()),
                                ..t
                            },
                        ),
                    )
                } else {
                    (self, task)
                }
            },
        }
    }

    /// Whether entry `cache_idx` carries `tag`.
    pub open spec fn holds_line(self, cache_idx: usize, tag: u32) -> bool {
        cache_idx < self.table.len() && self.table[cache_idx as int].1 == tag
    }

    /// The entry that classifies an access: `cache_idx`, or, where that is `usize::MAX`,
    /// the entry that holds the tag of `addr`.
    pub open spec fn classified_at(self, cache_idx: usize, addr: u32) -> Option<usize> {
        if cache_idx == usize::MAX {
            self.find(addr)
        } else {
            Some(cache_idx)
        }
    }

    /// Whether the block of `addr` can be classified: its entry exists, carries its tag
    /// and is valid.
    pub open spec fn classifiable(self, cache_idx: usize, addr: u32) -> bool {
        match self.classified_at(cache_idx, addr) {
            Some(i) => {
                &&& i < self.table.len()
                &&& self.table[i as int].1 == self.layout.tag_of(addr)
                &&& !(self.table[i as int].0 is I)
            },
            None => false,
        }
    }

    /// Whether two tables belong to the same cache and have the same shape.
    pub open spec fn same_shape(self, other: MesiView) -> bool {
        &&& self.core_id == other.core_id
        &&& self.block_size == other.block_size
        &&& self.associativity == other.associativity
        &&& self.layout == other.layout
        &&& self.table.len() == other.table.len()
    }

    /// Snooping and what follows it change states only: the table keeps its shape.
    pub proof fn lemma_shape_kept(self, task: Option<Task>)
        requires
            self.wf(),
        ensures
            self.snooped(task).0.same_shape(self),
            self.settled(task).same_shape(self),
            self.snarfed(task).0.same_shape(self),
    {
        if task is Some {
            self.lemma_set_in_table(task.unwrap().action.addr());
        }
    }

    /// The slots of a set lie inside the table, and so does what a lookup finds.
    pub proof fn lemma_set_in_table(self, addr: u32)
        requires
            self.wf(),
        ensures
            0 <= self.set_start(addr),
            self.set_start(addr) + self.associativity <= self.table.len(),
            match self.find(addr) {
                Some(idx) => {
                    &&& self.set_start(addr) <= idx < self.set_start(addr) + self.associativity
                    &&& self.table[idx as int].1 == self.layout.tag_of(addr)
                    &&& self.keys()[idx as int] == Some(self.layout.tag_of(addr))
                },
                None => true,
            },
    {
        self.layout.lemma_fields_bounded(addr);
        let set = self.layout.index_of(addr) as int;
        let ways = self.associativity as int;
        let sets = self.layout.sets() as int;
        assert(0 <= set * ways && set * ways + ways <= sets * ways) by (nonlinear_arith)
            requires
                0 <= set < sets,
                0 <= ways,
        ;
        lemma_first_match(
            self.keys(),
            self.layout.tag_of(addr),
            self.set_start(addr),
            self.set_start(addr) + self.associativity,
        );
    }
}

impl Mesi {
    pub fn new(
        core_id: usize,
        cache_size: usize,
        block_size: usize,
        associativity: usize,
        addr_layout: &AddressLayout,
    ) -> (mesi: Self)
        requires
            block_size > 0,
        ensures
            mesi@ == (MesiView {
                core_id,
                table: Seq::new(
                    (cache_size / block_size) as nat,
                    |i: int| (MesiState::I, PLACEHOLDER_TAG),
                ),
                block_size,
                associativity,
                layout: *addr_layout,
            }),
    {
        let n: usize = cache_size / block_size;
        let mut cache_state: Vec<(MesiState, u32)> = Vec::new();
        let mut i: usize = 0;
        while i < n
            invariant
                i <= n,
                cache_state@ == Seq::new(i as nat, |j: int| (MesiState::I, PLACEHOLDER_TAG)),
            decreases n - i,
        {
            cache_state.push((MesiState::I, PLACEHOLDER_TAG));
            i = i + 1;
        }
        Mesi { core_id, cache_state, block_size, associativity, addr_layout: *addr_layout }
    }

    /// State and tag of slot `cache_idx`.
    pub fn line(&self, cache_idx: usize) -> (line: (MesiState, u32))
        requires
            cache_idx < self@.table.len(),
        ensures
            line == self@.table[cache_idx as int],
    {
        self.cache_state[cache_idx]
    }

    fn idx_of_addr(&self, addr: u32) -> (found: Option<usize>)
        requires
            self@.wf(),
        ensures
            found == self@.find(addr),
    {
        proof {
            self@.lemma_set_in_table(addr);
        }
        let set_idx: usize = self.addr_layout.index(addr);
        assert(set_idx * self.associativity == self@.set_start(addr));
        let start_idx: usize = set_idx * self.associativity;
        let tag: u32 = self.addr_layout.tag(addr);
        let end_idx: usize = start_idx + self.associativity;
        let mut i: usize = start_idx;
        while i < end_idx
            invariant
                start_idx <= i <= end_idx <= self.cache_state@.len(),
                start_idx == self@.set_start(addr),
                end_idx == start_idx + self.associativity,
                tag == self@.layout.tag_of(addr),
                forall|j: int| start_idx <= j < i ==> self@.keys()[j] != Some(tag),
            decreases end_idx - i,
        {
            if self.cache_state[i].1 == tag && !(tag == PLACEHOLDER_TAG && matches!(
                self.cache_state[i].0,
                MesiState::I
            )) {
                proof {
                    assert(self@.keys()[i as int] == Some(tag));
                    lemma_first_match_is(self@.keys(), tag, start_idx as int, end_idx as int, i as int);
                }
                return Some(i);
            }
            i = i + 1;
        }
        proof {
            lemma_first_match_none(self@.keys(), tag, start_idx as int, end_idx as int);
        }
        None
    }

    fn processor_transition(
        &mut self,
        addr: u32,
        flat_cache_idx: Option<usize>,
        flat_store_idx: usize,
        hit: bool,
        action: ProcessorAction,
        bus: &mut Bus,
    ) -> (bus_transaction: Option<BusAction>)
        requires
            old(self)@.wf(),
            old(self)@.accepts(
                addr,
                flat_cache_idx,
                flat_store_idx,
                hit,
                action,
                old(bus)@.task is Some,
            ),
        ensures
            (final(self)@, bus_transaction) == old(self)@.processed(
                addr,
                flat_cache_idx,
                flat_store_idx,
                hit,
                action,
                old(bus)@.task is Some,
            ),
            final(bus)@ == old(bus)@,
    {
        let current_state: MesiState = self.cache_state[flat_cache_idx.unwrap_or(0)].0;
        let (next_state, bus_transaction) = match (current_state, action, hit) {
            // HIT
            (MesiState::M, ProcessorAction::Read | ProcessorAction::Write, true) => {
                (MesiState::M, None)
            },
            (MesiState::E, ProcessorAction::Write, true) => (MesiState::M, None),
            (MesiState::E, ProcessorAction::Read, true) => (MesiState::E, None),
            (MesiState::S, ProcessorAction::Read, true) => (MesiState::S, None),
            (MesiState::S, ProcessorAction::Write, true) => {
                (MesiState::M, Some(BusAction::BusRdXMem(addr, WORD_SIZE)))
            },
            (MesiState::I, ProcessorAction::Read, true) => (
                MesiState::E,
                Some(BusAction::BusRdMem(addr, self.block_size)),
            ),
            (MesiState::I, ProcessorAction::Write, true) => (
                MesiState::M,
                Some(BusAction::BusRdXMem(addr, self.block_size)),
            ),
            // MISS
            (_, ProcessorAction::Read, false) => (
                MesiState::E,
                Some(BusAction::BusRdMem(addr, self.block_size)),
            ),
            (_, ProcessorAction::Write, false) => (
                MesiState::M,
                Some(BusAction::BusRdXMem(addr, self.block_size)),
            ),
        };
        if bus_transaction.is_none() || !bus.occupied() {
            // Cache will issue bus action || no bus action required => already modify state
            let tag: u32 = self.addr_layout.tag(addr);
            self.cache_state[flat_cache_idx.unwrap_or(flat_store_idx)] = (next_state, tag);
        }
        // else: bus is busy, cache will execute read / write again next cycle. "busy waiting"
        bus_transaction
    }

    fn bus_snoop_transition(&mut self, bus: &mut Bus) -> (rewritten: Option<Task>)
        requires
            old(self)@.wf(),
            old(self)@.snoop_allowed(old(bus)@.task),
        ensures
            (final(self)@, rewritten) == old(self)@.snooped(old(bus)@.task),
            final(bus)@ == old(bus)@.with_task(
                if rewritten is Some {
                    rewritten
                } else {
                    old(bus)@.task
                },
            ),
    {
        // no active tasks means no snooping
        let task = match bus.active_task() {
            Some(t) => t,
            None => return None,
        };
        if task.issuer_id == self.core_id {
            return None;
        }
        let addr: u32 = BusAction::extract_addr(task.action);
        // abort if task tag is not cached => we don't care
        let idx: usize = match self.idx_of_addr(addr) {
            Some(idx) => idx,
            None => return None,
        };
        proof {
            self@.lemma_set_in_table(addr);
        }
        let (state, stored_tag) = self.cache_state[idx];
        match (task.action, state) {
            // Event: Someone else wants to read (not exclusive) our modified line
            // => transition from M -> S, flush line to main memory (flush cost + transfer to other
            // core cost)
            (BusAction::BusRdMem(b_addr, c), MesiState::M) => {
                self.cache_state[idx] = (MesiState::S, stored_tag);
                task.action = BusAction::BusRdShared(b_addr, c);
                task.remaining_cycles = Bus::price(&BusAction::Flush(0, self.block_size));
            },
            // Event: Someone else wants to readX our modified line
            // => M -> I and Flush
            (BusAction::BusRdXMem(b_addr, c), MesiState::M) => {
                self.cache_state[idx] = (MesiState::I, stored_tag);
                task.action = BusAction::BusRdXShared(b_addr, c);
                task.remaining_cycles = Bus::price(&BusAction::Flush(0, self.block_size));
            },
            // Event: Someone else wants to read (not X) our exclusive line
            // => E -> S
            (BusAction::BusRdMem(b_addr, c), MesiState::E) => {
                self.cache_state[idx] = (MesiState::S, stored_tag);
                task.action = BusAction::BusRdShared(b_addr, c);
                task.remaining_cycles = Bus::price(&task.action);
            },
            // Event: Someone else wants to readX our exclusive line
            // => E -> I
            (BusAction::BusRdXMem(b_addr, c), MesiState::E) => {
                self.cache_state[idx] = (MesiState::I, stored_tag);
                task.action = BusAction::BusRdXShared(b_addr, c);
                task.remaining_cycles = Bus::price(&task.action);
            },
            // Event: Someone else wants to read (not X) our shared line
            // => S -> S and supply line
            (BusAction::BusRdMem(b_addr, c), MesiState::S) => {
                task.action = BusAction::BusRdShared(b_addr, c);
                task.remaining_cycles = Bus::price(&task.action);
            },
            // Event: Someone else wants to readX our shared line
            // => S -> I but supply line
            (
                BusAction::BusRdXMem(b_addr, c) | BusAction::BusRdXShared(b_addr, c),
                MesiState::S,
            ) => {
                self.cache_state[idx] = (MesiState::I, stored_tag);
                task.action = BusAction::BusRdXShared(b_addr, c);
                task.remaining_cycles = Bus::price(&task.action);
            },
            // Ignore bus events that don't change anything
            _ => return None,
        }
        assert(self@.table =~= old(self)@.snooped(old(bus)@.task).0.table);
        Some(*task)
    }

    fn bus_after_snoop_transition(&mut self, bus: &mut Bus)
        requires
            old(self)@.wf(),
        ensures
            final(self)@ == old(self)@.settled(old(bus)@.task),
            final(bus)@ == old(bus)@,
    {
        // no active tasks means no after-snoop
        let task: Task = match bus.active_task() {
            Some(t) => *t,
            None => return ,
        };
        // after-snoop only regards actions of other cores on our task
        if task.issuer_id != self.core_id {
            return ;
        }
        let addr: u32 = BusAction::extract_addr(task.action);
        // abort if task tag is not cached => we don't care
        let idx: usize = match self.idx_of_addr(addr) {
            Some(idx) => idx,
            None => return ,
        };
        proof {
            self@.lemma_set_in_table(addr);
        }
        let (state, stored_tag) = self.cache_state[idx];
        // Event: We read using BusRdMem and some other core changed action to BusRdShared
        // => Value is shared.
        if let (BusAction::BusRdShared(_, _), MesiState::E) = (task.action, state) {
            self.cache_state[idx] = (MesiState::S, stored_tag);
        }
    }
}

impl Protocol for Mesi {
    open spec fn wf(&self) -> bool {
        self@.wf()
    }

    open spec fn slots(&self) -> nat {
        self@.table.len()
    }

    open spec fn accepts(
        &self,
        addr: u32,
        cache_idx: Option<usize>,
        store_idx: usize,
        hit: bool,
        action: ProcessorAction,
        busy: bool,
    ) -> bool {
        self@.accepts(addr, cache_idx, store_idx, hit, action, busy)
    }

    open spec fn snoop_allowed(&self, task: Option<Task>) -> bool {
        self@.snoop_allowed(task)
    }

    open spec fn holds_line(&self, cache_idx: usize, tag: u32) -> bool {
        self@.holds_line(cache_idx, tag)
    }

    open spec fn classifiable(&self, cache_idx: usize, addr: u32) -> bool {
        self@.classifiable(cache_idx, addr)
    }

    open spec fn broadcast_allowed(&self) -> bool {
        true
    }

    fn read(
        &mut self,
        tag: u32,
        cache_idx: Option<usize>,
        store_idx: usize,
        hit: bool,
        bus: &mut Bus,
    ) -> (action: Option<BusAction>)
        ensures
            (final(self)@, action) == old(self)@.processed(
                tag,
                cache_idx,
                store_idx,
                hit,
                ProcessorAction::Read,
                old(bus)@.task is Some,
            ),
    {
        self.processor_transition(tag, cache_idx, store_idx, hit, ProcessorAction::Read, bus)
    }

    fn write(
        &mut self,
        tag: u32,
        cache_idx: Option<usize>,
        store_idx: usize,
        hit: bool,
        bus: &mut Bus,
    ) -> (action: Option<BusAction>)
        ensures
            (final(self)@, action) == old(self)@.processed(
                tag,
                cache_idx,
                store_idx,
                hit,
                ProcessorAction::Write,
                old(bus)@.task is Some,
            ),
    {
        self.processor_transition(tag, cache_idx, store_idx, hit, ProcessorAction::Write, bus)
    }

    fn snoop(&mut self, bus: &mut Bus) -> (rewritten: Option<Task>)
        ensures
            (final(self)@, rewritten) == old(self)@.snooped(old(bus)@.task),
    {
        proof {
            self@.lemma_shape_kept(bus@.task);
        }
        self.bus_snoop_transition(bus)
    }

    fn after_snoop(&mut self, bus: &mut Bus)
        ensures
            final(self)@ == old(self)@.settled(old(bus)@.task),
            final(bus)@ == old(bus)@,
    {
        proof {
            self@.lemma_shape_kept(bus@.task);
        }
        self.bus_after_snoop_transition(bus)
    }

    fn writeback_required(&self, cache_idx: usize, tag: u32) -> (owner: bool)
        ensures
            owner == (self@.table[cache_idx as int].0 is M),
    {
        let (state, stored_tag) = self.cache_state[cache_idx];
        state == MesiState::M
    }

    fn is_shared(&self, cache_idx: usize, addr: u32) -> (shared: bool)
        ensures
            shared == (self@.table[self@.classified_at(cache_idx, addr).unwrap() as int].0 is S),
    {
        let mut idx: usize = cache_idx;
        if cache_idx == usize::MAX {
            idx = self.idx_of_addr(addr).unwrap();
        }
        let (state, stored_tag) = self.cache_state[idx];
        matches!(state, MesiState::S)
    }

    fn sanity_check(&self, cache_idx: usize) -> (tag: Option<u32>)
        ensures
            tag == self@.stored()[cache_idx as int],
    {
        Some(self.cache_state[cache_idx].1)
    }

    fn invalidate(&mut self, cache_idx: usize, tag: u32)
        ensures
            final(self)@ == (MesiView {
                table: old(self)@.table.update(cache_idx as int, (MesiState::I, PLACEHOLDER_TAG)),
                ..old(self)@
            }),
    {
        self.cache_state[cache_idx] = (MesiState::I, PLACEHOLDER_TAG)
    }

    fn read_broadcast(&mut self, bus: &mut Bus)
        ensures
            (final(self)@, final(bus)@.task) == old(self)@.snarfed(old(bus)@.task),
    {
        proof {
            self@.lemma_shape_kept(bus@.task);
        }
        // only run if bus has active task that is not ours
        let task = match bus.active_task() {
            Some(t) => t,
            None => return ,
        };
        if task.issuer_id == self.core_id {
            return ;
        }
        // check if we have the task address stored currently
        let addr: u32 = BusAction::extract_addr(task.action);
        // abort if task tag is not cached => we don't care
        let idx: usize = match self.idx_of_addr(addr) {
            Some(idx) => idx,
            None => return ,
        };
        proof {
            self@.lemma_set_in_table(addr);
        }
        let (state, stored_tag) = self.cache_state[idx];
        // read broadcast optimization
        if let (BusAction::BusRdMem(b_addr, c) | BusAction::BusRdShared(b_addr, c), MesiState::I) =
            (task.action, state) {
            // only execute if other core is reading complete block
            if c == self.block_size {
                self.cache_state[idx] = (MesiState::S, stored_tag);
                task.action = BusAction::BusRdShared(b_addr, c);
            }
        }
    }
}

} // verus!
