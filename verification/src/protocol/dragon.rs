use crate::bus::{Bus, BusAction, Task};
use crate::geometry::WORD_SIZE;
use crate::protocol::{
    first_match, lemma_first_match, lemma_first_match_is, lemma_first_match_none, ProcessorAction,
    Protocol,
};
use crate::utils::AddressLayout;
use vstd::prelude::*;

verus! {

#[derive(PartialEq, Eq, Structural, Clone, Copy, Debug)]
pub enum DragonState {
    E,
    Sc,
    Sm,
    M,
}

/// The Dragon table of one cache: for every slot the state and tag of the block that it
/// holds, or nothing.
pub struct Dragon {
    core_id: usize,
    cache_state: Vec<Option<(DragonState, u32)>>,
    block_size: usize,
    associativity: usize,
    addr_layout: AddressLayout,
}

/// What an access of the processor does to a line: the state that the line takes, and the
/// transaction that must go on the bus for it. A hit needs a line; a miss does not look at
/// what the slot held. A store that misses leaves the line exclusive, which marks it as a
/// cold write until all caches have snooped.
pub open spec fn processor_rule(
    line: Option<(DragonState, u32)>,
    action: ProcessorAction,
    hit: bool,
    addr: u32,
    block_size: usize,
) -> Option<(DragonState, Option<BusAction>)> {
    if hit {
        match (line, action) {
            (Some((DragonState::E, _)), ProcessorAction::Read) => Some((DragonState::E, None)),
            (Some((DragonState::E, _)), ProcessorAction::Write) => Some((DragonState::M, None)),
            (Some((DragonState::Sc, _)), ProcessorAction::Read) => Some((DragonState::Sc, None)),
            (Some((DragonState::Sc, _)), ProcessorAction::Write) => Some(
                (DragonState::M, Some(BusAction::BusUpdMem(addr, WORD_SIZE))),
            ),
            (Some((DragonState::Sm, _)), ProcessorAction::Read) => Some((DragonState::Sm, None)),
            (Some((DragonState::Sm, _)), ProcessorAction::Write) => Some(
                (DragonState::M, Some(BusAction::BusUpdMem(addr, WORD_SIZE))),
            ),
            (Some((DragonState::M, _)), _) => Some((DragonState::M, None)),
            (None, _) => None,
        }
    } else {
        match action {
            ProcessorAction::Read => Some(
                (DragonState::E, Some(BusAction::BusRdMem(addr, block_size))),
            ),
            ProcessorAction::Write => Some(
                (DragonState::E, Some(BusAction::BusUpdMem(addr, block_size))),
            ),
        }
    }
}

/// The task with `action` in place of its own and the time that `action` takes.
pub open spec fn retimed(task: Task, action: BusAction) -> Task {
    Task { action, remaining_cycles: action.price() as usize, ..task }
}

/// The transaction as a cache that holds the block rewrites it: what would have come from
/// memory comes from a cache instead.
pub open spec fn snoop_task(task: Task) -> Task {
    match task.action {
        BusAction::BusRdMem(a, c) => retimed(task, BusAction::BusRdShared(a, c)),
        BusAction::BusUpdMem(a, c) => retimed(task, BusAction::BusUpdShared(a, c)),
        _ => task,
    }
}

/// The state that a line takes when another cache's transaction is snooped.
pub open spec fn snoop_state(action: BusAction, state: DragonState) -> DragonState {
    let read = action is BusRdMem || action is BusRdShared;
    let update = action is BusUpdMem || action is BusUpdShared;
    match state {
        DragonState::E => if read || update {
            DragonState::Sc
        } else {
            state
        },
        DragonState::M => if read {
            DragonState::Sm
        } else if update {
            DragonState::Sc
        } else {
            state
        },
        DragonState::Sm => if update {
            DragonState::Sc
        } else {
            state
        },
        DragonState::Sc => state,
    }
}

/// What the issuer of `task` does once all caches have snooped, by the final form of the
/// task and the state of its own line: the state that the line takes and what becomes of
/// the task (`None`: it is taken off the bus). A read that another cache answered leaves
/// the line shared. An update that no cache answered is taken off the bus. A cold write
/// that no cache answered becomes the read of the block; one that was answered becomes
/// the update of the whole block and also takes the time of reading it from a cache.
pub open spec fn settle_rule(task: Task, state: DragonState, block_size: usize) -> (
    DragonState,
    Option<Task>,
) {
    let addr = task.action.addr();
    match (task.action, state) {
        (BusAction::BusRdShared(_, _), DragonState::M) => (DragonState::Sm, Some(task)),
        (BusAction::BusRdShared(_, _), DragonState::E) => (DragonState::Sc, Some(task)),
        (BusAction::BusUpdShared(_, _), DragonState::M) => (DragonState::Sm, Some(task)),
        (BusAction::BusUpdMem(_, _), DragonState::M) => (DragonState::M, None),
        (BusAction::BusUpdMem(_, _), DragonState::E) => (
            DragonState::M,
            Some(retimed(task, BusAction::BusRdMem(addr, block_size))),
        ),
        (BusAction::BusUpdShared(_, _), DragonState::E) => (
            DragonState::Sm,
            Some(
                Task {
                    action: BusAction::BusUpdShared(addr, block_size),
                    remaining_cycles: (BusAction::BusUpdShared(addr, block_size).price()
                        + BusAction::BusRdShared(addr, block_size).price()) as usize,
                    ..task
                },
            ),
        ),
        _ => (state, Some(task)),
    }
}

/// A Dragon table as a value: whose it is, its shape, and what every slot holds.
#[verifier::ext_equal]
pub struct DragonView {
    pub core_id: usize,
    pub table: Seq<Option<(DragonState, u32)>>,
    pub block_size: usize,
    pub associativity: usize,
    pub layout: AddressLayout,
}

impl View for Dragon {
    type V = DragonView;

    closed spec fn view(&self) -> DragonView {
        DragonView {
            core_id: self.core_id,
            table: self.cache_state@,
            block_size: self.block_size,
            associativity: self.associativity,
            layout: self.addr_layout,
        }
    }
}

impl DragonView {
    /// The table has an entry for every slot that an address can map to.
    pub open spec fn wf(self) -> bool {
        &&& self.layout.wf()
        &&& self.layout.sets() * self.associativity <= self.table.len() <= usize::MAX
    }

    /// The first slot of the set of `addr`.
    pub open spec fn set_start(self, addr: u32) -> int {
        self.layout.index_of(addr) * self.associativity
    }

    /// The tag that a lookup sees in each slot.
    pub open spec fn keys(self) -> Seq<Option<u32>> {
        Seq::new(
            self.table.len(),
            |i: int|
                match self.table[i] {
                    Some((_, tag)) => Some(tag),
                    None => None,
                },
        )
    }

    /// The tag that each slot carries, where it holds a block.
    pub open spec fn stored(self) -> Seq<Option<u32>> {
        self.keys()
    }

    /// The slot that holds the block of `addr`: the first one of the set of `addr` that
    /// holds a block with the tag of `addr`.
    pub open spec fn find(self, addr: u32) -> Option<usize> {
        match first_match(
            self.keys(),
            self.layout.tag_of(addr),
            self.set_start(addr),
            self.set_start(addr) + self.associativity,
        ) {
            Some(i) => Some(i as usize),
            None => None,
        }
    }

    /// Whether a transition goes into the table at once: always, unless it needs the bus
    /// and the bus is occupied.
    pub open spec fn commits(transaction: Option<BusAction>, busy: bool) -> bool {
        transaction is None || !busy
    }

    /// The accesses for which the transition is defined and the table has the entries
    /// that it reads and writes: a hit names its slot, which holds a block, and a miss
    /// names none.
    pub open spec fn accepts(
        self,
        addr: u32,
        cache_idx: Option<usize>,
        store_idx: usize,
        hit: bool,
        action: ProcessorAction,
        busy: bool,
    ) -> bool {
        let current = cache_idx.unwrap_or(0);
        let rule = processor_rule(self.table[current as int], action, hit, addr, self.block_size);
        &&& current < self.table.len()
        &&& hit == cache_idx.is_some()
        &&& rule is Some
        &&& Self::commits(rule.unwrap().1, busy) ==> cache_idx.unwrap_or(store_idx)
            < self.table.len()
    }

    /// The table after an access of the processor, and the transaction that the access
    /// needs.
    pub open spec fn processed(
        self,
        addr: u32,
        cache_idx: Option<usize>,
        store_idx: usize,
        hit: bool,
        action: ProcessorAction,
        busy: bool,
    ) -> (DragonView, Option<BusAction>) {
        let current = self.table[cache_idx.unwrap_or(0) as int];
        let rule = processor_rule(current, action, hit, addr, self.block_size).unwrap();
        if Self::commits(rule.1, busy) {
            (
                DragonView {
                    table: self.table.update(
                        cache_idx.unwrap_or(store_idx) as int,
                        Some((rule.0, self.layout.tag_of(addr))),
                    ),
                    ..self
                },
                rule.1,
            )
        } else {
            (self, rule.1)
        }
    }

    /// The table after slot `entry`, which holds a block, took `state`.
    pub open spec fn with_state(self, entry: int, state: DragonState) -> DragonView {
        DragonView {
            table: self.table.update(entry, Some((state, self.table[entry].unwrap().1))),
            ..self
        }
    }

    /// The line that a transaction of another cache meets here: nothing without a task,
    /// for the cache that issued it, or where the cache does not hold the block.
    pub open spec fn met(self, task: Option<Task>) -> Option<usize> {
        match task {
            None => None,
            Some(t) => if t.issuer_id == self.core_id {
                None
            } else {
                self.find(t.action.addr())
            },
        }
    }

    /// What snooping `task` does: the table afterwards, and the task as rewritten, if
    /// this cache holds the block.
    pub open spec fn snooped(self, task: Option<Task>) -> (DragonView, Option<Task>) {
        match self.met(task) {
            None => (self, None),
            Some(idx) => {
                let rewritten = snoop_task(task.unwrap());
                (
                    self.with_state(
                        idx as int,
                        snoop_state(rewritten.action, self.table[idx as int].unwrap().0),
                    ),
                    Some(rewritten),
                )
            },
        }
    }

    /// What the issuer of `task` does once all caches have snooped: the table afterwards
    /// and what is then on the bus. Nothing happens without a task, for a cache that did
    /// not issue it, or where the issuer does not hold the block.
    pub open spec fn settled(self, task: Option<Task>) -> (DragonView, Option<Task>) {
        match task {
            None => (self, task),
            Some(t) => if t.issuer_id != self.core_id {
                (self, task)
            } else {
                match self.find(t.action.addr()) {
                    None => (self, task),
                    Some(idx) => {
                        let rule = settle_rule(
                            t,
                            self.table[idx as int].unwrap().0,
                            self.block_size,
                        );
                        (self.with_state(idx as int, rule.0), rule.1)
                    },
                }
            },
        }
    }

    /// Whether entry `cache_idx` holds a block with tag `tag`.
    pub open spec fn holds_line(self, cache_idx: usize, tag: u32) -> bool {
        &&& cache_idx < self.table.len()
        &&& self.table[cache_idx as int] is Some
        &&& self.table[cache_idx as int].unwrap().1 == tag
    }

    /// The entry that classifies an access: `cache_idx`, or, where that is `usize::MAX`,
    /// the entry that holds the block of `addr`.
    pub open spec fn classified_at(self, cache_idx: usize, addr: u32) -> Option<usize> {
        if cache_idx == usize::MAX {
            self.find(addr)
        } else {
            Some(cache_idx)
        }
    }

    /// Whether the block of `addr` can be classified: its entry exists and holds it.
    pub open spec fn classifiable(self, cache_idx: usize, addr: u32) -> bool {
        match self.classified_at(cache_idx, addr) {
            Some(i) => self.holds_line(i, self.layout.tag_of(addr)),
            None => false,
        }
    }

    /// Whether two tables belong to the same cache and have the same shape.
    pub open spec fn same_shape(self, other: DragonView) -> bool {
        &&& self.core_id == other.core_id
        &&& self.block_size == other.block_size
        &&& self.associativity == other.associativity
        &&& self.layout == other.layout
        &&& self.table.len() == other.table.len()
    }

    /// Snooping and what follows it change states only: the table keeps its shape.
    pub proof fn lemma_shape_kept(self, task: Option<Task>)
        requires
            self.wf(),
        ensures
            self.snooped(task).0.same_shape(self),
            self.settled(task).0.same_shape(self),
    {
        if task is Some {
            self.lemma_set_in_table(task.unwrap().action.addr());
        }
    }

    /// The slots of a set lie inside the table, and so does what a lookup finds.
    pub proof fn lemma_set_in_table(self, addr: u32)
        requires
            self.wf(),
        ensures
            0 <= self.set_start(addr),
            self.set_start(addr) + self.associativity <= self.table.len(),
            match self.find(addr) {
                Some(idx) => {
                    &&& self.set_start(addr) <= idx < self.set_start(addr) + self.associativity
                    &&& self.table[idx as int] is Some
                    &&& self.table[idx as int].unwrap().1 == self.layout.tag_of(addr)
                },
                None => true,
            },
    {
        self.layout.lemma_fields_bounded(addr);
        let set = self.layout.index_of(addr) as int;
        let ways = self.associativity as int;
        let sets = self.layout.sets() as int;
        assert(0 <= set * ways && set * ways + ways <= sets * ways) by (nonlinear_arith)
            requires
                0 <= set < sets,
                0 <= ways,
        ;
        lemma_first_match(
            self.keys(),
            self.layout.tag_of(addr),
            self.set_start(addr),
            self.set_start(addr) + self.associativity,
        );
    }
}

impl Dragon {
    pub fn new(
        core_id: usize,
        cache_size: usize,
        block_size: usize,
        associativity: usize,
        addr_layout: &AddressLayout,
    ) -> (dragon: Self)
        requires
            block_size > 0,
        ensures
            dragon@ == (DragonView {
                core_id,
                table: Seq::new(
                    (cache_size / block_size) as nat,
                    |i: int| None::<(DragonState, u32)>,
                ),
                block_size,
                associativity,
                layout: *addr_layout,
            }),
    {
        let n: usize = cache_size / block_size;
        let mut cache_state: Vec<Option<(DragonState, u32)>> = Vec::new();
        let mut i: usize = 0;
        while i < n
            invariant
                i <= n,
                cache_state@ == Seq::new(i as nat, |j: int| None::<(DragonState, u32)>),
            decreases n - i,
        {
            cache_state.push(None);
            i = i + 1;
        }
        Dragon { core_id, cache_state, block_size, associativity, addr_layout: *addr_layout }
    }

    /// What slot `cache_idx` holds.
    pub fn line(&self, cache_idx: usize) -> (line: Option<(DragonState, u32)>)
        requires
            cache_idx < self@.table.len(),
        ensures
            line == self@.table[cache_idx as int],
    {
        self.cache_state[cache_idx]
    }

    fn idx_of_addr(&self, addr: u32) -> (found: Option<usize>)
        requires
            self@.wf(),
        ensures
            found == self@.find(addr),
    {
        proof {
            self@.lemma_set_in_table(addr);
        }
        let set_idx: usize = self.addr_layout.index(addr);
        assert(set_idx * self.associativity == self@.set_start(addr));
        let start_idx: usize = set_idx * self.associativity;
        let tag: u32 = self.addr_layout.tag(addr);
        let end_idx: usize = start_idx + self.associativity;
        let mut i: usize = start_idx;
        while i < end_idx
            invariant
                start_idx <= i <= end_idx <= self.cache_state@.len(),
                start_idx == self@.set_start(addr),
                end_idx == start_idx + self.associativity,
                tag == self@.layout.tag_of(addr),
                forall|j: int| start_idx <= j < i ==> self@.keys()[j] != Some(tag),
            decreases end_idx - i,
        {
            let holds: bool = match self.cache_state[i] {
                Some((_, t)) => t == tag,
                None => false,
            };
            if holds {
                proof {
                    assert(self@.keys()[i as int] == Some(tag));
                    lemma_first_match_is(self@.keys(), tag, start_idx as int, end_idx as int, i as int);
                }
                return Some(i);
            }
            i = i + 1;
        }
        proof {
            lemma_first_match_none(self@.keys(), tag, start_idx as int, end_idx as int);
        }
        None
    }

    fn processor_transition(
        &mut self,
        addr: u32,
        flat_cache_idx: Option<usize>,
        flat_store_idx: usize,
        hit: bool,
        action: ProcessorAction,
        bus: &mut Bus,
    ) -> (bus_transaction: Option<BusAction>)
        requires
            old(self)@.wf(),
            old(self)@.accepts(
                addr,
                flat_cache_idx,
                flat_store_idx,
                hit,
                action,
                old(bus)@.task is Some,
            ),
        ensures
            (final(self)@, bus_transaction) == old(self)@.processed(
                addr,
                flat_cache_idx,
                flat_store_idx,
                hit,
                action,
                old(bus)@.task is Some,
            ),
            final(bus)@ == old(bus)@,
    {
        // fills current_state with placeholder if hit == false.
        let current_state: Option<(DragonState, u32)> = self.cache_state[flat_cache_idx.unwrap_or(0)];
        let (next_state, bus_transaction) = match (current_state, action, hit) {
            // HIT
            (Some((DragonState::E, _)), ProcessorAction::Read, true) => (DragonState::E, None),
            (Some((DragonState::E, _)), ProcessorAction::Write, true) => (DragonState::M, None),
            (Some((DragonState::Sc, _)), ProcessorAction::Read, true) => (DragonState::Sc, None),
            // This bus transaction is cleared at the end of the cycle if no other cache shares
            // the line
            (Some((DragonState::Sc, _)), ProcessorAction::Write, true) => {
                (DragonState::M, Some(BusAction::BusUpdMem(addr, WORD_SIZE)))
            },
            (Some((DragonState::Sm, _)), ProcessorAction::Read, true) => (DragonState::Sm, None),
            (Some((DragonState::Sm, _)), ProcessorAction::Write, true) => {
                (DragonState::M, Some(BusAction::BusUpdMem(addr, WORD_SIZE)))
            },
            (Some((DragonState::M, _)), _, true) => (DragonState::M, None),
            // MISS
            (_, ProcessorAction::Read, false) => (
                DragonState::E,
                Some(BusAction::BusRdMem(addr, self.block_size)),
            ),
            // a line left exclusive tells after_snoop that this is a cold write
            (_, ProcessorAction::Write, _) => (
                DragonState::E,
                Some(BusAction::BusUpdMem(addr, self.block_size)),
            ),
            (_, ProcessorAction::Read, _) => (
                DragonState::E,
                Some(BusAction::BusRdMem(addr, self.block_size)),
            ),
        };
        if bus_transaction.is_none() || !bus.occupied() {
            // Cache will issue bus action => already modifiy state
            let tag: u32 = self.addr_layout.tag(addr);
            self.cache_state[flat_cache_idx.unwrap_or(flat_store_idx)] = Some((next_state, tag));
        }
        // else: bus is busy, cache will execute read / write again next cycle. "busy waiting"
        bus_transaction
    }

    fn bus_snoop_transition(&mut self, bus: &mut Bus) -> (rewritten: Option<Task>)
        requires
            old(self)@.wf(),
        ensures
            (final(self)@, rewritten) == old(self)@.snooped(old(bus)@.task),
            final(bus)@ == old(bus)@.with_task(
                if rewritten is Some {
                    rewritten
                } else {
                    old(bus)@.task
                },
            ),
    {
        let task = match bus.active_task() {
            Some(t) => t,
            None => return None,
        };
        if task.issuer_id == self.core_id {
            return None;
        }
        let addr: u32 = BusAction::extract_addr(task.action);
        let idx: usize = match self.idx_of_addr(addr) {
            Some(idx) => idx,
            None => return None,
        };
        proof {
            self@.lemma_set_in_table(addr);
        }
        let (state, tag) = self.cache_state[idx].unwrap();

        // first, decide if we share any data
        match task.action {
            // Event: Someone else reads a cache block that we have cached
            // => Change read to shared read and update remaining time.
            // (state transitions are handled later.)
            BusAction::BusRdMem(b_addr, c) => {
                task.action = BusAction::BusRdShared(b_addr, c);
                task.remaining_cycles = Bus::price(&task.action);
            },
            // Event: Someone else updates a cache block that we have cached
            // => Change update to shared update and update remaining time.
            // (state transitions are handled later.)
            BusAction::BusUpdMem(b_addr, c) => {
                task.action = BusAction::BusUpdShared(b_addr, c);
                task.remaining_cycles = Bus::price(&task.action);
            },
            _ => (),
        }

        // perform state transitions
        match (task.action, state) {
            // Event: Bus Read && Line is E
            // => E -> Sc
            (BusAction::BusRdMem(_, _) | BusAction::BusRdShared(_, _), DragonState::E) => {
                self.cache_state[idx] = Some((DragonState::Sc, tag));
            },
            // Event: Bus Read && Line is M
            (BusAction::BusRdMem(_, _) | BusAction::BusRdShared(_, _), DragonState::M) => {
                self.cache_state[idx] = Some((DragonState::Sm, tag));
            },
            // Event: Bus Update && Line is Sm
            // => Sm -> Sc
            (BusAction::BusUpdMem(_, _) | BusAction::BusUpdShared(_, _), DragonState::Sm) => {
                self.cache_state[idx] = Some((DragonState::Sc, tag));
            },
            // Event: Someone else does a cold write (BusRd + BusUpd)
            // and we are in E or M => Sc
            (
                BusAction::BusUpdMem(_, _) | BusAction::BusUpdShared(_, _),
                DragonState::E | DragonState::M,
            ) => {
                self.cache_state[idx] = Some((DragonState::Sc, tag));
            },
            // Ignore bus events that don't change anything
            _ => (),
        };
        assert(self@.table =~= old(self)@.snooped(old(bus)@.task).0.table);
        Some(*task)
    }

    fn bus_after_snoop_transition(&mut self, bus: &mut Bus)
        requires
            old(self)@.wf(),
        ensures
            final(self)@ == old(self)@.settled(old(bus)@.task).0,
            final(bus)@ == old(bus)@.with_task(old(self)@.settled(old(bus)@.task).1),
    {
        let task = match bus.active_task() {
            Some(t) => t,
            None => return ,
        };
        if task.issuer_id != self.core_id {
            return ;
        }
        let addr: u32 = BusAction::extract_addr(task.action);
        let idx: usize = match self.idx_of_addr(addr) {
            Some(idx) => idx,
            None => return ,
        };
        proof {
            self@.lemma_set_in_table(addr);
        }
        let (state, tag) = self.cache_state[idx].unwrap();

        match (task.action, state) {
            // Event: We read using BusRdMem and some other core changed action to BusRdShared
            // => Value is shared.
            (BusAction::BusRdShared(_, _), DragonState::M) => {
                self.cache_state[idx] = Some((DragonState::Sm, tag));
            },
            (BusAction::BusRdShared(_, _), DragonState::E) => {
                self.cache_state[idx] = Some((DragonState::Sc, tag));
            },
            (BusAction::BusUpdShared(_, _), DragonState::M) => {
                self.cache_state[idx] = Some((DragonState::Sm, tag));
            },
            (BusAction::BusUpdMem(_, _), DragonState::M) => {
                bus.clear();
            },
            // cold writes are signaled by not setting the state to the appropriate M
            (BusAction::BusUpdMem(_, _), DragonState::E) => {
                // BusUpd not required, BusRd time should be counted though.
                task.action = BusAction::BusRdMem(addr, self.block_size);
                task.remaining_cycles = Bus::price(&task.action);
                self.cache_state[idx] = Some((DragonState::M, tag));
            },
            (BusAction::BusUpdShared(_, _), DragonState::E) => {
                // BusUpd and BusRd required => adjust time.
                task.action = BusAction::BusUpdShared(addr, self.block_size);
                task.remaining_cycles = Bus::price(&task.action) + Bus::price(
                    &BusAction::BusRdShared(addr, self.block_size),
                );
                self.cache_state[idx] = Some((DragonState::Sm, tag));
            },
            _ => (),
        }
        assert(self@.table =~= old(self)@.settled(old(bus)@.task).0.table);
    }
}

impl Protocol for Dragon {
    open spec fn wf(&self) -> bool {
        self@.wf()
    }

    open spec fn slots(&self) -> nat {
        self@.table.len()
    }

    open spec fn accepts(
        &self,
        addr: u32,
        cache_idx: Option<usize>,
        store_idx: usize,
        hit: bool,
        action: ProcessorAction,
        busy: bool,
    ) -> bool {
        self@.accepts(addr, cache_idx, store_idx, hit, action, busy)
    }

    open spec fn snoop_allowed(&self, task: Option<Task>) -> bool {
        true
    }

    open spec fn holds_line(&self, cache_idx: usize, tag: u32) -> bool {
        self@.holds_line(cache_idx, tag)
    }

    open spec fn classifiable(&self, cache_idx: usize, addr: u32) -> bool {
        self@.classifiable(cache_idx, addr)
    }

    open spec fn broadcast_allowed(&self) -> bool {
        false
    }

    fn read(
        &mut self,
        addr: u32,
        cache_idx: Option<usize>,
        store_idx: usize,
        hit: bool,
        bus: &mut Bus,
    ) -> (action: Option<BusAction>)
        ensures
            (final(self)@, action) == old(self)@.processed(
                addr,
                cache_idx,
                store_idx,
                hit,
                ProcessorAction::Read,
                old(bus)@.task is Some,
            ),
    {
        self.processor_transition(addr, cache_idx, store_idx, hit, ProcessorAction::Read, bus)
    }

    fn write(
        &mut self,
        addr: u32,
        cache_idx: Option<usize>,
        store_idx: usize,
        hit: bool,
        bus: &mut Bus,
    ) -> (action: Option<BusAction>)
        ensures
            (final(self)@, action) == old(self)@.processed(
                addr,
                cache_idx,
                store_idx,
                hit,
                ProcessorAction::Write,
                old(bus)@.task is Some,
            ),
    {
        self.processor_transition(addr, cache_idx, store_idx, hit, ProcessorAction::Write, bus)
    }

    fn snoop(&mut self, bus: &mut Bus) -> (rewritten: Option<Task>)
        ensures
            (final(self)@, rewritten) == old(self)@.snooped(old(bus)@.task),
    {
        proof {
            self@.lemma_shape_kept(bus@.task);
        }
        self.bus_snoop_transition(bus)
    }

    fn after_snoop(&mut self, bus: &mut Bus)
        ensures
            final(self)@ == old(self)@.settled(old(bus)@.task).0,
            final(bus)@ == old(bus)@.with_task(old(self)@.settled(old(bus)@.task).1),
    {
        proof {
            self@.lemma_shape_kept(bus@.task);
        }
        self.bus_after_snoop_transition(bus)
    }

    fn writeback_required(&self, cache_idx: usize, tag: u32) -> (owner: bool)
        ensures
            owner == (self@.table[cache_idx as int].unwrap().0 is M
                || self@.table[cache_idx as int].unwrap().0 is Sm),
    {
        let (state, stored_tag) = self.cache_state[cache_idx].unwrap();
        state == DragonState::M || state == DragonState::Sm
    }

    fn is_shared(&self, cache_idx: usize, addr: u32) -> (shared: bool)
        ensures
            ({
                let state = self@.table[self@.classified_at(cache_idx, addr).unwrap() as int].unwrap().0;
                shared == (state is Sc || state is Sm)
            }),
    {
        let mut idx: usize = cache_idx;
        if cache_idx == usize::MAX {
            idx = self.idx_of_addr(addr).unwrap();
        }
        let (state, stored_tag) = self.cache_state[idx].unwrap();
        matches!(state, DragonState::Sc | DragonState::Sm)
    }

    fn sanity_check(&self, cache_idx: usize) -> (tag: Option<u32>)
        ensures
            tag == self@.stored()[cache_idx as int],
    {
        match self.cache_state[cache_idx] {
            Some((_, tag)) => Some(tag),
            None => None,
        }
    }

    fn invalidate(&mut self, cache_idx: usize, tag: u32)
        ensures
            final(self)@ == (DragonView {
                table: old(self)@.table.update(cache_idx as int, None),
                ..old(self)@
            }),
    {
        self.cache_state[cache_idx] = None
    }

    /// The read-broadcast optimization does not exist for Dragon: never to be called.
    fn read_broadcast(&mut self, bus: &mut Bus) {
    }
}

} // verus!
