use vstd::prelude::*;

verus! {

/// A transaction on the shared bus: what is asked for, the address, and the number of
/// bytes moved.
#[derive(Clone, Copy, PartialEq, Eq, Structural, Debug)]
pub enum BusAction {
    BusRdMem(u32, usize),
    BusRdShared(u32, usize),
    BusRdXMem(u32, usize),
    BusRdXShared(u32, usize),
    BusUpdMem(u32, usize),
    BusUpdShared(u32, usize),
    Flush(u32, usize),
}

impl BusAction {
    /// The address that the transaction is about.
    pub open spec fn addr(self) -> u32 {
        match self {
            BusAction::BusRdMem(n, _) => n,
            BusAction::BusRdShared(n, _) => n,
            BusAction::BusRdXMem(n, _) => n,
            BusAction::BusRdXShared(n, _) => n,
            BusAction::BusUpdMem(n, _) => n,
            BusAction::BusUpdShared(n, _) => n,
            BusAction::Flush(n, _) => n,
        }
    }

    /// The number of bytes that the transaction moves.
    pub open spec fn size(self) -> usize {
        match self {
            BusAction::BusRdMem(_, c) => c,
            BusAction::BusRdShared(_, c) => c,
            BusAction::BusRdXMem(_, c) => c,
            BusAction::BusRdXShared(_, c) => c,
            BusAction::BusUpdMem(_, c) => c,
            BusAction::BusUpdShared(_, c) => c,
            BusAction::Flush(_, c) => c,
        }
    }

    /// Whether the transaction invalidates or updates the copies of other caches.
    pub open spec fn invalidates_or_updates(self) -> bool {
        self is BusRdXMem || self is BusRdXShared || self is BusUpdMem || self is BusUpdShared
    }

    /// The number of cycles that the transaction occupies the bus: 100 when main memory
    /// takes part, two per word when caches settle it among themselves.
    pub open spec fn price(self) -> nat {
        match self {
            BusAction::BusRdMem(_, _) => 100,
            BusAction::BusRdShared(_, c) => 2 * (c as nat / 4),
            BusAction::BusRdXMem(_, _) => 100,
            BusAction::BusRdXShared(_, c) => 2 * (c as nat / 4),
            BusAction::BusUpdMem(_, _) => 100,
            BusAction::BusUpdShared(_, c) => 2 * (c as nat / 4),
            BusAction::Flush(_, _) => 100,
        }
    }

    pub fn extract_addr(action: BusAction) -> (addr: u32)
        ensures
            addr == action.addr(),
    {
        match action {
            BusAction::BusRdMem(n, _) => n,
            BusAction::BusRdShared(n, _) => n,
            BusAction::BusRdXMem(n, _) => n,
            BusAction::BusRdXShared(n, _) => n,
            BusAction::BusUpdMem(n, _) => n,
            BusAction::BusUpdShared(n, _) => n,
            BusAction::Flush(n, _) => n,
        }
    }

    pub fn extract_size(action: BusAction) -> (size: usize)
        ensures
            size == action.size(),
    {
        match action {
            BusAction::BusRdMem(_, c) => c,
            BusAction::BusRdShared(_, c) => c,
            BusAction::BusRdXMem(_, c) => c,
            BusAction::BusRdXShared(_, c) => c,
            BusAction::BusUpdMem(_, c) => c,
            BusAction::BusUpdShared(_, c) => c,
            BusAction::Flush(_, c) => c,
        }
    }
}

/// The transaction that occupies the bus.
#[derive(Clone, Copy, PartialEq, Eq, Structural, Debug)]
pub struct Task {
    pub issuer_id: usize,
    pub remaining_cycles: usize,
    pub action: BusAction,
}

#[derive(Default, Debug)]
struct BusStats {
    pub traffic: usize,
    pub num_invalid_or_upd: usize,
}

/// The shared bus: room for one transaction, and two running totals.
#[derive(Default, Debug)]
pub struct Bus {
    task: Option<Task>,
    stats: BusStats,
}

/// What the bus holds: the transaction on it, if any, and the two totals.
pub struct BusView {
    pub task: Option<Task>,
    /// Bytes moved by all transactions put on the bus so far.
    pub traffic: usize,
    /// Number of invalidating or updating transactions put on the bus so far.
    pub num_invalid_or_upd: usize,
}

impl BusView {
    /// Whether the totals leave room for `action`.
    pub open spec fn has_room_for(self, action: BusAction) -> bool {
        &&& self.traffic + action.size() <= usize::MAX
        &&& self.num_invalid_or_upd < usize::MAX
    }

    /// Whether the totals leave room for a transaction of `bytes` bytes.
    pub open spec fn has_room(self, bytes: usize) -> bool {
        &&& self.traffic + bytes <= usize::MAX
        &&& self.num_invalid_or_upd < usize::MAX
    }

    /// The bus once `issuer_id` has put `action` on it.
    pub open spec fn put_on(self, issuer_id: usize, action: BusAction) -> BusView {
        BusView {
            task: Some(Task { issuer_id, remaining_cycles: action.price() as usize, action }),
            traffic: (self.traffic + action.size()) as usize,
            num_invalid_or_upd: if action.invalidates_or_updates() {
                (self.num_invalid_or_upd + 1) as usize
            } else {
                self.num_invalid_or_upd
            },
        }
    }

    /// The bus one cycle later: a transaction with no time left is gone, any other has
    /// one cycle less to go.
    pub open spec fn updated(self) -> BusView {
        BusView {
            task: match self.task {
                None => None,
                Some(t) => if t.remaining_cycles == 0 {
                    None
                } else {
                    Some(Task { remaining_cycles: (t.remaining_cycles - 1) as usize, ..t })
                },
            },
            ..self
        }
    }

    /// The bus with `task` in place of what it held.
    pub open spec fn with_task(self, task: Option<Task>) -> BusView {
        BusView { task, ..self }
    }
}

impl View for Bus {
    type V = BusView;

    closed spec fn view(&self) -> BusView {
        BusView {
            task: self.task,
            traffic: self.stats.traffic,
            num_invalid_or_upd: self.stats.num_invalid_or_upd,
        }
    }
}

impl Bus {
    pub fn new() -> (bus: Self)
        ensures
            bus@ == (BusView { task: None, traffic: 0, num_invalid_or_upd: 0 }),
    {
        Bus { task: None, stats: BusStats { traffic: 0, num_invalid_or_upd: 0 } }
    }

    /// Query number of cycles required for the entered action
    pub fn price(action: &BusAction) -> (cycles: usize)
        ensures
            cycles == action.price(),
    {
        match action {
            BusAction::BusRdMem(_, _) => 100,
            BusAction::BusRdShared(_, c) => 2 * (*c / 4),
            BusAction::BusRdXMem(_, _) => 100,
            BusAction::BusRdXShared(_, c) => 2 * (*c / 4),
            BusAction::BusUpdMem(_, _) => 100,
            BusAction::BusUpdShared(_, c) => 2 * (*c / 4),
            BusAction::Flush(_, _) => 100,
        }
    }

    /// Schedule bus transaction
    pub fn put_on(&mut self, issuer_id: usize, action: BusAction)
        requires
            old(self)@.task is None,
            old(self)@.has_room_for(action),
        ensures
            final(self)@ == old(self)@.put_on(issuer_id, action),
    {
        match action {
            BusAction::BusUpdMem(_, _)
            | BusAction::BusUpdShared(_, _)
            | BusAction::BusRdXMem(_, _)
            | BusAction::BusRdXShared(_, _) => {
                self.stats.num_invalid_or_upd += 1;
            },
            _ => (),
        }
        self.stats.traffic += BusAction::extract_size(action);

        self.task = Some(Task { issuer_id, remaining_cycles: Bus::price(&action), action });
    }

    /// Clear current bus transaction
    pub fn clear(&mut self)
        ensures
            final(self)@ == old(self)@.with_task(None),
    {
        self.task = None;
    }

    /// Returns true if the bus is currently busy
    pub fn occupied(&self) -> (busy: bool)
        ensures
            busy == self@.task is Some,
    {
        self.task.is_some()
    }

    /// Advance current bus transaction by one cycle (if any)
    pub fn update(&mut self)
        ensures
            final(self)@ == old(self)@.updated(),
    {
        if !self.occupied() {
            return ;
        }
        let task = self.task.as_mut().unwrap();
        match task.remaining_cycles {
            0 => {
                self.task = None;
            },
            i => {
                task.remaining_cycles = i - 1;
            },
        }
    }

    /// Get currently scheduled bus transaction (if any)
    pub fn active_task(&mut self) -> (handle: Option<&mut Task>)
        ensures
            match handle {
                Some(t) => old(self)@.task == Some(*t) && final(self)@ == old(self)@.with_task(
                    Some(*final(t)),
                ),
                None => old(self)@.task is None && final(self)@ == old(self)@,
            },
    {
        self.task.as_mut()
    }

    /// A copy of the transaction on the bus, if there is one.
    pub fn task(&self) -> (task: Option<Task>)
        ensures
            task == self@.task,
    {
        self.task
    }

    /// The total of bytes moved so far.
    pub fn traffic(&self) -> (bytes: usize)
        ensures
            bytes == self@.traffic,
    {
        self.stats.traffic
    }

    /// The number of invalidating or updating transactions so far.
    pub fn num_invalid_or_upd(&self) -> (count: usize)
        ensures
            count == self@.num_invalid_or_upd,
    {
        self.stats.num_invalid_or_upd
    }
}

/// The bus holds at most one transaction, which has no less than no time left.
pub proof fn lemma_single_task(bus: Bus)
    ensures
        bus@.task is None || (bus@.task is Some && bus@.task.unwrap().remaining_cycles >= 0),
{
}

} // verus!
