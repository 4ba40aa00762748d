//! A skeletal process table: a fixed number of slots, each with a state,
//! an exit code, a process id and its own page-table root. Allocation
//! takes the first available slot, hands it the next process id and a
//! fresh empty page table.

use vstd::prelude::*;

use crate::pagetable::PageTable;

verus! {

/// How many process slots the table holds.
pub const NPROC: usize = 2;

/// What a process slot is currently doing.
#[derive(Clone, Copy, Debug, PartialEq, Eq, Structural)]
pub enum State {
    Available,
    Ready,
    Running,
    Blocked,
    Zombie,
}

/// One process slot.
pub struct Process {
    state: State,
    exit_code: i32,
    process_id: u64,
    pagetable: PageTable,
}

impl Process {
    pub closed spec fn spec_state(&self) -> State {
        self.state
    }

    pub closed spec fn spec_exit_code(&self) -> i32 {
        self.exit_code
    }

    pub closed spec fn spec_process_id(&self) -> u64 {
        self.process_id
    }

    pub closed spec fn spec_pagetable(&self) -> Seq<u64> {
        self.pagetable@
    }

    /// An unused slot: available, exit code zero, process id zero, an
    /// empty page table.
    pub fn new() -> (r: Process)
        ensures
            r.spec_state() == State::Available,
            r.spec_exit_code() == 0,
            r.spec_process_id() == 0,
            forall|s: int| 0 <= s < 512 ==> r.spec_pagetable()[s] == 0,
    {
        Process {
            state: State::Available,
            exit_code: 0,
            process_id: 0,
            pagetable: PageTable::new(),
        }
    }

    pub fn state(&self) -> (r: State)
        ensures
            r == self.spec_state(),
    {
        self.state
    }

    pub fn process_id(&self) -> (r: u64)
        ensures
            r == self.spec_process_id(),
    {
        self.process_id
    }
}

/// The position of the first available slot, or -1 when every slot is
/// taken.
pub open spec fn sp_first_available(s: Seq<Process>, i: int) -> int
    decreases s.len() - i,
{
    if i < 0 || i >= s.len() {
        -1
    } else if s[i].spec_state() == State::Available {
        i
    } else {
        sp_first_available(s, i + 1)
    }
}

/// The table of process slots and the monotonically increasing process
/// id counter.
pub struct ProcessTable {
    procs: Vec<Process>,
    next_pid: u64,
}

impl ProcessTable {
    pub closed spec fn procs(&self) -> Seq<Process> {
        self.procs@
    }

    pub closed spec fn next_pid(&self) -> u64 {
        self.next_pid
    }

    /// A fresh table: every slot available, ids starting at zero.
    pub fn init_process_list() -> (r: ProcessTable)
        ensures
            r.procs().len() == NPROC,
            forall|i: int|
                0 <= i < NPROC ==> (#[trigger] r.procs()[i]).spec_state() == State::Available,
            r.next_pid() == 0,
    {
        let mut procs: Vec<Process> = Vec::new();
        while procs.len() < NPROC
            invariant
                procs@.len() <= NPROC,
                forall|i: int|
                    0 <= i < procs@.len() ==> (#[trigger] procs@[i]).spec_state()
                        == State::Available,
            decreases NPROC - procs@.len(),
        {
            procs.push(Process::new());
        }
        ProcessTable { procs, next_pid: 0 }
    }

    pub fn len(&self) -> (r: usize)
        ensures
            r == self.procs().len(),
    {
        self.procs.len()
    }

    pub fn slot_state(&self, i: usize) -> (r: State)
        requires
            i < self.procs().len(),
        ensures
            r == self.procs()[i as int].spec_state(),
    {
        self.procs[i].state()
    }

    pub fn slot_process_id(&self, i: usize) -> (r: u64)
        requires
            i < self.procs().len(),
        ensures
            r == self.procs()[i as int].spec_process_id(),
    {
        self.procs[i].process_id()
    }

    /// Takes the first available slot: it becomes ready, gets the next
    /// process id and a fresh empty page table. With no slot available
    /// nothing changes.
    pub fn allocate_process(&mut self)
        requires
            old(self).next_pid() < u64::MAX,
        ensures
            final(self).procs().len() == old(self).procs().len(),
            ({
                let j = sp_first_available(old(self).procs(), 0);
                if j >= 0 {
                    &&& final(self).procs()[j].spec_state() == State::Ready
                    &&& final(self).procs()[j].spec_process_id() == old(self).next_pid()
                    &&& (forall|s: int|
                        0 <= s < 512 ==> final(self).procs()[j].spec_pagetable()[s] == 0)
                    &&& final(self).next_pid() == old(self).next_pid() + 1
                    &&& (forall|i: int|
                        0 <= i < old(self).procs().len() && i != j ==> final(self).procs()[i]
                            == old(self).procs()[i])
                } else {
                    &&& final(self).procs() == old(self).procs()
                    &&& final(self).next_pid() == old(self).next_pid()
                }
            }),
    {
        let n = self.procs.len();
        let mut i: usize = 0;
        while i < n
            invariant
                n == self.procs@.len(),
                i <= n,
                *self == *old(self),
                old(self).next_pid() < u64::MAX,
                sp_first_available(self.procs@, 0) == sp_first_available(self.procs@, i as int),
            decreases n - i,
        {
            let available = match self.procs[i].state() {
                State::Available => true,
                _ => false,
            };
            if available {
                let fresh = Process {
                    state: State::Ready,
                    exit_code: 0,
                    process_id: self.next_pid,
                    pagetable: PageTable::new(),
                };
                self.procs[i] = fresh;
                self.next_pid = self.next_pid + 1;
                proof {
                    assert(sp_first_available(old(self).procs@, i as int) == i as int);
                }
                return ;
            }
            i = i + 1;
        }
        proof {
            assert(sp_first_available(self.procs@, n as int) == -1);
        }
    }
}

} // verus!
