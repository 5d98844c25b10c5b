//! Per-processor local state.
//!
//! Each processor owns one record holding its identifier, its kernel page
//! table, its descriptor-table state, its task list and the index of the
//! running task — each behind its own ticket lock, since interrupt handlers
//! reach this record too. The hardware trick that makes the record reachable
//! without argument passing (a processor-specific base register) is one
//! narrow accessor outside this crate; here the records live in an explicit
//! store indexed by processor identifier.

use vstd::prelude::*;

use crate::interrupts::Interrupts;
use crate::paging::PageTable;
use crate::sync::LockCell;
use crate::task::Task;

verus! {

/// One processor's local record.
pub struct CoreLocals {
    pub id: usize,
    pub kernel_page_table: LockCell<Option<PageTable>>,
    pub interrupt_state: LockCell<Option<Interrupts>>,
    pub tasks: LockCell<Vec<Task>>,
    pub current_task_id: LockCell<usize>,
}

impl CoreLocals {
    /// All four locks are in their resting state, free to be taken.
    pub open spec fn locks_ready(&self) -> bool {
        &&& self.kernel_page_table.wf() && !self.kernel_page_table.held()
        &&& self.interrupt_state.wf() && !self.interrupt_state.held()
        &&& self.tasks.wf() && !self.tasks.held()
        &&& self.current_task_id.wf() && !self.current_task_id.held()
    }

    /// A fresh record for processor `id`: no kernel page table or interrupt
    /// state installed yet, no tasks, current task index zero.
    pub fn new(id: usize) -> (r: CoreLocals)
        ensures
            r.locks_ready(),
            r.id == id,
            r.kernel_page_table.value() is None,
            r.interrupt_state.value() is None,
            r.tasks.value()@.len() == 0,
            r.current_task_id.value() == 0,
    {
        CoreLocals {
            id,
            kernel_page_table: LockCell::new(None),
            interrupt_state: LockCell::new(None),
            tasks: LockCell::new(Vec::new()),
            current_task_id: LockCell::new(0),
        }
    }
}

/// The processor-local records, indexed by processor identifier.
pub struct CoreLocalStore {
    cores: Vec<CoreLocals>,
}

impl CoreLocalStore {
    /// The records brought online so far.
    pub closed spec fn cores_seq(&self) -> Seq<CoreLocals> {
        self.cores@
    }

    /// Every record sits at the index of its own identifier.
    pub open spec fn wf(&self) -> bool {
        forall|i: int| 0 <= i < self.cores_seq().len() ==> (#[trigger] self.cores_seq()[i]).id == i
    }

    /// An empty store: no processor online.
    pub fn new() -> (r: CoreLocalStore)
        ensures
            r.wf(),
            r.cores_seq().len() == 0,
    {
        CoreLocalStore { cores: Vec::new() }
    }

    /// How many processors are online.
    pub fn core_count(&self) -> (r: usize)
        ensures
            r == self.cores_seq().len(),
    {
        self.cores.len()
    }

    /// This processor's record.
    pub fn get_core(&self, id: usize) -> (r: &CoreLocals)
        requires
            id < self.cores_seq().len(),
        ensures
            *r == self.cores_seq()[id as int],
    {
        &self.cores[id]
    }

    /// This processor's record, for mutation.
    pub fn get_core_mut(&mut self, id: usize) -> (r: &mut CoreLocals)
        requires
            id < old(self).cores_seq().len(),
        ensures
            *r == old(self).cores_seq()[id as int],
            final(self).cores_seq() == old(self).cores_seq().update(id as int, *final(r)),
    {
        &mut self.cores[id]
    }
}

/// Brings one more processor online: creates its local record, stores it, and
/// hands back its identifier (records are numbered in arrival order, as the
/// original's shared online-counter does).
pub fn init(store: &mut CoreLocalStore) -> (id: usize)
    requires
        old(store).wf(),
        old(store).cores_seq().len() < usize::MAX,
    ensures
        final(store).wf(),
        id == old(store).cores_seq().len(),
        final(store).cores_seq().len() == old(store).cores_seq().len() + 1,
        forall|i: int|
            0 <= i < old(store).cores_seq().len() ==> final(store).cores_seq()[i] == old(
                store,
            ).cores_seq()[i],
        final(store).cores_seq()[id as int].locks_ready(),
        final(store).cores_seq()[id as int].id == id,
        final(store).cores_seq()[id as int].kernel_page_table.value() is None,
        final(store).cores_seq()[id as int].interrupt_state.value() is None,
        final(store).cores_seq()[id as int].tasks.value()@.len() == 0,
        final(store).cores_seq()[id as int].current_task_id.value() == 0,
{
    let id = store.cores.len();
    let core = CoreLocals::new(id);
    store.cores.push(core);
    id
}

} // verus!
