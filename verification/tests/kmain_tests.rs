use kernel::core_locals::{init as core_init, CoreLocalStore, CoreLocals};
use kernel::interrupts::{InterruptFrame, Registers};
use kernel::kmain::{int80, timer_int};
use kernel::mm::{init, MemRegion};
use kernel::paging::PageTable;
use kernel::task::Task;

fn frame(rip: u64, sp: u64) -> InterruptFrame {
    InterruptFrame { rip, cs: 0x08, rflags: 0x202, sp, ss: 0x10 }
}

fn locals_with_tasks(count: usize) -> CoreLocals {
    let mut pm = init(&vec![MemRegion { base: 0x100000, length: 0x100000, usable: true }]).unwrap();
    let locals = CoreLocals::new(0);
    let mut locals = locals;
    let guard = locals.tasks.lock();
    for _ in 0..count {
        let pt = PageTable::new(&mut pm).unwrap();
        let task = Task::new(&mut pm, pt).unwrap();
        locals.tasks.get_mut(&guard).push(task);
    }
    guard.release_lock(&mut locals.tasks);
    locals
}

#[test]
fn unknown_syscalls_return_the_sentinel_failure() {
    let f = frame(0x401000, 0x7000);
    let mut regs = Registers::default();
    regs.rax = 0x1337;
    regs.rbx = 0x42;
    int80(&f, &mut regs);
    assert_eq!(regs.rax, u64::MAX);
    // Every other register is untouched.
    assert_eq!(regs.rbx, 0x42);
    assert_eq!(regs.rcx, 0);
}

#[test]
fn timer_with_no_tasks_schedules_nothing() {
    let mut locals = locals_with_tasks(0);
    let f = frame(0x1000, 0x2000);
    let regs = Registers::default();
    assert_eq!(timer_int(&mut locals, &f, &regs), None);
}

#[test]
fn timer_saves_the_interrupted_context() {
    let mut locals = locals_with_tasks(2);
    let f = frame(0xdead0000, 0xbeef0000);
    let mut regs = Registers::default();
    regs.r15 = 99;
    let next = timer_int(&mut locals, &f, &regs);
    assert_eq!(next, Some(1));
    let guard = locals.tasks.lock();
    let saved = *locals.tasks.get(&guard)[0].context();
    guard.release_lock(&mut locals.tasks);
    assert_eq!(saved.rip, 0xdead0000);
    assert_eq!(saved.rsp, 0xbeef0000);
    assert_eq!(saved.regs.r15, 99);
}

#[test]
fn round_robin_visits_each_task_once_per_cycle() {
    let k = 3;
    let mut locals = locals_with_tasks(k);
    let f = frame(0x1000, 0x2000);
    let regs = Registers::default();
    let mut visited = Vec::new();
    for _ in 0..k {
        visited.push(timer_int(&mut locals, &f, &regs).unwrap());
    }
    // K consecutive timer interrupts visit each index exactly once.
    let mut sorted = visited.clone();
    sorted.sort();
    sorted.dedup();
    assert_eq!(sorted, vec![0, 1, 2]);
    // And the cycle repeats in the same order afterwards.
    assert_eq!(timer_int(&mut locals, &f, &regs).unwrap(), visited[0]);
}

#[test]
fn core_store_numbers_processors_in_arrival_order() {
    let mut store = CoreLocalStore::new();
    assert_eq!(core_init(&mut store), 0);
    assert_eq!(core_init(&mut store), 1);
    assert_eq!(core_init(&mut store), 2);
    assert_eq!(store.core_count(), 3);
    assert_eq!(store.get_core(1).id, 1);
    let core = store.get_core_mut(2);
    assert_eq!(core.id, 2);
    let guard = core.current_task_id.lock();
    assert_eq!(*core.current_task_id.get(&guard), 0);
    guard.release_lock(&mut core.current_task_id);
}
