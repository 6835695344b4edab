//! The pool of kernel stacks: a fixed number of slots, one for each task
//! that is alive.

use vstd::prelude::*;
use crate::config::{KERNEL_STACK_SIZE, MAX_APP_NUM};

verus! {

/// Highest address at which the pool of kernel stacks can start.
pub const STACK_BASE_LIMIT: u64 = 0xffff_ffff_0000_0000;

/// The pool of kernel stacks. A slot that came back is handed out again
/// before a slot that was never used.
pub struct KernelStackPool {
    base: u64,
    cursor: usize,
    recycled: Vec<usize>,
    slots: Vec<(usize, usize)>,
}

impl KernelStackPool {
    /// Address of the first stack.
    pub closed spec fn base(&self) -> u64 {
        self.base
    }

    /// Number of slots that were handed out at least once.
    pub closed spec fn cursor(&self) -> nat {
        self.cursor as nat
    }

    /// The slots that came back, the most recent last.
    pub closed spec fn recycled(&self) -> Seq<usize> {
        self.recycled@
    }

    /// The tasks that hold a stack, each with its slot.
    pub closed spec fn held(&self) -> Seq<(usize, usize)> {
        self.slots@
    }

    /// Whether the task `pid` holds a stack.
    pub open spec fn has(&self, pid: usize) -> bool {
        exists|i: int| 0 <= i < self.held().len() && (#[trigger] self.held()[i]).0 == pid
    }

    /// The slot of the task `pid`, which holds a stack.
    pub open spec fn slot_of(&self, pid: usize) -> usize {
        let i = choose|i: int| 0 <= i < self.held().len() && (#[trigger] self.held()[i]).0 == pid;
        self.held()[i].1
    }

    /// The addresses `(bottom, top)` of the stack in the slot `slot`.
    pub open spec fn range_of(&self, slot: usize) -> (u64, u64) {
        (
            (self.base() + slot * KERNEL_STACK_SIZE) as u64,
            (self.base() + (slot + 1) * KERNEL_STACK_SIZE) as u64,
        )
    }

    /// Whether no slot is left.
    pub open spec fn exhausted(&self) -> bool {
        self.recycled().len() == 0 && self.cursor() == MAX_APP_NUM
    }

    /// The slot that the next allocation hands out.
    pub open spec fn next_slot(&self) -> usize {
        if self.recycled().len() > 0 {
            self.recycled().last()
        } else {
            self.cursor() as usize
        }
    }

    /// No two tasks share a slot, no task holds two, and the slots that
    /// came back are distinct and held by nobody.
    pub closed spec fn wf(&self) -> bool {
        &&& self.base <= STACK_BASE_LIMIT
        &&& self.cursor <= MAX_APP_NUM
        &&& self.recycled@.no_duplicates()
        &&& forall|i: int| 0 <= i < self.recycled@.len() ==> #[trigger] self.recycled@[i] < self.cursor
        &&& forall|i: int|
            0 <= i < self.slots@.len() ==> (#[trigger] self.slots@[i]).1 < self.cursor
                && !self.recycled@.contains(self.slots@[i].1)
        &&& forall|i: int, j: int|
            0 <= i < self.slots@.len() && 0 <= j < self.slots@.len() && i != j ==> (
            #[trigger] self.slots@[i]).0 != (#[trigger] self.slots@[j]).0 && self.slots@[i].1
                != self.slots@[j].1
    }

    /// Two tasks that hold a stack hold different slots, and their stacks
    /// share no address.
    pub proof fn lemma_stacks_disjoint(&self, a: usize, b: usize)
        requires
            self.wf(),
            self.has(a),
            self.has(b),
            a != b,
        ensures
            self.slot_of(a) != self.slot_of(b),
            self.slot_of(a) < MAX_APP_NUM,
            self.slot_of(b) < MAX_APP_NUM,
            self.range_of(self.slot_of(a)).1 <= self.range_of(self.slot_of(b)).0 || self.range_of(
                self.slot_of(b),
            ).1 <= self.range_of(self.slot_of(a)).0,
    {
        let i = choose|i: int| 0 <= i < self.held().len() && (#[trigger] self.held()[i]).0 == a;
        let j = choose|j: int| 0 <= j < self.held().len() && (#[trigger] self.held()[j]).0 == b;
        assert(self.slots@[i].1 != self.slots@[j].1);
        let (sa, sb) = (self.slot_of(a), self.slot_of(b));
        if sa < sb {
            assert((sa + 1) * KERNEL_STACK_SIZE <= sb * KERNEL_STACK_SIZE) by (nonlinear_arith)
                requires
                    sa + 1 <= sb,
            ;
        } else {
            assert((sb + 1) * KERNEL_STACK_SIZE <= sa * KERNEL_STACK_SIZE) by (nonlinear_arith)
                requires
                    sb + 1 <= sa,
            ;
        }
        assert((sa + 1) * KERNEL_STACK_SIZE <= MAX_APP_NUM * KERNEL_STACK_SIZE) by (nonlinear_arith)
            requires
                sa + 1 <= MAX_APP_NUM,
        ;
        assert((sb + 1) * KERNEL_STACK_SIZE <= MAX_APP_NUM * KERNEL_STACK_SIZE) by (nonlinear_arith)
            requires
                sb + 1 <= MAX_APP_NUM,
        ;
    }

    /// A pool whose stacks start at the address `base`, with every slot free.
    pub fn new(base: u64) -> (pool: KernelStackPool)
        requires
            base <= STACK_BASE_LIMIT,
        ensures
            pool.wf(),
            pool.base() == base,
            pool.cursor() == 0,
            pool.recycled().len() == 0,
            pool.held().len() == 0,
    {
        KernelStackPool { base, cursor: 0, recycled: Vec::new(), slots: Vec::new() }
    }

    fn range(&self, slot: usize) -> (r: (u64, u64))
        requires
            self.base <= STACK_BASE_LIMIT,
            slot < MAX_APP_NUM,
        ensures
            r == self.range_of(slot),
            r.0 < r.1,
    {
        assert(slot * KERNEL_STACK_SIZE <= 9 * KERNEL_STACK_SIZE) by (nonlinear_arith)
            requires
                slot <= 9,
        ;
        let bottom = self.base + (slot as u64) * KERNEL_STACK_SIZE;
        (bottom, bottom + KERNEL_STACK_SIZE)
    }

    fn find(&self, pid: usize) -> (found: Option<usize>)
        requires
            self.wf(),
        ensures
            match found {
                Some(i) => i < self.slots@.len() && self.slots@[i as int].0 == pid && self.has(pid)
                    && self.slot_of(pid) == self.slots@[i as int].1,
                None => !self.has(pid),
            },
    {
        let mut i: usize = 0;
        while i < self.slots.len()
            invariant
                i <= self.slots@.len(),
                self.wf(),
                forall|k: int| 0 <= k < i ==> (#[trigger] self.slots@[k]).0 != pid,
            ensures
                !self.has(pid),
            decreases self.slots@.len() - i,
        {
            if self.slots[i].0 == pid {
                proof {
                    assert(self.held()[i as int].0 == pid);
                    let c = choose|c: int|
                        0 <= c < self.held().len() && (#[trigger] self.held()[c]).0 == pid;
                    if c != i {
                        assert(self.slots@[c].0 != self.slots@[i as int].0);
                    }
                }
                return Some(i);
            }
            i += 1;
        }
        None
    }

    /// Gives the task `pid`, which holds no stack, the next slot, and
    /// returns the bottom and the top of its stack; `None` when no slot is
    /// left.
    pub fn alloc_stack(&mut self, pid: usize) -> (res: Option<(u64, u64)>)
        requires
            old(self).wf(),
            !old(self).has(pid),
        ensures
            final(self).wf(),
            final(self).base() == old(self).base(),
            res is None <==> old(self).exhausted(),
            res is None ==> *final(self) == *old(self),
            res is Some ==> {
                let range = res->0;
                &&& final(self).has(pid)
                &&& final(self).slot_of(pid) == old(self).next_slot()
                &&& range == final(self).range_of(old(self).next_slot())
                &&& range.0 < range.1
                &&& forall|q: usize| q != pid ==> (#[trigger] final(self).has(q) <==> old(self).has(q))
                &&& forall|q: usize|
                    q != pid && old(self).has(q) ==> #[trigger] final(self).slot_of(q) == old(
                        self,
                    ).slot_of(q)
            },
    {
        let ghost pre = *self;
        let slot = if self.recycled.len() > 0 {
            let slot = self.recycled.pop().unwrap();
            proof {
                let n = pre.recycled@.len() as int;
                assert(pre.recycled@[n - 1] == slot);
                assert forall|i: int| 0 <= i < self.recycled@.len() implies #[trigger] self.recycled@[i]
                    < self.cursor by {
                    assert(self.recycled@[i] == pre.recycled@[i]);
                }
                assert forall|i: int| 0 <= i < self.slots@.len() implies !self.recycled@.contains(
                    (#[trigger] self.slots@[i]).1,
                ) && self.slots@[i].1 != slot by {
                    if self.recycled@.contains(self.slots@[i].1) {
                        let k = choose|k: int|
                            0 <= k < self.recycled@.len() && self.recycled@[k] == self.slots@[i].1;
                        assert(pre.recycled@[k] == self.slots@[i].1);
                    }
                    assert(!pre.recycled@.contains(pre.slots@[i].1));
                }
                assert(!self.recycled@.contains(slot)) by {
                    if self.recycled@.contains(slot) {
                        let k = choose|k: int| 0 <= k < self.recycled@.len() && self.recycled@[k] == slot;
                        assert(pre.recycled@[k] == pre.recycled@[n - 1]);
                    }
                }
            }
            slot
        } else if self.cursor < MAX_APP_NUM {
            self.cursor += 1;
            self.cursor - 1
        } else {
            return None;
        };
        self.slots.push((pid, slot));
        proof {
            let n = pre.slots@.len() as int;
            assert(self.slots@[n] == (pid, slot));
            assert forall|i: int| 0 <= i < n implies pre.slots@[i].0 != pid by {
                if pre.slots@[i].0 == pid {
                    assert(pre.held()[i].0 == pid);
                }
            }
            assert(self.held()[n].0 == pid);
            let c = choose|c: int| 0 <= c < self.held().len() && (#[trigger] self.held()[c]).0 == pid;
            assert(c == n);
            assert forall|q: usize| q != pid implies (#[trigger] self.has(q) <==> pre.has(q)) by {
                if pre.has(q) {
                    let i = choose|i: int| 0 <= i < pre.held().len() && (#[trigger] pre.held()[i]).0 == q;
                    assert(self.held()[i].0 == q);
                }
                if self.has(q) {
                    let i = choose|i: int|
                        0 <= i < self.held().len() && (#[trigger] self.held()[i]).0 == q;
                    assert(pre.held()[i].0 == q);
                }
            }
            assert forall|q: usize| q != pid && pre.has(q) implies #[trigger] self.slot_of(q)
                == pre.slot_of(q) by {
                let i = choose|i: int| 0 <= i < pre.held().len() && (#[trigger] pre.held()[i]).0 == q;
                let j = choose|j: int| 0 <= j < self.held().len() && (#[trigger] self.held()[j]).0 == q;
                assert(self.held()[i].0 == q);
                if i != j {
                    assert(self.slots@[i].0 != self.slots@[j].0);
                }
            }
        }
        Some(self.range(slot))
    }

    /// Whether no slot is left.
    pub fn is_exhausted(&self) -> (none: bool)
        requires
            self.wf(),
        ensures
            none == self.exhausted(),
    {
        self.recycled.len() == 0 && self.cursor == MAX_APP_NUM
    }

    /// The bottom and the top of the stack of the task `pid`, if it holds one.
    pub fn lookup(&self, pid: usize) -> (res: Option<(u64, u64)>)
        requires
            self.wf(),
        ensures
            res is Some <==> self.has(pid),
            res is Some ==> res->0 == self.range_of(self.slot_of(pid)),
    {
        match self.find(pid) {
            Some(i) => Some(self.range(self.slots[i].1)),
            None => None,
        }
    }

    /// Takes back the stack of the task `pid`, which holds one.
    pub fn dealloc(&mut self, pid: usize)
        requires
            old(self).wf(),
            old(self).has(pid),
        ensures
            final(self).wf(),
            final(self).base() == old(self).base(),
            !final(self).has(pid),
            final(self).recycled() == old(self).recycled().push(old(self).slot_of(pid)),
            final(self).cursor() == old(self).cursor(),
            forall|q: usize| q != pid ==> (#[trigger] final(self).has(q) <==> old(self).has(q)),
            forall|q: usize|
                q != pid && old(self).has(q) ==> #[trigger] final(self).slot_of(q) == old(self).slot_of(
                    q,
                ),
    {
        let ghost pre = *self;
        let i = self.find(pid).unwrap();
        let (_, slot) = self.slots.remove(i);
        self.recycled.push(slot);
        proof {
            let id = i as int;
            assert(self.slots@ == pre.slots@.remove(id));
            assert forall|k: int| 0 <= k < self.slots@.len() implies #[trigger] self.slots@[k]
                == pre.slots@[if k < id {
                k
            } else {
                k + 1
            }] by {}
            assert forall|k: int| 0 <= k < self.recycled@.len() implies #[trigger] self.recycled@[k]
                < self.cursor by {
                if k < pre.recycled@.len() {
                    assert(self.recycled@[k] == pre.recycled@[k]);
                }
            }
            assert forall|k: int| 0 <= k < self.slots@.len() implies (#[trigger] self.slots@[k]).1
                < self.cursor && !self.recycled@.contains(self.slots@[k].1) by {
                let o = if k < id {
                    k
                } else {
                    k + 1
                };
                assert(self.slots@[k] == pre.slots@[o]);
                assert(pre.slots@[o].1 != pre.slots@[id].1);
                if self.recycled@.contains(self.slots@[k].1) {
                    let r = choose|r: int|
                        0 <= r < self.recycled@.len() && self.recycled@[r] == self.slots@[k].1;
                    if r < pre.recycled@.len() {
                        assert(pre.recycled@[r] == pre.slots@[o].1);
                    }
                }
            }
            assert forall|a: int, b: int|
                0 <= a < self.slots@.len() && 0 <= b < self.slots@.len() && a != b implies (
            #[trigger] self.slots@[a]).0 != (#[trigger] self.slots@[b]).0 && self.slots@[a].1
                != self.slots@[b].1 by {
                let oa = if a < id {
                    a
                } else {
                    a + 1
                };
                let ob = if b < id {
                    b
                } else {
                    b + 1
                };
                assert(self.slots@[a] == pre.slots@[oa]);
                assert(self.slots@[b] == pre.slots@[ob]);
            }
            assert(self.recycled@.no_duplicates()) by {
                assert forall|a: int, b: int|
                    0 <= a < self.recycled@.len() && 0 <= b < self.recycled@.len() && a
                        != b implies self.recycled@[a] != self.recycled@[b] by {
                    let n = pre.recycled@.len() as int;
                    if a < n && b < n {
                        assert(pre.recycled@[a] != pre.recycled@[b]);
                    } else if a < n {
                        assert(pre.recycled@[a] == self.recycled@[a]);
                        assert(pre.recycled@.contains(pre.recycled@[a]));
                    } else if b < n {
                        assert(pre.recycled@[b] == self.recycled@[b]);
                        assert(pre.recycled@.contains(pre.recycled@[b]));
                    }
                }
            }
            assert(!self.has(pid)) by {
                if self.has(pid) {
                    let k = choose|k: int|
                        0 <= k < self.held().len() && (#[trigger] self.held()[k]).0 == pid;
                    let o = if k < id {
                        k
                    } else {
                        k + 1
                    };
                    assert(self.slots@[k] == pre.slots@[o]);
                    assert(pre.slots@[o].0 != pre.slots@[id].0);
                }
            }
            assert forall|q: usize| q != pid implies (#[trigger] self.has(q) <==> pre.has(q)) by {
                if pre.has(q) {
                    let o = choose|o: int| 0 <= o < pre.held().len() && (#[trigger] pre.held()[o]).0 == q;
                    let k = if o < id {
                        o
                    } else {
                        o - 1
                    };
                    assert(self.slots@[k] == pre.slots@[o]);
                    assert(self.held()[k].0 == q);
                }
                if self.has(q) {
                    let k = choose|k: int|
                        0 <= k < self.held().len() && (#[trigger] self.held()[k]).0 == q;
                    let o = if k < id {
                        k
                    } else {
                        k + 1
                    };
                    assert(self.slots@[k] == pre.slots@[o]);
                    assert(pre.held()[o].0 == q);
                }
            }
            assert forall|q: usize| q != pid && pre.has(q) implies #[trigger] self.slot_of(q)
                == pre.slot_of(q) by {
                assert(self.has(q));
                let o = choose|o: int| 0 <= o < pre.held().len() && (#[trigger] pre.held()[o]).0 == q;
                let k = choose|k: int| 0 <= k < self.held().len() && (#[trigger] self.held()[k]).0 == q;
                let ok = if k < id {
                    k
                } else {
                    k + 1
                };
                assert(self.slots@[k] == pre.slots@[ok]);
                if ok != o {
                    assert(pre.slots@[ok].0 != pre.slots@[o].0);
                }
            }
        }
    }
}

} // verus!
