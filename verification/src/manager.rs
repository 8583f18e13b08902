use vstd::prelude::*;
use std::collections::VecDeque;
use crate::task::TaskControlBlock;

verus! {

/// The stride added per turn to a task of priority 1.
pub const BIG_STRIDE: usize = 0x7fff_ffff;

/// `a` comes before `b` in stride order: the wrapped difference `a - b` lies
/// in the upper half of the `usize` range, i.e. `a` is behind `b` by less
/// than half the range.
pub open spec fn stride_before(a: usize, b: usize) -> bool {
    a.wrapping_sub(b) > usize::MAX / 2
}

/// Compares two strides in the wrapped stride order.
pub fn stride_less(a: usize, b: usize) -> (r: bool)
    ensures
        r == stride_before(a, b),
{
    let diff = a.wrapping_sub(b);
    let max = usize::MAX;
    let half = max >> 1;
    assert(half == max / 2) by (bit_vector)
        requires
            half == max >> 1,
    ;
    diff > half
}

/// The index that a front-to-back scan of the first `n` tasks of `q`
/// chooses: a later task replaces the choice when its stride comes before
/// the chosen one's.
pub open spec fn scan_choice(q: Seq<TaskControlBlock>, n: int) -> int
    decreases n,
{
    if n <= 1 {
        0
    } else {
        let m = scan_choice(q, n - 1);
        if stride_before(q[n - 1].stride, q[m].stride) {
            n - 1
        } else {
            m
        }
    }
}

/// The index of the task that `fetch` takes from the queue `q`.
pub open spec fn chosen_index(q: Seq<TaskControlBlock>) -> int {
    scan_choice(q, q.len() as int)
}

/// The stride a task of `priority` advances by when it is scheduled.
pub open spec fn pass_of(priority: usize) -> usize {
    if BIG_STRIDE / priority >= 1 {
        (BIG_STRIDE / priority) as usize
    } else {
        1
    }
}

/// `t` after one turn: its stride advanced (wrapping) by its pass.
pub open spec fn after_turn(t: TaskControlBlock) -> TaskControlBlock {
    TaskControlBlock { stride: t.stride.wrapping_add(pass_of(t.priority)), ..t }
}

proof fn lemma_scan_choice_range(q: Seq<TaskControlBlock>, n: int)
    requires
        1 <= n,
    ensures
        0 <= scan_choice(q, n) < n,
    decreases n,
{
    if n > 1 {
        lemma_scan_choice_range(q, n - 1);
    }
}

/// Every stride in `q` lies less than half the `usize` range ahead of `base`.
pub open spec fn within_half_window(q: Seq<TaskControlBlock>, base: usize) -> bool {
    forall|i: int| 0 <= i < q.len() ==> #[trigger] q[i].stride.wrapping_sub(base) <= usize::MAX / 2
}

proof fn lemma_stride_before_window(a: usize, c: usize, base: usize)
    requires
        a.wrapping_sub(base) <= usize::MAX / 2,
        c.wrapping_sub(base) <= usize::MAX / 2,
    ensures
        stride_before(a, c) <==> a.wrapping_sub(base) < c.wrapping_sub(base),
{
}

proof fn lemma_scan_choice_least(q: Seq<TaskControlBlock>, base: usize, n: int)
    requires
        1 <= n <= q.len(),
        within_half_window(q, base),
    ensures
        0 <= scan_choice(q, n) < n,
        forall|j: int| 0 <= j < n ==> q[scan_choice(q, n)].stride.wrapping_sub(base) <= #[trigger] q[j].stride.wrapping_sub(base),
        forall|j: int| 0 <= j < scan_choice(q, n) ==> q[scan_choice(q, n)].stride.wrapping_sub(base) < #[trigger] q[j].stride.wrapping_sub(base),
    decreases n,
{
    if n > 1 {
        lemma_scan_choice_least(q, base, n - 1);
        let m = scan_choice(q, n - 1);
        assert(q[m].stride.wrapping_sub(base) <= usize::MAX / 2);
        assert(q[n - 1].stride.wrapping_sub(base) <= usize::MAX / 2);
        lemma_stride_before_window(q[n - 1].stride, q[m].stride, base);
        if stride_before(q[n - 1].stride, q[m].stride) {
            assert forall|j: int| 0 <= j < n - 1 implies q[n - 1].stride.wrapping_sub(base) < #[trigger] q[j].stride.wrapping_sub(base) by {
                assert(q[m].stride.wrapping_sub(base) <= q[j].stride.wrapping_sub(base));
            }
        }
    }
}

/// Stride scheduling picks the first task of least stride: when the strides
/// of all queued tasks lie within half the `usize` range ahead of a common
/// base, no queued task's stride comes before the stride of the task that
/// `fetch` takes, and the chosen stride comes before that of every task
/// queued ahead of it.
pub proof fn lemma_fetch_takes_least_stride(q: Seq<TaskControlBlock>, base: usize)
    requires
        q.len() > 0,
        within_half_window(q, base),
    ensures
        forall|j: int| 0 <= j < q.len() ==> !stride_before(#[trigger] q[j].stride, q[chosen_index(q)].stride),
        forall|j: int| 0 <= j < chosen_index(q) ==> stride_before(q[chosen_index(q)].stride, #[trigger] q[j].stride),
{
    lemma_scan_choice_least(q, base, q.len() as int);
    let c = chosen_index(q);
    assert forall|j: int| 0 <= j < q.len() implies !stride_before(#[trigger] q[j].stride, q[c].stride) by {
        assert(q[j].stride.wrapping_sub(base) <= usize::MAX / 2);
        assert(q[c].stride.wrapping_sub(base) <= usize::MAX / 2);
        lemma_stride_before_window(q[j].stride, q[c].stride, base);
    }
    assert forall|j: int| 0 <= j < c implies stride_before(q[c].stride, #[trigger] q[j].stride) by {
        assert(q[j].stride.wrapping_sub(base) <= usize::MAX / 2);
        assert(q[c].stride.wrapping_sub(base) <= usize::MAX / 2);
        lemma_stride_before_window(q[c].stride, q[j].stride, base);
    }
}

/// A stride scheduler's queue of ready tasks.
pub struct TaskManager {
    ready_queue: VecDeque<TaskControlBlock>,
}

impl View for TaskManager {
    type V = Seq<TaskControlBlock>;

    closed spec fn view(&self) -> Seq<TaskControlBlock> {
        self.ready_queue@
    }
}

impl TaskManager {
    /// Creates an empty TaskManager.
    pub fn new() -> (r: Self)
        ensures
            r@ == Seq::<TaskControlBlock>::empty(),
    {
        Self { ready_queue: VecDeque::new() }
    }

    /// Adds a task at the back of the ready queue.
    pub fn add(&mut self, task: TaskControlBlock)
        ensures
            final(self)@ == old(self)@.push(task),
    {
        self.ready_queue.push_back(task);
    }

    /// The position of the task that `fetch` takes next, if any: a
    /// front-to-back scan that moves to a later task when its stride comes
    /// before the chosen one's.
    fn next_index(&self) -> (r: Option<usize>)
        ensures
            r is Some <==> self@.len() > 0,
            r matches Some(i) ==> i == chosen_index(self@) && i < self@.len(),
    {
        if self.ready_queue.len() == 0 {
            return None;
        }
        let ghost q = self.ready_queue@;
        let mut min_idx: usize = 0;
        let mut min_stride: usize = usize::MAX;
        let mut idx: usize = 0;
        while idx < self.ready_queue.len()
            invariant
                q == self.ready_queue@,
                q.len() > 0,
                idx <= q.len(),
                idx > 0 ==> min_idx == scan_choice(q, idx as int) && min_stride == q[min_idx as int].stride,
            decreases q.len() - idx,
        {
            let stride = self.ready_queue[idx].stride;
            if idx == 0 || stride_less(stride, min_stride) {
                min_stride = stride;
                min_idx = idx;
            }
            proof {
                if idx > 0 {
                    lemma_scan_choice_range(q, idx as int);
                }
            }
            idx = idx + 1;
        }
        proof {
            lemma_scan_choice_range(q, q.len() as int);
        }
        Some(min_idx)
    }

    /// The task that `fetch` takes next, if any.
    pub fn peek_next(&self) -> (r: Option<&TaskControlBlock>)
        ensures
            r == if self@.len() == 0 {
                None::<&TaskControlBlock>
            } else {
                Some(&self@[chosen_index(self@)])
            },
    {
        match self.next_index() {
            Some(i) => Some(&self.ready_queue[i]),
            None => None,
        }
    }

    /// Takes out of the ready queue the task whose stride comes first (the
    /// first such task in queue order), advancing its stride by its pass.
    pub fn fetch(&mut self) -> (r: Option<TaskControlBlock>)
        requires
            old(self)@.len() > 0 ==> old(self)@[chosen_index(old(self)@)].priority > 0,
        ensures
            old(self)@.len() == 0 ==> r is None && final(self)@ == old(self)@,
            old(self)@.len() > 0 ==> {
                let i = chosen_index(old(self)@);
                &&& 0 <= i < old(self)@.len()
                &&& r == Some(after_turn(old(self)@[i]))
                &&& final(self)@ == old(self)@.remove(i)
            },
    {
        let min_idx = match self.next_index() {
            Some(i) => i,
            None => {
                return None;
            },
        };
        let mut task = match self.ready_queue.remove(min_idx) {
            Some(t) => t,
            None => {
                return None;
            },
        };
        let mut pass = BIG_STRIDE / task.priority;
        if pass < 1 {
            pass = 1;
        }
        task.stride = task.stride.wrapping_add(pass);
        Some(task)
    }
}

} // verus!
