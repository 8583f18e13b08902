use vstd::prelude::*;
use std::collections::BTreeSet;
use crate::sync::ProcessControlBlockInner;

verus! {

/// The thread that `t` waits for: the owner of the mutex that `t` waits on.
pub open spec fn wait_next(wait: Map<usize, usize>, owner: Seq<Option<usize>>, t: usize) -> Option<usize> {
    if wait.contains_key(t) && wait[t] < owner.len() {
        owner[wait[t] as int]
    } else {
        None
    }
}

/// The thread reached from `start` after `k` steps of the wait-for relation.
pub open spec fn wait_chain(wait: Map<usize, usize>, owner: Seq<Option<usize>>, start: usize, k: nat) -> Option<usize>
    decreases k,
{
    if k == 0 {
        Some(start)
    } else {
        match wait_chain(wait, owner, start, (k - 1) as nat) {
            Some(t) => wait_next(wait, owner, t),
            None => None,
        }
    }
}

/// Following "waits for the owner of" from `start` leads back to `start`.
pub open spec fn mutex_cycle_through(wait: Map<usize, usize>, owner: Seq<Option<usize>>, start: usize) -> bool {
    exists|k: nat| k >= 1 && #[trigger] wait_chain(wait, owner, start, k) == Some(start)
}

pub(crate) proof fn lemma_chain_ends(wait: Map<usize, usize>, owner: Seq<Option<usize>>, start: usize, k: nat, m: nat)
    requires
        wait_chain(wait, owner, start, k) is None,
        m >= k,
    ensures
        wait_chain(wait, owner, start, m) is None,
    decreases m,
{
    if m > k {
        lemma_chain_ends(wait, owner, start, k, (m - 1) as nat);
    }
}

proof fn lemma_chain_periodic(wait: Map<usize, usize>, owner: Seq<Option<usize>>, start: usize, i: nat, k: nat, m: nat)
    requires
        i < k,
        wait_chain(wait, owner, start, k) == wait_chain(wait, owner, start, i),
        m >= i,
    ensures
        exists|j: nat| i <= j < k && wait_chain(wait, owner, start, m) == #[trigger] wait_chain(wait, owner, start, j),
    decreases m,
{
    if m == i {
        assert(wait_chain(wait, owner, start, m) == wait_chain(wait, owner, start, i));
    } else {
        lemma_chain_periodic(wait, owner, start, i, k, (m - 1) as nat);
        let j = choose|j: nat| i <= j < k && wait_chain(wait, owner, start, (m - 1) as nat) == #[trigger] wait_chain(wait, owner, start, j);
        assert(wait_chain(wait, owner, start, m) == wait_chain(wait, owner, start, j + 1));
        if j + 1 == k {
            assert(wait_chain(wait, owner, start, m) == wait_chain(wait, owner, start, i));
        } else {
            assert(wait_chain(wait, owner, start, m) == wait_chain(wait, owner, start, (j + 1) as nat));
        }
    }
}

/// A chain that stops after `k` steps without having come back to `start`
/// never comes back.
proof fn lemma_no_cycle_after_end(wait: Map<usize, usize>, owner: Seq<Option<usize>>, start: usize, k: nat)
    requires
        wait_chain(wait, owner, start, k) is Some,
        wait_next(wait, owner, wait_chain(wait, owner, start, k)->0) is None,
        forall|i: nat| 1 <= i <= k ==> #[trigger] wait_chain(wait, owner, start, i) != Some(start),
    ensures
        !mutex_cycle_through(wait, owner, start),
{
    assert(wait_chain(wait, owner, start, k + 1) is None);
    assert forall|m: nat| m >= 1 implies #[trigger] wait_chain(wait, owner, start, m) != Some(start) by {
        if m > k {
            lemma_chain_ends(wait, owner, start, k + 1, m);
        }
    }
}

/// Whether the mutex wait-for graph of `inner` holds a cycle through `start_tid`.
pub fn has_mutex_cycle(inner: &ProcessControlBlockInner, start_tid: usize) -> (r: bool)
    ensures
        r == mutex_cycle_through(inner.thread_wait_mutex@, inner.mutex_owner@, start_tid),
{
    let ghost wait = inner.thread_wait_mutex@;
    let ghost owner = inner.mutex_owner@;
    let mut visited: BTreeSet<usize> = BTreeSet::new();
    let mut cur = start_tid;
    let ghost mut k: nat = 0;
    loop
        invariant
            wait == inner.thread_wait_mutex@,
            owner == inner.mutex_owner@,
            wait_chain(wait, owner, start_tid, k) == Some(cur),
            forall|t: usize| #[trigger] visited@.contains(t) <==> exists|i: nat| i < k && #[trigger] wait_chain(wait, owner, start_tid, i) == Some(t),
            forall|i: nat| 1 <= i <= k ==> #[trigger] wait_chain(wait, owner, start_tid, i) != Some(start_tid),
            visited@.subset_of(wait.dom()),
            visited@.finite(),
            visited@.len() == k,
        decreases wait.dom().len() - visited@.len(),
    {
        proof {
            vstd::set_lib::lemma_len_subset(visited@, wait.dom());
        }
        if !visited.insert(cur) {
            proof {
                let i = choose|i: nat| i < k && #[trigger] wait_chain(wait, owner, start_tid, i) == Some(cur);
                assert(i >= 1) by {
                    if i == 0 {
                        assert(wait_chain(wait, owner, start_tid, k) == Some(start_tid));
                    }
                }
                assert forall|m: nat| m >= 1 implies #[trigger] wait_chain(wait, owner, start_tid, m) != Some(start_tid) by {
                    if m >= i {
                        lemma_chain_periodic(wait, owner, start_tid, i, k, m);
                    }
                }
            }
            return false;
        }
        let mid = match inner.thread_wait_mutex.get(&cur) {
            Some(m) => *m,
            None => {
                proof {
                    lemma_no_cycle_after_end(wait, owner, start_tid, k);
                }
                return false;
            }
        };
        if mid >= inner.mutex_owner.len() {
            proof {
                lemma_no_cycle_after_end(wait, owner, start_tid, k);
            }
            return false;
        }
        match inner.mutex_owner[mid] {
            Some(owner_tid) => {
                if owner_tid == start_tid {
                    proof {
                        assert(wait_chain(wait, owner, start_tid, k + 1) == Some(start_tid));
                    }
                    return true;
                }
                proof {
                    assert(wait_chain(wait, owner, start_tid, k + 1) == Some(owner_tid));
                    assert forall|t: usize| #[trigger] visited@.contains(t) <==> exists|i: nat| i < k + 1 && #[trigger] wait_chain(wait, owner, start_tid, i) == Some(t) by {
                        if visited@.contains(t) && t != cur {
                            let i = choose|i: nat| i < k && #[trigger] wait_chain(wait, owner, start_tid, i) == Some(t);
                            assert(i < k + 1);
                        }
                        if t == cur {
                            assert(wait_chain(wait, owner, start_tid, k) == Some(t));
                        }
                    }
                    k = k + 1;
                    vstd::set_lib::lemma_len_subset(visited@, wait.dom());
                }
                cur = owner_tid;
            },
            None => {
                proof {
                    lemma_no_cycle_after_end(wait, owner, start_tid, k);
                }
                return false;
            },
        }
    }
}

} // verus!
