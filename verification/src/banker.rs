use vstd::prelude::*;
use std::collections::BTreeMap;
use std::collections::BTreeSet;
use vstd::std_specs::iter::IteratorSpec;
use crate::sync::ProcessControlBlockInner;

verus! {

/// How many resources of semaphore `sid` thread `t` holds.
pub open spec fn held(alloc: Seq<Map<usize, usize>>, sid: int, t: usize) -> int {
    if 0 <= sid < alloc.len() && alloc[sid].contains_key(t) {
        alloc[sid][t] as int
    } else {
        0
    }
}

/// Step function of the sum computed by `held_by`.
pub open spec fn add_held(alloc: Seq<Map<usize, usize>>, sid: int) -> spec_fn(int, usize) -> int {
    |acc: int, t: usize| acc + held(alloc, sid, t)
}

/// How many resources of semaphore `sid` the threads in `threads` hold together.
pub open spec fn held_by(alloc: Seq<Map<usize, usize>>, sid: int, threads: Set<usize>) -> int {
    threads.fold(0int, add_held(alloc, sid))
}

/// Resources of semaphore `sid` free once every thread in `done` has finished
/// and released what it holds.
pub open spec fn work_after(avail: Seq<isize>, alloc: Seq<Map<usize, usize>>, done: Set<usize>, sid: int) -> int {
    avail[sid] + held_by(alloc, sid, done)
}

/// Thread `t` can run to completion once the threads in `done` have finished:
/// it waits for nothing, or for an existing semaphore that then has a free resource.
pub open spec fn can_finish(
    avail: Seq<isize>,
    alloc: Seq<Map<usize, usize>>,
    wait: Map<usize, usize>,
    done: Set<usize>,
    t: usize,
) -> bool {
    wait.contains_key(t) ==> (wait[t] < avail.len() && work_after(avail, alloc, done, wait[t] as int) >= 1)
}

/// The threads that take part in the semaphore state: those that wait on a
/// semaphore and those that hold a resource of one.
pub open spec fn sem_threads(alloc: Seq<Map<usize, usize>>, wait: Map<usize, usize>) -> Set<usize> {
    Set::new(
        |t: usize|
            wait.contains_key(t) || exists|sid: int|
                0 <= sid < alloc.len() && #[trigger] alloc[sid].contains_key(t) && alloc[sid][t] > 0,
    )
}

/// `s` orders all threads of the state so that each can finish after those before it.
pub open spec fn is_safe_sequence(
    avail: Seq<isize>,
    alloc: Seq<Map<usize, usize>>,
    wait: Map<usize, usize>,
    s: Seq<usize>,
) -> bool {
    &&& s.no_duplicates()
    &&& s.to_set() == sem_threads(alloc, wait)
    &&& forall|i: int| 0 <= i < s.len() ==> #[trigger] can_finish(avail, alloc, wait, s.take(i).to_set(), s[i])
}

/// The semaphore state is safe: some order lets every thread finish.
pub open spec fn semaphore_state_safe(avail: Seq<isize>, alloc: Seq<Map<usize, usize>>, wait: Map<usize, usize>) -> bool {
    exists|s: Seq<usize>| is_safe_sequence(avail, alloc, wait, s)
}

pub proof fn lemma_add_held_commutative(alloc: Seq<Map<usize, usize>>, sid: int)
    ensures
        vstd::set::fold::is_fun_commutative(add_held(alloc, sid)),
{
    assert forall|a1: usize, a2: usize, b: int|
        #[trigger] add_held(alloc, sid)(add_held(alloc, sid)(b, a2), a1)
            == add_held(alloc, sid)(add_held(alloc, sid)(b, a1), a2) by {}
}

pub proof fn lemma_held_by_empty(alloc: Seq<Map<usize, usize>>, sid: int)
    ensures
        held_by(alloc, sid, Set::empty()) == 0,
{
    vstd::set::fold::lemma_fold_empty(0int, add_held(alloc, sid));
}

pub proof fn lemma_held_by_insert(alloc: Seq<Map<usize, usize>>, sid: int, f: Set<usize>, t: usize)
    requires
        f.finite(),
        !f.contains(t),
    ensures
        held_by(alloc, sid, f.insert(t)) == held_by(alloc, sid, f) + held(alloc, sid, t),
{
    lemma_add_held_commutative(alloc, sid);
    vstd::set::fold::lemma_fold_insert(f, 0int, add_held(alloc, sid), t);
}

pub proof fn lemma_held_by_mono(alloc: Seq<Map<usize, usize>>, sid: int, s: Set<usize>, g: Set<usize>)
    requires
        g.finite(),
        s.subset_of(g),
    ensures
        held_by(alloc, sid, s) <= held_by(alloc, sid, g),
        0 <= held_by(alloc, sid, s),
    decreases g.len(),
{
    vstd::set_lib::lemma_set_subset_finite(g, s);
    if g.len() == 0 {
        assert(g =~= Set::empty());
        assert(s =~= Set::empty());
        lemma_held_by_empty(alloc, sid);
    } else {
        let a = g.choose();
        let g1 = g.remove(a);
        assert(g =~= g1.insert(a));
        lemma_held_by_insert(alloc, sid, g1, a);
        if s.contains(a) {
            let s1 = s.remove(a);
            assert(s =~= s1.insert(a));
            lemma_held_by_mono(alloc, sid, s1, g1);
            vstd::set_lib::lemma_set_subset_finite(g1, s1);
            lemma_held_by_insert(alloc, sid, s1, a);
        } else {
            lemma_held_by_mono(alloc, sid, s, g1);
        }
    }
}

pub proof fn lemma_can_finish_mono(
    avail: Seq<isize>,
    alloc: Seq<Map<usize, usize>>,
    wait: Map<usize, usize>,
    d1: Set<usize>,
    d2: Set<usize>,
    t: usize,
)
    requires
        d2.finite(),
        d1.subset_of(d2),
        can_finish(avail, alloc, wait, d1, t),
    ensures
        can_finish(avail, alloc, wait, d2, t),
{
    if wait.contains_key(t) {
        lemma_held_by_mono(alloc, wait[t] as int, d1, d2);
    }
}


/// The allocation maps of a process, by their views.
pub open spec fn alloc_view(v: Seq<BTreeMap<usize, usize>>) -> Seq<Map<usize, usize>> {
    Seq::new(v.len(), |i: int| v[i]@)
}

/// The sums that the safety check forms stay within `isize`.
pub open spec fn banker_fits(avail: Seq<isize>, alloc: Seq<Map<usize, usize>>, wait: Map<usize, usize>) -> bool {
    forall|sid: int|
        #![trigger avail[sid]]
        0 <= sid < avail.len() ==> {
            &&& work_after(avail, alloc, sem_threads(alloc, wait), sid) <= isize::MAX
            &&& forall|t: usize| #[trigger] held(alloc, sid, t) <= isize::MAX
        }
}

/// The keys that iterating over `m` yields are exactly the keys of `m`.
proof fn lemma_keys_iter_covers(m: &BTreeMap<usize, usize>)
    ensures
        forall|x: usize|
            vstd::std_specs::btree::spec_keys_iter(m).remaining().map_values(|r: &usize| *r).contains(x)
                <==> m@.dom().contains(x),
{
    broadcast use vstd::std_specs::btree::axiom_spec_keys_iter;
    let ks = vstd::std_specs::btree::spec_keys_iter(m).remaining().map_values(|r: &usize| *r);
    let r = vstd::std_specs::btree::spec_keys_iter(m).remaining();
    assert(r.unref().to_set() == m@.dom());
    assert forall|x: usize| ks.contains(x) <==> m@.dom().contains(x) by {
        if m@.dom().contains(x) {
            assert(r.unref().to_set().contains(x));
            let j = choose|j: int| 0 <= j < r.unref().len() && r.unref()[j] == x;
            assert(ks[j] == x);
        }
        if ks.contains(x) {
            let j = choose|j: int| 0 <= j < ks.len() && ks[j] == x;
            assert(r.unref()[j] == x);
            assert(r.unref().to_set().contains(x));
        }
    }
}

/// The first `i + 1` elements of `s` hold what the first `i` hold, and `s[i]`.
proof fn lemma_take_next_contains(s: Seq<usize>, i: int)
    requires
        0 <= i < s.len(),
    ensures
        forall|t: usize| s.take(i + 1).contains(t) <==> (s.take(i).contains(t) || t == s[i]),
{
    let a = s.take(i);
    let b = s.take(i + 1);
    assert forall|t: usize| b.contains(t) <==> (a.contains(t) || t == s[i]) by {
        if b.contains(t) {
            let j = choose|j: int| 0 <= j < b.len() && b[j] == t;
            if j < i {
                assert(a[j] == t);
            }
        }
        if t == s[i] {
            assert(b[i] == t);
        }
        if a.contains(t) {
            let j = choose|j: int| 0 <= j < a.len() && a[j] == t;
            assert(b[j] == t);
        }
    }
}

/// Adds to `tids` every thread that holds a resource in `m`.
fn insert_holders(m: &BTreeMap<usize, usize>, tids: &mut BTreeSet<usize>)
    ensures
        final(tids)@ == old(tids)@.union(Set::new(|t: usize| m@.contains_key(t) && m@[t] > 0)),
{
    broadcast use vstd::std_specs::btree::axiom_spec_keys_iter;
    let ghost ks = vstd::std_specs::btree::spec_keys_iter(m).remaining().map_values(|r: &usize| *r);
    let ghost start = tids@;
    proof {
        lemma_keys_iter_covers(m);
    }
    for k in it: m.keys()
        invariant
            it.seq().map_values(|r: &usize| *r) == ks,
            forall|x: usize| ks.contains(x) <==> m@.dom().contains(x),
            tids@ == start.union(Set::new(|t: usize| ks.take(it.index()).contains(t) && m@[t] > 0)),
    {
        let ghost i = it.index();
        let tid = *k;
        assert(tid == ks[i]);
        let cnt = match m.get(&tid) {
            Some(c) => *c,
            None => 0,
        };
        if cnt > 0 {
            tids.insert(tid);
        }
        proof {
            assert(ks.take(i + 1) =~= ks.take(i).push(tid));
            assert(ks.contains(tid));
            let a = ks.take(i);
            let b = ks.take(i + 1);
            lemma_take_next_contains(ks, i);
            assert(tids@ =~= start.union(Set::new(|t: usize| b.contains(t) && m@[t] > 0)));
        }
    }
    proof {
        assert(ks.take(ks.len() as int) =~= ks);
        assert(tids@ =~= start.union(Set::new(|t: usize| m@.contains_key(t) && m@[t] > 0)));
    }
}


/// Adds to `tids` every key of `m`.
fn insert_keys(m: &BTreeMap<usize, usize>, tids: &mut BTreeSet<usize>)
    ensures
        final(tids)@ == old(tids)@.union(m@.dom()),
{
    broadcast use vstd::std_specs::btree::axiom_spec_keys_iter;
    let ghost ks = vstd::std_specs::btree::spec_keys_iter(m).remaining().map_values(|r: &usize| *r);
    let ghost start = tids@;
    proof {
        lemma_keys_iter_covers(m);
    }
    for k in it: m.keys()
        invariant
            it.seq().map_values(|r: &usize| *r) == ks,
            forall|x: usize| ks.contains(x) <==> m@.dom().contains(x),
            tids@ == start.union(ks.take(it.index()).to_set()),
    {
        let ghost i = it.index();
        let tid = *k;
        assert(tid == ks[i]);
        tids.insert(tid);
        proof {
            let a = ks.take(i);
            let b = ks.take(i + 1);
            assert(b =~= a.push(tid));
            assert(b.to_set() =~= a.to_set().insert(tid)) by {
                lemma_take_next_contains(ks, i);
                assert forall|t: usize| b.to_set().contains(t) <==> a.to_set().insert(tid).contains(t) by {
                    assert(b.contains(t) <==> (a.contains(t) || t == tid));
                }
            }
            assert(tids@ =~= start.union(b.to_set()));
        }
    }
    proof {
        assert(ks.take(ks.len() as int) =~= ks);
        assert(ks.to_set() =~= m@.dom());
        assert(tids@ =~= start.union(m@.dom()));
    }
}

/// The elements of `tids` in increasing order.
fn set_to_vec(tids: &BTreeSet<usize>) -> (v: Vec<usize>)
    ensures
        v@.to_set() == tids@,
        v@.no_duplicates(),
{
    broadcast use vstd::std_specs::btree::axiom_spec_btree_keys_iter;
    let ghost ks = vstd::std_specs::btree::spec_btree_keys_iter(tids).remaining().map_values(|r: &usize| *r);
    proof {
        let r = vstd::std_specs::btree::spec_btree_keys_iter(tids).remaining();
        assert(r.unref().to_set() == tids@);
        assert(r.no_duplicates());
        assert(ks =~= r.unref());
    }
    let mut v: Vec<usize> = Vec::new();
    for k in it: tids.iter()
        invariant
            it.seq().map_values(|r: &usize| *r) == ks,
            v@ == ks.take(it.index()),
    {
        v.push(*k);
        proof {
            assert(ks.take(it.index() + 1) =~= ks.take(it.index()).push(ks[it.index()]));
        }
    }
    proof {
        assert(v@ =~= ks);
    }
    v
}


proof fn lemma_first_unfinished(
    avail: Seq<isize>,
    alloc: Seq<Map<usize, usize>>,
    wait: Map<usize, usize>,
    s: Seq<usize>,
    done: Set<usize>,
    j: int,
) -> (i: int)
    requires
        is_safe_sequence(avail, alloc, wait, s),
        done.finite(),
        0 <= j <= s.len(),
        forall|k: int| 0 <= k < j ==> done.contains(#[trigger] s[k]),
        exists|k: int| j <= k < s.len() && !done.contains(#[trigger] s[k]),
    ensures
        0 <= i < s.len(),
        !done.contains(s[i]),
        can_finish(avail, alloc, wait, done, s[i]),
    decreases s.len() - j,
{
    if done.contains(s[j]) {
        lemma_first_unfinished(avail, alloc, wait, s, done, j + 1)
    } else {
        assert(s.take(j).to_set().subset_of(done)) by {
            assert forall|t: usize| s.take(j).to_set().contains(t) implies done.contains(t) by {
                let k = choose|k: int| 0 <= k < s.take(j).len() && s.take(j)[k] == t;
                assert(s[k] == t);
            }
        }
        assert(can_finish(avail, alloc, wait, s.take(j).to_set(), s[j]));
        lemma_can_finish_mono(avail, alloc, wait, s.take(j).to_set(), done, s[j]);
        j
    }
}

/// The threads that hold or wait for a semaphore of `inner`.
fn thread_set(inner: &ProcessControlBlockInner) -> (tids: BTreeSet<usize>)
    ensures
        tids@ == sem_threads(alloc_view(inner.semaphore_allocation@), inner.thread_wait_semaphore@),
{
    let ghost alloc = alloc_view(inner.semaphore_allocation@);
    let ghost wait = inner.thread_wait_semaphore@;
    let ghost all = sem_threads(alloc, wait);
    let mut tids: BTreeSet<usize> = BTreeSet::new();
    let mut a: usize = 0;
    while a < inner.semaphore_allocation.len()
        invariant
            a <= inner.semaphore_allocation.len(),
            alloc == alloc_view(inner.semaphore_allocation@),
            tids@ == Set::new(|t: usize| exists|sid: int| 0 <= sid < a && #[trigger] alloc[sid].contains_key(t) && alloc[sid][t] > 0),
        decreases inner.semaphore_allocation.len() - a,
    {
        let ghost before = tids@;
        insert_holders(&inner.semaphore_allocation[a], &mut tids);
        proof {
            assert(tids@ =~= Set::new(|t: usize| exists|sid: int| 0 <= sid < a + 1 && #[trigger] alloc[sid].contains_key(t) && alloc[sid][t] > 0)) by {
                assert forall|t: usize| tids@.contains(t) <==> exists|sid: int| 0 <= sid < a + 1 && #[trigger] alloc[sid].contains_key(t) && alloc[sid][t] > 0 by {
                    if tids@.contains(t) && !before.contains(t) {
                        assert(alloc[a as int].contains_key(t) && alloc[a as int][t] > 0);
                    }
                    if exists|sid: int| 0 <= sid < a + 1 && #[trigger] alloc[sid].contains_key(t) && alloc[sid][t] > 0 {
                        let sid = choose|sid: int| 0 <= sid < a + 1 && #[trigger] alloc[sid].contains_key(t) && alloc[sid][t] > 0;
                        if sid < a {
                            assert(before.contains(t));
                        }
                    }
                }
            }
        }
        a = a + 1;
    }
    insert_keys(&inner.thread_wait_semaphore, &mut tids);
    proof {
        assert(tids@ =~= all);
    }
    tids
}

/// Banker's safety check on the semaphore state of `inner`: whether the
/// threads holding or waiting for semaphores can all finish in some order.
pub fn semaphore_state_is_safe(inner: &ProcessControlBlockInner) -> (r: bool)
    requires
        inner.semaphore_available.len() <= inner.semaphore_allocation.len(),
        banker_fits(inner.semaphore_available@, alloc_view(inner.semaphore_allocation@), inner.thread_wait_semaphore@),
    ensures
        r == semaphore_state_safe(inner.semaphore_available@, alloc_view(inner.semaphore_allocation@), inner.thread_wait_semaphore@),
{
    let ghost avail = inner.semaphore_available@;
    let ghost alloc = alloc_view(inner.semaphore_allocation@);
    let ghost wait = inner.thread_wait_semaphore@;
    let ghost all = sem_threads(alloc, wait);
    let sem_n = inner.semaphore_available.len();
    let tids = thread_set(inner);
    if tids.is_empty() {
        proof {
            let s = Seq::<usize>::empty();
            assert(s.to_set() =~= all);
            assert(is_safe_sequence(avail, alloc, wait, s));
        }
        return true;
    }
    let tids = set_to_vec(&tids);
    let ghost tv = tids@;
    proof {
        vstd::seq_lib::seq_to_set_is_finite(tv);
        tv.unique_seq_to_set();
    }
    let mut work: Vec<isize> = inner.semaphore_available.clone();
    proof {
        assert forall|i: int| 0 <= i < work.len() implies work@[i] == avail[i] by {
            assert(cloned::<isize>(inner.semaphore_available[i], work[i]));
        }
        assert(work@ =~= avail);
    }
    let mut finish: Vec<bool> = Vec::new();
    while finish.len() < tids.len()
        invariant
            finish.len() <= tids.len(),
            forall|i: int| 0 <= i < finish.len() ==> !finish[i],
        decreases tids.len() - finish.len(),
    {
        finish.push(false);
    }
    let ghost mut done: Set<usize> = Set::empty();
    let ghost mut order: Seq<usize> = Seq::empty();
    proof {
        assert forall|sid: int| 0 <= sid < sem_n implies #[trigger] work@[sid] == work_after(avail, alloc, done, sid) by {
            lemma_held_by_empty(alloc, sid);
        }
    }
    let mut changed = true;
    while changed
        invariant
            avail == inner.semaphore_available@,
            alloc == alloc_view(inner.semaphore_allocation@),
            wait == inner.thread_wait_semaphore@,
            all == sem_threads(alloc, wait),
            sem_n == avail.len(),
            sem_n <= alloc.len(),
            banker_fits(avail, alloc, wait),
            tv == tids@,
            tv.to_set() == all,
            tv.no_duplicates(),
            all.finite(),
            all.len() == tv.len(),
            work.len() == sem_n,
            finish.len() == tv.len(),
            forall|i: int| 0 <= i < tv.len() ==> (finish@[i] <==> done.contains(#[trigger] tv[i])),
            done.subset_of(all),
            order.no_duplicates(),
            order.to_set() == done,
            forall|j: int| 0 <= j < order.len() ==> #[trigger] can_finish(avail, alloc, wait, order.take(j).to_set(), order[j]),
            forall|sid: int| 0 <= sid < sem_n ==> #[trigger] work@[sid] == work_after(avail, alloc, done, sid),
            !changed ==> forall|i: int| 0 <= i < tv.len() && !finish@[i] ==> !can_finish(avail, alloc, wait, done, #[trigger] tv[i]),
        decreases (all.len() - done.len()) * 2 + (if changed { 1int } else { 0int }),
    {
        proof {
            vstd::set_lib::lemma_set_subset_finite(all, done);
            vstd::set_lib::lemma_len_subset(done, all);
        }
        changed = false;
        let ghost done0 = done;
        let mut i: usize = 0;
        while i < tids.len()
            invariant
                avail == inner.semaphore_available@,
                alloc == alloc_view(inner.semaphore_allocation@),
                wait == inner.thread_wait_semaphore@,
                all == sem_threads(alloc, wait),
                sem_n == avail.len(),
                sem_n <= alloc.len(),
                banker_fits(avail, alloc, wait),
                tv == tids@,
                tv.to_set() == all,
                tv.no_duplicates(),
                all.finite(),
                all.len() == tv.len(),
                i <= tv.len(),
                work.len() == sem_n,
                finish.len() == tv.len(),
                forall|k: int| 0 <= k < tv.len() ==> (finish@[k] <==> done.contains(#[trigger] tv[k])),
                done.subset_of(all),
                done0.subset_of(done),
                order.no_duplicates(),
                order.to_set() == done,
                forall|j: int| 0 <= j < order.len() ==> #[trigger] can_finish(avail, alloc, wait, order.take(j).to_set(), order[j]),
                forall|sid: int| 0 <= sid < sem_n ==> #[trigger] work@[sid] == work_after(avail, alloc, done, sid),
                !changed ==> done == done0,
                !changed ==> forall|k: int| 0 <= k < i && !finish@[k] ==> !can_finish(avail, alloc, wait, done, #[trigger] tv[k]),
                changed ==> done.len() > done0.len(),
            decreases tv.len() - i,
        {
            proof {
                vstd::set_lib::lemma_set_subset_finite(all, done);
                vstd::set_lib::lemma_set_subset_finite(all, done0);
            }
            if finish[i] {
                i = i + 1;
                continue;
            }
            let tid = tids[i];
            let mut can_finish_now = true;
            match inner.thread_wait_semaphore.get(&tid) {
                Some(wait_sid) => {
                    if *wait_sid >= sem_n || work[*wait_sid] < 1 {
                        can_finish_now = false;
                    }
                },
                None => {},
            }
            assert(can_finish_now == can_finish(avail, alloc, wait, done, tid));
            if !can_finish_now {
                i = i + 1;
                continue;
            }
            proof {
                assert(!done.contains(tid));
                assert(all.contains(tid)) by {
                    assert(tv.to_set().contains(tv[i as int]));
                }
            }
            let ghost done1 = done.insert(tid);
            let mut sid: usize = 0;
            while sid < sem_n
                invariant
                    avail == inner.semaphore_available@,
                    alloc == alloc_view(inner.semaphore_allocation@),
                    sem_n == avail.len(),
                    sem_n <= alloc.len(),
                    banker_fits(avail, alloc, wait),
                    all == sem_threads(alloc, wait),
                    all.finite(),
                    done.finite(),
                    !done.contains(tid),
                    done1 == done.insert(tid),
                    done1.subset_of(all),
                    sid <= sem_n,
                    work.len() == sem_n,
                    forall|s: int| 0 <= s < sid ==> #[trigger] work@[s] == work_after(avail, alloc, done1, s),
                    forall|s: int| sid <= s < sem_n ==> #[trigger] work@[s] == work_after(avail, alloc, done, s),
                decreases sem_n - sid,
            {
                proof {
                    lemma_held_by_insert(alloc, sid as int, done, tid);
                    lemma_held_by_mono(alloc, sid as int, done1, all);
                }
                match inner.semaphore_allocation[sid].get(&tid) {
                    Some(cnt) => {
                        assert(held(alloc, sid as int, tid) == *cnt);
                        work.set(sid, work[sid] + *cnt as isize);
                    },
                    None => {
                        assert(held(alloc, sid as int, tid) == 0);
                    },
                }
                sid = sid + 1;
            }
            finish.set(i, true);
            proof {
                assert(can_finish(avail, alloc, wait, order.to_set(), tid));
                assert(order.push(tid).take(order.len() as int) =~= order);
                assert forall|j: int| 0 <= j < order.len() + 1 implies #[trigger] can_finish(avail, alloc, wait, order.push(tid).take(j).to_set(), order.push(tid)[j]) by {
                    if j < order.len() {
                        assert(order.push(tid).take(j) =~= order.take(j));
                    }
                }
                assert(order.push(tid).to_set() =~= done1) by {
                    assert forall|t: usize| order.push(tid).contains(t) <==> done1.contains(t) by {
                        if order.push(tid).contains(t) {
                            let k = choose|k: int| 0 <= k < order.push(tid).len() && order.push(tid)[k] == t;
                            if k < order.len() {
                                assert(order.contains(t));
                            }
                        }
                        if done.contains(t) {
                            assert(order.to_set().contains(t));
                            let k = choose|k: int| 0 <= k < order.len() && order[k] == t;
                            assert(order.push(tid)[k] == t);
                        }
                        if t == tid {
                            assert(order.push(tid)[order.len() as int] == t);
                        }
                    }
                }
                assert(!order.contains(tid));
                order = order.push(tid);
                done = done1;
                vstd::set_lib::lemma_set_subset_finite(all, done0);
                assert(done.len() == done0.len() + 1 || done.len() > done0.len()) by {
                    vstd::set_lib::lemma_len_subset(done0, done.remove(tid));
                }
                assert forall|k: int| 0 <= k < tv.len() implies (finish@[k] <==> done.contains(#[trigger] tv[k])) by {
                    if k != i {
                        assert(tv[k] != tid);
                    }
                }
            }
            changed = true;
            i = i + 1;
        }
        proof {
            vstd::set_lib::lemma_set_subset_finite(all, done);
            vstd::set_lib::lemma_len_subset(done, all);
        }
    }
    let mut all_finished = true;
    let mut k: usize = 0;
    while k < finish.len()
        invariant
            k <= finish.len(),
            all_finished <==> forall|j: int| 0 <= j < k ==> finish@[j],
        decreases finish.len() - k,
    {
        if !finish[k] {
            all_finished = false;
        }
        k = k + 1;
    }
    proof {
        vstd::set_lib::lemma_set_subset_finite(all, done);
        if all_finished {
            assert(done =~= all) by {
                assert forall|t: usize| all.contains(t) implies done.contains(t) by {
                    assert(tv.to_set().contains(t));
                    let j = choose|j: int| 0 <= j < tv.len() && tv[j] == t;
                    assert(finish@[j]);
                }
            }
            assert(is_safe_sequence(avail, alloc, wait, order));
        } else {
            let j = choose|j: int| 0 <= j < finish.len() && !finish@[j];
            assert(!done.contains(tv[j]));
            if semaphore_state_safe(avail, alloc, wait) {
                let s = choose|s: Seq<usize>| is_safe_sequence(avail, alloc, wait, s);
                assert(s.to_set().contains(tv[j])) by {
                    assert(tv.to_set().contains(tv[j]));
                }
                let w = choose|w: int| 0 <= w < s.len() && s[w] == tv[j];
                assert(!done.contains(s[w]));
                let f = lemma_first_unfinished(avail, alloc, wait, s, done, 0);
                assert(all.contains(s[f])) by {
                    assert(s.to_set().contains(s[f]));
                }
                assert(tv.to_set().contains(s[f]));
                let m = choose|m: int| 0 <= m < tv.len() && tv[m] == s[f];
                assert(!finish@[m]);
                assert(!can_finish(avail, alloc, wait, done, tv[m]));
            }
        }
    }
    all_finished
}


/// Whether the sums that the safety check forms on `inner` stay within
/// `isize`: the check can run on `inner` without overflow.
pub fn semaphore_sums_fit(inner: &ProcessControlBlockInner) -> (r: bool)
    requires
        inner.semaphore_available.len() <= inner.semaphore_allocation.len(),
    ensures
        r == banker_fits(inner.semaphore_available@, alloc_view(inner.semaphore_allocation@), inner.thread_wait_semaphore@),
{
    let ghost avail = inner.semaphore_available@;
    let ghost alloc = alloc_view(inner.semaphore_allocation@);
    let ghost wait = inner.thread_wait_semaphore@;
    let ghost all = sem_threads(alloc, wait);
    let set = thread_set(inner);
    let tids = set_to_vec(&set);
    let ghost tv = tids@;
    proof {
        vstd::seq_lib::seq_to_set_is_finite(tv);
    }
    let n = inner.semaphore_available.len();
    let mut sid: usize = 0;
    while sid < n
        invariant
            n == avail.len(),
            n <= alloc.len(),
            avail == inner.semaphore_available@,
            alloc == alloc_view(inner.semaphore_allocation@),
            tv == tids@,
            tv.to_set() == all,
            tv.no_duplicates(),
            all == sem_threads(alloc, wait),
            wait == inner.thread_wait_semaphore@,
            all.finite(),
            sid <= n,
            forall|s: int|
                #![trigger avail[s]]
                0 <= s < sid ==> {
                    &&& work_after(avail, alloc, all, s) <= isize::MAX
                    &&& forall|t: usize| #[trigger] held(alloc, s, t) <= isize::MAX
                },
        decreases n - sid,
    {
        let mut acc: i128 = inner.semaphore_available[sid] as i128;
        let mut j: usize = 0;
        proof {
            assert(tv.take(0).to_set() =~= Set::<usize>::empty());
            lemma_held_by_empty(alloc, sid as int);
        }
        while j < tids.len()
            invariant
                n == avail.len(),
                sid < n <= alloc.len(),
                avail == inner.semaphore_available@,
                alloc == alloc_view(inner.semaphore_allocation@),
                tv == tids@,
                tv.to_set() == all,
                tv.no_duplicates(),
                all.finite(),
                wait == inner.thread_wait_semaphore@,
                all == sem_threads(alloc, wait),
                j <= tv.len(),
                acc == avail[sid as int] + held_by(alloc, sid as int, tv.take(j as int).to_set()),
                acc <= isize::MAX,
                forall|k: int| 0 <= k < j ==> #[trigger] held(alloc, sid as int, tv[k]) <= isize::MAX,
            decreases tv.len() - j,
        {
            let t = tids[j];
            let cnt = match inner.semaphore_allocation[sid].get(&t) {
                Some(c) => *c,
                None => 0,
            };
            assert(cnt == held(alloc, sid as int, t));
            if cnt > isize::MAX as usize {
                proof {
                    assert(held(alloc, sid as int, t) > isize::MAX);
                    if banker_fits(avail, alloc, wait) {
                        assert(avail[sid as int] == avail[sid as int]);
                        assert(held(alloc, sid as int, t) <= isize::MAX);
                    }
                }
                return false;
            }
            proof {
                let a = tv.take(j as int);
                let b = tv.take(j + 1);
                vstd::seq_lib::seq_to_set_is_finite(a);
                lemma_take_next_contains(tv, j as int);
                assert(b.to_set() =~= a.to_set().insert(t)) by {
                    assert forall|x: usize| b.to_set().contains(x) <==> a.to_set().insert(t).contains(x) by {
                        assert(b.contains(x) <==> (a.contains(x) || x == t));
                    }
                }
                assert(!a.to_set().contains(t)) by {
                    if a.contains(t) {
                        let k = choose|k: int| 0 <= k < a.len() && a[k] == t;
                        assert(tv[k] == tv[j as int]);
                    }
                }
                lemma_held_by_insert(alloc, sid as int, a.to_set(), t);
                assert(b.to_set().subset_of(all)) by {
                    assert forall|x: usize| b.to_set().contains(x) implies all.contains(x) by {
                        let k = choose|k: int| 0 <= k < b.len() && b[k] == x;
                        assert(tv[k] == x);
                        assert(tv.to_set().contains(x));
                    }
                }
                lemma_held_by_mono(alloc, sid as int, b.to_set(), all);
            }
            acc = acc + cnt as i128;
            if acc > isize::MAX as i128 {
                return false;
            }
            j = j + 1;
        }
        proof {
            assert(tv.take(tv.len() as int) =~= tv);
            assert forall|t: usize| #[trigger] held(alloc, sid as int, t) <= isize::MAX by {
                if all.contains(t) {
                    assert(tv.to_set().contains(t));
                    let k = choose|k: int| 0 <= k < tv.len() && tv[k] == t;
                    assert(held(alloc, sid as int, tv[k]) <= isize::MAX);
                } else if alloc[sid as int].contains_key(t) && alloc[sid as int][t] > 0 {
                    assert(all.contains(t));
                }
            }
        }
        sid = sid + 1;
    }
    true
}

} // verus!
