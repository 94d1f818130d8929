//! The task scheduler: task nodes with declared dependency edges, executed
//! in dependency-respecting batches of ready nodes. An acyclic graph yields
//! a complete schedule; a dependency cycle (or an edge to an unregistered
//! node) leaves nodes unscheduled, which callers detect by comparing the
//! processed count with the registered total.

use vstd::prelude::*;
use vstd::seq_lib::*;
use vstd::set_lib::lemma_len_subset;

verus! {

/// The mathematical content of one task node: its identifier and the
/// identifiers it depends on.
#[verifier::ext_equal]
pub ghost struct TaskModel {
    pub id: usize,
    pub deps: Seq<usize>,
}

struct TaskNode {
    id: usize,
    deps: Vec<usize>,
}

impl View for TaskNode {
    type V = TaskModel;

    closed spec fn view(&self) -> TaskModel {
        TaskModel { id: self.id, deps: self.deps@ }
    }
}

/// No two registered tasks share an identifier.
pub open spec fn distinct_ids(m: Seq<TaskModel>) -> bool {
    forall|a: int, b: int| 0 <= a < b < m.len() ==> m[a].id != m[b].id
}

/// Some registered task carries this identifier.
pub open spec fn has_id(m: Seq<TaskModel>, id: usize) -> bool {
    exists|j: int| 0 <= j < m.len() && m[j].id == id
}

/// Every dependency of the task at index `i` already appears in `ord`.
pub open spec fn task_ready(m: Seq<TaskModel>, ord: Seq<usize>, i: int) -> bool {
    forall|x: int| 0 <= x < m[i].deps.len() ==> ord.contains(#[trigger] m[i].deps[x])
}

/// `ord` lists registered tasks, none twice, and every listed task comes
/// after all of its declared dependencies.
pub open spec fn valid_order(m: Seq<TaskModel>, ord: Seq<usize>) -> bool {
    &&& ord.no_duplicates()
    &&& forall|k: int| 0 <= k < ord.len() ==> has_id(m, #[trigger] ord[k])
    &&& forall|k: int, j: int, x: int|
        #![trigger ord[k], m[j].deps[x]]
        0 <= k < ord.len() && 0 <= j < m.len() && m[j].id == ord[k] && 0 <= x < m[j].deps.len()
            ==> ord.take(k).contains(m[j].deps[x])
}

/// The graph admits a complete dependency-respecting schedule; for finitely
/// many tasks this is exactly acyclicity with every edge registered.
pub open spec fn schedulable(m: Seq<TaskModel>) -> bool {
    exists|ord: Seq<usize>| valid_order(m, ord) && ord.len() == m.len()
}

/// What registering `id` leaves behind: a fresh dependency-free node, or a
/// reset of the node that already carried that identifier.
pub open spec fn spec_add_task(m: Seq<TaskModel>, id: usize) -> Seq<TaskModel> {
    if has_id(m, id) {
        let j = choose|j: int| 0 <= j < m.len() && m[j].id == id;
        m.update(j, TaskModel { id, deps: Seq::empty() })
    } else {
        m.push(TaskModel { id, deps: Seq::empty() })
    }
}

/// What declaring an edge leaves behind: the dependency appended to the
/// named task, or nothing when that task is not registered.
pub open spec fn spec_add_dep(m: Seq<TaskModel>, task: usize, depends_on: usize) -> Seq<
    TaskModel,
> {
    if has_id(m, task) {
        let j = choose|j: int| 0 <= j < m.len() && m[j].id == task;
        m.update(j, TaskModel { id: task, deps: m[j].deps.push(depends_on) })
    } else {
        m
    }
}

/// With distinct identifiers, an identifier pins down its index.
proof fn lemma_id_index_unique(m: Seq<TaskModel>, a: int, b: int)
    requires
        distinct_ids(m),
        0 <= a < m.len(),
        0 <= b < m.len(),
        m[a].id == m[b].id,
    ensures
        a == b,
{
}

/// Whether `v` holds `x`.
fn vec_has(v: &Vec<usize>, x: usize) -> (r: bool)
    ensures
        r == v@.contains(x),
{
    let mut i: usize = 0;
    while i < v.len()
        invariant
            0 <= i <= v@.len(),
            forall|k: int| 0 <= k < i ==> v@[k] != x,
        decreases v@.len() - i,
    {
        if v[i] == x {
            return true;
        }
        i = i + 1;
    }
    false
}

/// Whether every entry of `deps` appears in `ord`.
fn deps_in(ord: &Vec<usize>, deps: &Vec<usize>) -> (r: bool)
    ensures
        r == (forall|x: int| 0 <= x < deps@.len() ==> ord@.contains(#[trigger] deps@[x])),
{
    let mut i: usize = 0;
    while i < deps.len()
        invariant
            0 <= i <= deps@.len(),
            forall|x: int| 0 <= x < i ==> ord@.contains(#[trigger] deps@[x]),
        decreases deps@.len() - i,
    {
        if !vec_has(ord, deps[i]) {
            return false;
        }
        i = i + 1;
    }
    true
}

/// A duplicate-free list of registered identifiers is no longer than the
/// task list itself.
proof fn lemma_order_bound(m: Seq<TaskModel>, ord: Seq<usize>)
    requires
        distinct_ids(m),
        ord.no_duplicates(),
        forall|k: int| 0 <= k < ord.len() ==> has_id(m, #[trigger] ord[k]),
    ensures
        ord.len() <= m.len(),
{
    let ids = m.map_values(|t: TaskModel| t.id);
    assert forall|x: usize| ord.to_set().contains(x) implies ids.to_set().contains(x) by {
        let j = choose|j: int| 0 <= j < m.len() && m[j].id == x;
        assert(ids[j] == x);
    }
    ord.unique_seq_to_set();
    lemma_len_subset(ord.to_set(), ids.to_set());
    ids.lemma_cardinality_of_set();
}

/// A scheduler of task nodes with declared dependency edges.
pub struct DagScheduler {
    tasks: Vec<TaskNode>,
}

impl View for DagScheduler {
    type V = Seq<TaskModel>;

    closed spec fn view(&self) -> Seq<TaskModel> {
        self.tasks@.map_values(|t: TaskNode| t@)
    }
}

impl DagScheduler {
    /// Registered tasks carry pairwise distinct identifiers.
    pub open spec fn wf(&self) -> bool {
        distinct_ids(self@)
    }

    /// An empty scheduler.
    pub fn new() -> (r: DagScheduler)
        ensures
            r.wf(),
            r@.len() == 0,
    {
        let r = DagScheduler { tasks: Vec::new() };
        proof {
            assert(r@ =~= Seq::<TaskModel>::empty());
        }
        r
    }

    /// How many tasks are registered.
    pub fn len(&self) -> (r: usize)
        ensures
            r == self@.len(),
    {
        self.tasks.len()
    }

    fn find_index(&self, id: usize) -> (r: Option<usize>)
        ensures
            match r {
                Some(j) => 0 <= j < self@.len() && self@[j as int].id == id,
                None => !has_id(self@, id),
            },
    {
        let mut i: usize = 0;
        while i < self.tasks.len()
            invariant
                0 <= i <= self@.len(),
                self@.len() == self.tasks@.len(),
                forall|k: int| 0 <= k < i ==> self@[k].id != id,
            decreases self@.len() - i,
        {
            if self.tasks[i].id == id {
                return Some(i);
            }
            i = i + 1;
        }
        None
    }

    /// Registers a task node. Registering an identifier a second time resets
    /// that node's dependencies, as a fresh registration would.
    pub fn add_task(&mut self, id: usize)
        requires
            old(self).wf(),
        ensures
            final (self).wf(),
            final (self)@ == spec_add_task(old(self)@, id),
    {
        match self.find_index(id) {
            Some(j) => {
                let mut node = self.tasks.remove(j);
                node.deps = Vec::new();
                self.tasks.insert(j, node);
                proof {
                    let jj = choose|jj: int| 0 <= jj < old(self)@.len() && old(self)@[jj].id == id;
                    lemma_id_index_unique(old(self)@, jj, j as int);
                    assert(self@ =~= spec_add_task(old(self)@, id));
                }
            },
            None => {
                self.tasks.push(TaskNode { id, deps: Vec::new() });
                proof {
                    assert(self@ =~= spec_add_task(old(self)@, id));
                }
            },
        }
    }

    /// Declares that `task` depends on `depends_on`; with `task` not
    /// registered, a no-op. The edge's target need not be registered, but an
    /// edge to an unregistered target can never become ready.
    pub fn add_dep(&mut self, task: usize, depends_on: usize)
        requires
            old(self).wf(),
        ensures
            final (self).wf(),
            final (self)@ == spec_add_dep(old(self)@, task, depends_on),
    {
        match self.find_index(task) {
            Some(j) => {
                let mut node = self.tasks.remove(j);
                node.deps.push(depends_on);
                self.tasks.insert(j, node);
                proof {
                    let jj = choose|jj: int|
                        0 <= jj < old(self)@.len() && old(self)@[jj].id == task;
                    lemma_id_index_unique(old(self)@, jj, j as int);
                    assert(self@ =~= spec_add_dep(old(self)@, task, depends_on));
                }
            },
            None => {},
        }
    }

    /// Computes the execution order: repeated batches of every node whose
    /// dependencies have all completed, breadth-first by readiness. Nodes on
    /// a dependency cycle, or downstream of an unregistered dependency,
    /// never become ready and are left out; the schedule is complete exactly
    /// when the graph admits a complete dependency-respecting order.
    pub fn schedule(&self) -> (r: Vec<usize>)
        requires
            self.wf(),
        ensures
            valid_order(self@, r@),
            r@.len() <= self@.len(),
            r@.len() == self@.len() <==> schedulable(self@),
    {
        let ghost m = self@;
        let n = self.tasks.len();
        let mut order: Vec<usize> = Vec::new();
        loop
            invariant
                self.wf(),
                m == self@,
                n == self@.len(),
                valid_order(m, order@),
                order@.len() <= m.len(),
            ensures
                valid_order(m, order@),
                order@.len() <= m.len(),
                forall|ii: int|
                    0 <= ii < m.len() ==> order@.contains(m[ii].id) || !task_ready(
                        m,
                        order@,
                        ii,
                    ),
            decreases m.len() - order@.len(),
        {
            let ghost ord0 = order@;
            let mut batch: Vec<usize> = Vec::new();
            let mut i: usize = 0;
            while i < n
                invariant
                    self.wf(),
                    m == self@,
                    n == self@.len(),
                    0 <= i <= n,
                    forall|b: int|
                        0 <= b < batch@.len() ==> 0 <= #[trigger] batch@[b] < i as int,
                    forall|b1: int, b2: int|
                        0 <= b1 < b2 < batch@.len() ==> batch@[b1] < batch@[b2],
                    forall|b: int|
                        0 <= b < batch@.len() ==> !ord0.contains(
                            m[#[trigger] batch@[b] as int].id,
                        ) && task_ready(m, ord0, batch@[b] as int),
                    forall|ii: int|
                        0 <= ii < i && !ord0.contains(m[ii].id) && task_ready(m, ord0, ii)
                            ==> batch@.contains(ii as usize),
                    order@ == ord0,
                decreases n - i,
            {
                let ghost batch_pre = batch@;
                let t = &self.tasks[i];
                let undone = !vec_has(&order, t.id);
                let ready = deps_in(&order, &t.deps);
                proof {
                    assert(m[i as int] == self.tasks@[i as int]@);
                }
                if undone && ready {
                    batch.push(i);
                    proof {
                        assert(batch@ == batch_pre.push(i));
                        assert forall|ii: int|
                            0 <= ii < i as int + 1 && !ord0.contains(m[ii].id) && task_ready(
                                m,
                                ord0,
                                ii,
                            ) implies batch@.contains(ii as usize) by {
                            if ii < i as int {
                                assert(batch_pre.contains(ii as usize));
                                let k = choose|k: int|
                                    0 <= k < batch_pre.len() && batch_pre[k] == ii as usize;
                                assert(batch@[k] == ii as usize);
                            } else {
                                assert(batch@[batch_pre.len() as int] == i);
                            }
                        }
                        assert(task_ready(m, ord0, i as int)) by {
                            assert forall|x: int|
                                0 <= x < m[i as int].deps.len() implies ord0.contains(
                                #[trigger] m[i as int].deps[x],
                            ) by {
                                assert(ord0.contains(t.deps@[x]));
                            }
                        }
                    }
                } else {
                    proof {
                        assert(ord0.contains(m[i as int].id) || !task_ready(
                            m,
                            ord0,
                            i as int,
                        )) by {
                            if undone {
                                let x = choose|x: int|
                                    0 <= x < t.deps@.len() && !ord0.contains(
                                        #[trigger] t.deps@[x],
                                    );
                                assert(!ord0.contains(m[i as int].deps[x]));
                            }
                        }
                        assert forall|ii: int|
                            0 <= ii < i as int + 1 && !ord0.contains(m[ii].id) && task_ready(
                                m,
                                ord0,
                                ii,
                            ) implies batch@.contains(ii as usize) by {
                            assert(ii < i as int);
                        }
                    }
                }
                i = i + 1;
            }
            if batch.len() == 0 {
                proof {
                    assert forall|ii: int|
                        0 <= ii < m.len() implies ord0.contains(m[ii].id) || !task_ready(
                        m,
                        ord0,
                        ii,
                    ) by {
                        if !ord0.contains(m[ii].id) && task_ready(m, ord0, ii) {
                            assert(batch@.contains(ii as usize));
                        }
                    }
                }
                break ;
            }
            let ghost batch0 = batch@;
            let mut j: usize = 0;
            while j < batch.len()
                invariant
                    self.wf(),
                    m == self@,
                    n == self@.len(),
                    batch@ == batch0,
                    0 <= j <= batch@.len(),
                    forall|b: int|
                        0 <= b < batch@.len() ==> 0 <= #[trigger] batch@[b] < n as int,
                    forall|b1: int, b2: int|
                        0 <= b1 < b2 < batch@.len() ==> batch@[b1] < batch@[b2],
                    forall|b: int|
                        0 <= b < batch@.len() ==> !ord0.contains(
                            m[#[trigger] batch@[b] as int].id,
                        ) && task_ready(m, ord0, batch@[b] as int),
                    order@.len() == ord0.len() + j,
                    order@.take(ord0.len() as int) == ord0,
                    forall|b: int|
                        0 <= b < j ==> order@[ord0.len() + b] == m[batch@[b] as int].id,
                    valid_order(m, order@),
                decreases batch@.len() - j,
            {
                let idx = batch[j];
                let id = self.tasks[idx].id;
                let ghost before = order@;
                order.push(id);
                proof {
                    lemma_valid_order_push(m, ord0, before, batch0, j as int, id);
                }
                j = j + 1;
            }
            proof {
                lemma_order_bound(m, order@);
                assert(order@.len() == ord0.len() + batch0.len());
            }
        }
        proof {
            lemma_schedule_complete(m, order@);
        }
        order
    }

    /// Runs the schedule to completion in the sense of the processed count:
    /// reports whether every registered node was scheduled — true exactly
    /// when the dependency graph admits a complete order, and false as soon
    /// as a cycle or an unregistered dependency makes nodes unreachable.
    pub fn execute(&self) -> (r: bool)
        requires
            self.wf(),
        ensures
            r == schedulable(self@),
    {
        let order = self.schedule();
        order.len() == self.tasks.len()
    }
}

/// Containment in a prefix survives extending the prefix.
proof fn lemma_take_contains_mono(ord: Seq<usize>, l: int, k: int, d: usize)
    requires
        0 <= l <= k <= ord.len(),
        ord.take(l).contains(d),
    ensures
        ord.take(k).contains(d),
{
    let kk = choose|kk: int| 0 <= kk < l && ord.take(l)[kk] == d;
    assert(ord.take(k)[kk] == d);
}

/// Pushing a ready, still unscheduled batch member onto a valid order keeps
/// the order valid.
proof fn lemma_valid_order_push(
    m: Seq<TaskModel>,
    ord0: Seq<usize>,
    before: Seq<usize>,
    batch: Seq<usize>,
    j: int,
    id: usize,
)
    requires
        distinct_ids(m),
        valid_order(m, before),
        0 <= j < batch.len(),
        forall|b: int| 0 <= b < batch.len() ==> 0 <= #[trigger] batch[b] < m.len(),
        forall|b1: int, b2: int| 0 <= b1 < b2 < batch.len() ==> batch[b1] < batch[b2],
        forall|b: int|
            0 <= b < batch.len() ==> !ord0.contains(m[#[trigger] batch[b] as int].id)
                && task_ready(m, ord0, batch[b] as int),
        before.len() == ord0.len() + j,
        before.take(ord0.len() as int) == ord0,
        forall|b: int| 0 <= b < j ==> before[ord0.len() + b] == m[batch[b] as int].id,
        id == m[batch[j] as int].id,
    ensures
        valid_order(m, before.push(id)),
        before.push(id).take(ord0.len() as int) == ord0,
        forall|b: int| 0 <= b < j + 1 ==> before.push(id)[ord0.len() + b] == m[batch[b] as int].id,
{
    let after = before.push(id);
    let idx = batch[j] as int;
    // `id` is new: it is not in ord0, and the batch entries already pushed
    // name other tasks, whose identifiers differ.
    assert forall|k: int| 0 <= k < before.len() implies before[k] != id by {
        if k < ord0.len() {
            assert(ord0[k] == before[k]);
            assert(ord0.contains(before[k]) ==> before[k] != id);
        } else {
            let b = k - ord0.len();
            assert(before[k] == m[batch[b] as int].id);
            lemma_id_index_unique_contra(m, batch[b] as int, idx);
        }
    }
    assert(after.no_duplicates());
    assert(has_id(m, id)) by {
        assert(0 <= idx < m.len() && m[idx].id == id);
    }
    // Dependencies of every listed task stay behind it; the new last entry's
    // dependencies all sit inside ord0, a prefix of everything before it.
    assert forall|k: int, jj: int, x: int|
        #![trigger after[k], m[jj].deps[x]]
        0 <= k < after.len() && 0 <= jj < m.len() && m[jj].id == after[k] && 0 <= x
            < m[jj].deps.len() implies after.take(k).contains(m[jj].deps[x]) by {
        if k < before.len() {
            assert(before[k] == after[k]);
            assert(before.take(k).contains(m[jj].deps[x]));
            assert(before.take(k) =~= after.take(k));
        } else {
            lemma_id_index_unique(m, jj, idx);
            assert(task_ready(m, ord0, idx));
            assert(ord0.contains(m[jj].deps[x]));
            assert(after.take(ord0.len() as int) =~= ord0);
            lemma_take_contains_mono(after, ord0.len() as int, k, m[jj].deps[x]);
        }
    }
}

/// Distinct indices carry distinct identifiers.
proof fn lemma_id_index_unique_contra(m: Seq<TaskModel>, a: int, b: int)
    requires
        distinct_ids(m),
        0 <= a < m.len(),
        0 <= b < m.len(),
        a != b,
    ensures
        m[a].id != m[b].id,
{
}

/// Every task a complete witness schedules up to position `k` is already in
/// a saturated order: one that no ready, unscheduled task can extend.
proof fn lemma_exit_prefix(m: Seq<TaskModel>, ord: Seq<usize>, w: Seq<usize>, k: int)
    requires
        distinct_ids(m),
        valid_order(m, w),
        valid_order(m, ord),
        forall|i: int| 0 <= i < m.len() ==> ord.contains(m[i].id) || !task_ready(m, ord, i),
        0 <= k <= w.len(),
    ensures
        forall|kk: int| 0 <= kk < k ==> ord.contains(#[trigger] w[kk]),
    decreases k,
{
    if k > 0 {
        lemma_exit_prefix(m, ord, w, k - 1);
        let id = w[k - 1];
        assert(has_id(m, id));
        let j = choose|j: int| 0 <= j < m.len() && m[j].id == id;
        assert(task_ready(m, ord, j)) by {
            assert forall|x: int| 0 <= x < m[j].deps.len() implies ord.contains(
                #[trigger] m[j].deps[x],
            ) by {
                let d = m[j].deps[x];
                assert(w.take(k - 1).contains(d));
                let kk = choose|kk: int| 0 <= kk < k - 1 && #[trigger] w.take(k - 1)[kk] == d;
                assert(w[kk] == d);
            }
        }
        assert(ord.contains(m[j].id));
    }
}

/// A saturated valid order is complete exactly when the graph admits any
/// complete valid order.
proof fn lemma_schedule_complete(m: Seq<TaskModel>, ord: Seq<usize>)
    requires
        distinct_ids(m),
        valid_order(m, ord),
        ord.len() <= m.len(),
        forall|i: int| 0 <= i < m.len() ==> ord.contains(m[i].id) || !task_ready(m, ord, i),
    ensures
        ord.len() == m.len() <==> schedulable(m),
{
    if ord.len() == m.len() {
        assert(schedulable(m));
    }
    if schedulable(m) {
        let w = choose|w: Seq<usize>| valid_order(m, w) && w.len() == m.len();
        lemma_exit_prefix(m, ord, w, w.len() as int);
        let ids = m.map_values(|t: TaskModel| t.id);
        assert(ids.no_duplicates());
        // Every registered identifier appears in the witness: the witness
        // lists m.len() distinct registered identifiers.
        assert forall|x: usize| ids.to_set().contains(x) implies w.to_set().contains(x) by {
            if !w.to_set().contains(x) {
                assert forall|y: usize| w.to_set().contains(y) implies ids.to_set().remove(
                    x,
                ).contains(y) by {
                    let kk = choose|kk: int| 0 <= kk < w.len() && w[kk] == y;
                    let j = choose|j: int| 0 <= j < m.len() && m[j].id == y;
                    assert(ids[j] == y);
                }
                w.unique_seq_to_set();
                ids.unique_seq_to_set();
                lemma_len_subset(w.to_set(), ids.to_set().remove(x));
                assert(ids.to_set().remove(x).len() == ids.to_set().len() - 1);
            }
        }
        // Hence every registered identifier is in the saturated order, whose
        // length therefore reaches the total.
        assert forall|x: usize| ids.to_set().contains(x) implies ord.to_set().contains(x) by {
            let kk = choose|kk: int| 0 <= kk < w.len() && w[kk] == x;
        }
        ord.unique_seq_to_set();
        ids.unique_seq_to_set();
        lemma_len_subset(ids.to_set(), ord.to_set());
    }
}

} // verus!
