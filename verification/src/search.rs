use std::collections::HashSet;
use vstd::multiset::Multiset;
use vstd::prelude::*;
use vstd::std_specs::cmp::{PartialEqSpec, PartialEqSpecImpl};

use crate::queue::{FIFOQueue, Queue};
use crate::tree::{
    finite, forest_leaves, forest_weight, lemma_inner_subtree, lemma_leaf_subtree, subtree_leaves,
    subtree_weight, Bounds, BranchIterator, Node, VoidBounds,
};

verus! {

broadcast use vstd::std_specs::hash::group_hash_axioms;

/// A node together with the iterator over its children that have not been searched yet.
#[derive(Debug)]
pub struct Job<N, BI> {
    node: N,
    iterator: BI,
}

impl<N, BI> Job<N, BI> {
    /// The node of this job.
    pub closed spec fn spec_node(&self) -> N {
        self.node
    }

    /// The iterator over the node's children that are still to be searched.
    pub closed spec fn spec_iterator(&self) -> BI {
        self.iterator
    }
}

impl<N: Node, BI: BranchIterator<N>> Job<N, BI> {
    /// A job for `node`, none of whose children has been searched yet.
    pub fn new(node: N) -> (job: Self)
        ensures
            job.spec_node() == node,
            job.spec_iterator().remaining() == BI::branches(node),
    {
        let iterator = BI::new(&node);
        Job { node, iterator }
    }

    /// The leaves that this job has still to find: the node itself where it is a leaf, else
    /// the leaves below the children that its iterator has still to hand out.
    pub open spec fn pending_leaves(&self) -> Multiset<N> {
        if self.spec_node().spec_is_leaf() {
            Multiset::singleton(self.spec_node())
        } else {
            forest_leaves::<N, BI>(self.spec_iterator().remaining())
        }
    }

    /// The work this job has still to do: one for taking it up, and the weight of the
    /// subtrees that are still to be searched.
    pub open spec fn pending_weight(&self) -> nat {
        if self.spec_node().spec_is_leaf() {
            1
        } else {
            1 + forest_weight::<N, BI>(self.spec_iterator().remaining())
        }
    }

    /// All the subtrees still to be searched are finite.
    pub open spec fn finite_pending(&self) -> bool {
        !self.spec_node().spec_is_leaf() ==> forall|i: int|
            0 <= i < self.spec_iterator().remaining().len() ==> #[trigger] finite::<N, BI>(
                self.spec_iterator().remaining()[i],
            )
    }
}

impl<N: Eq, BI> PartialEq for Job<N, BI> {
    fn eq(&self, other: &Job<N, BI>) -> (same: bool) {
        self.node == other.node
    }
}

impl<N: Eq, BI> PartialEqSpecImpl for Job<N, BI> {
    open spec fn obeys_eq_spec() -> bool {
        N::obeys_eq_spec()
    }

    open spec fn eq_spec(&self, other: &Job<N, BI>) -> bool {
        self.spec_node().eq_spec(&other.spec_node())
    }
}

impl<N: Eq, BI> Eq for Job<N, BI> {

}

/// The leaves that the jobs of `jobs` have still to find.
pub open spec fn frontier<N: Node, BI: BranchIterator<N>>(jobs: Seq<Job<N, BI>>) -> Multiset<N>
    decreases jobs.len(),
{
    if jobs.len() == 0 {
        Multiset::empty()
    } else {
        frontier(jobs.drop_last()).add(jobs.last().pending_leaves())
    }
}

/// The work that the jobs of `jobs` have still to do.
pub open spec fn frontier_weight<N: Node, BI: BranchIterator<N>>(jobs: Seq<Job<N, BI>>) -> nat
    decreases jobs.len(),
{
    if jobs.len() == 0 {
        0
    } else {
        frontier_weight(jobs.drop_last()) + jobs.last().pending_weight()
    }
}

proof fn lemma_frontier_push<N: Node, BI: BranchIterator<N>>(
    jobs: Seq<Job<N, BI>>,
    job: Job<N, BI>,
)
    ensures
        frontier(jobs.push(job)) == frontier(jobs).add(job.pending_leaves()),
        frontier_weight(jobs.push(job)) == frontier_weight(jobs) + job.pending_weight(),
{
    assert(jobs.push(job).drop_last() =~= jobs);
}

/// Every worker with an id below `thread_num` is in `ids`.
pub open spec fn all_waiting(ids: Set<usize>, thread_num: usize) -> bool {
    forall|id: usize| id < thread_num ==> ids.contains(id)
}

/// Whether every worker with an id below `thread_num` is waiting for work.
pub fn is_all_worker_waiting(workerids: &HashSet<usize>, thread_num: usize) -> (all: bool)
    ensures
        all == all_waiting(workerids@, thread_num),
        all ==> forall|id: usize| id < thread_num ==> workerids@.contains(id),
        !all ==> exists|id: usize| id < thread_num && !workerids@.contains(id),
{
    let mut id: usize = 0;
    while id < thread_num
        invariant
            id <= thread_num,
            forall|j: usize| j < id ==> workerids@.contains(j),
        decreases thread_num - id,
    {
        if !workerids.contains(&id) {
            return false;
        }
        id = id + 1;
    }
    true
}

/// What a worker has done in one step, and so what it is to do next.
#[derive(Debug, Clone, Copy, PartialEq, Eq, Structural)]
pub enum Step {
    /// There was no job and some worker is still busy: wait until woken, then try again.
    Waiting,
    /// There was no job and every worker was waiting: the search is over.
    Finished,
    /// The job's node was a leaf: it is found, and a clone of it is among the results.
    Collected,
    /// The job gave a child: both went back into the queue, so other workers may take work.
    Branched,
    /// The job had no child left and was dropped.
    Exhausted,
}

/// Searches the tree below a root node, collecting its leaves.
///
/// Workers share the searcher and call [`Searcher::step`] in turn; each call takes one job
/// from the queue and does one unit of its work.
pub struct Searcher<N, BI, B = VoidBounds> {
    queue: FIFOQueue<Job<N, BI>>,
    results: Vec<N>,
    bounds: B,
    waiting_workers: HashSet<usize>,
    is_finished: bool,
    root: Ghost<N>,
    collected: Ghost<Seq<N>>,
}

impl<N: Node, BI: BranchIterator<N>, B: Bounds> Searcher<N, BI, B> {
    /// The jobs in the queue; the last one is taken next.
    pub closed spec fn jobs(&self) -> Seq<Job<N, BI>> {
        self.queue.items()
    }

    /// The leaves found so far, in the order in which they were found: the nodes of the
    /// leaf jobs themselves.
    pub closed spec fn found(&self) -> Seq<N> {
        self.collected@
    }

    /// The results kept so far: a clone of each leaf found, in the same order.
    pub closed spec fn result_copies(&self) -> Seq<N> {
        self.results@
    }

    /// The workers that found the queue empty and have not taken a job since.
    pub closed spec fn waiting(&self) -> Set<usize> {
        self.waiting_workers@
    }

    /// Whether some worker has found the search over.
    pub closed spec fn finished(&self) -> bool {
        self.is_finished
    }

    /// The node that the search started from.
    pub closed spec fn root(&self) -> N {
        self.root@
    }

    /// The work that is left: it drops by one with every job taken.
    pub open spec fn work(&self) -> nat {
        frontier_weight(self.jobs())
    }

    /// The searcher's invariant: a finished search has no job left, and where the tree is
    /// finite, the leaves found and the leaves that the queued jobs have still to find
    /// are together the leaves of the tree, each once.
    pub open spec fn wf(&self) -> bool {
        &&& self.result_copies().len() == self.found().len()
        &&& forall|i: int|
            0 <= i < self.found().len() ==> cloned::<N>(self.found()[i], #[trigger] self.result_copies()[i])
        &&& self.finished() ==> self.jobs().len() == 0
        &&& finite::<N, BI>(self.root()) ==> {
            &&& forall|i: int| 0 <= i < self.jobs().len() ==> #[trigger] self.jobs()[i].finite_pending()
            &&& self.found().to_multiset().add(frontier(self.jobs())) == subtree_leaves::<N, BI>(
                self.root(),
            )
            &&& self.work() < subtree_weight::<N, BI>(self.root())
        }
    }

    /// A search from `root`: one job for the root in the queue, no result, no worker
    /// waiting.
    pub fn new(root: N) -> (searcher: Self)
        ensures
            searcher.root() == root,
            searcher.jobs().len() == 1,
            searcher.jobs()[0].spec_node() == root,
            searcher.jobs()[0].spec_iterator().remaining() == BI::branches(root),
            searcher.found() == Seq::<N>::empty(),
            searcher.result_copies() == Seq::<N>::empty(),
            searcher.waiting() == Set::<usize>::empty(),
            !searcher.finished(),
            searcher.wf(),
    {
        let ghost root_node = root;
        let mut queue: FIFOQueue<Job<N, BI>> = FIFOQueue::new();
        let job = Job::new(root);
        queue.enqueue(job);
        let searcher = Searcher {
            queue,
            results: Vec::new(),
            bounds: B::new(),
            waiting_workers: HashSet::new(),
            is_finished: false,
            root: Ghost(root_node),
            collected: Ghost(Seq::empty()),
        };
        proof {
            let jobs = searcher.jobs();
            assert(jobs =~= Seq::<Job<N, BI>>::empty().push(job));
            lemma_frontier_push(Seq::<Job<N, BI>>::empty(), job);
            assert(searcher.found().to_multiset() =~= Multiset::<N>::empty()) by {
                broadcast use vstd::seq_lib::group_to_multiset_ensures;
                broadcast use vstd::multiset::group_multiset_axioms;
                assert(searcher.found().to_multiset().len() == 0);
            }
            if finite::<N, BI>(root_node) {
                if root_node.spec_is_leaf() {
                    lemma_leaf_subtree::<N, BI>(root_node);
                } else {
                    lemma_inner_subtree::<N, BI>(root_node);
                }
                assert(jobs[0] == job);
                assert(searcher.found().to_multiset().add(frontier(jobs)) =~= subtree_leaves::<
                    N,
                    BI,
                >(root_node));
            }
        }
        searcher
    }

    /// The results kept so far, each cloned once more.
    pub fn get_results(&self) -> (results: Vec<N>)
        ensures
            results.len() == self.result_copies().len(),
            forall|i: int|
                0 <= i < results.len() ==> cloned::<N>(self.result_copies()[i], #[trigger] results@[i]),
    {
        self.results.clone()
    }

    /// Whether some worker has found the search over.
    pub fn is_finished(&self) -> (finished: bool)
        ensures
            finished == self.finished(),
    {
        self.is_finished
    }
    /// One step of worker `worker_id` among `thread_num` workers.
    ///
    /// The worker takes the last job of the queue. Where there is none, it counts itself
    /// as waiting, and where every worker below `thread_num` then waits, the search is
    /// finished. Where there is one, it no longer waits; a leaf job's node counts as found
    /// and a clone of it joins the results; any other job asks its iterator for the next child, and where there is
    /// one, the job goes back into the queue with a job for the child above it.
    pub fn step(&mut self, worker_id: usize, thread_num: usize) -> (step: Step)
        ensures
            final(self).root() == old(self).root(),
            old(self).jobs().len() == 0 ==> {
                &&& final(self).jobs() == old(self).jobs()
                &&& final(self).found() == old(self).found()
                &&& final(self).result_copies() == old(self).result_copies()
                &&& final(self).waiting() == old(self).waiting().insert(worker_id)
                &&& if all_waiting(final(self).waiting(), thread_num) {
                    step == Step::Finished && final(self).finished()
                } else {
                    step == Step::Waiting && final(self).finished() == old(self).finished()
                }
            },
            old(self).jobs().len() > 0 ==> {
                let job = old(self).jobs().last();
                let rest = old(self).jobs().drop_last();
                let node = job.spec_node();
                let remaining = job.spec_iterator().remaining();
                &&& final(self).waiting() == old(self).waiting().remove(worker_id)
                &&& final(self).finished() == old(self).finished()
                &&& node.spec_is_leaf() ==> {
                    &&& step == Step::Collected
                    &&& final(self).found() == old(self).found().push(node)
                    &&& final(self).result_copies().len() == old(self).result_copies().len() + 1
                    &&& final(self).result_copies().drop_last() == old(self).result_copies()
                    &&& cloned::<N>(node, final(self).result_copies().last())
                    &&& final(self).jobs() == rest
                }
                &&& !node.spec_is_leaf() && remaining.len() == 0 ==> {
                    &&& step == Step::Exhausted
                    &&& final(self).found() == old(self).found()
                    &&& final(self).result_copies() == old(self).result_copies()
                    &&& final(self).jobs() == rest
                }
                &&& !node.spec_is_leaf() && remaining.len() > 0 ==> {
                    &&& step == Step::Branched
                    &&& final(self).found() == old(self).found()
                    &&& final(self).result_copies() == old(self).result_copies()
                    &&& final(self).jobs().len() == rest.len() + 2
                    &&& final(self).jobs().take(rest.len() as int) == rest
                    &&& final(self).jobs()[rest.len() as int].spec_node() == node
                    &&& final(self).jobs()[rest.len() as int].spec_iterator().remaining()
                        == remaining.drop_first()
                    &&& final(self).jobs().last().spec_node() == remaining[0]
                    &&& final(self).jobs().last().spec_iterator().remaining() == BI::branches(
                        remaining[0],
                    )
                }
            },
            step == Step::Finished ==> forall|id: usize|
                id < thread_num ==> #[trigger] final(self).waiting().contains(id),
            old(self).jobs().len() == 0 && (exists|id: usize|
                id < thread_num && !#[trigger] final(self).waiting().contains(id)) ==> step
                == Step::Waiting && final(self).finished() == old(self).finished(),
            old(self).wf() ==> final(self).wf(),
            old(self).wf() && finite::<N, BI>(old(self).root()) && old(self).jobs().len() > 0
                ==> final(self).work() + 1 == old(self).work(),
            old(self).wf() && old(self).finished() ==> {
                &&& final(self).finished()
                &&& final(self).jobs() == old(self).jobs()
                &&& final(self).found() == old(self).found()
                &&& final(self).result_copies() == old(self).result_copies()
            },
    {
        let ghost old_jobs = self.jobs();
        let ghost old_found = self.found();
        let ghost old_copies = self.result_copies();
        let ghost was_wf = self.wf();
        let popped = self.queue.dequeue();
        match popped {
            None => {
                proof {
                    assert(self.jobs() =~= old_jobs);
                    assert(old_jobs.len() == 0);
                }
                self.waiting_workers.insert(worker_id);
                if is_all_worker_waiting(&self.waiting_workers, thread_num) {
                    self.is_finished = true;
                    Step::Finished
                } else {
                    Step::Waiting
                }
            },
            Some(job) => {
                self.waiting_workers.remove(&worker_id);
                let ghost taken = job;
                let ghost rest = old_jobs.drop_last();
                proof {
                    assert(old_jobs =~= rest.push(taken));
                    lemma_frontier_push(rest, taken);
                }
                if job.node.is_leaf() {
                    let copy = job.node.clone();
                    self.results.push(copy);
                    let ghost node = job.node;
                    self.collected = Ghost(self.collected@.push(node));
                    proof {
                        assert(self.result_copies().drop_last() =~= old_copies);
                        if was_wf {
                            assert forall|i: int| 0 <= i < self.found().len() implies cloned::<N>(
                                self.found()[i],
                                #[trigger] self.result_copies()[i],
                            ) by {
                                if i < old_found.len() {
                                    assert(self.found()[i] == old_found[i]);
                                    assert(self.result_copies()[i] == old_copies[i]);
                                }
                            }
                        }
                        broadcast use vstd::seq_lib::group_to_multiset_ensures;
                        broadcast use vstd::multiset::group_multiset_axioms;
                        assert(self.jobs() == rest);
                        assert(self.found().to_multiset() =~= old_found.to_multiset().insert(node));
                        assert(self.found().to_multiset().add(frontier(rest)) =~= old_found.to_multiset().add(
                            frontier(old_jobs),
                        ));
                    }
                    Step::Collected
                } else {
                    let mut job = job;
                    let child = job.iterator.next();
                    match child {
                        None => {
                            proof {
                                broadcast use vstd::multiset::group_multiset_axioms;
                                assert(frontier(rest) =~= frontier(old_jobs));
                            }
                            Step::Exhausted
                        },
                        Some(kid) => {
                            let ghost back = job;
                            self.queue.enqueue(job);
                            let child_job: Job<N, BI> = Job::new(kid);
                            self.queue.enqueue(child_job);
                            proof {
                                broadcast use vstd::multiset::group_multiset_axioms;
                                let mid = rest.push(back);
                                assert(self.jobs() =~= mid.push(child_job));
                                assert(mid.drop_last() =~= rest);
                                assert(self.jobs().take(rest.len() as int) =~= rest);
                                lemma_frontier_push(rest, back);
                                lemma_frontier_push(mid, child_job);
                                let remaining = taken.spec_iterator().remaining();
                                if finite::<N, BI>(self.root()) && old(self).wf() {
                                    assert(old_jobs[old_jobs.len() - 1] == taken);
                                    assert(taken.finite_pending());
                                    assert(finite::<N, BI>(remaining[0]));
                                    if kid.spec_is_leaf() {
                                        lemma_leaf_subtree::<N, BI>(kid);
                                    } else {
                                        lemma_inner_subtree::<N, BI>(kid);
                                    }
                                    assert(child_job.pending_leaves() == subtree_leaves::<N, BI>(kid));
                                    assert(child_job.pending_weight() + 1 == subtree_weight::<N, BI>(kid));
                                    assert(taken.pending_leaves() =~= subtree_leaves::<N, BI>(kid).add(
                                        back.pending_leaves(),
                                    ));
                                    assert(frontier(self.jobs()) =~= frontier(old_jobs));
                                    assert forall|i: int| 0 <= i < self.jobs().len() implies #[trigger] self.jobs()[i].finite_pending() by {
                                        if i < rest.len() {
                                            assert(self.jobs()[i] == old_jobs[i]);
                                        } else if i == rest.len() {
                                            assert(self.jobs()[i] == back);
                                            assert forall|k: int| 0 <= k < back.spec_iterator().remaining().len() implies #[trigger] finite::<N, BI>(back.spec_iterator().remaining()[k]) by {
                                                assert(back.spec_iterator().remaining()[k] == remaining[k + 1]);
                                            }
                                        } else {
                                            assert(self.jobs()[i] == child_job);
                                        }
                                    }
                                }
                            }
                            Step::Branched
                        },
                    }
                }
            },
        }
    }
}

/// Once a search of a finite tree has finished, the leaves it found are exactly the leaves
/// of the tree, each found once.
pub proof fn lemma_finished_search_found_all_leaves<N: Node, BI: BranchIterator<N>, B: Bounds>(
    searcher: &Searcher<N, BI, B>,
)
    requires
        searcher.wf(),
        searcher.finished(),
        finite::<N, BI>(searcher.root()),
    ensures
        searcher.found().to_multiset() == subtree_leaves::<N, BI>(searcher.root()),
{
    broadcast use vstd::multiset::group_multiset_axioms;

    assert(frontier(searcher.jobs()) == Multiset::<N>::empty());
    assert(searcher.found().to_multiset().add(Multiset::<N>::empty()) =~= searcher.found().to_multiset());
}

/// At every point of a search of a finite tree, every leaf found so far is a leaf of the
/// tree, and none is found more often than the tree holds it.
pub proof fn lemma_found_leaves_belong_to_tree<N: Node, BI: BranchIterator<N>, B: Bounds>(
    searcher: &Searcher<N, BI, B>,
)
    requires
        searcher.wf(),
        finite::<N, BI>(searcher.root()),
    ensures
        searcher.found().to_multiset().subset_of(subtree_leaves::<N, BI>(searcher.root())),
{
    broadcast use vstd::multiset::group_multiset_axioms;

    let found = searcher.found().to_multiset();
    let pending = frontier(searcher.jobs());
    assert forall|x: N| found.count(x) <= #[trigger] subtree_leaves::<N, BI>(searcher.root()).count(x) by {
        assert(found.add(pending).count(x) == found.count(x) + pending.count(x));
    }
}

/// Two finished searches from the same root of a finite tree have found the same leaves,
/// each as often: how many workers took part, and in which order they stepped, makes no
/// difference.
pub proof fn lemma_results_independent_of_schedule<N: Node, BI: BranchIterator<N>, B: Bounds>(
    first: &Searcher<N, BI, B>,
    second: &Searcher<N, BI, B>,
)
    requires
        first.wf(),
        second.wf(),
        first.finished(),
        second.finished(),
        first.root() == second.root(),
        finite::<N, BI>(first.root()),
    ensures
        first.found().to_multiset() == second.found().to_multiset(),
{
    lemma_finished_search_found_all_leaves(first);
    lemma_finished_search_found_all_leaves(second);
}

/// A worker below `thread_num` that is not waiting keeps the workers from all waiting,
/// whichever worker it is, the first included.
pub proof fn lemma_one_busy_worker_blocks_all_waiting(ids: Set<usize>, thread_num: usize, id: usize)
    requires
        id < thread_num,
        !ids.contains(id),
    ensures
        !all_waiting(ids, thread_num),
{
}

/// Where every worker below `thread_num` waits, all of them do; with no worker at all,
/// that holds of no one waiting.
pub proof fn lemma_every_worker_waiting(ids: Set<usize>, thread_num: usize)
    requires
        forall|id: usize| id < thread_num ==> ids.contains(id),
    ensures
        all_waiting(ids, thread_num),
        all_waiting(Set::<usize>::empty(), 0),
{
}

} // verus!
