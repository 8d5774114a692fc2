use vstd::prelude::*;
use vstd::std_specs::cmp::{PartialEqSpec, PartialEqSpecImpl};

verus! {

/// A state of the ternary search: the branch numbers chosen so far.
#[derive(Debug, Clone)]
pub struct State {
    data: Vec<usize>,
}

impl View for State {
    type V = Seq<usize>;

    closed spec fn view(&self) -> Seq<usize> {
        self.data@
    }
}

/// Whether `a` and `b` hold the same numbers in the same order.
fn same_data(a: &Vec<usize>, b: &Vec<usize>) -> (same: bool)
    ensures
        same == (a@ == b@),
{
    if a.len() != b.len() {
        return false;
    }
    let mut i: usize = 0;
    while i < a.len()
        invariant
            a.len() == b.len(),
            i <= a.len(),
            forall|j: int| 0 <= j < i ==> a@[j] == b@[j],
        decreases a.len() - i,
    {
        if a[i] != b[i] {
            return false;
        }
        i = i + 1;
    }
    assert(a@ =~= b@);
    true
}

impl State {
    pub fn new(data: Vec<usize>) -> (state: State)
        ensures
            state@ == data@,
    {
        State { data: data }
    }

    /// A state is a leaf once three branches have been chosen.
    pub fn is_leaf(&self) -> (leaf: bool)
        ensures
            leaf == (self@.len() >= 3),
    {
        self.data.len() >= 3
    }
}

impl PartialEq for State {
    fn eq(&self, other: &State) -> (same: bool)
        ensures
            same == (self@ == other@),
    {
        same_data(&self.data, &other.data)
    }
}

impl PartialEqSpecImpl for State {
    open spec fn obeys_eq_spec() -> bool {
        true
    }

    open spec fn eq_spec(&self, other: &State) -> bool {
        self@ == other@
    }
}

/// Hands out the three branches of a state, numbered 1 to 3, one at a time.
#[derive(Debug)]
pub struct StateIterator {
    current: usize,
}

impl StateIterator {
    /// The number of the next branch; past 3 there is none.
    pub closed spec fn current(&self) -> usize {
        self.current
    }

    pub fn new() -> (it: StateIterator)
        ensures
            it.current() == 1,
    {
        StateIterator { current: 1 }
    }

    /// The next branch of `state`: `state` with the branch's number appended.
    pub fn next(&mut self, state: &State) -> (child: Option<State>)
        ensures
            1 <= old(self).current() <= 3 ==> {
                &&& child matches Some(c) && c@ == state@.push(old(self).current())
                &&& final(self).current() == old(self).current() + 1
            },
            !(1 <= old(self).current() <= 3) ==> child is None && *final(self) == *old(self),
    {
        let mut data = state.data.clone();
        proof {
            assert(data@ =~= state.data@);
        }
        if 1 <= self.current && self.current <= 3 {
            data.push(self.current);
            self.current = self.current + 1;
            Some(State::new(data))
        } else {
            None
        }
    }
}

/// A node of the ternary search: a state and the iterator over its branches.
#[derive(Debug)]
pub struct Node {
    state: State,
    iterator: StateIterator,
}

/// Bounds on the search; they prune nothing.
#[derive(Debug, Clone)]
pub struct Bounds {}

impl Bounds {
    pub fn new() -> Bounds {
        Bounds {  }
    }
}

impl Node {
    /// The node's state.
    pub closed spec fn state(&self) -> Seq<usize> {
        self.state@
    }

    /// The number of the next branch that the node hands out; past 3 there is none.
    pub closed spec fn next_branch(&self) -> usize {
        self.iterator.current()
    }

    pub fn new(state: State) -> (node: Node)
        ensures
            node.state() == state@,
            node.next_branch() == 1,
    {
        let node = Node { state: state, iterator: StateIterator::new() };
        node
    }

    /// The node for the next branch of this one, if any is left.
    pub fn next_child(&mut self) -> (child: Option<Node>)
        ensures
            final(self).state() == old(self).state(),
            1 <= old(self).next_branch() <= 3 ==> {
                &&& child matches Some(c) && c.state() == old(self).state().push(
                    old(self).next_branch(),
                ) && c.next_branch() == 1
                &&& final(self).next_branch() == old(self).next_branch() + 1
            },
            !(1 <= old(self).next_branch() <= 3) ==> child is None && *final(self) == *old(self),
    {
        let result = self.iterator.next(&self.state);
        match result {
            None => None,
            Some(state) => Some(Node::new(state)),
        }
    }

    pub fn is_leaf(&self) -> (leaf: bool)
        ensures
            leaf == (self.state().len() >= 3),
    {
        self.state.is_leaf()
    }

    /// Whether the node lies within `bounds`: every node does.
    pub fn satisfy_bound(&self, bounds: Bounds) -> (within: bool)
        ensures
            within,
    {
        true
    }
}

impl PartialEq for Node {
    fn eq(&self, other: &Node) -> (same: bool)
        ensures
            same == (self.state() == other.state()),
    {
        self.state == other.state
    }
}

impl PartialEqSpecImpl for Node {
    open spec fn obeys_eq_spec() -> bool {
        true
    }

    open spec fn eq_spec(&self, other: &Node) -> bool {
        self.state() == other.state()
    }
}

impl Eq for Node {

}

/// Removes from `nodes` the first item equal to `node`, if there is one.
pub fn remove_item<T: PartialEq>(nodes: &mut Vec<T>, node: &T)
    ensures
        final(nodes)@ == old(nodes)@ || exists|i: int|
            0 <= i < old(nodes).len() && final(nodes)@ == old(nodes)@.remove(i),
        T::obeys_eq_spec() ==> {
            &&& (forall|i: int| 0 <= i < old(nodes).len() ==> !old(nodes)@[i].eq_spec(node))
                ==> final(nodes)@ == old(nodes)@
            &&& forall|i: int|
                0 <= i < old(nodes).len() && old(nodes)@[i].eq_spec(node) && (forall|j: int|
                    0 <= j < i ==> !old(nodes)@[j].eq_spec(node)) ==> final(nodes)@ == old(
                    nodes,
                )@.remove(i)
        },
{
    let mut i: usize = 0;
    while i < nodes.len()
        invariant
            i <= nodes.len(),
            nodes@ == old(nodes)@,
            T::obeys_eq_spec() ==> forall|j: int| 0 <= j < i ==> !nodes@[j].eq_spec(node),
        decreases nodes.len() - i,
    {
        if nodes[i] == *node {
            nodes.remove(i);
            return;
        }
        i = i + 1;
    }
}

/// Whether `ids` holds `id`.
fn holds(ids: &Vec<usize>, id: usize) -> (found: bool)
    ensures
        found == ids@.contains(id),
{
    let mut i: usize = 0;
    while i < ids.len()
        invariant
            i <= ids.len(),
            forall|j: int| 0 <= j < i ==> ids@[j] != id,
        decreases ids.len() - i,
    {
        if ids[i] == id {
            return true;
        }
        i = i + 1;
    }
    false
}

/// Every worker with an id below `thread_num` is among `ids`.
pub open spec fn all_waited(ids: Seq<usize>, thread_num: usize) -> bool {
    forall|id: usize| id < thread_num ==> ids.contains(id)
}

/// Whether every worker with an id below `thread_num` is among `workerids`.
pub fn is_all_worker_waiting(workerids: &Vec<usize>, thread_num: usize) -> (all: bool)
    ensures
        all == all_waited(workerids@, thread_num),
        all ==> forall|id: usize| id < thread_num ==> workerids@.contains(id),
        !all ==> exists|id: usize| id < thread_num && !workerids@.contains(id),
{
    let mut id: usize = 0;
    while id < thread_num
        invariant
            id <= thread_num,
            forall|j: usize| j < id ==> workerids@.contains(j),
        decreases thread_num - id,
    {
        if !holds(workerids, id) {
            return false;
        }
        id = id + 1;
    }
    true
}

/// What a worker of the ternary search has done in one step, and so what it is to do next.
#[derive(Debug, Clone, Copy, PartialEq, Eq, Structural)]
pub enum Step {
    /// The stack was empty and some worker had not yet waited: wait until woken, then try
    /// again.
    Waiting,
    /// The stack was empty and every worker had waited: the search is over.
    Finished,
    /// The node was a leaf and is now among the results.
    Collected,
    /// The node fell outside the bounds and went back onto the stack unexpanded.
    Pruned,
    /// The node gave a child: both are on the stack, so other workers may take work.
    Branched,
    /// The node had no branch left and left the stack.
    Exhausted,
}

/// The ternary search: every sequence of three branch numbers from 1 to 3, searched from
/// the empty state by workers that share a stack of nodes.
#[derive(Debug)]
pub struct Searcher {
    nodes: Vec<Node>,
    results: Vec<Node>,
    bounds: Bounds,
    waiting_workers: Vec<usize>,
    is_finished: bool,
}

impl Searcher {
    /// The nodes on the stack; the last one is taken next.
    pub closed spec fn stack(&self) -> Seq<Node> {
        self.nodes@
    }

    /// The leaves found so far, in the order in which they were found.
    pub closed spec fn found(&self) -> Seq<Node> {
        self.results@
    }

    /// The ids of the workers that found the stack empty, once for each time.
    pub closed spec fn waiting(&self) -> Seq<usize> {
        self.waiting_workers@
    }

    /// Whether some worker has found the search over.
    pub closed spec fn finished(&self) -> bool {
        self.is_finished
    }

    /// The searcher's invariant: the stack is a path down from the empty state, one node
    /// for each depth; the leaves found, followed by the leaves the stack has still to
    /// give, are every three-branch sequence in lexicographic order; and a finished search
    /// has an empty stack.
    pub open spec fn wf(&self) -> bool {
        &&& forall|i: int| 0 <= i < self.stack().len() ==> #[trigger] self.stack()[i].state().len() == i
        &&& states(self.found()) + stack_pending(self.stack()) == completions(Seq::empty())
        &&& self.finished() ==> self.stack().len() == 0
    }

    /// A search from the empty state: its node alone on the stack, no result, no worker
    /// waiting.
    pub fn new() -> (searcher: Searcher)
        ensures
            searcher.stack().len() == 1,
            searcher.stack()[0].state() == Seq::<usize>::empty(),
            searcher.stack()[0].next_branch() == 1,
            searcher.found() == Seq::<Node>::empty(),
            searcher.waiting() == Seq::<usize>::empty(),
            !searcher.finished(),
            searcher.wf(),
    {
        let mut nodes: Vec<Node> = Vec::new();
        nodes.push(Node::new(State::new(Vec::new())));
        let searcher = Searcher {
            nodes: nodes,
            results: Vec::new(),
            bounds: Bounds::new(),
            waiting_workers: Vec::new(),
            is_finished: false,
        };
        proof {
            let stack = searcher.stack();
            assert(stack.drop_last() =~= Seq::<Node>::empty());
            assert(states(searcher.found()) =~= Seq::<Seq<usize>>::empty());
            assert(stack[0].state() =~= Seq::<usize>::empty());
            assert(stack.last() == stack[0]);
            assert(stack_pending(stack.drop_last()) =~= Seq::<Seq<usize>>::empty());
            assert(pending(stack.last()) == completions(Seq::empty()));
            assert(stack_pending(stack) =~= pending(stack.last()));
            assert(states(searcher.found()) + stack_pending(stack) =~= completions(Seq::empty()));
        }
        searcher
    }

    /// The leaves found so far.
    pub fn get_results(&self) -> (results: &Vec<Node>)
        ensures
            results@ == self.found(),
    {
        &self.results
    }

    /// Whether some worker has found the search over.
    pub fn is_finished(&self) -> (finished: bool)
        ensures
            finished == self.finished(),
    {
        self.is_finished
    }

    /// One step of worker `worker_id` among `thread_num` workers.
    ///
    /// The worker takes the top node of the stack. Where there is none, it records that it
    /// waited, and where every worker below `thread_num` has waited, the search is
    /// finished. A leaf leaves the stack, together with the first node equal to it still
    /// on the stack, and joins the results. Any other node goes back onto the stack and is
    /// asked for its next child: a child goes on top of it; where there is none, the first
    /// node on the stack equal to it is removed.
    pub fn step(&mut self, worker_id: usize, thread_num: usize) -> (step: Step)
        ensures
            old(self).stack().len() == 0 ==> {
                &&& final(self).stack() == old(self).stack()
                &&& final(self).found() == old(self).found()
                &&& final(self).waiting() == old(self).waiting().push(worker_id)
                &&& if all_waited(final(self).waiting(), thread_num) {
                    step == Step::Finished && final(self).finished()
                } else {
                    step == Step::Waiting && final(self).finished() == old(self).finished()
                }
            },
            old(self).stack().len() > 0 ==> {
                let node = old(self).stack().last();
                let rest = old(self).stack().drop_last();
                &&& final(self).waiting() == old(self).waiting()
                &&& final(self).finished() == old(self).finished()
                &&& node.state().len() >= 3 ==> {
                    &&& step == Step::Collected
                    &&& final(self).found() == old(self).found().push(node)
                    &&& final(self).stack() == without_first_equal(rest, node.state())
                }
                &&& node.state().len() < 3 && 1 <= node.next_branch() <= 3 ==> {
                    &&& step == Step::Branched
                    &&& final(self).found() == old(self).found()
                    &&& final(self).stack().len() == rest.len() + 2
                    &&& final(self).stack().take(rest.len() as int) == rest
                    &&& final(self).stack()[rest.len() as int].state() == node.state()
                    &&& final(self).stack()[rest.len() as int].next_branch() == node.next_branch()
                        + 1
                    &&& final(self).stack().last().state() == node.state().push(node.next_branch())
                    &&& final(self).stack().last().next_branch() == 1
                }
                &&& node.state().len() < 3 && !(1 <= node.next_branch() <= 3) ==> {
                    &&& step == Step::Exhausted
                    &&& final(self).found() == old(self).found()
                    &&& final(self).stack() == without_first_equal(rest.push(node), node.state())
                }
            },
            step == Step::Finished ==> forall|id: usize|
                id < thread_num ==> #[trigger] final(self).waiting().contains(id),
            old(self).stack().len() == 0 && (exists|id: usize|
                id < thread_num && !#[trigger] final(self).waiting().contains(id)) ==> step
                == Step::Waiting && final(self).finished() == old(self).finished(),
            old(self).wf() ==> final(self).wf(),
    {
        let ghost was_wf = self.wf();
        let ghost old_stack = self.nodes@;
        let ghost old_found = self.results@;
        proof {
            if old_stack.len() > 0 {
                assert(old_stack =~= old_stack.drop_last().push(old_stack.last()));
                if was_wf {
                    lemma_path_top_unique(old_stack);
                }
            }
        }
        let popped = self.nodes.pop();
        match popped {
            None => {
                proof {
                    assert(self.nodes@ == old_stack);
                    assert(old_stack.len() == 0);
                }
                self.waiting_workers.push(worker_id);
                if is_all_worker_waiting(&self.waiting_workers, thread_num) {
                    self.is_finished = true;
                    Step::Finished
                } else {
                    Step::Waiting
                }
            },
            Some(node) => {
                let ghost rest = self.nodes@;
                if node.is_leaf() {
                    remove_item(&mut self.nodes, &node);
                    proof {
                        lemma_without_first_equal(rest, node.state(), self.nodes@);
                    }
                    self.results.push(node);
                    proof {
                        if was_wf {
                            assert(states(self.found()) =~= states(old_found).push(node.state()));
                            assert(states(self.found()) + stack_pending(rest) =~= states(old_found)
                                + stack_pending(old_stack));
                        }
                    }
                    Step::Collected
                } else {
                    let mut node = node;
                    if !node.satisfy_bound(self.bounds.clone()) {
                        self.nodes.push(node);
                        Step::Pruned
                    } else {
                        let child = node.next_child();
                        match child {
                            None => {
                                let before = self.nodes.len();
                                remove_item(&mut self.nodes, &node);
                                let ghost removed = self.nodes@;
                                proof {
                                    lemma_without_first_equal(rest, node.state(), removed);
                                }
                                if self.nodes.len() < before {
                                    self.nodes.push(node);
                                }
                                proof {
                                    lemma_without_first_equal_pushed(rest, node);
                                    if was_wf {
                                        assert(pending(node) =~= Seq::<Seq<usize>>::empty());
                                        assert(stack_pending(old_stack) =~= stack_pending(rest));
                                    }
                                }
                                Step::Exhausted
                            },
                            Some(child) => {
                                self.nodes.push(node);
                                self.nodes.push(child);
                                proof {
                                    let top = old_stack.last();
                                    let stack = self.nodes@;
                                    assert(stack.take(rest.len() as int) =~= rest);
                                    assert(stack.drop_last().drop_last() =~= rest);
                                    lemma_pending_branch(top, stack[rest.len() as int], stack.last());
                                    if was_wf {
                                        assert forall|i: int| 0 <= i < stack.len() implies #[trigger] stack[i].state().len() == i by {
                                            if i < rest.len() {
                                                assert(stack[i] == old_stack[i]);
                                            }
                                        }
                                        assert(stack.drop_last() =~= rest.push(stack[rest.len() as int]));
                                        assert(stack_pending(stack.drop_last()) =~= pending(
                                            stack[rest.len() as int],
                                        ) + stack_pending(rest));
                                        assert(stack_pending(stack) =~= pending(stack.last()) + pending(
                                            stack[rest.len() as int],
                                        ) + stack_pending(rest));
                                    }
                                }
                                Step::Branched
                            },
                        }
                    }
                }
            },
        }
    }
}

/// `nodes` without its first node whose state is `state`; `nodes` itself where none has.
pub open spec fn without_first_equal(nodes: Seq<Node>, state: Seq<usize>) -> Seq<Node>
    decreases nodes.len(),
{
    if nodes.len() == 0 {
        nodes
    } else if nodes[0].state() == state {
        nodes.drop_first()
    } else {
        seq![nodes[0]] + without_first_equal(nodes.drop_first(), state)
    }
}

/// The index of the first node of `nodes` whose state is `state`; -1 where none is.
pub open spec fn first_equal(nodes: Seq<Node>, state: Seq<usize>) -> int
    decreases nodes.len(),
{
    if nodes.len() == 0 {
        -1
    } else if nodes[0].state() == state {
        0
    } else {
        let k = first_equal(nodes.drop_first(), state);
        if k < 0 {
            -1
        } else {
            k + 1
        }
    }
}

proof fn lemma_first_equal(nodes: Seq<Node>, state: Seq<usize>)
    ensures
        first_equal(nodes, state) < nodes.len(),
        first_equal(nodes, state) < 0 ==> {
            &&& forall|i: int| 0 <= i < nodes.len() ==> nodes[i].state() != state
            &&& without_first_equal(nodes, state) == nodes
        },
        first_equal(nodes, state) >= 0 ==> {
            let k = first_equal(nodes, state);
            &&& nodes[k].state() == state
            &&& forall|j: int| 0 <= j < k ==> nodes[j].state() != state
            &&& without_first_equal(nodes, state) == nodes.remove(k)
        },
    decreases nodes.len(),
{
    if nodes.len() > 0 {
        let tail = nodes.drop_first();
        lemma_first_equal(tail, state);
        assert forall|i: int| 0 < i < nodes.len() implies nodes[i] == tail[i - 1] by {}
        if nodes[0].state() != state {
            let k = first_equal(tail, state);
            if k < 0 {
                assert(seq![nodes[0]] + tail =~= nodes);
            } else {
                assert(seq![nodes[0]] + tail.remove(k) =~= nodes.remove(k + 1));
            }
        } else {
            assert(nodes.drop_first() =~= nodes.remove(0));
        }
    }
}

/// What `remove_item` leaves of `nodes` when it removes a node with state `state`.
proof fn lemma_without_first_equal(nodes: Seq<Node>, state: Seq<usize>, after: Seq<Node>)
    requires
        (forall|i: int| 0 <= i < nodes.len() ==> nodes[i].state() != state) ==> after == nodes,
        forall|i: int|
            0 <= i < nodes.len() && nodes[i].state() == state && (forall|j: int|
                0 <= j < i ==> nodes[j].state() != state) ==> after == nodes.remove(i),
    ensures
        after == without_first_equal(nodes, state),
        after.len() < nodes.len() <==> first_equal(nodes, state) >= 0,
{
    lemma_first_equal(nodes, state);
}

/// Removing the first node equal to `node` after pushing `node` removes an earlier equal
/// node, where there is one, and else `node` itself.
proof fn lemma_without_first_equal_pushed(nodes: Seq<Node>, node: Node)
    ensures
        without_first_equal(nodes.push(node), node.state()) == if first_equal(
            nodes,
            node.state(),
        ) >= 0 {
            without_first_equal(nodes, node.state()).push(node)
        } else {
            nodes
        },
    decreases nodes.len(),
{
    let state = node.state();
    lemma_first_equal(nodes, state);
    lemma_first_equal(nodes.push(node), state);
    assert forall|i: int| 0 <= i < nodes.len() implies nodes.push(node)[i] == nodes[i] by {}
    let pushed = nodes.push(node);
    assert(pushed[nodes.len() as int].state() == state);
    let k2 = first_equal(pushed, state);
    assert(k2 >= 0);
    if first_equal(nodes, state) < 0 {
        if k2 < nodes.len() {
            assert(pushed[k2] == nodes[k2]);
        }
        assert(k2 == nodes.len());
        assert(pushed.remove(nodes.len() as int) =~= nodes);
    } else {
        let k = first_equal(nodes, state);
        assert(pushed[k] == nodes[k]);
        if k2 < k {
            assert(pushed[k2] == nodes[k2]);
        }
        assert(k2 == k);
        assert(pushed.remove(k) =~= nodes.remove(k).push(node));
    }
}

/// Every sequence of three branch numbers from 1 to 3 that extends `state`, in
/// lexicographic order; `state` alone once it has three or more.
pub open spec fn completions(state: Seq<usize>) -> Seq<Seq<usize>>
    decreases (3 - state.len()) as nat, 4nat,
{
    if state.len() >= 3 {
        seq![state]
    } else {
        completions_from(state, 1)
    }
}

/// The completions of `state` whose next branch number is `first` or greater, in
/// lexicographic order.
pub open spec fn completions_from(state: Seq<usize>, first: int) -> Seq<Seq<usize>>
    decreases (3 - state.len()) as nat, (4 - first) as nat,
{
    if state.len() >= 3 || first < 1 || first > 3 {
        Seq::empty()
    } else {
        completions(state.push(first as usize)) + completions_from(state, first + 1)
    }
}

/// The leaves that `node` has still to give: itself where it is a leaf, else the
/// completions below its branches from the next one on.
pub open spec fn pending(node: Node) -> Seq<Seq<usize>> {
    if node.state().len() >= 3 {
        seq![node.state()]
    } else {
        completions_from(node.state(), node.next_branch() as int)
    }
}

/// The leaves that the nodes of `stack` have still to give, in the order in which the
/// search will find them: the top node's first.
pub open spec fn stack_pending(stack: Seq<Node>) -> Seq<Seq<usize>>
    decreases stack.len(),
{
    if stack.len() == 0 {
        Seq::empty()
    } else {
        pending(stack.last()) + stack_pending(stack.drop_last())
    }
}

/// The states of `nodes`.
pub open spec fn states(nodes: Seq<Node>) -> Seq<Seq<usize>> {
    nodes.map_values(|n: Node| n.state())
}

/// On a path down from the empty state, no node below the top has the top's state.
proof fn lemma_path_top_unique(stack: Seq<Node>)
    requires
        stack.len() > 0,
        forall|i: int| 0 <= i < stack.len() ==> #[trigger] stack[i].state().len() == i,
    ensures
        first_equal(stack.drop_last(), stack.last().state()) < 0,
{
    let rest = stack.drop_last();
    lemma_first_equal(rest, stack.last().state());
    let k = first_equal(rest, stack.last().state());
    if k >= 0 {
        assert(rest[k] == stack[k]);
        assert(stack[stack.len() - 1].state().len() == stack.len() - 1);
    }
}

/// Handing out a branch splits what a node has still to give between the child and the
/// node.
proof fn lemma_pending_branch(node: Node, after: Node, child: Node)
    requires
        node.state().len() < 3,
        1 <= node.next_branch() <= 3,
        after.state() == node.state(),
        after.next_branch() == node.next_branch() + 1,
        child.state() == node.state().push(node.next_branch()),
        child.next_branch() == 1,
    ensures
        pending(node) == pending(child) + pending(after),
{
    let state = node.state();
    let nb = node.next_branch();
    assert(state.push((nb as int) as usize) == child.state());
    assert(pending(child) == completions(child.state()));
    assert(pending(after) == completions_from(state, nb + 1));
    assert(completions_from(state, nb as int) == completions(child.state()) + completions_from(
        state,
        nb + 1,
    ));
}

/// Once the ternary search has finished, the states of the leaves it found are every
/// sequence of three branch numbers from 1 to 3, each once, in lexicographic order: 27 of
/// them.
pub proof fn lemma_finished_search_found_all_sequences(searcher: &Searcher)
    requires
        searcher.wf(),
        searcher.finished(),
    ensures
        states(searcher.found()) == completions(Seq::empty()),
        searcher.found().len() == 27,
{
    lemma_completions_len(Seq::empty());
    assert(stack_pending(searcher.stack()) =~= Seq::<Seq<usize>>::empty());
    assert(states(searcher.found()) + Seq::<Seq<usize>>::empty() =~= states(searcher.found()));
}

/// Three to the power `n`, for `n` up to 3.
pub open spec fn pow3(n: int) -> nat {
    if n <= 0 {
        1
    } else if n == 1 {
        3
    } else if n == 2 {
        9
    } else {
        27
    }
}

/// A state with `k` of its three branch numbers still to choose has three to the `k`
/// completions; the empty state has 27.
pub proof fn lemma_completions_len(state: Seq<usize>)
    requires
        state.len() <= 3,
    ensures
        completions(state).len() == pow3(3 - state.len()),
    decreases 3 - state.len(), 5int,
{
    if state.len() < 3 {
        lemma_completions_from_len(state, 1);
    }
}

/// The completions of `state` from branch `first` on: `4 - first` branches, each with a
/// third as many completions as `state` has.
pub proof fn lemma_completions_from_len(state: Seq<usize>, first: int)
    requires
        state.len() < 3,
        1 <= first <= 4,
    ensures
        completions_from(state, first).len() == (4 - first) * pow3(2 - state.len()),
    decreases 3 - state.len(), 4 - first,
{
    if first <= 3 {
        let child = state.push(first as usize);
        let p = pow3(2 - state.len());
        lemma_completions_len(child);
        assert(completions(child).len() == p);
        lemma_completions_from_len(state, first + 1);
        assert(completions_from(state, first + 1).len() == (3 - first) * p);
        assert(completions_from(state, first) == completions(child) + completions_from(
            state,
            first + 1,
        ));
        lemma_one_more_times(3 - first, p as int);
    }
}

/// `k + 1` times `p` is `p` more than `k` times `p`.
proof fn lemma_one_more_times(k: int, p: int)
    by (nonlinear_arith)
    ensures
        (k + 1) * p == p + k * p,
{
}

/// A worker below `thread_num` that has never waited keeps the workers from all having
/// waited, whichever worker it is, the first included.
pub proof fn lemma_one_worker_not_waited_blocks(ids: Seq<usize>, thread_num: usize, id: usize)
    requires
        id < thread_num,
        !ids.contains(id),
    ensures
        !all_waited(ids, thread_num),
{
}

/// Where every worker below `thread_num` has waited, all of them have.
pub proof fn lemma_every_worker_waited(ids: Seq<usize>, thread_num: usize)
    requires
        forall|id: usize| id < thread_num ==> ids.contains(id),
    ensures
        all_waited(ids, thread_num),
{
}

/// Two states are equal exactly when they hold the same numbers in the same order: equal
/// lengths, and equal numbers at every position, the first included.
pub proof fn lemma_state_equality(a: State, b: State)
    ensures
        PartialEqSpec::eq_spec(&a, &b) <==> (a@.len() == b@.len() && forall|i: int|
            0 <= i < a@.len() ==> a@[i] == b@[i]),
        a@.len() > 0 && b@.len() > 0 && a@[0] != b@[0] ==> !PartialEqSpec::eq_spec(&a, &b),
        a@.len() != b@.len() ==> !PartialEqSpec::eq_spec(&a, &b),
{
    if a@.len() == b@.len() && forall|i: int| 0 <= i < a@.len() ==> a@[i] == b@[i] {
        assert(a@ =~= b@);
    }
}

/// Two nodes are equal exactly when their states hold the same numbers in the same order,
/// whatever their next branches.
pub proof fn lemma_node_equality(a: Node, b: Node)
    ensures
        PartialEqSpec::eq_spec(&a, &b) <==> (a.state().len() == b.state().len() && forall|i: int|
            0 <= i < a.state().len() ==> a.state()[i] == b.state()[i]),
{
    if a.state().len() == b.state().len() && forall|i: int|
        0 <= i < a.state().len() ==> a.state()[i] == b.state()[i] {
        assert(a.state() =~= b.state());
    }
}

} // verus!
