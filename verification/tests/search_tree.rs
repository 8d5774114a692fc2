use std::collections::HashSet;

use benedictine::{
    is_all_worker_waiting, BranchIterator, Bounds, FIFOQueue, Job, Node, Queue, Searcher, Step,
    VoidBounds,
};

#[derive(Debug, Clone)]
struct TreeBounds {}

impl Bounds for TreeBounds {
    fn new() -> Self {
        TreeBounds {}
    }
}

/// A node of a tree of depth three whose inner nodes have `WIDTH` children.
#[derive(Debug, Clone, PartialEq, Eq, Hash)]
struct TreeNode {
    data: Vec<usize>,
}

impl TreeNode {
    fn new(data: Vec<usize>) -> TreeNode {
        TreeNode { data }
    }

    fn root() -> TreeNode {
        TreeNode { data: Vec::new() }
    }
}

impl Node for TreeNode {
    fn is_leaf(&self) -> bool {
        self.data.len() >= 3
    }
}

#[derive(Debug, Clone)]
struct TreeBranchIterator<const WIDTH: usize> {
    current: usize,
    node: TreeNode,
}

impl<const WIDTH: usize> BranchIterator<TreeNode> for TreeBranchIterator<WIDTH> {
    fn new(node: &TreeNode) -> Self {
        TreeBranchIterator { current: 1, node: node.clone() }
    }

    fn next(&mut self) -> Option<TreeNode> {
        let mut data = self.node.data.clone();
        if 1 <= self.current && self.current <= WIDTH {
            data.push(self.current);
            self.current += 1;
            Some(TreeNode::new(data))
        } else {
            None
        }
    }
}

/// A node whose children are numbered from 1 to 2 and whose leaves lie one level down.
#[derive(Debug, Clone, PartialEq, Eq)]
struct Shallow {
    data: Vec<usize>,
}

impl Node for Shallow {
    fn is_leaf(&self) -> bool {
        !self.data.is_empty()
    }
}

#[derive(Debug, Clone)]
struct ShallowIterator {
    current: usize,
}

impl BranchIterator<Shallow> for ShallowIterator {
    fn new(_node: &Shallow) -> Self {
        ShallowIterator { current: 1 }
    }

    fn next(&mut self) -> Option<Shallow> {
        if self.current <= 2 {
            self.current += 1;
            Some(Shallow { data: vec![self.current - 1] })
        } else {
            None
        }
    }
}

/// Steps the workers in turn until one finds the search finished; returns the number of
/// steps taken.
fn run_round_robin<N: Node, BI: BranchIterator<N>, B: Bounds>(
    searcher: &mut Searcher<N, BI, B>,
    thread_num: usize,
) -> usize {
    let mut steps = 0;
    let mut worker = 0;
    loop {
        steps += 1;
        if searcher.step(worker, thread_num) == Step::Finished {
            return steps;
        }
        worker = (worker + 1) % thread_num;
    }
}

#[test]
fn lib_test() {
    let _ = env_logger::try_init();
    let mut searcher =
        Searcher::<TreeNode, TreeBranchIterator<8>, TreeBounds>::new(TreeNode::root());
    run_round_robin(&mut searcher, 8);
    let results = searcher.get_results();

    assert_eq!(results.len(), 8 * 8 * 8);
}

#[test]
fn core_lib_test() {
    let _ = env_logger::try_init();
    let mut searcher = Searcher::<TreeNode, TreeBranchIterator<3>>::new(TreeNode::root());
    run_round_robin(&mut searcher, 8);
    let results = searcher.get_results();

    assert_eq!(results.len(), 3 * 3 * 3);
}

#[test]
fn search_finds_every_leaf_once() {
    let mut searcher =
        Searcher::<TreeNode, TreeBranchIterator<4>, VoidBounds>::new(TreeNode::root());
    run_round_robin(&mut searcher, 3);
    assert!(searcher.is_finished());
    let results = searcher.get_results();
    let distinct: HashSet<Vec<usize>> = results.iter().map(|n| n.data.clone()).collect();
    assert_eq!(results.len(), 64);
    assert_eq!(distinct.len(), 64);
    for a in 1..=4 {
        for b in 1..=4 {
            for c in 1..=4 {
                assert!(distinct.contains(&vec![a, b, c]));
            }
        }
    }
}

#[test]
fn search_takes_one_step_per_unit_of_work() {
    // The tree has 1 + 4 + 16 + 64 = 85 nodes, so its weight is 170: the search takes 169
    // jobs, and the one worker then finds the queue empty once.
    let mut searcher =
        Searcher::<TreeNode, TreeBranchIterator<4>, VoidBounds>::new(TreeNode::root());
    assert_eq!(run_round_robin(&mut searcher, 1), 170);
}

#[test]
fn search_steps_in_order() {
    let mut searcher = Searcher::<Shallow, ShallowIterator>::new(Shallow { data: vec![] });
    assert!(!searcher.is_finished());
    assert_eq!(searcher.step(0, 2), Step::Branched);
    assert_eq!(searcher.step(1, 2), Step::Collected);
    assert_eq!(searcher.step(0, 2), Step::Branched);
    assert_eq!(searcher.step(1, 2), Step::Collected);
    assert_eq!(searcher.step(0, 2), Step::Exhausted);
    assert_eq!(searcher.step(0, 2), Step::Waiting);
    assert!(!searcher.is_finished());
    assert_eq!(searcher.step(0, 2), Step::Waiting);
    assert_eq!(searcher.step(1, 2), Step::Finished);
    assert!(searcher.is_finished());
    assert_eq!(searcher.step(0, 2), Step::Finished);
    assert_eq!(
        searcher.get_results(),
        vec![Shallow { data: vec![1] }, Shallow { data: vec![2] }]
    );
}

#[test]
fn search_of_a_leaf_finds_the_leaf() {
    let mut searcher =
        Searcher::<TreeNode, TreeBranchIterator<2>>::new(TreeNode::new(vec![7, 7, 7]));
    assert_eq!(searcher.step(0, 1), Step::Collected);
    assert_eq!(searcher.step(0, 1), Step::Finished);
    assert_eq!(searcher.get_results(), vec![TreeNode::new(vec![7, 7, 7])]);
}

#[test]
fn taking_a_job_ends_waiting() {
    // Worker 1 waits on an empty queue, then worker 0 makes work again: once worker 1 has
    // taken a job, worker 0 alone waiting does not finish the search.
    let mut searcher = Searcher::<Shallow, ShallowIterator>::new(Shallow { data: vec![] });
    assert_eq!(searcher.step(0, 2), Step::Branched);
    assert_eq!(searcher.step(0, 2), Step::Collected);
    assert_eq!(searcher.step(1, 2), Step::Branched);
    assert_eq!(searcher.step(1, 2), Step::Collected);
    assert_eq!(searcher.step(1, 2), Step::Exhausted);
    assert_eq!(searcher.step(0, 2), Step::Waiting);
    assert_eq!(searcher.step(1, 2), Step::Finished);
}

#[test]
fn all_workers_waiting() {
    let mut ids = HashSet::new();
    assert!(is_all_worker_waiting(&ids, 0));
    assert!(!is_all_worker_waiting(&ids, 1));
    ids.insert(0);
    ids.insert(2);
    assert!(is_all_worker_waiting(&ids, 1));
    assert!(!is_all_worker_waiting(&ids, 3));
    ids.insert(1);
    assert!(is_all_worker_waiting(&ids, 3));
    assert!(!is_all_worker_waiting(&ids, 4));
}

#[test]
fn queue_hands_out_the_last_item_first() {
    let mut queue: FIFOQueue<u32> = Queue::new();
    assert_eq!(queue.len(), 0);
    assert_eq!(queue.dequeue(), None);
    queue.enqueue(1);
    queue.enqueue(2);
    queue.enqueue(3);
    assert_eq!(queue.len(), 3);
    assert_eq!(queue.dequeue(), Some(3));
    assert_eq!(queue.dequeue(), Some(2));
    queue.enqueue(4);
    assert_eq!(queue.dequeue(), Some(4));
    assert_eq!(queue.dequeue(), Some(1));
    assert_eq!(queue.dequeue(), None);
    assert_eq!(queue.len(), 0);
}

#[test]
fn jobs_compare_by_node() {
    let a: Job<TreeNode, TreeBranchIterator<2>> = Job::new(TreeNode::new(vec![1]));
    let b: Job<TreeNode, TreeBranchIterator<2>> = Job::new(TreeNode::new(vec![1]));
    let c: Job<TreeNode, TreeBranchIterator<2>> = Job::new(TreeNode::new(vec![2]));
    assert!(a == b);
    assert!(a != c);
}

#[test]
fn void_bounds_can_be_made() {
    let _bounds: VoidBounds = Bounds::new();
}

#[test]
fn results_do_not_depend_on_the_number_of_workers() {
    let mut one = Searcher::<TreeNode, TreeBranchIterator<3>>::new(TreeNode::root());
    let mut five = Searcher::<TreeNode, TreeBranchIterator<3>>::new(TreeNode::root());
    run_round_robin(&mut one, 1);
    run_round_robin(&mut five, 5);
    let mut a: Vec<Vec<usize>> = one.get_results().into_iter().map(|n| n.data).collect();
    let mut b: Vec<Vec<usize>> = five.get_results().into_iter().map(|n| n.data).collect();
    a.sort();
    b.sort();
    assert_eq!(a, b);
}

#[test]
fn steps_after_the_search_finished_change_nothing() {
    let mut searcher = Searcher::<TreeNode, TreeBranchIterator<2>>::new(TreeNode::root());
    run_round_robin(&mut searcher, 2);
    let before = searcher.get_results();
    assert_eq!(searcher.step(0, 2), Step::Finished);
    assert_eq!(searcher.step(3, 4), Step::Waiting);
    assert_eq!(searcher.step(2, 4), Step::Finished);
    assert!(searcher.is_finished());
    assert_eq!(searcher.get_results(), before);
}
