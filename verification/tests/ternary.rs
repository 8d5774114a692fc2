use benedictine::ternary::{
    is_all_worker_waiting, remove_item, Bounds, Node, Searcher, State, StateIterator, Step,
};

fn run_round_robin(searcher: &mut Searcher, thread_num: usize) {
    let mut worker = 0;
    while searcher.step(worker, thread_num) != Step::Finished {
        worker = (worker + 1) % thread_num;
    }
}

fn node(data: Vec<usize>) -> Node {
    Node::new(State::new(data))
}

#[test]
fn ternary_lib_test() {
    let _ = env_logger::try_init();
    let mut searcher = Searcher::new();
    println!("{:?}", searcher);
    run_round_robin(&mut searcher, 8);
    println!("{:?}", searcher.get_results());
    assert!(searcher.is_finished());
}

#[test]
fn ternary_search_finds_every_sequence_in_order() {
    let mut searcher = Searcher::new();
    run_round_robin(&mut searcher, 4);
    let results = searcher.get_results();
    assert_eq!(results.len(), 27);
    let mut i = 0;
    for a in 1..=3 {
        for b in 1..=3 {
            for c in 1..=3 {
                assert!(results[i] == node(vec![a, b, c]));
                i += 1;
            }
        }
    }
}

#[test]
fn ternary_steps_in_order() {
    let mut searcher = Searcher::new();
    assert!(!searcher.is_finished());
    assert_eq!(searcher.step(0, 1), Step::Branched); // [] hands out [1]
    assert_eq!(searcher.step(0, 1), Step::Branched); // [1] hands out [1, 1]
    assert_eq!(searcher.step(0, 1), Step::Branched); // [1, 1] hands out [1, 1, 1]
    assert_eq!(searcher.step(0, 1), Step::Collected); // [1, 1, 1]
    assert_eq!(searcher.get_results().len(), 1);
    assert!(searcher.get_results()[0] == node(vec![1, 1, 1]));
    assert_eq!(searcher.step(0, 1), Step::Branched); // [1, 1] hands out [1, 1, 2]
    assert_eq!(searcher.step(0, 1), Step::Collected);
    assert_eq!(searcher.step(0, 1), Step::Branched); // [1, 1] hands out [1, 1, 3]
    assert_eq!(searcher.step(0, 1), Step::Collected);
    assert_eq!(searcher.step(0, 1), Step::Exhausted); // [1, 1] has no branch left
    assert_eq!(searcher.step(0, 1), Step::Branched); // [1] hands out [1, 2]
}

#[test]
fn ternary_waits_until_every_worker_waited() {
    let mut searcher = Searcher::new();
    run_round_robin(&mut searcher, 1);
    assert_eq!(searcher.step(0, 3), Step::Waiting);
    assert_eq!(searcher.step(2, 3), Step::Waiting);
    assert_eq!(searcher.step(1, 3), Step::Finished);
    assert_eq!(searcher.get_results().len(), 27);
}

#[test]
fn state_is_a_leaf_at_three() {
    assert!(!State::new(vec![]).is_leaf());
    assert!(!State::new(vec![1, 2]).is_leaf());
    assert!(State::new(vec![1, 2, 3]).is_leaf());
    assert!(State::new(vec![1, 2, 3, 1]).is_leaf());
}

#[test]
fn states_compare_by_data() {
    assert!(State::new(vec![1, 2]) == State::new(vec![1, 2]));
    assert!(State::new(vec![1, 2]) != State::new(vec![2, 1]));
    assert!(State::new(vec![1]) != State::new(vec![1, 1]));
    assert!(State::new(vec![]) == State::new(vec![]));
}

#[test]
fn iterator_hands_out_three_branches() {
    let state = State::new(vec![2]);
    let mut it = StateIterator::new();
    assert!(it.next(&state) == Some(State::new(vec![2, 1])));
    assert!(it.next(&state) == Some(State::new(vec![2, 2])));
    assert!(it.next(&state) == Some(State::new(vec![2, 3])));
    assert!(it.next(&state).is_none());
    assert!(it.next(&state).is_none());
}

#[test]
fn node_hands_out_children() {
    let mut parent = node(vec![3, 1]);
    assert!(!parent.is_leaf());
    let child = parent.next_child().unwrap();
    assert!(child == node(vec![3, 1, 1]));
    assert!(child.is_leaf());
    assert!(parent.next_child().unwrap() == node(vec![3, 1, 2]));
    assert!(parent.next_child().unwrap() == node(vec![3, 1, 3]));
    assert!(parent.next_child().is_none());
    assert!(parent == node(vec![3, 1]));
    assert!(parent.satisfy_bound(Bounds::new()));
}

#[test]
fn remove_item_removes_the_first_equal_item() {
    let mut v = vec![1, 2, 3, 2];
    remove_item(&mut v, &2);
    assert_eq!(v, vec![1, 3, 2]);
    remove_item(&mut v, &5);
    assert_eq!(v, vec![1, 3, 2]);
    remove_item(&mut v, &2);
    assert_eq!(v, vec![1, 3]);

    let mut nodes = vec![node(vec![1]), node(vec![2]), node(vec![1])];
    remove_item(&mut nodes, &node(vec![1]));
    assert_eq!(nodes.len(), 2);
    assert!(nodes[0] == node(vec![2]));
    assert!(nodes[1] == node(vec![1]));
}

#[test]
fn ternary_all_workers_waiting() {
    assert!(is_all_worker_waiting(&vec![], 0));
    assert!(!is_all_worker_waiting(&vec![], 1));
    assert!(is_all_worker_waiting(&vec![2, 0, 1, 0], 3));
    assert!(!is_all_worker_waiting(&vec![2, 0, 0], 3));
}
