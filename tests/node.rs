use connect_four::board::Board;
use connect_four::node::{choose_child, iterations_per_worker, MoveOps, Node};

fn play(moves: &[u8]) -> Board {
    let mut b = Board::new();
    for &m in moves {
        b.make_move(m);
    }
    b
}

fn expanded(moves: &[u8]) -> Node {
    let mut n = Node::new(play(moves));
    n.expand();
    n
}

fn child_visits(n: &Node) -> Vec<u32> {
    (0..n.child_count()).map(|i| n.child(i).visits()).collect()
}

#[test]
fn new_node_has_no_statistics() {
    let n = Node::new(Board::new());
    assert_eq!(n.visits(), 0);
    assert_eq!(n.wins(), 0);
    assert_eq!(n.child_count(), 0);
    assert_eq!(n.last_move(), None);
}

#[test]
fn expand_makes_one_child_per_legal_move() {
    let n = expanded(&[]);
    assert_eq!(n.child_count(), 7);
    for i in 0..7 {
        assert_eq!(n.child(i).last_move(), Some(i as u8));
        assert_eq!(n.child(i).visits(), 0);
        assert_eq!(n.child(i).child_count(), 0);
    }
    let n = expanded(&[4, 4, 4, 4, 4, 4]);
    let moves: Vec<Option<u8>> = (0..n.child_count()).map(|i| n.child(i).last_move()).collect();
    assert_eq!(moves, vec![Some(0), Some(1), Some(2), Some(3), Some(5), Some(6)]);
}

#[test]
fn select_on_leaf_is_the_node_itself() {
    let n = Node::new(Board::new());
    assert_eq!(n.select(&vec![]), None);
}

#[test]
fn unvisited_child_comes_first() {
    assert_eq!(choose_child(&vec![0, 5, 5], &vec![0, 9, 3]), 0);
    assert_eq!(choose_child(&vec![5, 0, 5], &vec![9, 0, 9]), 1);
    assert_eq!(choose_child(&vec![5, 5, 0], &vec![u64::MAX, 1, 0]), 2);
    assert_eq!(choose_child(&vec![0, 0, 5], &vec![1, 2, 3]), 0);
}

#[test]
fn visited_children_go_by_largest_key() {
    assert_eq!(choose_child(&vec![5, 5, 5], &vec![1, 9, 3]), 1);
    assert_eq!(choose_child(&vec![2, 7, 1], &vec![4, 4, 4]), 0);
    assert_eq!(choose_child(&vec![2, 7, 1], &vec![4, 3, 8]), 2);
}

#[test]
fn select_visits_every_child_once_first() {
    fastrand::seed(3);
    let mut root = expanded(&[]);
    for step in 0..7 {
        let keys = vec![0; 7];
        assert_eq!(root.select(&keys), Some(step));
        root.run_iteration(&keys);
    }
    assert_eq!(child_visits(&root), vec![1; 7]);
    let mut keys = vec![0; 7];
    keys[4] = 10;
    assert_eq!(root.select(&keys), Some(4));
}

#[test]
fn backpropagate_counts_visits_and_wins() {
    let mut n = Node::new(Board::new());
    n.backpropagate(true);
    n.backpropagate(false);
    n.backpropagate(true);
    assert_eq!(n.visits(), 3);
    assert_eq!(n.wins(), 2);
}

#[test]
fn simulate_leaves_node_alone() {
    fastrand::seed(5);
    let mut n = Node::new(play(&[3, 3]));
    let before = format!("{:?}", play(&[3, 3]));
    for _ in 0..10 {
        n.simulate();
    }
    assert_eq!(n.visits(), 0);
    assert_eq!(n.wins(), 0);
    let mut b = play(&[3, 3]);
    MoveOps::simulate_random_game(&mut b);
    assert_eq!(format!("{:?}", b), before);
}

#[test]
fn iteration_on_leaf_counts_twice() {
    fastrand::seed(9);
    let mut n = Node::new(Board::new());
    let r = n.run_iteration(&vec![]);
    assert_eq!(n.visits(), 2);
    assert_eq!(n.wins(), if r { 2 } else { 0 });
}

fn run_worker(root: &mut Node, iterations: u32) {
    for _ in 0..iterations {
        let keys = vec![0; root.child_count()];
        root.run_iteration(&keys);
    }
}

#[test]
fn merged_workers_add_up_to_the_budget() {
    for workers in [1u8, 2, 3, 4, 5] {
        fastrand::seed(21);
        let total: u32 = 60;
        let per_worker = iterations_per_worker(total, workers);
        let mut shared = expanded(&[3]);
        for _ in 0..workers {
            let mut root = expanded(&[3]);
            run_worker(&mut root, per_worker);
            assert_eq!(root.visits(), per_worker);
            shared.add_child_stats(&root);
        }
        let sum: u32 = child_visits(&shared).iter().sum();
        assert_eq!(sum, per_worker * workers as u32);
        assert!(total - sum < workers as u32);
        for i in 0..shared.child_count() {
            assert!(shared.child(i).wins() <= shared.child(i).visits());
        }
    }
}

#[test]
fn iterations_split_truncates() {
    assert_eq!(iterations_per_worker(5000, 16), 312);
    assert_eq!(iterations_per_worker(10, 3), 3);
    assert_eq!(iterations_per_worker(7, 1), 7);
    assert_eq!(iterations_per_worker(2, 4), 0);
}

#[test]
fn merge_adds_counts_place_by_place() {
    fastrand::seed(4);
    let mut a = expanded(&[]);
    let mut b = expanded(&[]);
    run_worker(&mut a, 10);
    run_worker(&mut b, 3);
    let va = child_visits(&a);
    let vb = child_visits(&b);
    let wins_before: Vec<u32> = (0..7).map(|i| a.child(i).wins() + b.child(i).wins()).collect();
    a.add_child_stats(&b);
    let merged = child_visits(&a);
    for i in 0..7 {
        assert_eq!(merged[i], va[i] + vb[i]);
        assert_eq!(a.child(i).wins(), wins_before[i]);
    }
    assert_eq!(a.visits(), 10);
}

#[test]
fn best_move_is_most_visited() {
    fastrand::seed(8);
    let mut root = expanded(&[]);
    run_worker(&mut root, 7);
    let mut keys = vec![0; 7];
    keys[5] = 1;
    for _ in 0..3 {
        root.run_iteration(&keys);
    }
    assert_eq!(child_visits(&root), vec![1, 1, 1, 1, 1, 4, 1]);
    assert_eq!(root.best_move(), 5);
}

#[test]
fn best_move_ties_go_to_first() {
    fastrand::seed(8);
    let mut root = expanded(&[0, 0, 0, 0, 0, 0]);
    run_worker(&mut root, 6);
    assert_eq!(root.best_move(), 1);
}
