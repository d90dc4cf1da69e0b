use nonogram::spaces::hint::{HSoln, Hint, RangeQueue};
use nonogram::spaces::node::Node;

fn check_hints(hints: &[Hint], offsets: &[usize], length: usize) {
    hints.iter().enumerate().for_each(|(i, hint)| {
        let soln = hint.solutions.get(0).unwrap();
        assert_eq!(
            soln.length,
            hint.hint + length,
            "Hint {} has incorrect length",
            i
        );
        assert_eq!(soln.offset, offsets[i], "Hint {} has incorrect offset", i);
    });
}

#[test]
fn gen_two_hints() {
    check_hints(&Hint::gen(&vec![2, 4], 10), &[0, 3], 3);
}

#[test]
fn gen_full_hints() {
    check_hints(&Hint::gen(&vec![3, 3, 2], 10), &[0, 4, 8], 0);
}

#[test]
fn gen_one_hint() {
    check_hints(&Hint::gen(&vec![3], 10), &[0], 7);
}

fn setup_hsoln_test(size: usize, filled: &[usize], empty: &[usize]) -> (HSoln, Vec<Node>) {
    let mut nodes = Vec::with_capacity(size);
    for _ in 0..size {
        nodes.push(Node::new());
    }

    for i in filled {
        nodes.get_mut(*i).unwrap().solve_filled();
    }

    for i in empty {
        nodes.get_mut(*i).unwrap().solve_empty();
    }

    (HSoln::new(0, size), nodes)
}

fn assert_soln(soln: &HSoln, offset: usize, length: usize) {
    assert_eq!(soln.offset, offset);
    assert_eq!(soln.length, length);
}

#[test]
fn out_of_reach_node_not_valid() {
    let (soln, nodes) = setup_hsoln_test(5, &[0, 3], &[]);
    assert!(!soln.is_valid(&nodes, 3));
}

#[test]
fn in_reach_node_valid() {
    let (soln, nodes) = setup_hsoln_test(5, &[0, 2], &[]);

    assert!(soln.is_valid(&nodes, 3));
}

#[test]
fn empty_node_not_valid() {
    let (soln, nodes) = setup_hsoln_test(5, &[], &[3]);

    assert!(!soln.is_valid(&nodes, 3));
}

#[test]
fn split_empty_nodes() {
    let (soln, nodes) = setup_hsoln_test(10, &[], &[1, 6]);

    let splits = soln.split(&nodes, 2);

    assert_eq!(splits.len(), 2);
    assert_soln(splits.get(0).unwrap(), 2, 4);
    assert_soln(splits.get(1).unwrap(), 7, 3);
}

#[test]
fn split_test_a() {
    // 0FF00, h = 3
    let (soln, nodes) = setup_hsoln_test(5, &[1, 2], &[]);

    let splits = soln.split(&nodes, 3);

    assert_eq!(splits.len(), 1);
    assert_soln(splits.get(0).unwrap(), 0, 4);
}

#[test]
fn split_test_b() {
    // 00FF0FF0F000, h = 4
    let (soln, nodes) = setup_hsoln_test(12, &[2, 3, 5, 6, 8], &[]);

    let splits = soln.split(&nodes, 4);

    println!("{:?}", splits);

    assert_eq!(splits.len(), 3);
    assert_soln(splits.get(0).unwrap(), 0, 4);
    assert_soln(splits.get(1).unwrap(), 5, 4);
    assert_soln(splits.get(2).unwrap(), 8, 4);
}

#[test]
fn split_test_c() {
    // 00F0F0F0F000, h = 5
    let (soln, nodes) = setup_hsoln_test(12, &[2, 4, 6, 8], &[]);

    let splits = soln.split(&nodes, 5);

    println!("{:?}", splits);

    assert_eq!(splits.len(), 4);
    assert_soln(splits.get(0).unwrap(), 0, 5);
    assert_soln(splits.get(1).unwrap(), 2, 5);
    assert_soln(splits.get(2).unwrap(), 4, 5);
    assert_soln(splits.get(3).unwrap(), 6, 5);
}

#[test]
fn split_test_d() {
    // 0FF0F0F0F000, h = 5
    let (soln, nodes) = setup_hsoln_test(12, &[1, 2, 4, 6, 8], &[]);

    let splits = soln.split(&nodes, 5);

    println!("{:?}", splits);

    assert_eq!(splits.len(), 3);
    assert_soln(splits.get(0).unwrap(), 0, 5);
    assert_soln(splits.get(1).unwrap(), 4, 5);
    assert_soln(splits.get(2).unwrap(), 6, 5);
}

#[test]
fn split_test_e() {
    // F000F0F0F, h = 5
    let (soln, nodes) = setup_hsoln_test(10, &[0, 4, 6, 8], &[]);

    let splits = soln.split(&nodes, 5);

    println!("{:?}", splits);

    assert_eq!(splits.len(), 3);
    assert_soln(splits.get(0).unwrap(), 0, 5);
    assert_soln(splits.get(1).unwrap(), 2, 5);
    assert_soln(splits.get(2).unwrap(), 4, 5);
}

#[test]
fn gen_windows_stay_in_line() {
    let hints = Hint::gen(&[1, 2, 1], 9);
    assert_eq!(hints.len(), 3);
    let mut prev = 0;
    for h in &hints {
        let w = h.solutions[0];
        assert!(w.offset >= prev);
        assert_eq!(w.length, h.hint + 3);
        assert!(w.offset + w.length <= 9);
        prev = w.offset;
    }
    check_hints(&hints, &[0, 2, 5], 3);
}

#[test]
fn gen_hint_filling_line() {
    let hints = Hint::gen(&[10], 10);
    check_hints(&hints, &[0], 0);
}

#[test]
fn validity_repeatable() {
    let (soln, nodes) = setup_hsoln_test(5, &[1, 2], &[]);
    assert_eq!(soln.is_valid(&nodes, 3), soln.is_valid(&nodes, 3));
}

#[test]
fn scenario_filled_pair_valid_and_split() {
    let (soln, nodes) = setup_hsoln_test(5, &[1, 2], &[]);
    assert!(soln.is_valid(&nodes, 3));
    let splits = soln.split(&nodes, 3);
    assert_eq!(splits.len(), 1);
    assert_soln(&splits[0], 0, 4);
}

#[test]
fn validity_last_filled_far_from_end() {
    // F F . . . . : last filled leaves five cells behind it
    let (soln, nodes) = setup_hsoln_test(6, &[0, 1], &[]);
    assert!(!soln.is_valid(&nodes, 3));
}

#[test]
fn validity_first_filled_unreachable() {
    let (soln, nodes) = setup_hsoln_test(6, &[4], &[]);
    assert!(!soln.is_valid(&nodes, 3));
    let (soln, nodes) = setup_hsoln_test(6, &[2], &[]);
    assert!(soln.is_valid(&nodes, 3));
}

#[test]
fn validity_unsolved_window() {
    let (soln, nodes) = setup_hsoln_test(4, &[], &[]);
    assert!(soln.is_valid(&nodes, 2));
}

#[test]
fn validity_inner_window() {
    let (_, nodes) = setup_hsoln_test(8, &[5], &[1]);
    assert!(HSoln::new(3, 4).is_valid(&nodes, 3));
    assert!(!HSoln::new(0, 4).is_valid(&nodes, 3));
}

#[test]
fn split_unsolved_window_is_itself() {
    let (soln, nodes) = setup_hsoln_test(7, &[], &[]);
    let splits = soln.split(&nodes, 3);
    assert_eq!(splits, vec![HSoln::new(0, 7)]);
    let splits = soln.split(&nodes, 8);
    assert!(splits.is_empty());
}

#[test]
fn split_all_empty_window() {
    let (soln, nodes) = setup_hsoln_test(4, &[], &[0, 1, 2, 3]);
    assert!(soln.split(&nodes, 1).is_empty());
    assert!(!soln.is_valid(&nodes, 1));
}

#[test]
fn split_inner_window_offsets() {
    // . . | . X . . . | where X is empty; window covers cells 2..8
    let (_, nodes) = setup_hsoln_test(9, &[], &[3]);
    let splits = HSoln::new(2, 6).split(&nodes, 2);
    assert_eq!(splits, vec![HSoln::new(4, 4)]);
}

#[test]
fn split_exact_run() {
    // . F F F . with run length 3: only the placement on the three filled cells
    let (soln, nodes) = setup_hsoln_test(5, &[1, 2, 3], &[]);
    let splits = soln.split(&nodes, 3);
    assert_eq!(splits, vec![HSoln::new(1, 3)]);
}

#[test]
fn split_stays_inside_window() {
    let (soln, nodes) = setup_hsoln_test(11, &[3, 7], &[5]);
    for s in soln.split(&nodes, 2) {
        assert!(s.length >= 2);
        assert!(s.offset + s.length <= 11);
    }
}

#[test]
fn range_queue_merges_neighbours() {
    let mut q = RangeQueue::new();
    assert!(q.is_empty());
    q.push(2);
    q.push(3);
    q.push(5);
    assert_eq!(q.front(), Some((2, 3)));
    assert_eq!(q.back(), Some((5, 5)));
    assert_eq!(q.pop(), Some((2, 3)));
    assert_eq!(q.pop(), Some((5, 5)));
    assert_eq!(q.pop(), None);
    assert!(q.is_empty());
    assert_eq!(q.front(), None);
    assert_eq!(q.back(), None);
}

#[test]
fn range_queue_harvest_windows() {
    let mut q = RangeQueue::new();
    q.push(2);
    q.push(3);
    q.push(5);
    let windows = q.harvest(10, 2);
    assert_eq!(windows, vec![HSoln::new(12, 3), HSoln::new(15, 2)]);
    assert!(q.is_empty());
}
