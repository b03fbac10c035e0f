use circuit_zoo::circuit::{CircuitNode, FunctionInfo, GateType};
use circuit_zoo::driver::{pulls_after, start_size, Step};
use circuit_zoo::truth_table::literal_truth_table;
use circuit_zoo::worker::DistributedWorker;

fn local_worker(n: usize, max_size: usize) -> DistributedWorker {
    DistributedWorker::new(n, max_size, String::from("w"), String::new())
}

fn size_of(w: &DistributedWorker, tt: u64) -> Option<usize> {
    w.info(tt).map(|i| i.size)
}

fn info_of(w: &DistributedWorker, tt: u64) -> FunctionInfo {
    w.info(tt).unwrap()
}

fn records_of(w: &DistributedWorker) -> Vec<(u64, FunctionInfo)> {
    w.records()
}

#[test]
fn literals_for_two_variables() {
    assert_eq!(literal_truth_table(0, false, 2), 0b1010);
    assert_eq!(literal_truth_table(1, false, 2), 0b1100);
    assert_eq!(literal_truth_table(0, true, 2), 0b0101);
    assert_eq!(literal_truth_table(1, true, 2), 0b0011);
}

#[test]
fn literals_for_six_variables_fill_the_word() {
    assert_eq!(literal_truth_table(0, false, 6), 0xAAAA_AAAA_AAAA_AAAA);
    assert_eq!(literal_truth_table(5, true, 6), 0x0000_0000_FFFF_FFFF);
    assert_eq!(literal_truth_table(0, false, 1), 0b10);
    assert_eq!(literal_truth_table(0, true, 1), 0b01);
}

#[test]
fn new_worker_holds_the_literals() {
    let w = local_worker(1, 2);
    assert_eq!(w.found_count, 2);
    assert_eq!(w.num_functions, 4);
    assert_eq!(size_of(&w, 0b10), Some(0));
    assert_eq!(size_of(&w, 0b01), Some(0));
    assert!(matches!(info_of(&w, 0b10).circuit, CircuitNode::Literal { var: 0, neg: false }));
    assert!(matches!(info_of(&w, 0b01).circuit, CircuitNode::Literal { var: 0, neg: true }));
    assert!(w.pending_writes.is_empty());
    let w2 = local_worker(2, 4);
    assert_eq!(w2.found_count, 4);
    assert_eq!(w2.num_functions, 16);
}

#[test]
fn seeding_twice_changes_nothing() {
    let mut w = local_worker(3, 4);
    let before = w.found_count;
    w.seed_literals();
    assert_eq!(w.found_count, before);
    assert_eq!(w.found_count, 6);
}

#[test]
fn one_variable_local_run() {
    let mut w = local_worker(1, 2);
    let (avail, last) = w.run_local();
    assert_eq!(last, 1);
    assert_eq!(w.found_count, 4);
    assert_eq!(size_of(&w, 0b00), Some(1));
    assert_eq!(size_of(&w, 0b11), Some(1));
    assert_eq!(info_of(&w, 0b00).depth, 1);
    assert!(matches!(info_of(&w, 0b00).circuit, CircuitNode::And { .. }));
    assert!(matches!(info_of(&w, 0b11).circuit, CircuitNode::Or { .. }));
    assert_eq!(avail[1].len(), 2);
    assert!(avail[2].is_empty());
}

#[test]
fn one_variable_size_two_finds_nothing_new() {
    let mut w = local_worker(1, 3);
    let mut avail = w.available_by_size(3);
    assert_eq!(w.search_and_seal(&mut avail, 1), 2);
    assert_eq!(w.search_and_seal(&mut avail, 2), 0);
    assert_eq!(w.found_count, 4);
}

#[test]
fn two_variables_size_one() {
    let mut w = local_worker(2, 4);
    let mut avail = w.available_by_size(4);
    let count = w.search_and_seal(&mut avail, 1);
    for tt in [8u64, 0, 2, 4, 1, 14, 15, 11, 13, 7] {
        assert_eq!(size_of(&w, tt), Some(1), "truth table {}", tt);
    }
    assert_eq!(count, 10);
    assert_eq!(w.found_count, 14);
    assert_eq!(w.pending_writes.len(), 10);
    for tt in &avail[1] {
        assert_eq!(info_of(&w, *tt).size, 1);
        assert_eq!(info_of(&w, *tt).depth, 1);
    }
}

#[test]
fn two_variables_all_found_by_size_four() {
    let mut w = local_worker(2, 4);
    let (avail, _) = w.run_local();
    assert_eq!(w.found_count, 16);
    assert!(w.all_found());
    for tt in 0u64..16 {
        let s = size_of(&w, tt).unwrap();
        assert!(s <= 4);
    }
    // exclusive or and its complement need three gates
    assert_eq!(size_of(&w, 0b0110), Some(3));
    assert_eq!(size_of(&w, 0b1001), Some(3));
    for (k, list) in avail.iter().enumerate() {
        for tt in list {
            assert_eq!(info_of(&w, *tt).size, k);
        }
    }
}

#[test]
fn depth_is_one_more_than_deepest_child() {
    let mut w = local_worker(3, 5);
    w.run_local();
    for (tt, info) in records_of(&w) {
        match info.circuit {
            CircuitNode::Literal { .. } => {
                assert_eq!(info.size, 0);
                assert_eq!(info.depth, 0);
            }
            CircuitNode::And { left, right } | CircuitNode::Or { left, right } => {
                assert!(info.size > 0);
                let dl = info_of(&w, left).depth;
                let dr = info_of(&w, right).depth;
                assert_eq!(info.depth, 1 + dl.max(dr));
                let expect = if matches!(info.circuit, CircuitNode::And { .. }) { left & right } else { left | right };
                assert_eq!(tt, expect);
            }
        }
    }
    assert_eq!(w.found_count as usize, w.records().len());
}

#[test]
fn try_insert_first_finder_wins() {
    let mut w = local_worker(2, 4);
    assert!(w.try_insert(8, 1, 10, 12, GateType::And));
    assert_eq!(w.found_count, 5);
    assert_eq!(w.pending_writes.len(), 1);
    assert_eq!(w.pending_writes[0].0, 8);
    assert_eq!(info_of(&w, 8).depth, 1);
    assert!(!w.try_insert(8, 1, 12, 10, GateType::And));
    assert_eq!(w.found_count, 5);
    assert_eq!(w.pending_writes.len(), 1);
    assert!(matches!(info_of(&w, 8).circuit, CircuitNode::And { left: 10, right: 12 }));
}

#[test]
fn gate_apply() {
    assert_eq!(GateType::And.apply(10, 12), 8);
    assert_eq!(GateType::Or.apply(10, 12), 14);
    assert!(matches!(CircuitNode::gate(GateType::Or, 1, 2), CircuitNode::Or { left: 1, right: 2 }));
    assert!(CircuitNode::Literal { var: 0, neg: true }.is_literal());
    assert!(!CircuitNode::And { left: 1, right: 2 }.is_literal());
}

#[test]
fn merge_external_inserts_replaces_and_skips() {
    let mut w = local_worker(2, 4);
    let rec = FunctionInfo { size: 3, depth: 3, circuit: CircuitNode::Or { left: 2, right: 4 } };
    assert!(w.merge_external(6, rec));
    assert_eq!(w.found_count, 5);
    assert!(w.pending_writes.is_empty());
    let better = FunctionInfo { size: 3, depth: 2, circuit: CircuitNode::Or { left: 4, right: 2 } };
    assert!(!w.merge_external(6, better));
    assert_eq!(info_of(&w, 6).depth, 2);
    let worse = FunctionInfo { size: 4, depth: 1, circuit: CircuitNode::And { left: 7, right: 14 } };
    assert!(!w.merge_external(6, worse));
    assert_eq!(info_of(&w, 6).size, 3);
    assert_eq!(info_of(&w, 6).depth, 2);
    // a gate recorded with size zero is malformed
    let bad = FunctionInfo { size: 0, depth: 0, circuit: CircuitNode::And { left: 1, right: 2 } };
    assert!(!w.merge_external(9, bad));
    assert!(w.info(9).is_none());
    assert_eq!(w.found_count, 5);
}

#[test]
fn loading_twice_gives_the_same_zoo() {
    let mut a = local_worker(2, 4);
    a.run_local();
    let records = records_of(&a);
    let mut b = local_worker(2, 4);
    let first = b.load_records(&records);
    assert_eq!(first, 12);
    let snapshot = records_of(&b);
    let second = b.load_records(&records);
    assert_eq!(second, 0);
    assert_eq!(records_of(&b), snapshot);
}

#[test]
fn start_size_skips_populated_sizes() {
    let avail: Vec<Vec<u64>> = vec![vec![1, 2], vec![3], vec![4], vec![], vec![]];
    assert_eq!(start_size(&avail, 4), 3);
    let empty: Vec<Vec<u64>> = vec![vec![1], vec![], vec![]];
    assert_eq!(start_size(&empty, 2), 1);
    let full: Vec<Vec<u64>> = vec![vec![1], vec![2], vec![3]];
    assert_eq!(start_size(&full, 2), 2);
    let gap: Vec<Vec<u64>> = vec![vec![1], vec![], vec![3], vec![]];
    assert_eq!(start_size(&gap, 3), 3);
}

#[test]
fn pulls_every_third_size() {
    assert!(!pulls_after(1));
    assert!(!pulls_after(2));
    assert!(pulls_after(3));
    assert!(pulls_after(6));
    assert!(!pulls_after(7));
}

#[test]
fn two_runs_give_the_same_size_distribution() {
    let mut a = local_worker(3, 8);
    a.run_local();
    let mut b = local_worker(3, 8);
    b.run_local();
    assert_eq!(a.size_counts(8), b.size_counts(8));
    assert_eq!(a.found_count, b.found_count);
}

#[test]
fn size_counts_of_two_variables() {
    let mut w = local_worker(2, 4);
    w.run_local();
    let counts = w.size_counts(4);
    assert_eq!(counts[0], 4);
    assert_eq!(counts[1], 10);
    assert_eq!(counts.iter().sum::<usize>(), 16);
}

#[test]
fn two_workers_agree_after_exchange() {
    let mut a = local_worker(3, 8);
    a.run_local();
    let mut b = local_worker(3, 8);
    b.run_local();
    let ra = a.take_pending();
    let rb = b.take_pending();
    a.load_records(&rb);
    b.load_records(&ra);
    assert_eq!(a.found_count, b.found_count);
    for (tt, info) in records_of(&a) {
        assert_eq!(info_of(&b, tt).size, info.size);
    }
}

#[test]
fn peer_record_mid_search_never_raises_sizes() {
    let mut reference = local_worker(3, 8);
    reference.run_local();
    let mut a = local_worker(3, 8);
    let mut avail = a.available_by_size(8);
    for size in 1..=2 {
        a.search_and_seal(&mut avail, size);
    }
    let peer: Vec<(u64, FunctionInfo)> = records_of(&reference)
        .into_iter()
        .filter(|(_, i)| i.size == 3)
        .take(1)
        .collect();
    let tt = peer[0].0;
    assert!(a.info(tt).is_none());
    assert_eq!(a.load_records(&peer), 1);
    for size in 3..=8 {
        if a.all_found() {
            break;
        }
        a.search_and_seal(&mut avail, size);
    }
    for (t, info) in records_of(&a) {
        assert!(info.size <= info_of(&reference, t).size);
    }
}

#[test]
fn restart_resumes_past_stored_sizes() {
    let mut first = local_worker(2, 4);
    let mut avail = first.available_by_size(4);
    first.search_and_seal(&mut avail, 1);
    // nothing new has two gates: exclusive or needs three
    assert_eq!(first.search_and_seal(&mut avail, 2), 0);
    first.search_and_seal(&mut avail, 3);
    let stored = first.take_pending();
    assert_eq!(stored.len(), first.found_count as usize - 4);
    let mut again = local_worker(2, 4);
    assert_eq!(again.load_records(&stored), 12);
    let avail2 = again.available_by_size(4);
    assert_eq!(start_size(&avail2, 4), 4);
    assert_eq!(again.load_records(&stored), 0);
    assert!(again.pending_writes.is_empty());
}

#[test]
fn requeue_puts_a_failed_batch_first() {
    let mut w = local_worker(2, 4);
    w.try_insert(8, 1, 10, 12, GateType::And);
    let batch = w.take_pending();
    assert!(w.pending_writes.is_empty());
    w.try_insert(14, 1, 10, 12, GateType::Or);
    w.requeue(batch);
    let order: Vec<u64> = w.pending_writes.iter().map(|p| p.0).collect();
    assert_eq!(order, vec![8, 14]);
}

#[test]
fn next_step_drives_the_search() {
    let w = local_worker(2, 4);
    let avail = w.available_by_size(4);
    assert_eq!(w.next_step(&avail, 0, false), Step::Search(1));
    assert_eq!(w.next_step(&avail, 1, false), Step::Search(2));
    assert_eq!(w.next_step(&avail, 3, false), Step::Pull);
    assert_eq!(w.next_step(&avail, 3, true), Step::Search(4));
    assert_eq!(w.next_step(&avail, 4, false), Step::Flush);
    let resumed: Vec<Vec<u64>> = vec![vec![10], vec![8], vec![], vec![6], vec![]];
    assert_eq!(w.next_step(&resumed, 0, false), Step::Search(4));
    let mut done = local_worker(1, 6);
    done.run_local();
    let avail1 = done.available_by_size(6);
    assert_eq!(done.next_step(&avail1, 0, false), Step::Flush);
    assert_eq!(done.next_step(&avail1, 2, false), Step::Flush);
    assert_eq!(done.next_step(&avail1, 3, false), Step::Pull);
    let none = local_worker(1, 0);
    let avail0 = none.available_by_size(0);
    assert_eq!(none.next_step(&avail0, 0, false), Step::Flush);
}

#[test]
fn pulled_records_join_the_size_lists() {
    let mut reference = local_worker(2, 4);
    reference.run_local();
    let xor = info_of(&reference, 0b0110);
    let mut w = local_worker(2, 4);
    let mut avail = w.available_by_size(4);
    w.search_and_seal(&mut avail, 1);
    w.search_and_seal(&mut avail, 2);
    let loaded = w.merge_pull(&mut avail, 2, &vec![(0b0110, xor)]);
    assert_eq!(loaded, 1);
    assert!(avail[3].contains(&0b0110));
    // the pulled table stays listed when its size is searched
    w.search_and_seal(&mut avail, 3);
    assert!(avail[3].contains(&0b0110));
    assert_eq!(size_of(&w, 0b1001), Some(3));
    assert!(w.pending_writes.iter().all(|p| p.0 != 0b0110));
}

#[test]
fn local_run_stopping_early_reports_last_size() {
    let mut w = local_worker(2, 10);
    let (_, last) = w.run_local();
    assert!(w.all_found());
    assert_eq!(last, 3);
}

#[test]
fn driving_a_worker_with_next_step() {
    let mut w = local_worker(2, 6);
    let mut avail = w.available_by_size(6);
    let mut last = 0;
    let mut pulled = false;
    let mut pulls = 0;
    loop {
        match w.next_step(&avail, last, pulled) {
            Step::Search(s) => {
                w.search_and_seal(&mut avail, s);
                last = s;
                pulled = false;
            }
            Step::Pull => {
                pulls += 1;
                w.merge_pull(&mut avail, last, &Vec::new());
                pulled = true;
            }
            Step::Flush => break,
        }
    }
    assert_eq!(pulls, 1);
    assert_eq!(last, 3);
    assert_eq!(w.found_count, 16);
    assert_eq!(w.take_pending().len(), 12);
}

#[test]
fn six_variables_seed_twelve_literals() {
    let w = local_worker(6, 1);
    assert_eq!(w.found_count, 12);
    assert_eq!(w.records().len(), 12);
    assert_eq!(w.num_functions, u64::MAX);
}
