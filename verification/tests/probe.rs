use pocket_kindle::probe::BudgetFifo;

#[test]
fn fifo_drops_oldest_over_budget_and_counts_them() {
    let mut q: BudgetFifo<char> = BudgetFifo::new(10);
    assert_eq!(q.push(4, 'a'), 0);
    assert_eq!(q.push(4, 'b'), 0);
    assert_eq!(q.bytes(), 8);
    // 12 bytes: 'a' leaves.
    assert_eq!(q.push(4, 'c'), 1);
    assert_eq!((q.len(), q.bytes()), (2, 8));
    // 17 bytes: 'b' and 'c' leave.
    assert_eq!(q.push(9, 'd'), 2);
    assert_eq!((q.len(), q.bytes()), (1, 9));
    // A single entry over budget drops everything, itself included.
    assert_eq!(q.push(11, 'e'), 2);
    assert_eq!((q.len(), q.bytes()), (0, 0));
}
