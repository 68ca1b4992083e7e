use pocket_kindle::runtime_font::RuntimeFonts;

#[test]
fn requests_rasterize_nothing_and_warn_once() {
    let mut rf = RuntimeFonts::new();
    assert!(!rf.has_warned());
    assert_eq!(rf.ensure_chars(""), 0);
    assert!(!rf.has_warned());
    assert_eq!(rf.ensure_chars("漫"), 0);
    assert!(rf.has_warned());
    assert_eq!(rf.ensure_chars("画"), 0);
    assert!(rf.has_warned());
}

use pocket_kindle::probe::BudgetFifo;

#[test]
fn budget_fifo_drops_oldest_over_budget() {
    let mut q: BudgetFifo<char> = BudgetFifo::new(10);
    assert_eq!(q.push(4, 'a'), 0);
    assert_eq!(q.push(4, 'b'), 0);
    assert_eq!(q.bytes(), 8);
    assert_eq!(q.push(4, 'c'), 1);
    assert_eq!((q.len(), q.bytes()), (2, 8));
    // An entry larger than the budget empties the queue, itself included.
    assert_eq!(q.push(11, 'd'), 3);
    assert_eq!((q.len(), q.bytes()), (0, 0));
}
