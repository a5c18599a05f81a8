use swrt::{blocks_count, Block, Driver, Registry};

#[test]
fn grid_counts_divide_exactly() {
    assert_eq!(blocks_count(1920, 64), 30);
    assert_eq!(blocks_count(1080, 64), 17);
    assert_eq!(blocks_count(64, 64), 1);
    assert_eq!(blocks_count(1, 64), 1);
    assert_eq!(blocks_count(65, 64), 2);
}

#[test]
fn registry_removes_each_tile_once() {
    let mut r = Registry::new(3);
    assert_eq!(r.len(), 3);
    assert!(!r.is_empty());
    assert!(r.contains(1));
    assert!(r.remove(1));
    assert!(!r.contains(1));
    assert!(!r.remove(1));
    assert_eq!(r.len(), 2);
    assert!(r.remove(0));
    assert!(!r.is_empty());
    assert!(r.remove(2));
    assert!(r.is_empty());
    assert_eq!(r.len(), 0);
}

#[test]
fn registry_ignores_out_of_range() {
    let mut r = Registry::new(2);
    assert!(!r.contains(5));
    assert!(!r.remove(5));
    assert_eq!(r.len(), 2);
}

#[test]
fn queue_holds_every_tile_once() {
    let mut d = Driver::new(100, 60, 32, 10, 5);
    // 100/32 -> 4 tiles across, 60/32 -> 2 tiles down
    let mut seen = vec![false; 8];
    let mut popped = 0;
    while let Some(b) = d.pop() {
        let idx = b.y * 4 + b.x;
        assert!(idx < 8);
        assert!(!seen[idx], "tile queued twice");
        seen[idx] = true;
        assert_eq!(b.sample, 0);
        assert_eq!(b.samples_to_do, 5);
        assert_eq!(b.block_size, 32);
        popped += 1;
    }
    assert_eq!(popped, 8);
    assert!(seen.iter().all(|s| *s));
}

#[test]
fn render_completes_after_total_passes() {
    let mut d = Driver::new(4, 3, 2, 2, 1);
    assert_eq!(d.blocks_x, 2);
    assert_eq!(d.blocks_y, 2);
    assert_eq!(d.pending_tiles(), 4);
    assert_eq!(d.total_passes(), 8);
    assert!(!d.done());
    let mut handled = 0;
    while !d.done() {
        let mut b = d.pop().expect("pending tiles but empty queue");
        b.finish_pass();
        d.handle_finished(b);
        handled += 1;
        assert!(handled <= 8, "render did not finish in the expected passes");
    }
    assert_eq!(handled, 8);
    assert_eq!(d.passes_done, 8);
    assert_eq!(d.pending_tiles(), 0);
    assert!(d.pop().is_none());
}

#[test]
fn requeue_keeps_incomplete_tile_pending() {
    let mut d = Driver::new(10, 10, 10, 4, 2);
    assert_eq!(d.pending_tiles(), 1);
    let mut b = d.pop().expect("one tile");
    b.finish_pass();
    assert_eq!(b.sample, 2);
    let retired = d.handle_finished(b);
    assert!(!retired);
    assert_eq!(d.pending_tiles(), 1);
    let mut b = d.pop().expect("tile requeued");
    assert_eq!(b.sample, 2);
    b.finish_pass();
    let retired = d.handle_finished(b);
    assert!(retired);
    assert!(d.done());
}

#[test]
fn uneven_budget_takes_one_more_pass() {
    // budget 5, step 2: three passes per tile, the last one overshooting.
    let mut d = Driver::new(2, 2, 2, 5, 2);
    assert_eq!(d.total_passes(), 3);
    let mut handled = 0;
    while !d.done() {
        let mut b = d.pop().unwrap();
        b.finish_pass();
        d.handle_finished(b);
        handled += 1;
    }
    assert_eq!(handled, 3);
}

#[test]
fn split_passes_accumulate_like_one() {
    // One pass of 3 samples then one of 2 leaves the same bookkeeping as a
    // single pass of 5.
    let mut twice = Block { x: 0, y: 0, block_size: 4, sample: 0, samples_to_do: 3 };
    twice.finish_pass();
    twice.samples_to_do = 2;
    twice.finish_pass();

    let mut once = Block { x: 0, y: 0, block_size: 4, sample: 0, samples_to_do: 5 };
    once.finish_pass();

    assert_eq!(twice.sample, once.sample);
    assert_eq!(twice.sample, 5);
}

#[test]
fn large_grid_drains_completely() {
    // 7 x 7 tiles, two passes each: the registry must empty after exactly
    // 98 handled passes no matter the shuffled order.
    let mut d = Driver::new(100, 100, 16, 3, 2);
    assert_eq!(d.blocks_x, 7);
    assert_eq!(d.blocks_y, 7);
    assert_eq!(d.total_passes(), 98);
    let mut handled = 0;
    while !d.done() {
        let mut b = d.pop().expect("pending tiles but empty queue");
        b.finish_pass();
        d.handle_finished(b);
        handled += 1;
        assert!(handled <= 98);
    }
    assert_eq!(handled, 98);
    assert_eq!(d.pending_tiles(), 0);
}
