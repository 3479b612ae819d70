use screensplit::queue::FrameQueue;

fn frame(tag: u8, seq: u8) -> [u8; 7] {
    [tag, seq, 0, 0, 0, 0, 0]
}

#[test]
fn pops_in_fifo_order() {
    let mut q = FrameQueue::new(8);
    q.try_push(frame(1, 0));
    q.try_push(frame(2, 0));
    q.try_push(frame(3, 0));
    assert_eq!(q.pop(), Some(frame(1, 0)));
    assert_eq!(q.pop(), Some(frame(2, 0)));
    assert_eq!(q.pop(), Some(frame(3, 0)));
    assert_eq!(q.pop(), None);
}

#[test]
fn rejects_pushes_beyond_capacity() {
    let mut q = FrameQueue::new(2);
    assert!(q.try_push(frame(1, 0)));
    assert!(q.try_push(frame(2, 0)));
    assert!(!q.try_push(frame(3, 0)));
    assert_eq!(q.len(), 2);
    assert_eq!(q.pop(), Some(frame(1, 0)));
    assert!(q.try_push(frame(3, 0)));
    assert_eq!(q.pop(), Some(frame(2, 0)));
    assert_eq!(q.pop(), Some(frame(3, 0)));
}

#[test]
fn drain_empties_in_order() {
    let mut q = FrameQueue::new(4);
    q.try_push(frame(9, 1));
    q.try_push(frame(9, 2));
    let drained = q.drain();
    assert_eq!(drained, vec![frame(9, 1), frame(9, 2)]);
    assert_eq!(q.len(), 0);
}

#[test]
fn interleaved_producers_lose_nothing() {
    // Three connections, four frames each, queue sized for all twelve:
    // every frame arrives, none duplicated, per-connection order kept.
    let producers = 3u8;
    let frames_each = 4u8;
    let mut q = FrameQueue::new((producers as usize) * (frames_each as usize));
    for s in 0..frames_each {
        for p in 0..producers {
            assert!(q.try_push(frame(p, s)));
        }
    }
    let drained = q.drain();
    assert_eq!(drained.len(), 12);
    for p in 0..producers {
        let own: Vec<u8> = drained
            .iter()
            .filter(|f| f[0] == p)
            .map(|f| f[1])
            .collect();
        assert_eq!(own, vec![0, 1, 2, 3]);
    }
}
