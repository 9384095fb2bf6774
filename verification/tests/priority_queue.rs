use tipe_project::datastructures::priority_queue::PriorityQueue;

#[test]
fn test_queue() {
    let mut q = PriorityQueue::default();
    assert!(q.pop_min().is_none());
    for i in [0, 5, 2, 1, 4, 3, 6] {
        q.push(i, i);
    }
    for i in 0..7 {
        assert_eq!(q.pop_min(), Some((i, i)));
    }
    assert!(q.pop_min().is_none());
}

#[test]
fn queue_equal_weights_all_come_out() {
    let mut q: PriorityQueue<char> = PriorityQueue::default();
    q.push(3, 'a');
    q.push(1, 'b');
    q.push(3, 'c');
    q.push(1, 'd');
    let mut out = Vec::new();
    while let Some(e) = q.pop_min() {
        out.push(e);
    }
    assert_eq!(out.len(), 4);
    assert_eq!(out[0].0, 1);
    assert_eq!(out[1].0, 1);
    assert_eq!(out[2].0, 3);
    assert_eq!(out[3].0, 3);
    let mut values: Vec<char> = out.iter().map(|e| e.1).collect();
    values.sort();
    assert_eq!(values, vec!['a', 'b', 'c', 'd']);
}

#[test]
fn queue_interleaved_push_pop() {
    let mut q: PriorityQueue<u32> = PriorityQueue::default();
    q.push(10, 10);
    q.push(4, 4);
    assert_eq!(q.pop_min(), Some((4, 4)));
    q.push(7, 7);
    q.push(u64::MAX, 99);
    q.push(0, 0);
    assert_eq!(q.pop_min(), Some((0, 0)));
    assert_eq!(q.pop_min(), Some((7, 7)));
    assert_eq!(q.pop_min(), Some((10, 10)));
    assert_eq!(q.pop_min(), Some((u64::MAX, 99)));
    assert_eq!(q.pop_min(), None);
}
