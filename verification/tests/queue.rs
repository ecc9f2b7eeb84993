use worldsync::queue::Messages;

#[test]
fn full_queue_evicts_the_oldest_entry() {
    let mut queue: Messages<u32> = Messages::new(3);
    assert_eq!(queue.push(1), None);
    assert_eq!(queue.push(2), None);
    assert_eq!(queue.push(3), None);
    assert_eq!(queue.len(), 3);
    assert_eq!(queue.push(4), Some(1));
    assert_eq!(queue.len(), 3);
    assert_eq!(queue.pop(), Some(2));
    assert_eq!(queue.pop(), Some(3));
    assert_eq!(queue.pop(), Some(4));
    assert_eq!(queue.pop(), None);
}

#[test]
fn a_queue_of_one_keeps_the_newest() {
    let mut queue: Messages<u32> = Messages::new(1);
    assert_eq!(queue.capacity(), 1);
    assert_eq!(queue.push(7), None);
    assert_eq!(queue.push(8), Some(7));
    assert_eq!(queue.push(9), Some(8));
    assert_eq!(queue.len(), 1);
    assert_eq!(queue.pop(), Some(9));
    assert_eq!(queue.len(), 0);
}

#[test]
fn the_queue_never_grows_beyond_its_capacity() {
    let mut queue: Messages<u32> = Messages::new(20);
    for value in 0..100u32 {
        let evicted = queue.push(value);
        assert!(queue.len() <= 20);
        assert_eq!(evicted, if value >= 20 { Some(value - 20) } else { None });
    }
    for value in 80..100u32 {
        assert_eq!(queue.pop(), Some(value));
    }
    assert_eq!(queue.pop(), None);
}
