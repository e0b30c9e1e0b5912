use ring_containers::{QueueError, StaticSizeQueue};

#[test]
fn basic_queue_test() {
    let mut queue: StaticSizeQueue<i32> = StaticSizeQueue::new(10_usize);
    let _ = queue.push(1_i32);
    assert_eq!(queue.size(), 1_usize);

    let _ = queue.push(2_i32);
    let _ = queue.push(3_i32);
    let _ = queue.push(4_i32);

    assert_eq!(queue.size(), 4_usize);

    let _ = queue.push(5_i32);
    let _ = queue.push(6_i32);
    let _ = queue.push(7_i32);
    let _ = queue.push(8_i32);
    let _ = queue.push(9_i32);
    let _ = queue.push(10_i32);
    let res = queue.push(11_i32);
    assert!(res.is_err());

    let item = queue.pop();
    assert_eq!(item.unwrap(), 1_i32);

    let item = queue.pop();
    assert_eq!(item.unwrap(), 2_i32);

    let item = queue.pop();
    assert_eq!(item.unwrap(), 3_i32);

    let item = queue.pop();
    assert_eq!(item.unwrap(), 4_i32);

    let item = queue.pop();
    assert_eq!(item.unwrap(), 5_i32);

    let item = queue.pop();
    assert_eq!(item.unwrap(), 6_i32);

    let item = queue.pop();
    assert_eq!(item.unwrap(), 7_i32);

    let item = queue.pop();
    assert_eq!(item.unwrap(), 8_i32);

    let item = queue.pop();
    assert_eq!(item.unwrap(), 9_i32);

    let item = queue.pop();
    assert_eq!(item.unwrap(), 10_i32);

    assert!(queue.is_empty());

    queue.push(13_i32).unwrap();
    assert_eq!(queue.size(), 1_usize);
    let item = queue.pop();
    assert_eq!(item.unwrap(), 13_i32);
}

#[test]
fn round_trip_preserves_order() {
    let mut queue: StaticSizeQueue<u32> = StaticSizeQueue::new(5_usize);
    let mut v = 1_u32;
    while v <= 4_u32 {
        assert_eq!(queue.push(v), Ok(()));
        v += 1;
    }
    let mut expected = 1_u32;
    while expected <= 4_u32 {
        assert_eq!(queue.pop(), Ok(expected));
        expected += 1;
    }
    assert!(queue.is_empty());
    assert_eq!(queue.size(), 0_usize);
}

#[test]
fn push_rejected_only_when_full() {
    let mut queue: StaticSizeQueue<u32> = StaticSizeQueue::new(3_usize);
    assert_eq!(queue.push(1_u32), Ok(()));
    assert_eq!(queue.push(2_u32), Ok(()));
    assert_eq!(queue.push(3_u32), Ok(()));
    assert_eq!(queue.push(4_u32), Err(QueueError::QueueFull));
    assert_eq!(queue.size(), 3_usize);
    // the rejected value is gone, the stored ones are untouched
    assert_eq!(queue.peek_front(), Some(&1_u32));
}

#[test]
fn pop_from_new_queue_is_rejected() {
    let mut queue: StaticSizeQueue<u32> = StaticSizeQueue::new(4_usize);
    assert_eq!(queue.pop(), Err(QueueError::QueueEmpty));
    assert!(queue.is_empty());
}

#[test]
fn wrap_around_keeps_fifo_order() {
    let mut queue: StaticSizeQueue<u32> = StaticSizeQueue::new(3_usize);
    assert_eq!(queue.push(1_u32), Ok(()));
    assert_eq!(queue.push(2_u32), Ok(()));
    assert_eq!(queue.push(3_u32), Ok(()));
    assert_eq!(queue.pop(), Ok(1_u32));
    // the back cursor wraps past the end of storage here
    assert_eq!(queue.push(4_u32), Ok(()));
    assert_eq!(queue.pop(), Ok(2_u32));
    assert_eq!(queue.push(5_u32), Ok(()));
    assert_eq!(queue.size(), 3_usize);
    assert_eq!(queue.pop(), Ok(3_u32));
    assert_eq!(queue.pop(), Ok(4_u32));
    assert_eq!(queue.pop(), Ok(5_u32));
    assert!(queue.is_empty());
    assert_eq!(queue.pop(), Err(QueueError::QueueEmpty));
}

#[test]
fn peek_front_sees_without_removing() {
    let mut queue: StaticSizeQueue<u32> = StaticSizeQueue::new(2_usize);
    assert_eq!(queue.peek_front(), None);
    assert_eq!(queue.push(9_u32), Ok(()));
    assert_eq!(queue.push(8_u32), Ok(()));
    assert_eq!(queue.peek_front(), Some(&9_u32));
    assert_eq!(queue.size(), 2_usize);
    assert_eq!(queue.pop(), Ok(9_u32));
    assert_eq!(queue.peek_front(), Some(&8_u32));
}

#[test]
fn peek_front_mut_replaces_in_place() {
    let mut queue: StaticSizeQueue<u32> = StaticSizeQueue::new(2_usize);
    assert_eq!(queue.peek_front_mut(), None);
    assert_eq!(queue.push(1_u32), Ok(()));
    assert_eq!(queue.push(2_u32), Ok(()));
    if let Some(front) = queue.peek_front_mut() {
        *front = 10_u32;
    }
    assert_eq!(queue.size(), 2_usize);
    assert_eq!(queue.pop(), Ok(10_u32));
    assert_eq!(queue.pop(), Ok(2_u32));
}

#[test]
fn capacity_one_queue() {
    let mut queue: StaticSizeQueue<u32> = StaticSizeQueue::new(1_usize);
    assert_eq!(queue.push(5_u32), Ok(()));
    assert_eq!(queue.push(6_u32), Err(QueueError::QueueFull));
    assert_eq!(queue.pop(), Ok(5_u32));
    assert_eq!(queue.pop(), Err(QueueError::QueueEmpty));
    assert_eq!(queue.push(7_u32), Ok(()));
    assert_eq!(queue.pop(), Ok(7_u32));
}

#[test]
fn error_messages() {
    assert_eq!(QueueError::QueueEmpty.message(), "Queue is empty");
    assert_eq!(QueueError::QueueFull.message(), "Queue is full");
}
