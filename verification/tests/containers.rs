use petronel::backlog::Backlog;
use petronel::circular_buffer::CircularBuffer;
use petronel::id_pool::{Id, IdPool};

fn unordered_eq(buf: &CircularBuffer<i32>, other: Vec<i32>) {
    let mut latest = buf.as_unordered_slice().to_vec();
    latest.sort();

    assert_eq!(latest, other);
}

#[test]
fn circular_buffer_maintain_initial_capacity() {
    let mut buf = CircularBuffer::with_capacity(2);

    buf.push(1);
    unordered_eq(&buf, vec![1]);

    buf.push(2);
    unordered_eq(&buf, vec![1, 2]);

    buf.push(3);
    unordered_eq(&buf, vec![2, 3]);
}

#[test]
fn unordered() {
    let mut buf = CircularBuffer::with_capacity(4);

    for i in 0..50 {
        buf.push(i);
    }

    let mut latest = buf.as_unordered_slice().to_vec();
    latest.sort();

    assert_eq!(latest, (46..50).collect::<Vec<_>>());
}

#[test]
fn circular_buffer_multiple_overflows() {
    let mut buf = CircularBuffer::with_capacity(5);

    for i in 0..100 {
        buf.push(i);
    }

    unordered_eq(&buf, vec![95, 96, 97, 98, 99]);
}

#[test]
fn backlog_maintain_initial_capacity() {
    let mut backlog = Backlog::with_capacity(2);

    backlog.push(1);
    assert_eq!(backlog.snapshot(), vec![1]);

    backlog.push(2);
    assert_eq!(backlog.snapshot(), vec![1, 2]);

    backlog.push(3);
    assert_eq!(backlog.snapshot(), vec![2, 3]);
}

#[test]
fn backlog_multiple_overflows() {
    let mut backlog = Backlog::with_capacity(5);

    for i in 0..100 {
        backlog.push(i);
    }

    assert_eq!(backlog.snapshot(), (95..100).collect::<Vec<_>>());
}

#[test]
fn use_id() {
    let mut pool = IdPool::new();

    assert_eq!(pool.get(), Id(0));
    assert_eq!(pool.get(), Id(1));
    assert_eq!(pool.get(), Id(2));

    pool.recycle(Id(1));
    pool.recycle(Id(0));
    assert_eq!(pool.get(), Id(0));
    assert_eq!(pool.get(), Id(1));
    assert_eq!(pool.get(), Id(3));
    assert_eq!(pool.get(), Id(4));
}
