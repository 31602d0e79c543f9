use shrev::{EventChannel, EventIterator, RingBuffer};

fn collect_events<T: Clone>(mut it: EventIterator<T>) -> Vec<T> {
    let mut v = Vec::new();
    while let Some(e) = it.next() {
        v.push(e.clone());
    }
    v
}

#[test]
fn no_loss_concatenates() {
    let mut channel = EventChannel::with_capacity(64);
    let mut reader = channel.register_reader();

    channel.iter_write(vec![0, 1, 2, 3, 4, 5, 6, 7]);
    assert_eq!(
        collect_events(channel.read(&mut reader)),
        vec![0, 1, 2, 3, 4, 5, 6, 7]
    );

    channel.iter_write(vec![8, 9]);
    channel.single_write(10);
    assert_eq!(collect_events(channel.read(&mut reader)), vec![8, 9, 10]);
}

#[test]
fn registration_cutoff() {
    let mut channel = EventChannel::with_capacity(2);
    channel.iter_write(vec![1, 2, 3]);

    let mut late = channel.register_reader();
    assert_eq!(collect_events(channel.read(&mut late)), Vec::<i32>::new());

    channel.single_write(4);
    assert_eq!(collect_events(channel.read(&mut late)), vec![4]);
}

#[test]
fn readers_are_independent() {
    let mut channel = EventChannel::with_capacity(4);

    let mut first = channel.register_reader();
    channel.single_write(10);
    let mut second = channel.register_reader();
    channel.single_write(20);

    assert_eq!(collect_events(channel.read(&mut first)), vec![10, 20]);
    assert_eq!(collect_events(channel.read(&mut second)), vec![20]);

    // Reading through one handle does not affect the other.
    channel.single_write(30);
    assert_eq!(collect_events(channel.read(&mut first)), vec![30]);
    assert_eq!(collect_events(channel.read(&mut second)), vec![30]);
}

#[test]
fn advance_on_call() {
    let mut channel = EventChannel::with_capacity(8);
    let mut reader = channel.register_reader();

    channel.iter_write(vec![1, 2, 3]);
    // Discard the iterator without consuming it: the cursor advances anyway.
    let _ = channel.read(&mut reader);

    channel.iter_write(vec![4, 5]);
    assert_eq!(collect_events(channel.read(&mut reader)), vec![4, 5]);
}

#[test]
fn drop_reclaims_capacity() {
    let mut buffer = RingBuffer::<i32>::new(3);
    {
        let _reader = buffer.new_reader_id();
    }
    for i in 0..10 {
        buffer.single_write(i);
    }
    assert!(!buffer.would_write());
    // With no reader left the ring is reused, never grown.
    assert_eq!(buffer.num_initialized(), 3);
}

#[test]
fn keeping_up_prevents_growth() {
    let mut buffer = RingBuffer::<i32>::new(4);
    let mut reader = buffer.new_reader_id();
    for i in 0..20 {
        buffer.single_write(i);
        assert_eq!(collect_events(buffer.read(&mut reader)), vec![i]);
    }
    // Every event was read before the next write: the ring never grew.
    assert_eq!(buffer.num_initialized(), 4);
}

#[test]
fn growth_is_power_of_two_multiple() {
    let mut buffer = RingBuffer::<i32>::new(5);
    let mut reader = buffer.new_reader_id();

    // Eight events cannot fit in five slots, so the ring doubles to ten.
    buffer.iter_write((0..8).collect());
    assert_eq!(collect_events(buffer.read(&mut reader)), (0..8).collect::<Vec<_>>());

    // Keeping up from now on, the ring fills exactly its doubled capacity.
    for i in 8..30 {
        buffer.single_write(i);
        assert_eq!(collect_events(buffer.read(&mut reader)), vec![i]);
    }
    assert_eq!(buffer.num_initialized(), 10);
}

#[test]
fn iterator_reports_exact_length() {
    let mut channel = EventChannel::with_capacity(4);
    let mut reader = channel.register_reader();
    channel.iter_write(vec![7, 8, 9]);

    let mut it = channel.read(&mut reader);
    assert_eq!(it.len(), 3);
    assert_eq!(it.next().cloned(), Some(7));
    assert_eq!(it.len(), 2);
    assert_eq!(it.next().cloned(), Some(8));
    assert_eq!(it.next().cloned(), Some(9));
    assert_eq!(it.len(), 0);
    assert_eq!(it.next(), None);
}

#[test]
fn smallest_capacity_works() {
    let mut channel = EventChannel::with_capacity(2);
    let mut reader = channel.register_reader();

    channel.iter_write(vec![7, 8]);
    assert_eq!(collect_events(channel.read(&mut reader)), vec![7, 8]);
    channel.single_write(9);
    assert_eq!(collect_events(channel.read(&mut reader)), vec![9]);
}

#[test]
fn slice_write_clones_in_order() {
    let mut channel = EventChannel::with_capacity(4);
    let mut reader = channel.register_reader();

    channel.slice_write(&[1, 2, 3]);
    assert_eq!(collect_events(channel.read(&mut reader)), vec![1, 2, 3]);
}

#[test]
fn scoped_readers_are_recycled() {
    let mut buffer = RingBuffer::<i32>::new(3);
    {
        let _r1 = buffer.new_reader_id();
        let _r2 = buffer.new_reader_id();
        let _r3 = buffer.new_reader_id();
    }
    assert!(!buffer.would_write());
    let _r4 = buffer.new_reader_id();
    assert!(buffer.would_write());
    // All three slots survive for reuse; registering more readers recycles
    // them instead of appending new ones.
    let _r5 = buffer.new_reader_id();
    let _r6 = buffer.new_reader_id();
    assert_eq!(buffer.num_reader_slots(), 3);
}
