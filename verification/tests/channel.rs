use shrev::{EventChannel, EventIterator};

#[derive(Debug, Clone, PartialEq)]
struct Test {
    pub id: u32,
}

#[derive(Clone, Debug, PartialEq, Eq)]
pub struct TestEvent {
    data: u32,
}

fn collect_events<T: Clone>(mut it: EventIterator<T>) -> Vec<T> {
    let mut v = Vec::new();
    while let Some(e) = it.next() {
        v.push(e.clone());
    }
    v
}

#[test]
fn test_grow() {
    let mut channel = EventChannel::with_capacity(10);

    let mut reader0 = channel.register_reader();
    let mut reader1 = channel.register_reader();

    channel.iter_write(vec![1, 2, 3, 4, 5, 6, 7, 8]);

    let data = collect_events(channel.read(&mut reader0));
    assert_eq!(data, vec![1, 2, 3, 4, 5, 6, 7, 8]);

    channel.iter_write(vec![9, 10, 11, 12, 13, 14, 15, 16, 17, 18, 19, 20, 21, 22]);

    let data = collect_events(channel.read(&mut reader0));
    assert_eq!(
        data,
        vec![9, 10, 11, 12, 13, 14, 15, 16, 17, 18, 19, 20, 21, 22]
    );

    for i in 23..10_000 {
        channel.single_write(i);
    }

    let data = collect_events(channel.read(&mut reader1));
    assert_eq!(data, (1..10_000).collect::<Vec<_>>());
}

#[test]
fn test_read_write() {
    let mut channel = EventChannel::with_capacity(14);

    let mut reader_id = channel.register_reader();
    let mut reader_id_extra = channel.register_reader();

    channel.single_write(Test { id: 1 });
    assert_eq!(
        vec![Test { id: 1 }],
        collect_events(channel.read(&mut reader_id))
    );
    channel.single_write(Test { id: 2 });
    assert_eq!(
        vec![Test { id: 2 }],
        collect_events(channel.read(&mut reader_id))
    );

    assert_eq!(
        vec![Test { id: 1 }, Test { id: 2 }],
        collect_events(channel.read(&mut reader_id_extra))
    );

    channel.single_write(Test { id: 3 });
    assert_eq!(
        vec![Test { id: 3 }],
        collect_events(channel.read(&mut reader_id))
    );
    assert_eq!(
        vec![Test { id: 3 }],
        collect_events(channel.read(&mut reader_id_extra))
    );
}

// There was previously a case where the tests worked but the example didn't,
// so the example was added as a test case.
#[test]
fn test_example() {
    let mut channel = EventChannel::new();

    channel.drain_vec_write(&mut vec![TestEvent { data: 1 }, TestEvent { data: 2 }]);

    let mut reader_id = channel.register_reader();

    // Should be empty, because reader was created after the write
    assert_eq!(
        Vec::<TestEvent>::default(),
        collect_events(channel.read(&mut reader_id))
    );

    // Should have data, as a second write was done
    channel.single_write(TestEvent { data: 5 });

    assert_eq!(
        vec![TestEvent { data: 5 }],
        collect_events(channel.read(&mut reader_id))
    );

    // We can also just send in a vector.
    channel.iter_write(vec![TestEvent { data: 8 }, TestEvent { data: 9 }]);

    assert_eq!(
        vec![TestEvent { data: 8 }, TestEvent { data: 9 }],
        collect_events(channel.read(&mut reader_id))
    );
}
