use shrev::{EventIterator, ReaderId, RingBuffer};

#[derive(Debug, Clone, PartialEq)]
struct Test {
    pub id: u32,
}

fn collect_events<T: Clone>(mut it: EventIterator<T>) -> Vec<T> {
    let mut v = Vec::new();
    while let Some(e) = it.next() {
        v.push(e.clone());
    }
    v
}

fn events(n: u32) -> Vec<Test> {
    (0..n).map(|i| Test { id: i }).collect::<Vec<_>>()
}

#[test]
fn test_size() {
    let mut buffer = RingBuffer::<i32>::new(4);

    buffer.single_write(55);

    let mut reader = buffer.new_reader_id();

    buffer.iter_write((0..16).collect());
    assert_eq!(buffer.read(&mut reader).len(), 16);

    buffer.iter_write((0..6).collect());
    assert_eq!(buffer.read(&mut reader).len(), 6);
}

#[test]
fn test_circular() {
    let mut buffer = RingBuffer::<i32>::new(4);

    buffer.single_write(55);

    let mut reader = buffer.new_reader_id();

    buffer.iter_write((0..4).collect());
    assert_eq!(collect_events(buffer.read(&mut reader)), vec![0, 1, 2, 3]);
}

#[test]
fn test_empty_write() {
    let mut buffer = RingBuffer::<Test>::new(10);
    buffer.drain_vec_write(&mut vec![]);
    assert_eq!(buffer.num_initialized(), 0);
}

#[test]
fn test_too_large_write() {
    let mut buffer = RingBuffer::<Test>::new(10);
    // Events just go off into the void if there's no reader registered.
    let _reader = buffer.new_reader_id();
    buffer.drain_vec_write(&mut events(15));
    assert_eq!(buffer.num_initialized(), 15);
}

#[test]
fn test_empty_read() {
    let mut buffer = RingBuffer::<Test>::new(10);
    let mut reader_id = buffer.new_reader_id();
    let data = buffer.read(&mut reader_id);
    assert_eq!(Vec::<Test>::default(), collect_events(data))
}

#[test]
fn test_empty_read_write_before_id() {
    let mut buffer = RingBuffer::<Test>::new(10);
    buffer.drain_vec_write(&mut events(2));
    let mut reader_id = buffer.new_reader_id();
    let data = buffer.read(&mut reader_id);
    assert_eq!(Vec::<Test>::default(), collect_events(data))
}

#[test]
fn test_read() {
    let mut buffer = RingBuffer::<Test>::new(10);
    let mut reader_id = buffer.new_reader_id();
    buffer.drain_vec_write(&mut events(2));
    assert_eq!(
        vec![Test { id: 0 }, Test { id: 1 }],
        collect_events(buffer.read(&mut reader_id))
    );

    assert_eq!(
        Vec::<Test>::new(),
        collect_events(buffer.read(&mut reader_id))
    );
}

#[test]
fn test_write_overflow() {
    let mut buffer = RingBuffer::<Test>::new(3);
    let mut reader_id = buffer.new_reader_id();
    buffer.drain_vec_write(&mut events(4));
    let data = buffer.read(&mut reader_id);
    assert_eq!(
        vec![
            Test { id: 0 },
            Test { id: 1 },
            Test { id: 2 },
            Test { id: 3 },
        ],
        collect_events(data)
    );
}

trait SendSync: Send + Sync {
    fn is_send_sync() -> bool;
}

impl<T> SendSync for T
where
    T: Send + Sync,
{
    fn is_send_sync() -> bool {
        true
    }
}

/// If you're getting a compilation error here this test has failed!
#[test]
fn test_send_sync() {
    assert!(RingBuffer::<Test>::is_send_sync());
    assert!(ReaderId::<Test>::is_send_sync());
}

#[test]
fn test_reader_reuse() {
    let mut buffer = RingBuffer::<Test>::new(3);
    {
        let _reader_id = buffer.new_reader_id();
    }
    let _reader_id = buffer.new_reader_id();
    assert_eq!(_reader_id.id(), 0);
    assert_eq!(buffer.num_reader_slots(), 1);
}

#[test]
fn test_prevent_excess_growth() {
    let mut buffer = RingBuffer::<Test>::new(3);
    let mut reader_id = buffer.new_reader_id();
    println!("Initial buffer state: {:#?}", buffer);
    println!("--- first write ---");
    buffer.drain_vec_write(&mut events(2));
    println!("--- second write ---");
    buffer.drain_vec_write(&mut events(2));
    println!("--- writes complete ---");
    // we wrote 0,1,0,1, if the buffer grew correctly we'll get all of these
    // back.
    assert_eq!(
        vec![
            Test { id: 0 },
            Test { id: 1 },
            Test { id: 0 },
            Test { id: 1 },
        ],
        collect_events(buffer.read(&mut reader_id))
    );

    buffer.drain_vec_write(&mut events(4));
    // After writing 4 more events the buffer should have no reason to grow
    // beyond 6 (2 * 3).
    assert_eq!(buffer.num_initialized(), 6);
    assert_eq!(
        vec![
            Test { id: 0 },
            Test { id: 1 },
            Test { id: 2 },
            Test { id: 3 },
        ],
        collect_events(buffer.read(&mut reader_id))
    );
}

#[test]
fn test_write_slice() {
    let mut buffer = RingBuffer::<Test>::new(10);
    let mut reader_id = buffer.new_reader_id();
    buffer.iter_write(events(2));
    let data = buffer.read(&mut reader_id);
    assert_eq!(
        vec![Test { id: 0 }, Test { id: 1 }],
        collect_events(data)
    );
}

#[test]
fn iter_write_empty() {
    let mut buffer = RingBuffer::<Test>::new(10);
    let mut reader_id = buffer.new_reader_id();
    buffer.iter_write(Vec::new());
    let mut data = buffer.read(&mut reader_id);
    assert_eq!(None, data.next());
}
