use aulon::dispatch::pick_index;
use aulon::worker::RANDOM_SEED;
use aulon::{ConnectionId, Reader, Worker, WriterStep};

#[test]
fn picks_follow_the_xorshift_stream() {
    let mut s: u64 = 1;
    // 1 -> 1 ^ (1 << 13) = 0x2001; ^ (0x2001 >> 7) = 0x2041; ^ (0x2041 << 17).
    assert_eq!(pick_index(&mut s, 10), (0x4082_2041u64 % 10) as usize);
    assert_eq!(s, 0x4082_2041);
}

#[test]
fn picks_are_within_the_group_and_never_stick() {
    let mut s = RANDOM_SEED;
    let mut hits = [0u32; 3];
    for _ in 0..3000 {
        hits[pick_index(&mut s, 3)] += 1;
        assert_ne!(s, 0);
    }
    assert!(hits.iter().all(|h| *h > 800));
    assert_eq!(pick_index(&mut s, 1), 0);
}

#[test]
fn every_plain_subscriber_and_one_of_each_group_receive() {
    let mut w = Worker::new();
    let mut readers: Vec<Reader> = Vec::new();
    for i in 0..40u32 {
        let id = w.next_id();
        w.accept(id);
        let mut reader = Reader::new(id);
        let line = if i % 2 == 0 {
            format!("SUB news {i}\r\n")
        } else {
            format!("SUB news g{} {i}\r\n", i % 7)
        };
        assert!(w.receive(&mut reader, line.as_bytes()));
        readers.push(reader);
    }
    let mut first_picked: u32 = 0;
    for _ in 0..50 {
        assert!(w.receive(&mut readers[0], b"PUB news 2\r\nhi\r\n"));
        let mut of_group = [0u32; 7];
        for i in 0..40u32 {
            let mut buf = [0u8; 64];
            let step = w.write_next(ConnectionId::new(i), &mut buf);
            let message = format!("MSG news {i} 2\r\nhi\r\n");
            match step {
                Some(WriterStep::Write(n)) => {
                    assert_eq!(&buf[..n], message.as_bytes());
                    if i % 2 == 1 {
                        of_group[usize::try_from(i % 7).unwrap()] += 1;
                        if i == 1 {
                            first_picked += 1;
                        }
                    }
                }
                other => {
                    assert_eq!(other, Some(WriterStep::Wait));
                    assert_eq!(i % 2, 1, "a subscriber without a group was left out");
                }
            }
        }
        assert_eq!(of_group, [1; 7]);
    }
    // The first member of a group of three is not always the one.
    assert!(first_picked > 0 && first_picked < 50);
}
