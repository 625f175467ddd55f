use axum::body::Bytes;
use segment_store::segment::{Segment, StreamStep};

fn chunk_at(segment: &Segment, position: usize) -> Bytes {
    match segment.stream(position) {
        StreamStep::Chunk(data) => data,
        StreamStep::Wait => panic!("reader waits at {}", position),
        StreamStep::End => panic!("reader ends at {}", position),
    }
}

fn read_to_end(segment: &Segment) -> Vec<Bytes> {
    let mut results = Vec::new();
    let mut position = 0;
    loop {
        match segment.stream(position) {
            StreamStep::Chunk(data) => {
                results.push(data);
                position += 1;
            }
            StreamStep::End => return results,
            StreamStep::Wait => panic!("an open segment never ends"),
        }
    }
}

#[test]
fn test_segment_single_chunk() {
    let mut segment = Segment::new();
    segment.add_chunk(Bytes::from("chunk"));

    assert_eq!(chunk_at(&segment, 0), Bytes::from("chunk"));
}

#[test]
fn test_segment_multiple_chunks() {
    let mut segment = Segment::new();
    segment.add_chunk(Bytes::from("first chunk"));
    segment.add_chunk(Bytes::from("second chunk"));

    assert_eq!(chunk_at(&segment, 0), Bytes::from("first chunk"));
    assert_eq!(chunk_at(&segment, 1), Bytes::from("second chunk"));
}

#[test]
fn test_segment_closed_stops_stream() {
    let mut segment = Segment::new();
    segment.add_chunk(Bytes::from("chunk"));
    segment.close();

    assert_eq!(chunk_at(&segment, 0), Bytes::from("chunk"));
    assert!(matches!(segment.stream(1), StreamStep::End));
}

#[test]
fn test_segment_concurrent_readers() {
    let mut segment = Segment::new();
    segment.add_chunk(Bytes::from("first chunk"));
    segment.add_chunk(Bytes::from("second chunk"));
    segment.close();

    // Two readers, each with a position of its own.
    let reader_1 = read_to_end(&segment);
    let reader_2 = read_to_end(&segment);

    assert_eq!(reader_1.len(), 2);
    assert_eq!(reader_2.len(), 2);
}

#[test]
fn test_segment_streaming() {
    let mut segment = Segment::new();

    // Nothing written yet: the reader waits.
    assert!(matches!(segment.stream(0), StreamStep::Wait));

    segment.add_chunk(Bytes::from("chunk"));

    assert_eq!(chunk_at(&segment, 0), Bytes::from("chunk"));
}

#[test]
fn test_segment_large_data() {
    let mut segment = Segment::new();
    let large_data = Bytes::from(vec![0u8; 1024 * 1024]);

    segment.add_chunk(large_data.clone());

    let chunk = chunk_at(&segment, 0);

    assert_eq!(chunk.len(), 1024 * 1024);
}

#[test]
fn new_segment_is_open_and_empty() {
    let segment = Segment::new();
    assert_eq!(segment.num_chunks(), 0);
    assert!(!segment.is_closed());
    assert!(matches!(segment.stream(0), StreamStep::Wait));
}

#[test]
fn read_gives_back_what_was_written() {
    let mut segment = Segment::new();
    segment.add_chunk(Bytes::from("a"));
    // A reader at the end waits, then gets the chunk written next.
    assert!(matches!(segment.stream(1), StreamStep::Wait));
    segment.add_chunk(Bytes::from("bc"));
    assert_eq!(chunk_at(&segment, 1), Bytes::from("bc"));
    assert_eq!(segment.num_chunks(), 2);
}

#[test]
fn chunks_stay_as_written() {
    let mut segment = Segment::new();
    segment.add_chunk(Bytes::from("x"));
    let before = chunk_at(&segment, 0);
    segment.add_chunk(Bytes::from("y"));
    segment.close();
    assert_eq!(chunk_at(&segment, 0), before);
    assert_eq!(chunk_at(&segment, 0), Bytes::from("x"));
}

#[test]
fn close_ends_waiting_readers() {
    let mut segment = Segment::new();
    segment.add_chunk(Bytes::from("x"));
    assert!(matches!(segment.stream(1), StreamStep::Wait));
    segment.close();
    assert!(segment.is_closed());
    assert!(matches!(segment.stream(1), StreamStep::End));
    assert!(matches!(segment.stream(7), StreamStep::End));
}

#[test]
fn closed_segment_reads_in_order() {
    let mut segment = Segment::new();
    for i in 0..5u8 {
        segment.add_chunk(Bytes::from(vec![i, i]));
    }
    segment.close();
    let read = read_to_end(&segment);
    assert_eq!(read.len(), 5);
    for (i, chunk) in read.iter().enumerate() {
        assert_eq!(chunk, &Bytes::from(vec![i as u8, i as u8]));
    }
}

#[test]
fn closed_segment_still_takes_chunks() {
    let mut segment = Segment::new();
    segment.close();
    assert!(matches!(segment.stream(0), StreamStep::End));
    segment.add_chunk(Bytes::from("late"));
    assert_eq!(chunk_at(&segment, 0), Bytes::from("late"));
    assert!(matches!(segment.stream(1), StreamStep::End));
}

#[test]
fn empty_chunk_is_a_chunk() {
    let mut segment = Segment::new();
    segment.add_chunk(Bytes::new());
    assert_eq!(chunk_at(&segment, 0).len(), 0);
    assert!(matches!(segment.stream(1), StreamStep::Wait));
}
