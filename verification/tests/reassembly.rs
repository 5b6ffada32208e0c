use ordered_pipeline::fragment::{stamp_all, Fragment};
use ordered_pipeline::reassembler::{reassemble, sort_by_sequence};
use ordered_pipeline::reorder::{Reorder, StreamingReassembler};

fn fragment(sequence: u64, payload: &str) -> Fragment<String> {
    Fragment::new(sequence, payload.to_string())
}

#[test]
fn fragment_keeps_its_sequence_number() {
    let first = Fragment::new(4, vec![1u8, 2]);
    assert_eq!(first.sequence(), 4);
    let next = first.with_payload(vec![9u8]);
    assert_eq!(next.sequence, 4);
    assert_eq!(next.into_payload(), vec![9u8]);
}

#[test]
fn stamping_numbers_from_zero() {
    let stamped = stamp_all(vec!['a', 'b', 'c']);
    assert_eq!(stamped, vec![Fragment::new(0, 'a'), Fragment::new(1, 'b'), Fragment::new(2, 'c')]);
    assert!(stamp_all(Vec::<u8>::new()).is_empty());
}

#[test]
fn sort_restores_sequence_order() {
    let arrivals = vec![fragment(3, "d"), fragment(0, "a"), fragment(2, "c"), fragment(1, "b")];
    let sorted = sort_by_sequence(arrivals);
    let text: Vec<&str> = sorted.iter().map(|f| f.payload.as_str()).collect();
    assert_eq!(text, vec!["a", "b", "c", "d"]);
    let numbers: Vec<u64> = sorted.iter().map(|f| f.sequence).collect();
    assert_eq!(numbers, vec![0, 1, 2, 3]);
}

#[test]
fn sort_of_nothing_and_of_one() {
    assert!(sort_by_sequence(Vec::<Fragment<u8>>::new()).is_empty());
    assert_eq!(sort_by_sequence(vec![Fragment::new(9, 1u8)]), vec![Fragment::new(9, 1u8)]);
}

#[test]
fn sort_keeps_arrival_order_of_equal_numbers() {
    let arrivals = vec![
        fragment(1, "first"),
        fragment(0, "zero"),
        fragment(1, "second"),
        fragment(1, "third"),
        fragment(0, "again"),
    ];
    let sorted = sort_by_sequence(arrivals);
    let text: Vec<&str> = sorted.iter().map(|f| f.payload.as_str()).collect();
    assert_eq!(text, vec!["zero", "again", "first", "second", "third"]);
}

#[test]
fn two_interleavings_give_identical_output() {
    let forward: Vec<Fragment<Vec<u8>>> = (0u8..20).map(|i| Fragment::new(i as u64, vec![i; 3])).collect();
    let mut lane_major = Vec::new();
    for lane in 0..3u8 {
        for i in (0u8..20).filter(|i| i % 3 == lane) {
            lane_major.push(Fragment::new(i as u64, vec![i; 3]));
        }
    }
    let mut backward: Vec<Fragment<Vec<u8>>> =
        (0u8..20).rev().map(|i| Fragment::new(i as u64, vec![i; 3])).collect();
    backward.swap(3, 11);
    let first = sort_by_sequence(lane_major);
    let second = sort_by_sequence(backward);
    assert_eq!(first, second);
    assert_eq!(first, forward);
}

#[test]
fn sort_of_many_fragments() {
    // A fixed scrambling: 7 is coprime to 1000.
    let arrivals: Vec<Fragment<u32>> =
        (0u64..1000).map(|i| Fragment::new((i * 7) % 1000, ((i * 7) % 1000) as u32)).collect();
    let sorted = sort_by_sequence(arrivals);
    for (place, item) in sorted.iter().enumerate() {
        assert_eq!(item.sequence, place as u64);
        assert_eq!(item.payload, place as u32);
    }
}

#[test]
fn reorder_buffer_stores_by_sequence() {
    let mut buffer = Reorder::new();
    assert_eq!(buffer.len(), 0);
    buffer.enqueue(fragment(5, "five"));
    buffer.enqueue(fragment(2, "two"));
    assert!(buffer.contains(5));
    assert!(!buffer.contains(3));
    assert_eq!(buffer.remove(3), None);
    assert_eq!(buffer.remove(5), Some(fragment(5, "five")));
    assert_eq!(buffer.remove(5), None);
    assert_eq!(buffer.len(), 1);
    buffer.enqueue(fragment(2, "two again"));
    assert_eq!(buffer.len(), 1);
    assert_eq!(buffer.remove(2), Some(fragment(2, "two again")));
}

#[test]
fn streaming_reassembler_releases_contiguous_runs() {
    let mut stream = StreamingReassembler::new();
    assert_eq!(stream.expected_next(), 0);
    assert!(stream.accept(fragment(2, "c")).is_empty());
    assert!(stream.accept(fragment(1, "b")).is_empty());
    assert_eq!(stream.pending(), 2);
    let run = stream.accept(fragment(0, "a"));
    assert_eq!(run, vec![fragment(0, "a"), fragment(1, "b"), fragment(2, "c")]);
    assert_eq!(stream.expected_next(), 3);
    assert_eq!(stream.pending(), 0);
    assert_eq!(stream.accept(fragment(3, "d")), vec![fragment(3, "d")]);
    assert!(stream.accept(fragment(5, "f")).is_empty());
    assert_eq!(stream.accept(fragment(4, "e")), vec![fragment(4, "e"), fragment(5, "f")]);
    assert_eq!(stream.expected_next(), 6);
}

#[test]
fn streaming_reassembler_is_order_independent() {
    let orders: [[u64; 6]; 3] = [[0, 1, 2, 3, 4, 5], [5, 4, 3, 2, 1, 0], [3, 0, 5, 1, 4, 2]];
    for order in orders {
        let mut stream = StreamingReassembler::new();
        let mut output = Vec::new();
        for number in order {
            output.extend(stream.accept(Fragment::new(number, number * 10)));
        }
        let expected: Vec<Fragment<u64>> = (0..6).map(|i| Fragment::new(i, i * 10)).collect();
        assert_eq!(output, expected);
    }
}

#[test]
fn streaming_reassembler_holds_back_a_late_duplicate() {
    let mut stream = StreamingReassembler::new();
    assert_eq!(stream.accept(fragment(0, "a")).len(), 1);
    // Number 0 has left already: a second fragment 0 never leaves.
    assert!(stream.accept(fragment(0, "late")).is_empty());
    assert_eq!(stream.pending(), 1);
    assert_eq!(stream.accept(fragment(1, "b")), vec![fragment(1, "b")]);
}

#[test]
fn reassemble_hands_out_payloads_in_sequence_order() {
    let arrivals = vec![fragment(2, "c"), fragment(0, "a"), fragment(1, "b")];
    assert_eq!(reassemble(arrivals), vec!["a", "b", "c"]);
    assert!(reassemble(Vec::<Fragment<u8>>::new()).is_empty());
}
