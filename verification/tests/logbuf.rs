use esp_monitor::logbuf::RingBuffer;

#[test]
fn push_assigns_increasing_seq() {
    let mut rb = RingBuffer::new(100, 10_000);
    let s0 = rb.push("a".into());
    let s1 = rb.push("b".into());
    let s2 = rb.push("c".into());
    assert_eq!((s0, s1, s2), (0, 1, 2));
}

#[test]
fn evicts_oldest_when_line_cap_exceeded() {
    let mut rb = RingBuffer::new(2, 10_000);
    rb.push("a".into());
    rb.push("b".into());
    rb.push("c".into());
    let tail: Vec<_> = rb.tail(10).into_iter().map(|e| e.text).collect();
    assert_eq!(tail, vec!["b", "c"]);
    assert_eq!(rb.len(), 2);
}

#[test]
fn evicts_oldest_when_byte_cap_exceeded() {
    let mut rb = RingBuffer::new(100, 5);
    rb.push("aaa".into()); // 3 bytes
    rb.push("bbb".into()); // 3 bytes, total 6 > 5, evict "aaa"
    let tail: Vec<_> = rb.tail(10).into_iter().map(|e| e.text).collect();
    assert_eq!(tail, vec!["bbb"]);
}

#[test]
fn tail_returns_oldest_first() {
    let mut rb = RingBuffer::new(100, 10_000);
    for c in ["a", "b", "c", "d"] {
        rb.push(c.into());
    }
    let tail: Vec<_> = rb.tail(2).into_iter().map(|e| e.text).collect();
    assert_eq!(tail, vec!["c", "d"]);
}

#[test]
fn tail_larger_than_buffer_returns_everything() {
    let mut rb = RingBuffer::new(100, 10_000);
    rb.push("a".into());
    rb.push("b".into());
    assert_eq!(rb.tail(50).len(), 2);
}

#[test]
fn since_returns_only_newer_entries() {
    let mut rb = RingBuffer::new(100, 10_000);
    let s0 = rb.push("a".into());
    rb.push("b".into());
    rb.push("c".into());
    let newer: Vec<_> = rb.since(s0).into_iter().map(|e| e.text).collect();
    assert_eq!(newer, vec!["b", "c"]);
}

#[test]
fn since_with_newest_seq_returns_empty() {
    let mut rb = RingBuffer::new(100, 10_000);
    rb.push("a".into());
    let last = rb.push("b".into());
    assert!(rb.since(last).is_empty());
}

#[test]
fn is_truncated_true_when_unread_entry_was_evicted() {
    // Caller has seen up through "a" (seq 0) and hasn't read "b" (seq 1)
    // yet. If "b" gets evicted before the caller polls again, that's a
    // real gap in what since(0) can return.
    let mut rb = RingBuffer::new(2, 10_000);
    let s0 = rb.push("a".into());
    rb.push("b".into());
    rb.push("c".into()); // evicts "a"
    rb.push("d".into()); // evicts "b" — now there's a real gap
    assert!(rb.is_truncated(s0));
}

#[test]
fn is_truncated_false_when_evicted_entry_was_already_seen() {
    // Caller has seen through "a" (seq 0); "a" itself being evicted
    // doesn't lose anything the caller still needed.
    let mut rb = RingBuffer::new(2, 10_000);
    let s0 = rb.push("a".into());
    rb.push("b".into());
    rb.push("c".into()); // evicts "a", but since(0) == [b, c] intact
    assert!(!rb.is_truncated(s0));
}

#[test]
fn is_truncated_false_when_history_intact() {
    let mut rb = RingBuffer::new(100, 10_000);
    let s0 = rb.push("a".into());
    rb.push("b".into());
    assert!(!rb.is_truncated(s0));
}

#[test]
fn is_truncated_false_on_buffer_that_was_never_pushed_to() {
    let rb = RingBuffer::new(100, 10_000);
    assert!(!rb.is_truncated(0));
    assert!(!rb.is_truncated(1000));
}

#[test]
fn clear_empties_buffer_but_keeps_seq_counter_moving() {
    let mut rb = RingBuffer::new(100, 10_000);
    rb.push("a".into());
    rb.push("b".into());
    let cleared = rb.clear();
    assert_eq!(cleared, 2);
    assert!(rb.is_empty());
    let next = rb.push("c".into());
    assert_eq!(next, 2, "seq must not reset/collide after clear");
}

#[test]
fn newest_and_oldest_seq_track_buffer_contents() {
    let mut rb = RingBuffer::new(2, 10_000);
    assert_eq!(rb.newest_seq(), None);
    assert_eq!(rb.oldest_seq(), None);
    rb.push("a".into());
    rb.push("b".into());
    rb.push("c".into()); // evicts "a" (seq 0)
    assert_eq!(rb.oldest_seq(), Some(1));
    assert_eq!(rb.newest_seq(), Some(2));
}

#[test]
fn byte_cap_counts_bytes_not_characters() {
    let mut rb = RingBuffer::new(100, 4);
    rb.push("\u{fc}".into()); // 2 bytes
    rb.push("\u{1F980}".into()); // 4 bytes, evicts the first
    let tail: Vec<_> = rb.tail(10).into_iter().map(|e| e.text).collect();
    assert_eq!(tail, vec!["\u{1F980}"]);
}

#[test]
fn line_larger_than_the_byte_cap_leaves_the_buffer_empty() {
    let mut rb = RingBuffer::new(100, 3);
    rb.push("ab".into());
    assert_eq!(rb.push("abcd".into()), 1);
    assert!(rb.is_empty());
    assert!(rb.is_truncated(0));
    assert!(!rb.is_truncated(1));
    assert_eq!(rb.push("x".into()), 2);
    assert_eq!(rb.len(), 1);
}

#[test]
fn zero_line_cap_keeps_nothing() {
    let mut rb = RingBuffer::new(0, 100);
    rb.push("a".into());
    assert!(rb.is_empty());
    assert_eq!(rb.capacity_lines(), 0);
    assert_eq!(rb.next_seq(), 1);
}

#[test]
fn polling_sees_each_line_once() {
    let mut rb = RingBuffer::new(3, 1000);
    let mut cursor = rb.push("first".into());
    let mut seen = vec!["first".to_string()];
    for n in 0..5 {
        rb.push(format!("{n}a"));
        rb.push(format!("{n}b"));
        assert!(!rb.is_truncated(cursor));
        for e in rb.since(cursor) {
            cursor = e.seq;
            seen.push(e.text);
        }
    }
    assert_eq!(
        seen,
        vec!["first", "0a", "0b", "1a", "1b", "2a", "2b", "3a", "3b", "4a", "4b"]
    );
}

#[test]
fn clear_makes_unread_lines_a_gap() {
    let mut rb = RingBuffer::new(10, 1000);
    let s0 = rb.push("a".into());
    let s1 = rb.push("b".into());
    rb.clear();
    assert!(rb.is_truncated(s0));
    assert!(!rb.is_truncated(s1));
}

#[test]
fn the_highest_number_is_never_truncated() {
    let mut rb = RingBuffer::new(1, 1000);
    rb.push("a".into());
    rb.push("b".into());
    assert!(!rb.is_truncated(u64::MAX));
    assert!(rb.since(u64::MAX).is_empty());
}

#[test]
fn tail_of_nothing_is_empty() {
    let mut rb = RingBuffer::new(10, 1000);
    rb.push("a".into());
    assert!(rb.tail(0).is_empty());
}

#[test]
fn pushing_and_clearing_keeps_to_the_caps_and_the_numbering() {
    let mut rb = RingBuffer::new(3, 10);
    let mut pushes = 0;
    for (i, text) in ["aaaa", "bb", "cccccc", "d", "eeeeeeeeeee", "f", "g"].iter().enumerate() {
        rb.push(text.to_string());
        pushes += 1;
        if i == 3 {
            rb.clear();
        }
        let e = rb.tail(usize::MAX);
        assert!(e.len() <= 3);
        assert!(e.iter().map(|e| e.text.len()).sum::<usize>() <= 10);
        assert!(e.windows(2).all(|w| w[1].seq == w[0].seq + 1));
        assert!(e.last().map_or(true, |e| e.seq == pushes - 1));
    }
    assert_eq!(rb.len(), 2);
}
