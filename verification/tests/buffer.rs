use angry_snakes::tick_buffer::TickBuffer;

#[test]
fn overflow() {
    const S: usize = 50;
    let mut tb: TickBuffer<S> = TickBuffer::new();
    for _ in 0..(S * 5000) {
        let curr = tb.current();
        tb.next();
        let mut i = 1;
        while let Some(x) = tb.since(curr) {
            assert_eq!(x, i);
            tb.next();
            i += 1;
        }
    }
}

#[test]
fn expiry_after_full_rotation() {
    // With capacity 3 the lookback window is 2 deep: after minting three
    // more identifiers, the first one has been overwritten and expired.
    let mut tb: TickBuffer<3> = TickBuffer::new();
    let v0 = tb.next();
    tb.next();
    tb.next();
    tb.next();
    assert_eq!(tb.since(v0), None);
}

#[test]
fn since_finds_recent_values() {
    let mut tb: TickBuffer<4> = TickBuffer::new();
    let v0 = tb.next();
    assert_eq!(tb.since(v0), Some(1));
    let v1 = tb.next();
    assert_eq!(tb.since(v1), Some(1));
    assert_eq!(tb.since(v0), Some(2));
}

#[test]
fn current_peeks_without_mutating() {
    let mut tb: TickBuffer<5> = TickBuffer::new();
    let peeked = tb.current();
    assert_eq!(tb.current(), peeked);
    assert_eq!(tb.next(), peeked);
}
