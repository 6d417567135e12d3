use extsort::bucket::Bucket;

fn drain(b: &mut Bucket, n: usize) -> usize {
    let mut granted = 0;
    for _ in 0..n {
        if b.try_take() {
            granted += 1;
        }
    }
    granted
}

#[test]
fn gate_grants_up_to_capacity() {
    let mut b = Bucket::new(2);
    assert!(b.try_take());
    assert!(b.try_take());
    assert!(!b.try_take());
}

#[test]
fn gate_reopens_after_release() {
    let mut b = Bucket::new(1);
    assert!(b.try_take());
    assert!(!b.try_take());
    b.put();
    assert!(b.try_take());
    assert!(!b.try_take());
}

#[test]
fn gate_never_admits_more_than_capacity() {
    let mut b = Bucket::new(3);
    assert_eq!(drain(&mut b, 10), 3);
    b.put();
    b.put();
    assert_eq!(drain(&mut b, 10), 2);
}

#[test]
fn gate_single_slot_round_trips() {
    let mut b = Bucket::new(1);
    for _ in 0..5 {
        assert!(b.try_take());
        assert!(!b.try_take());
        b.put();
    }
}
