use qos_core::banking::order_key;
use qos_core::minmax::MinMaxHeap;

#[test]
fn max_capacity() {
    let mut heap = MinMaxHeap::<4>::new();

    assert!(heap.push(3).is_none());
    assert!(heap.push(1).is_none());
    assert!(heap.push(2).is_none());

    assert_eq!(heap.push(4), Some(1));
}

#[test]
fn get_max_values() {
    let mut heap = MinMaxHeap::<4>::new();

    assert!(heap.push(3).is_none());
    assert!(heap.push(1).is_none());
    assert!(heap.push(2).is_none());

    let values = heap.get_max_values();
    assert_eq!(values.get(0), Some(&3));
    assert_eq!(values.get(1), Some(&2));
    assert_eq!(values.get(2), Some(&1));
}

#[test]
fn drops_after() {
    let mut heap = MinMaxHeap::<4>::new();

    assert!(heap.push(3).is_none());
    assert!(heap.push(1).is_none());
    assert!(heap.push(2).is_none());

    assert_eq!(heap.pop_max(), Some(3));
    assert_eq!(heap.pop_max(), Some(2));
    assert_eq!(heap.len(), 1);
}

fn key(score: f64) -> u64 {
    order_key(score.to_bits())
}

#[test]
fn full_queue_drains_in_descending_order() {
    let mut heap = MinMaxHeap::<16384>::new();
    for s in 0..16384 {
        let r = heap.push(key(s as f64));
        if s < 16383 {
            assert!(r.is_none());
        } else {
            assert_eq!(r, Some(key(0.0)));
        }
    }
    assert_eq!(heap.len(), 16383);
    let drained = heap.get_max_values();
    assert_eq!(drained.len(), 16383);
    for (i, k) in drained.iter().enumerate() {
        assert_eq!(*k, key((16383 - i) as f64));
    }
    assert_eq!(heap.len(), 0);
}

#[test]
fn push_on_full_queue_returns_the_strict_minimum() {
    let mut heap = MinMaxHeap::<16384>::new();
    for s in 1..16384 {
        assert!(heap.push(key(s as f64)).is_none());
    }
    assert_eq!(heap.len(), 16383);
    assert_eq!(heap.push(key(16384.0)), Some(key(1.0)));
    assert_eq!(heap.push(key(-1.0)), Some(key(-1.0)));
    assert_eq!(heap.pop_max(), Some(key(16384.0)));
}

#[test]
fn order_key_follows_numeric_order() {
    let xs = [-1e9, -1.0, -0.5, 0.0, 1e-300, 0.1, 1.0, 2.0, 1e300];
    for w in xs.windows(2) {
        assert!(key(w[0]) < key(w[1]));
    }
    assert_eq!(order_key(0), 0x8000_0000_0000_0000);
    assert_eq!(order_key(0x8000_0000_0000_0000), 0x7fff_ffff_ffff_ffff);
}
