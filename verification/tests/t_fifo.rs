use tfifo::t_fifo::TFifo;

#[test]
fn in_order() {
    let mut fifo = TFifo::default();

    fifo.insert(1, 1);
    fifo.insert(2, 2);
    fifo.insert(2, 22);
    fifo.insert(3, 3);

    assert_eq!(fifo.len(), 4);

    assert_eq!(fifo.peek(), Some((&1, &1)));
    assert_eq!(fifo.pop(), Some((1, 1)));
    assert_eq!(fifo.peek(), Some((&2, &2)));
    assert_eq!(fifo.pop(), Some((2, 2)));
    assert_eq!(fifo.peek(), Some((&2, &22)));
    assert_eq!(fifo.pop(), Some((2, 22)));
    assert_eq!(fifo.peek(), Some((&3, &3)));
    assert_eq!(fifo.pop(), Some((3, 3)));
    assert_eq!(fifo.peek(), None);
    assert_eq!(fifo.pop(), None);

    assert!(fifo.is_empty());
}

#[test]
fn disorder() {
    let mut fifo = TFifo::default();

    fifo.insert(3, 3);
    fifo.insert(1, 1);
    fifo.insert(1, 11);
    fifo.insert(2, 2);

    assert_eq!(fifo.len(), 4);

    assert_eq!(fifo.peek(), Some((&1, &1)));
    assert_eq!(fifo.pop(), Some((1, 1)));
    assert_eq!(fifo.peek(), Some((&1, &11)));
    assert_eq!(fifo.pop(), Some((1, 11)));
    assert_eq!(fifo.peek(), Some((&2, &2)));
    assert_eq!(fifo.pop(), Some((2, 2)));
    assert_eq!(fifo.peek(), Some((&3, &3)));
    assert_eq!(fifo.pop(), Some((3, 3)));
    assert_eq!(fifo.peek(), None);
    assert_eq!(fifo.pop(), None);

    assert!(fifo.is_empty());
}

#[test]
fn disorder_2() {
    let mut fifo = TFifo::default();

    fifo.insert(1, 1);
    fifo.insert(3, 3);
    fifo.insert(2, 2);

    assert_eq!(fifo.len(), 3);

    assert_eq!(fifo.peek(), Some((&1, &1)));
    assert_eq!(fifo.pop(), Some((1, 1)));
    assert_eq!(fifo.peek(), Some((&2, &2)));
    assert_eq!(fifo.pop(), Some((2, 2)));
    assert_eq!(fifo.peek(), Some((&3, &3)));
    assert_eq!(fifo.pop(), Some((3, 3)));
    assert_eq!(fifo.peek(), None);
    assert_eq!(fifo.pop(), None);

    assert!(fifo.is_empty());
}

#[test]
fn ascending_release() {
    let mut fifo = TFifo::new();

    fifo.insert(1, 1);
    fifo.insert(2, 2);
    fifo.insert(3, 3);

    assert_eq!(fifo.pop(), Some((1, 1)));
    assert_eq!(fifo.pop(), Some((2, 2)));
    assert_eq!(fifo.pop(), Some((3, 3)));
    assert_eq!(fifo.pop(), None);
    assert!(fifo.is_empty());
}

#[test]
fn descending_release() {
    let mut fifo = TFifo::new();

    fifo.insert(3, 3);
    fifo.insert(1, 1);
    fifo.insert(2, 2);

    assert_eq!(fifo.pop(), Some((1, 1)));
    assert_eq!(fifo.pop(), Some((2, 2)));
    assert_eq!(fifo.pop(), Some((3, 3)));
    assert_eq!(fifo.pop(), None);
}

#[test]
fn empty_queue() {
    let mut fifo: TFifo<u32> = TFifo::new();

    assert_eq!(fifo.len(), 0);
    assert!(fifo.is_empty());
    assert_eq!(fifo.peek(), None);
    assert_eq!(fifo.pop(), None);
    assert!(fifo.is_empty());
}

// Equal keys stay first-in first-out even across the two tiers: a pair that
// arrives out of order while the fast path already holds its key is emitted
// after the earlier pair.
#[test]
fn cross_tier_tie() {
    let mut fifo = TFifo::new();

    fifo.insert(2, 10);
    fifo.insert(3, 30);
    fifo.insert(2, 20);

    assert_eq!(fifo.pop(), Some((2, 10)));
    assert_eq!(fifo.pop(), Some((2, 20)));
    assert_eq!(fifo.pop(), Some((3, 30)));
    assert_eq!(fifo.pop(), None);
}

// Equal keys inside the slow-path tier come back first-in first-out.
#[test]
fn slow_path_fifo() {
    let mut fifo = TFifo::new();

    fifo.insert(9, 90);
    fifo.insert(4, 41);
    fifo.insert(4, 42);
    fifo.insert(4, 43);

    assert_eq!(fifo.pop(), Some((4, 41)));
    assert_eq!(fifo.pop(), Some((4, 42)));
    assert_eq!(fifo.pop(), Some((4, 43)));
    assert_eq!(fifo.pop(), Some((9, 90)));
}

#[test]
fn interleaved_operations() {
    let mut fifo = TFifo::new();

    fifo.insert(5, 50);
    assert_eq!(fifo.pop(), Some((5, 50)));
    assert!(fifo.is_empty());

    fifo.insert(3, 30);
    fifo.insert(4, 40);
    assert_eq!(fifo.pop(), Some((3, 30)));

    fifo.insert(2, 20);
    assert_eq!(fifo.len(), 2);
    assert_eq!(fifo.pop(), Some((2, 20)));
    assert_eq!(fifo.pop(), Some((4, 40)));
    assert_eq!(fifo.pop(), None);
}

// Draining after any insertion order is a stable sort by key: keys never
// decrease, equal keys keep insertion order (the values are the insertion
// indices), and the count always equals inserts minus pops.
#[test]
fn drain_is_sorted() {
    let mut fifo = TFifo::new();
    let keys: [u64; 12] = [8, 3, 9, 3, 15, 1, 15, 2, 40, 7, 7, 0];

    for (i, k) in keys.iter().enumerate() {
        fifo.insert(*k, i);
        assert_eq!(fifo.len(), i + 1);
    }

    let mut popped = Vec::new();
    while let Some(p) = fifo.pop() {
        popped.push(p);
        assert_eq!(fifo.len(), keys.len() - popped.len());
    }

    assert_eq!(popped.len(), keys.len());
    for w in popped.windows(2) {
        assert!(w[0].0 < w[1].0 || (w[0].0 == w[1].0 && w[0].1 < w[1].1));
    }
}

// Four pairs of one key, split across both tiers by a larger key in between,
// still come back in insertion order.
#[test]
fn equal_key_fifo_across_tiers() {
    let mut fifo = TFifo::new();

    fifo.insert(2, 1);
    fifo.insert(2, 2);
    fifo.insert(5, 9);
    fifo.insert(2, 3);
    fifo.insert(2, 4);

    assert_eq!(fifo.pop(), Some((2, 1)));
    assert_eq!(fifo.pop(), Some((2, 2)));
    assert_eq!(fifo.pop(), Some((2, 3)));
    assert_eq!(fifo.pop(), Some((2, 4)));
    assert_eq!(fifo.pop(), Some((5, 9)));
    assert_eq!(fifo.pop(), None);
}

// peek reports exactly the pair the next pop removes, and repeating it
// without mutation changes nothing.
#[test]
fn peek_agrees_with_pop() {
    let mut fifo = TFifo::new();

    fifo.insert(6, 60);
    fifo.insert(2, 20);
    fifo.insert(4, 40);

    while !fifo.is_empty() {
        let first = fifo.peek().map(|(k, v)| (*k, *v));
        let again = fifo.peek().map(|(k, v)| (*k, *v));
        assert_eq!(first, again);
        assert_eq!(fifo.pop(), first);
    }
    assert_eq!(fifo.peek(), None);
}
