use disk_destroyer::chunk::IoQueue;

fn push_all(q: &mut IoQueue, bufs: &[&[u8]]) -> Vec<Vec<u8>> {
    let mut out = Vec::new();
    for b in bufs {
        let emitted = q.push(b.to_vec());
        out.extend(emitted);
    }
    out
}

fn concat(blocks: &[Vec<u8>]) -> Vec<u8> {
    let mut all = Vec::new();
    for b in blocks {
        all.extend_from_slice(b);
    }
    all
}

#[test]
fn exact_block_passes_through() {
    let mut q = IoQueue::new(4);
    let out = q.push(vec![1, 2, 3, 4]);
    assert_eq!(out, vec![vec![1, 2, 3, 4]]);
    assert_eq!(q.finalize(), None);
}

#[test]
fn short_buffers_accumulate() {
    let mut q = IoQueue::new(4);
    assert_eq!(q.push(vec![1, 2]), Vec::<Vec<u8>>::new());
    assert_eq!(q.push(vec![3]), Vec::<Vec<u8>>::new());
    let out = q.push(vec![4, 5]);
    assert_eq!(out, vec![vec![1, 2, 3, 4]]);
    assert_eq!(q.finalize(), Some(vec![5]));
}

#[test]
fn long_buffer_splits() {
    let mut q = IoQueue::new(3);
    let out = q.push(vec![0, 1, 2, 3, 4, 5, 6, 7]);
    assert_eq!(out, vec![vec![0, 1, 2], vec![3, 4, 5]]);
    assert_eq!(q.finalize(), Some(vec![6, 7]));
}

#[test]
fn zero_length_push_emits_nothing() {
    let mut q = IoQueue::new(4);
    assert_eq!(q.push(vec![9, 9]), Vec::<Vec<u8>>::new());
    assert_eq!(q.push(Vec::new()), Vec::<Vec<u8>>::new());
    assert_eq!(q.finalize(), Some(vec![9, 9]));
}

#[test]
fn finalize_on_empty_queue_is_none() {
    let mut q = IoQueue::new(8);
    assert_eq!(q.finalize(), None);
    assert_eq!(q.finalize(), None);
}

#[test]
fn finalize_runs_once() {
    let mut q = IoQueue::new(4);
    let _ = q.push(vec![1, 2, 3]);
    assert_eq!(q.finalize(), Some(vec![1, 2, 3]));
    assert_eq!(q.finalize(), None);
}

#[test]
fn rechunking_fidelity_mixed_lengths() {
    // Lengths include zero and non-multiples of the block size.
    let bufs: [&[u8]; 5] = [b"abc", b"", b"defgh", b"i", b"jklmnop"];
    let mut q = IoQueue::new(4);
    let mut blocks = push_all(&mut q, &bufs);
    let flush = q.finalize();
    for b in &blocks {
        assert_eq!(b.len(), 4);
    }
    if let Some(tail) = flush {
        assert!(tail.len() > 0 && tail.len() < 4);
        blocks.push(tail);
    }
    assert_eq!(concat(&blocks), b"abcdefghijklmnop".to_vec());
}

#[test]
fn fidelity_when_every_push_is_short() {
    let bufs: [&[u8]; 4] = [b"a", b"b", b"c", b"d"];
    let mut q = IoQueue::new(16);
    let blocks = push_all(&mut q, &bufs);
    assert!(blocks.is_empty());
    assert_eq!(q.finalize(), Some(b"abcd".to_vec()));
}
