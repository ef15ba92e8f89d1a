use ffaa::history::History;
use ffaa::{BLOCK_SIZE, SAMPLES_SIZE};

fn block_of(values: impl Iterator<Item = u32>) -> Vec<u32> {
    let v: Vec<u32> = values.collect();
    assert_eq!(v.len(), BLOCK_SIZE);
    v
}

#[test]
fn test_history_partial_fill() {
    let mut h = History::new();
    assert_eq!(h.len(), 0);
    for b in 0..3u32 {
        let start = b * BLOCK_SIZE as u32;
        h.append_block(&block_of(start..start + BLOCK_SIZE as u32));
    }
    assert_eq!(h.len(), 3 * BLOCK_SIZE);
    let snap = h.snapshot();
    let expected: Vec<u32> = (0..3 * BLOCK_SIZE as u32).collect();
    assert_eq!(snap, expected);
}

#[test]
fn test_history_ring_eviction() {
    // 33 blocks of distinct samples: one block past capacity, so the window
    // must hold exactly samples 128..4224, oldest first.
    let mut h = History::new();
    for b in 0..33u32 {
        let start = b * BLOCK_SIZE as u32;
        h.append_block(&block_of(start..start + BLOCK_SIZE as u32));
        let fed = (b as usize + 1) * BLOCK_SIZE;
        assert_eq!(h.len(), fed.min(SAMPLES_SIZE));
    }
    let snap = h.snapshot();
    assert_eq!(snap.len(), SAMPLES_SIZE);
    let total = 33 * BLOCK_SIZE as u32;
    let expected: Vec<u32> = (total - SAMPLES_SIZE as u32..total).collect();
    assert_eq!(snap, expected);
}
