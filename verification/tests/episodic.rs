use tso_engine::episodic::{ContextBuffer, EpisodicMemory};

#[test]
fn store_counts_episodes() {
    let mut m = EpisodicMemory::new(16);
    assert_eq!(m.len(), 0);
    m.store(&[1, 2, 3]);
    m.store(&[4, 5]);
    assert_eq!(m.len(), 2);
    assert_eq!(m.get_sequence(0), Some(&[1usize, 2, 3][..]));
    assert_eq!(m.get_sequence(1), Some(&[4usize, 5][..]));
    assert_eq!(m.get_sequence(2), None);
}

#[test]
fn recall_follows_matching_prefix() {
    let mut m = EpisodicMemory::new(16);
    m.store(&[1, 2, 3]);
    m.store(&[4, 5]);
    assert_eq!(m.recall(&[9, 1]), Some(2));
    assert_eq!(m.recall(&[1, 2]), Some(3));
    assert_eq!(m.recall(&[4]), Some(5));
    assert_eq!(m.recall(&[7]), None);
    assert_eq!(m.recall(&[]), None);
}

#[test]
fn recall_prefers_longest_overlap() {
    let mut m = EpisodicMemory::new(16);
    m.store(&[2, 5]);
    m.store(&[1, 2, 9]);
    // [2] overlaps the first episode by one id, [1, 2] the second by two.
    assert_eq!(m.recall(&[1, 2]), Some(9));
}

#[test]
fn recall_breaks_ties_by_first_episode() {
    let mut m = EpisodicMemory::new(16);
    m.store(&[5, 6]);
    m.store(&[5, 7]);
    assert_eq!(m.recall(&[5]), Some(6));
}

#[test]
fn recall_never_uses_last_id_as_prefix() {
    let mut m = EpisodicMemory::new(16);
    m.store(&[1, 2]);
    // The whole episode [1, 2] would leave nothing to predict.
    assert_eq!(m.recall(&[1, 2]), None);
    assert_eq!(m.recall(&[3, 1]), Some(2));
}

#[test]
fn short_episodes_are_ignored_by_recall() {
    let mut m = EpisodicMemory::new(16);
    m.store(&[1]);
    m.store(&[]);
    assert_eq!(m.recall(&[1]), None);
}

#[test]
fn remap_renames_and_drops_ids() {
    let mut m = EpisodicMemory::new(16);
    m.store(&[1, 2, 3]);
    m.store(&[4, 5]);
    let mapping = vec![None, Some(0), Some(1), None, Some(2), Some(3)];
    m.remap(&mapping);
    assert_eq!(m.len(), 2);
    assert_eq!(m.get_sequence(0), Some(&[0usize, 1][..]));
    assert_eq!(m.get_sequence(1), Some(&[2usize, 3][..]));
}

#[test]
fn remap_prunes_short_episodes() {
    let mut m = EpisodicMemory::new(16);
    m.store(&[1, 2, 3]);
    m.store(&[4, 5]);
    m.store(&[1, 1, 9]);
    // ids beyond the mapping have no image
    let mapping = vec![None, Some(7)];
    m.remap(&mapping);
    assert_eq!(m.len(), 1);
    assert_eq!(m.get_sequence(0), Some(&[7usize, 7][..]));
}

#[test]
fn remap_twice_equals_remap_by_composition() {
    let f = vec![Some(2), Some(0), None, Some(1)];
    let g = vec![Some(5), None, Some(4)];
    // composition: 0 -> 2 -> 4, 1 -> 0 -> 5, 2 -> none, 3 -> 1 -> none
    let fg = vec![Some(4), Some(5), None, None];
    let mut a = EpisodicMemory::new(8);
    let mut b = EpisodicMemory::new(8);
    for s in [&[0usize, 1, 3, 0][..], &[3, 2, 1][..], &[1, 0][..]] {
        a.store(s);
        b.store(s);
    }
    a.remap(&f);
    a.remap(&g);
    b.remap(&fg);
    assert_eq!(a.len(), b.len());
    for i in 0..a.len() {
        assert_eq!(a.get_sequence(i), b.get_sequence(i));
    }
    assert_eq!(a.get_sequence(0), Some(&[4usize, 5, 4][..]));
}

#[test]
fn identity_remap_keeps_everything() {
    let mut m = EpisodicMemory::new(8);
    m.store(&[0, 1, 2]);
    m.store(&[2, 2]);
    m.remap(&[Some(0), Some(1), Some(2)]);
    assert_eq!(m.len(), 2);
    assert_eq!(m.get_sequence(0), Some(&[0usize, 1, 2][..]));
    assert_eq!(m.get_sequence(1), Some(&[2usize, 2][..]));
}

#[test]
fn context_buffer_keeps_window() {
    let mut b = ContextBuffer::new(3);
    assert_eq!(b.as_slice(), Vec::<usize>::new());
    for w in 1..=4 {
        b.push(w);
    }
    assert_eq!(b.as_slice(), vec![2, 3, 4]);
    b.push(9);
    assert_eq!(b.as_slice(), vec![3, 4, 9]);
}

#[test]
fn context_buffer_zero_window_keeps_last() {
    let mut b = ContextBuffer::new(0);
    b.push(5);
    assert_eq!(b.as_slice(), vec![5]);
    b.push(6);
    assert_eq!(b.as_slice(), vec![6]);
}

#[test]
fn context_buffer_remap() {
    let mut b = ContextBuffer::new(4);
    for w in [0usize, 3, 1, 7] {
        b.push(w);
    }
    b.remap(&[Some(10), Some(11), None, Some(13)]);
    assert_eq!(b.as_slice(), vec![10, 13, 11]);
}

#[test]
fn single_stored_sequence_recalls_its_continuation() {
    let mut m = EpisodicMemory::new(8);
    m.store(&[7, 3, 9, 4]);
    assert_eq!(m.recall(&[7]), Some(3));
    assert_eq!(m.recall(&[7, 3]), Some(9));
    assert_eq!(m.recall(&[7, 3, 9]), Some(4));
}
