use revisionstore::revlog::RevlogIndex;

fn record(p1: i32, p2: i32) -> Vec<u8> {
    let mut r = vec![0u8; 64];
    r[24..28].copy_from_slice(&p1.to_be_bytes());
    r[28..32].copy_from_slice(&p2.to_be_bytes());
    r
}

fn log_of(parents: &[(i32, i32)]) -> RevlogIndex {
    let mut data = Vec::new();
    for &(p1, p2) in parents {
        data.extend(record(p1, p2));
    }
    RevlogIndex::new(data)
}

#[test]
fn test_parent_sentinels() {
    let mut entries = vec![(-1, -1); 8];
    entries.push((5, -1));
    entries.push((5, 7));
    let log = log_of(&entries);
    assert_eq!(log.len(), 10);
    assert_eq!(log.parents(0), Vec::<u32>::new());
    assert_eq!(log.parents(8), vec![5]);
    assert_eq!(log.parents(9), vec![5, 7]);
}

#[test]
fn test_tail_overlay() {
    let mut log = log_of(&[(-1, -1), (0, -1)]);
    assert_eq!(log.data_len(), 2);
    log.insert(vec![1]);
    log.insert(vec![0, 2]);
    log.insert(vec![]);
    assert_eq!(log.len(), 5);
    assert_eq!(log.data_len(), 2);
    assert_eq!(log.parents(2), vec![1]);
    assert_eq!(log.parents(3), vec![0, 2]);
    assert_eq!(log.parents(4), Vec::<u32>::new());
    assert_eq!(log.parents(1), vec![0]);
}

#[test]
fn test_partial_record_ignored() {
    let mut data = record(-1, -1);
    data.extend(vec![0u8; 10]);
    let log = RevlogIndex::new(data);
    assert_eq!(log.len(), 1);
}

#[test]
fn test_phase_propagation() {
    let log = log_of(&[(-1, -1), (0, -1), (1, -1), (2, -1)]);
    let (public, draft) = log.phase_sets(&vec![1], &vec![3]);
    assert_eq!(public, vec![1, 0]);
    assert_eq!(draft, vec![3, 2]);
}

#[test]
fn test_phase_public_wins() {
    let log = log_of(&[(-1, -1), (0, -1), (1, -1), (2, -1)]);
    let (public, draft) = log.phase_sets(&vec![2], &vec![2, 3]);
    assert_eq!(public, vec![2, 1, 0]);
    assert_eq!(draft, vec![3]);
}

#[test]
fn test_phase_merge_and_unspecified() {
    // 0 <- 1, 0 <- 2, (1, 2) <- 3, 4 has no parents and no head.
    let mut log = log_of(&[(-1, -1), (0, -1), (0, -1)]);
    log.insert(vec![1, 2]);
    log.insert(vec![]);
    let (public, draft) = log.phase_sets(&vec![1], &vec![3]);
    assert_eq!(public, vec![1, 0]);
    assert_eq!(draft, vec![3, 2]);
    let (public, draft) = log.phase_sets(&vec![], &vec![]);
    assert!(public.is_empty());
    assert!(draft.is_empty());
}
