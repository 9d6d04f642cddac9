use uavcan_llr::storage::PiecesStorage;

fn chain(s: &PiecesStorage<2, 8>, first: u16) -> Vec<Vec<u8>> {
    let mut it = s.traverse(first);
    let mut out = Vec::new();
    while let Some((bytes, last)) = it.next() {
        out.push(bytes.to_vec());
        if last {
            break;
        }
    }
    out
}

#[test]
fn push_fills_first_empty_slot_until_full() {
    let mut s = PiecesStorage::<2, 8>::new();
    for i in 0..8u16 {
        assert_eq!(s.push([i as u8, 0]), Ok(i));
        assert_eq!(s.len(), i as usize + 1);
    }
    assert_eq!(s.find_empty_slot(), None);
    assert_eq!(s.push([9, 9]), Err([9, 9]));
    assert_eq!(s.len(), 8);
}

#[test]
fn push_after_links_pieces() {
    let mut s = PiecesStorage::<2, 8>::new();
    let a = s.push([1, 1]).unwrap();
    let b = s.push_after([2, 2], a).unwrap();
    let c = s.push_after([3, 3], b).unwrap();
    assert_eq!((a, b, c), (0, 1, 2));
    assert_eq!(chain(&s, a), vec![vec![1, 1], vec![2, 2], vec![3, 3]]);
    // Linking after an empty slot fails and changes nothing.
    assert_eq!(s.push_after([4, 4], 7), Err([4, 4]));
    assert_eq!(s.len(), 3);
}

#[test]
fn remove_all_frees_exactly_the_chain() {
    let mut s = PiecesStorage::<2, 8>::new();
    let a = s.push([1, 1]).unwrap();
    let other = s.push([9, 9]).unwrap();
    let b = s.push_after([2, 2], a).unwrap();
    s.push_after([3, 3], b).unwrap();
    assert_eq!(s.len(), 4);
    assert_eq!(s.remove_all(a), 3);
    assert_eq!(s.len(), 1);
    assert_eq!(chain(&s, other), vec![vec![9, 9]]);
    // An empty first slot removes nothing.
    assert_eq!(s.remove_all(a), 0);
    assert_eq!(s.len(), 1);
    // Freed slots are reused first.
    assert_eq!(s.push([5, 5]), Ok(0));
}

#[test]
fn storage_invariants_under_random_operations() {
    let mut s = PiecesStorage::<2, 8>::new();
    // Each list is (first, last, length).
    let mut lists: Vec<(u16, u16, usize)> = Vec::new();
    let mut seed: u32 = 12345;
    for _ in 0..2000 {
        seed = seed.wrapping_mul(1103515245).wrapping_add(12345);
        let op = (seed >> 16) % 3;
        match op {
            0 => {
                if let Ok(i) = s.push([seed as u8, 0]) {
                    lists.push((i, i, 1));
                }
            }
            1 => {
                if !lists.is_empty() {
                    let k = (seed >> 8) as usize % lists.len();
                    if let Ok(i) = s.push_after([seed as u8, 1], lists[k].1) {
                        lists[k].1 = i;
                        lists[k].2 += 1;
                    }
                }
            }
            _ => {
                if !lists.is_empty() {
                    let k = (seed >> 8) as usize % lists.len();
                    let (first, _, n) = lists.remove(k);
                    let before = s.len();
                    assert_eq!(s.remove_all(first) as usize, n);
                    assert_eq!(s.len(), before - n);
                }
            }
        }
        let total: usize = lists.iter().map(|l| l.2).sum();
        assert_eq!(s.len(), total);
        for l in lists.iter() {
            assert_eq!(chain(&s, l.0).len(), l.2);
        }
    }
}
