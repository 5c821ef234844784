use mmr::store::{Store, VecStore};
use mmr::utils::{family, is_left, peaks};
use mmr::Error;

fn leaf_hash(n: u32) -> mmr::Hash {
    let mut h = [0u8; 32];
    for (i, b) in h.iter_mut().enumerate() {
        *b = (n as u8).wrapping_mul(31).wrapping_add(i as u8) ^ ((n >> 8) as u8);
    }
    h
}

fn combine(left: &mmr::Hash, right: &mmr::Hash) -> mmr::Hash {
    let mut h = [0u8; 32];
    for i in 0..32 {
        h[i] = left[i].rotate_left(3) ^ right[(i + 7) % 32].wrapping_mul(17) ^ (i as u8);
    }
    h
}

fn tree_root(leaves: &[mmr::Hash]) -> mmr::Hash {
    if leaves.len() == 1 {
        return leaves[0];
    }
    let half = leaves.len() / 2;
    combine(&tree_root(&leaves[..half]), &tree_root(&leaves[half..]))
}

/// Bag peak hashes right to left into one root.
fn bag(peaks: &[mmr::Hash]) -> mmr::Hash {
    let mut acc = peaks[peaks.len() - 1];
    for p in peaks[..peaks.len() - 1].iter().rev() {
        acc = combine(p, &acc);
    }
    acc
}

fn append_leaf(store: &mut VecStore<u32>, n: u32) {
    let size = store.hashes.len() as u64;
    let mut pos = size + 1;
    let mut new_hashes = vec![leaf_hash(n)];
    let mut current = leaf_hash(n);
    while !is_left(pos) {
        let (parent, sibling) = family(pos);
        let left = if sibling <= size {
            store.hash_at(sibling).unwrap()
        } else {
            new_hashes[(sibling - size - 1) as usize]
        };
        current = combine(&left, &current);
        new_hashes.push(current);
        pos = parent;
    }
    store.append(&n, &new_hashes).unwrap();
}

#[test]
fn empty_store_reports_missing_hashes() {
    let store: VecStore<u32> = VecStore::new();
    for pos in [0u64, 1, 2, 100, u64::MAX] {
        assert_eq!(store.hash_at(pos), Err(Error::MissingHashAtIndex(pos)));
        assert_eq!(store.peak_hash_at(pos), Err(Error::MissingHashAtIndex(pos)));
    }
}

#[test]
fn append_keeps_hashes_in_order() {
    let mut store: VecStore<u32> = VecStore::default();
    let a = leaf_hash(1);
    let b = leaf_hash(2);
    let c = combine(&a, &b);
    assert_eq!(store.append(&1, &[a]), Ok(()));
    assert_eq!(store.append(&2, &[b, c]), Ok(()));
    assert_eq!(store.hashes.len(), 3);
    assert_eq!(store.data.as_ref().map(|d| d.len()), Some(2));
    assert_eq!(store.hash_at(1), Ok(a));
    assert_eq!(store.hash_at(2), Ok(b));
    assert_eq!(store.hash_at(3), Ok(c));
    assert_eq!(store.peak_hash_at(3), Ok(c));
    assert_eq!(store.hash_at(0), Err(Error::MissingHashAtIndex(0)));
    assert_eq!(store.hash_at(4), Err(Error::MissingHashAtIndex(4)));
}

#[test]
fn hashes_only_store_keeps_no_elements() {
    let mut store: VecStore<u32> = VecStore { data: None, hashes: vec![] };
    assert_eq!(store.append(&7, &[leaf_hash(7)]), Ok(()));
    assert!(store.data.is_none());
    assert_eq!(store.hash_at(1), Ok(leaf_hash(7)));
}

#[test]
fn appended_peaks_bag_to_the_reference_root() {
    let mut store: VecStore<u32> = VecStore::new();
    let mut leaves = vec![];
    for n in 1..=40u32 {
        append_leaf(&mut store, n);
        leaves.push(leaf_hash(n));

        let size = store.hashes.len() as u64;
        let peak_positions = peaks(size);
        assert!(!peak_positions.is_empty());
        let peak_hashes: Vec<mmr::Hash> =
            peak_positions.iter().map(|p| store.peak_hash_at(*p).unwrap()).collect();

        // the reference: one perfect tree per set bit of the leaf count
        let mut trees = vec![];
        let mut start = 0usize;
        for bit in (0..32).rev() {
            let width = 1usize << bit;
            if leaves.len() & width != 0 {
                trees.push(tree_root(&leaves[start..start + width]));
                start += width;
            }
        }
        assert_eq!(bag(&peak_hashes), bag(&trees), "leaves {}", n);
    }
    assert_eq!(store.data.as_ref().map(|d| d.len()), Some(40));
}

#[test]
fn appended_elements_are_kept_in_order() {
    let mut store: VecStore<u32> = VecStore::new();
    let mut all = vec![];
    for n in 1..=5u32 {
        let hs = vec![leaf_hash(n), leaf_hash(n + 100)];
        assert_eq!(store.append(&n, &hs), Ok(()));
        all.extend_from_slice(&hs);
    }
    assert_eq!(store.data, Some(vec![1, 2, 3, 4, 5]));
    assert_eq!(store.hashes, all);
}
