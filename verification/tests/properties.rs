use persistent_lazy_rbtree::PersistentLazyRBTree;

fn build(values: &[i64]) -> PersistentLazyRBTree<i64> {
    let mut s = PersistentLazyRBTree::new();
    for &v in values {
        s = s.insert(s.len(), v);
    }
    s
}

fn contents(s: &PersistentLazyRBTree<i64>) -> Vec<i64> {
    let mut out = Vec::new();
    let mut i = 0;
    while i < s.len() {
        out.push(*s.index(i));
        i += 1;
    }
    out
}

#[test]
fn merge_length_additivity() {
    let a = build(&[1, 2, 3]);
    let b = build(&[4, 5]);
    let m = PersistentLazyRBTree::merge(&a, &b);
    assert_eq!(m.len(), a.len() + b.len());
    assert_eq!(contents(&m), vec![1, 2, 3, 4, 5]);

    let empty = PersistentLazyRBTree::new();
    let m2 = PersistentLazyRBTree::merge(&a, &empty);
    assert_eq!(m2.len(), a.len());
    assert_eq!(contents(&m2), vec![1, 2, 3]);
    let m3 = PersistentLazyRBTree::merge(&empty, &b);
    assert_eq!(m3.len(), b.len());
    let m4 = PersistentLazyRBTree::<i64>::merge(&PersistentLazyRBTree::new(), &PersistentLazyRBTree::new());
    assert_eq!(m4.len(), 0);
}

#[test]
fn split_merge_round_trip() {
    let vals: Vec<i64> = (0..11).collect();
    let s = build(&vals);
    for i in 0..=s.len() {
        let (a, b) = s.split(i);
        assert_eq!(a.len(), i);
        assert_eq!(b.len(), s.len() - i);
        let back = PersistentLazyRBTree::merge(&a, &b);
        assert_eq!(contents(&back), vals);
    }
}

#[test]
fn insert_then_index() {
    let vals: Vec<i64> = vec![10, 20, 30, 40];
    let s = build(&vals);
    for i in 0..=s.len() {
        let s2 = s.insert(i, 99);
        assert_eq!(*s2.index(i), 99);
        for j in 0..i {
            assert_eq!(*s2.index(j), vals[j]);
        }
        for j in i..vals.len() {
            assert_eq!(*s2.index(j + 1), vals[j]);
        }
    }
}

#[test]
fn erase_undoes_insert() {
    let vals: Vec<i64> = vec![7, 8, 9, 10, 11];
    let s = build(&vals);
    for i in 0..s.len() {
        let s2 = s.insert(i, -1).erase(i);
        assert_eq!(contents(&s2), vals);
    }
}

#[test]
fn iteration_order() {
    let vals: Vec<i64> = vec![3, 1, 4, 1, 5, 9, 2, 6];
    let s = build(&vals);
    let mut it = s.iter();
    let mut forward = Vec::new();
    while let Some(v) = it.next() {
        forward.push(*v);
    }
    assert_eq!(forward, vals);

    let mut it = s.iter();
    let mut backward = Vec::new();
    while let Some(v) = it.next_back() {
        backward.push(*v);
    }
    let mut rev = vals.clone();
    rev.reverse();
    assert_eq!(backward, rev);
    assert_eq!(backward.len(), s.len());
}

#[test]
fn mixed_direction_iteration() {
    // The cursor is the range [begin, end): walking from both ends yields
    // every element exactly once, and the walk stops when the ends meet.
    let vals: Vec<i64> = vec![1, 2, 3];
    let s = build(&vals);
    let mut it = s.iter();
    assert_eq!(it.next().copied(), Some(1));
    assert_eq!(it.next_back().copied(), Some(3));
    assert_eq!(it.next().copied(), Some(2));
    assert_eq!(it.next(), None);
    assert_eq!(it.next_back(), None);

    let single = build(&[7]);
    let mut it = single.iter();
    assert_eq!(it.next_back().copied(), Some(7));
    assert_eq!(it.next(), None);
    assert_eq!(it.next_back(), None);

    let empty = PersistentLazyRBTree::<i64>::new();
    let mut it = empty.iter();
    assert_eq!(it.next(), None);
    assert_eq!(it.next_back(), None);
}

#[test]
fn clone_shares_the_sequence() {
    let vals: Vec<i64> = vec![5, 6, 7, 8];
    let s = build(&vals);
    let c = s.clone();
    assert_eq!(c.len(), s.len());
    assert_eq!(contents(&c), contents(&s));
    // A new version made from the clone leaves both handles unchanged.
    let c2 = c.insert(0, -1);
    assert_eq!(contents(&s), vals);
    assert_eq!(contents(&c), vals);
    assert_eq!(c2.len(), vals.len() + 1);
    assert_eq!(*c2.index(0), -1);
}

#[test]
fn persistence_old_version_unchanged() {
    let vals: Vec<i64> = vec![1, 2, 3, 4, 5, 6];
    let s = build(&vals);
    let before = contents(&s);
    let s2 = s.insert(3, 100);
    let s3 = s.erase(2);
    assert_eq!(contents(&s), before);
    assert_eq!(s.len(), vals.len());
    assert_eq!(s2.len(), vals.len() + 1);
    assert_eq!(s3.len(), vals.len() - 1);
    assert_eq!(contents(&s), before);
}

#[test]
fn bulk_build_equivalence() {
    let vals: Vec<i64> = (0..100).map(|x| x * 3 - 50).collect();
    let bulk = PersistentLazyRBTree::from_vec(vals.clone());
    let one_by_one = build(&vals);
    assert_eq!(bulk.len(), one_by_one.len());
    assert_eq!(contents(&bulk), contents(&one_by_one));
    assert_eq!(contents(&bulk), vals);

    let empty = PersistentLazyRBTree::<i64>::from_vec(Vec::new());
    assert_eq!(empty.len(), 0);
    let single = PersistentLazyRBTree::from_vec(vec![42i64]);
    assert_eq!(single.len(), 1);
    assert_eq!(*single.index(0), 42);
}

#[test]
fn edge_cases() {
    let empty = PersistentLazyRBTree::<i64>::new();
    assert_eq!(empty.len(), 0);
    let (a, b) = empty.split(0);
    assert_eq!(a.len(), 0);
    assert_eq!(b.len(), 0);

    let one = empty.insert(0, 5);
    assert_eq!(one.len(), 1);
    assert_eq!(*one.index(0), 5);
    let gone = one.erase(0);
    assert_eq!(gone.len(), 0);

    let s = build(&[1, 2, 3]);
    let (a, b) = s.split(0);
    assert_eq!(a.len(), 0);
    assert_eq!(contents(&b), vec![1, 2, 3]);
    let (a, b) = s.split(3);
    assert_eq!(contents(&a), vec![1, 2, 3]);
    assert_eq!(b.len(), 0);
    assert_eq!(*s.index(0), 1);
    assert_eq!(*s.index(2), 3);
}

#[test]
fn differential_small() {
    // A deterministic differential run against a plain vector.
    let mut state: u64 = 0x2545F4914F6CDD1D;
    let mut next = move || {
        state ^= state << 13;
        state ^= state >> 7;
        state ^= state << 17;
        state
    };
    let mut model: Vec<i64> = Vec::new();
    let mut s = PersistentLazyRBTree::new();
    for round in 0..3000u64 {
        let r = next();
        if model.is_empty() || r % 3 != 0 {
            let i = (next() % (model.len() as u64 + 1)) as usize;
            let v = (r as i64) ^ (round as i64);
            model.insert(i, v);
            s = s.insert(i, v);
        } else {
            let i = (next() % model.len() as u64) as usize;
            model.remove(i);
            s = s.erase(i);
        }
        assert_eq!(s.len(), model.len());
        if !model.is_empty() {
            let i = (next() % model.len() as u64) as usize;
            assert_eq!(*s.index(i), model[i]);
        }
    }
    assert_eq!(contents(&s), model);
}
