use btree_vec::BTreeVec;

fn collect<const B: usize>(vec: &BTreeVec<u8, B>) -> Vec<u8> {
    let mut out = Vec::new();
    let mut it = vec.iter();
    while let Some(x) = it.next() {
        out.push(*x);
    }
    out
}

#[test]
fn mod_basic_iter() {
    let mut vec = BTreeVec::<u8, 7>::create();
    for i in 0..8 {
        vec.push(i);
    }
    let got = collect(&vec);
    let want: Vec<u8> = (0..8).collect();
    assert!(got == want);
}

#[test]
fn mod_medium_iter() {
    let mut vec = BTreeVec::<_, 7>::create();
    for i in 0..32_u32 {
        vec.push(Box::new(i));
    }
    let mut it = vec.into_iter();
    let mut expected = 0_u32;
    while let Some(b) = it.next() {
        assert!(*b == expected);
        expected += 1;
    }
    assert!(expected == 32);
}

#[test]
fn mod_large_iter() {
    let mut vec = BTreeVec::<u8, 7>::create();
    for i in 0..128 {
        vec.push(i);
    }
    for i in 0..16 {
        assert!(vec.pop() == Some(128 - i - 1));
    }
    for i in 0..16 {
        assert!(vec.remove(0) == i);
    }
    let got = collect(&vec);
    let want: Vec<u8> = (16..112).collect();
    assert!(got == want);
}

#[test]
fn mod_small_b() {
    let mut vec = BTreeVec::<u8, 4>::create();
    for i in 0..32 {
        vec.push(i);
    }
    for _ in 0..16 {
        vec.pop();
    }
    let mut it = vec.into_iter();
    let mut expected = 0_u8;
    while let Some(x) = it.next() {
        assert!(x == expected);
        expected += 1;
    }
    assert!(expected == 16);
}

#[test]
fn mod_smallest_b() {
    let mut vec = BTreeVec::<u8, 4>::create();
    for i in 0..24 {
        vec.push(i);
    }
    for _ in 0..12 {
        vec.remove(7);
    }
    let got = collect(&vec);
    let want: Vec<u8> = (0..7).chain(19..24).collect();
    assert!(got == want);
}

#[test]
fn tests_basic_iter() {
    let mut vec = BTreeVec::<u8, 7>::create();
    for i in 0..8 {
        vec.push(i);
    }
    let got = collect(&vec);
    let want: Vec<u8> = (0..8).collect();
    assert!(got == want);
}

#[test]
fn tests_medium_iter() {
    let mut vec = BTreeVec::<_, 7>::create();
    for i in 0..32_u32 {
        vec.push(Box::new(i));
    }
    let mut it = vec.into_iter();
    let mut expected = 0_u32;
    while let Some(b) = it.next() {
        assert!(*b == expected);
        expected += 1;
    }
    assert!(expected == 32);
}

#[test]
fn tests_large_iter() {
    let mut vec = BTreeVec::<u8, 7>::create();
    for i in 0..128 {
        vec.push(i);
    }
    for i in 0..16 {
        assert!(vec.pop() == Some(128 - i - 1));
    }
    for i in 0..16 {
        assert!(vec.remove(0) == i);
    }
    let got = collect(&vec);
    let want: Vec<u8> = (16..112).collect();
    assert!(got == want);
}

#[test]
fn tests_small_b() {
    let mut vec = BTreeVec::<u8, 4>::create();
    for i in 0..32 {
        vec.push(i);
    }
    for _ in 0..16 {
        vec.pop();
    }
    let mut it = vec.into_iter();
    let mut expected = 0_u8;
    while let Some(x) = it.next() {
        assert!(x == expected);
        expected += 1;
    }
    assert!(expected == 16);
}

#[test]
fn tests_smallest_b() {
    let mut vec = BTreeVec::<u8, 4>::create();
    for i in 0..24 {
        vec.push(i);
    }
    for _ in 0..12 {
        vec.remove(7);
    }
    let got = collect(&vec);
    let want: Vec<u8> = (0..7).chain(19..24).collect();
    assert!(got == want);
}

#[test]
fn iter_skip() {
    let mut vec = BTreeVec::<u8, 4>::create();
    for i in 0..32 {
        vec.push(i);
    }
    let mut it = vec.iter();
    assert_eq!(it.remaining_len(), 32);
    // skip 17, then take 5: elements 17..22
    assert_eq!(it.nth(17).copied(), Some(17));
    for i in 18..22 {
        assert_eq!(it.next().copied(), Some(i));
    }
    assert_eq!(it.remaining_len(), 10);
    // skip 4, then take 2: elements 26..28
    assert_eq!(it.nth(4).copied(), Some(26));
    assert_eq!(it.next().copied(), Some(27));
    assert_eq!(it.remaining_len(), 4);
    let mut it = vec.iter();
    assert_eq!(it.remaining_len(), 32);
    // skip 5, then take 10: elements 5..15
    assert_eq!(it.nth(5).copied(), Some(5));
    for i in 6..15 {
        assert_eq!(it.next().copied(), Some(i));
    }
    assert_eq!(it.remaining_len(), 17);
    // skip 1, then take 1: element 16
    assert_eq!(it.nth(1).copied(), Some(16));
    assert_eq!(it.remaining_len(), 15);
}

#[test]
fn iter_exhaustion_is_permanent() {
    let mut vec = BTreeVec::<u8, 4>::create();
    for i in 0..5 {
        vec.push(i);
    }
    let mut it = vec.iter();
    for i in 0..5 {
        assert_eq!(it.next().copied(), Some(i));
    }
    assert_eq!(it.next(), None);
    assert_eq!(it.next(), None);
    assert_eq!(it.remaining_len(), 0);
    let mut it2 = vec.iter();
    assert_eq!(it2.nth(99), None);
    assert_eq!(it2.next(), None);
}
