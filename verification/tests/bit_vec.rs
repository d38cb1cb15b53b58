use rust_macro::{BitVec, BitVecAll, BitVecRange};

#[test]
fn test_new() {
    let bv = BitVec::new(8);
    assert_eq!(bv.len(), 8);
    assert_eq!(bv.to_usize(), 0);
}

#[test]
fn test_from_usize() {
    let bv = BitVec::from_usize(0b1010, 4);
    assert_eq!(bv.len(), 4);
    assert_eq!(bv.to_usize(), 0b1010);
}

#[test]
fn test_from_usize_with_mask() {
    let bv = BitVec::from_usize(0b11110000, 4);
    assert_eq!(bv.to_usize(), 0b0000);

    let bv = BitVec::from_usize(0b11111111, 4);
    assert_eq!(bv.to_usize(), 0b1111);
}

#[test]
fn test_get() {
    let bv = BitVec::from_usize(0b1010, 4);
    assert_eq!(bv.get(0), true);
    assert_eq!(bv.get(1), false);
    assert_eq!(bv.get(2), true);
    assert_eq!(bv.get(3), false);
}

#[test]
fn test_display() {
    let bv = BitVec::from_usize(0b1010, 4);
    assert_eq!(bv.to_string(), "1010");

    let bv = BitVec::from_usize(0b0001, 4);
    assert_eq!(bv.to_string(), "0001");
}

#[test]
fn test_add() {
    let bv1 = BitVec::from_usize(0b0101, 4);
    let bv2 = BitVec::from_usize(0b0011, 4);
    let result = bv1 + bv2;
    assert_eq!(result.to_usize(), 0b1000);
}

#[test]
fn test_add_with_overflow() {
    let bv1 = BitVec::from_usize(0b1111, 4);
    let bv2 = BitVec::from_usize(0b0001, 4);
    let result = bv1 + bv2;
    assert_eq!(result.to_usize(), 0b0000);
}

#[test]
fn test_bitxor() {
    let bv1 = BitVec::from_usize(0b1010, 4);
    let bv2 = BitVec::from_usize(0b1100, 4);
    let result = bv1 ^ bv2;
    assert_eq!(result.to_usize(), 0b0110);
}

#[test]
fn test_bitand() {
    let bv1 = BitVec::from_usize(0b1010, 4);
    let bv2 = BitVec::from_usize(0b1100, 4);
    let result = bv1 & bv2;
    assert_eq!(result.to_usize(), 0b1000);
}

#[test]
fn test_bitor() {
    let bv1 = BitVec::from_usize(0b1010, 4);
    let bv2 = BitVec::from_usize(0b0101, 4);
    let result = bv1 | bv2;
    assert_eq!(result.to_usize(), 0b1111);
}

#[test]
fn test_clone_and_equality() {
    let bv1 = BitVec::from_usize(0b1010, 4);
    let bv2 = bv1.clone();
    assert_eq!(bv1, bv2);
}

#[test]
fn test_bitvec_range() {
    let mut range = BitVecRange::new(2);
    let mut results = Vec::new();

    while let Some(bv) = range.next() {
        results.push(bv.to_usize());
    }

    assert_eq!(results, vec![0, 1, 2, 3]);
}

#[test]
fn test_bitvec_range_collect() {
    let range = BitVecRange::new(3);
    let bitvecs: Vec<BitVec> = range.collect();

    assert_eq!(bitvecs.len(), 8);
    for (i, bv) in bitvecs.iter().enumerate() {
        assert_eq!(bv.to_usize(), i);
        assert_eq!(bv.len(), 3);
    }
}

#[test]
fn test_edge_cases() {
    let bv = BitVec::new(0);
    assert_eq!(bv.len(), 0);

    let bv = BitVec::from_usize(0, 1);
    assert_eq!(bv.get(0), false);

    let bv = BitVec::from_usize(1, 1);
    assert_eq!(bv.get(0), true);
}

#[test]
fn test_enumeration_is_ascending_and_round_trips() {
    for n in 0..6 {
        let all = BitVecRange::new(n).collect();
        assert_eq!(all.len(), 1 << n);
        for (i, bv) in all.iter().enumerate() {
            assert_eq!(bv.to_usize(), i);
            assert_eq!(bv.len(), n);
            assert_eq!(BitVec::from_usize(bv.to_usize(), n), *bv);
            assert_eq!(usize::from(*bv), i);
        }
    }
}

#[test]
fn test_all_starts_from_zero() {
    let mut range = BitVec::all(1);
    assert_eq!(range.next(), Some(BitVec::from_usize(0, 1)));
    assert_eq!(range.next(), Some(BitVec::from_usize(1, 1)));
    assert_eq!(range.next(), None);
    assert_eq!(range.next(), None);
    assert_eq!(BitVec::all(0).collect(), vec![BitVec::new(0)]);
}

#[test]
fn test_set_and_set_mut() {
    let bv = BitVec::from_usize(0b1010, 4);
    assert_eq!(bv.set(1, 1).to_usize(), 0b1110);
    assert_eq!(bv.set(0, 0).to_usize(), 0b0010);
    assert_eq!(bv.set(0, 1).to_usize(), 0b1010);
    assert_eq!(bv.set(3, 0).to_usize(), 0b1010);
    let mut m = bv;
    m.set_mut(3, 1);
    m.set_mut(2, 0);
    assert_eq!(m.to_usize(), 0b1001);
    assert_eq!(m.len(), 4);
}

#[test]
fn test_unit_mask_and_emptiness() {
    assert_eq!(BitVec::unit(0, 4).to_usize(), 0b1000);
    assert_eq!(BitVec::unit(3, 4).to_usize(), 0b0001);
    assert_eq!(BitVec::mask(5).to_usize(), 0b11111);
    assert_eq!(BitVec::mask(0).to_usize(), 0);
    assert!(BitVec::new(0).is_empty());
    assert!(!BitVec::new(3).is_empty());
    assert_eq!(BitVec::new(0).to_string(), "");
}

#[test]
fn test_iter_yields_bits_from_the_top() {
    let mut it = BitVec::from_usize(0b110, 3).iter();
    assert_eq!(it.next(), Some(true));
    assert_eq!(it.next(), Some(true));
    assert_eq!(it.next(), Some(false));
    assert_eq!(it.next(), None);
    let mut other = BitVec::from_usize(0b01, 2).into_iter();
    assert_eq!(other.next(), Some(false));
    assert_eq!(other.next(), Some(true));
    assert_eq!(other.next(), None);
}
