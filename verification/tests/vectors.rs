use binvec::borrow::{BinarySlice, Const, MutableBinSlice};
use binvec::vec::BinaryVec;

fn bits_of(v: &BinaryVec<u8>) -> Vec<bool> {
    let s = v.as_slice();
    let mut out = Vec::new();
    for i in 0..s.len() {
        out.push(s[i]);
    }
    out
}

#[test]
fn copy_from_slice_then_push() {
    let words = [0b01011u8];
    let s = BinarySlice::<Const, u8>::from_word_slice(&words, 5).unwrap();
    let mut v = BinaryVec::copy_from_slice(s);
    assert_eq!(v.capacity_slice().len(), 5);
    v.push(true);
    assert!(v[5]);
    assert_eq!(v.capacity_slice().len(), 10);
    assert_eq!(bits_of(&v), vec![true, true, false, true, false, true]);
}

#[test]
fn copy_from_unaligned_slice() {
    let words = [0b1010_0000u8, 0b1u8];
    let s = BinarySlice::<Const, u8>::from_word_slice(&words, 16).unwrap();
    let part = s.sub(binvec::borrow::Bound::Included(5), binvec::borrow::Bound::Excluded(9)).unwrap();
    let mut v = BinaryVec::copy_from_slice(part);
    assert_eq!(bits_of(&v), vec![true, false, true, true]);
    assert!(v.as_slice().start_aligned());
    assert_eq!(v.capacity_slice().len(), 9);
    v.push(false);
    v.push(true);
    assert_eq!(bits_of(&v), vec![true, false, true, true, false, true]);
    assert_eq!(v.pop(), Some(true));
    assert_eq!(v.pop(), Some(false));
    assert_eq!(v.pop(), Some(true));
}

#[test]
fn pop_empty_is_none() {
    let mut v = BinaryVec::<u16>::new();
    assert_eq!(v.pop(), None);
    v.push(false);
    assert_eq!(v.pop(), Some(false));
    assert_eq!(v.pop(), None);
}

#[test]
fn capacity_grows_from_one_word_by_doubling() {
    let mut v = BinaryVec::<u8>::new();
    assert_eq!(unsafe_free_capacity(&v), 0);
    v.push(true);
    assert_eq!(unsafe_free_capacity(&v), 8);
    for _ in 0..8 {
        v.push(false);
    }
    assert_eq!(unsafe_free_capacity(&v), 16);
    for _ in 0..8 {
        v.push(true);
    }
    assert_eq!(unsafe_free_capacity(&v), 32);
    assert_eq!(v.as_slice().len(), 17);
    assert!(v[0] && !v[1] && !v[8] && v[9] && v[16]);
}

fn unsafe_free_capacity(v: &BinaryVec<u8>) -> usize {
    v.capacity_slice().len()
}

#[test]
fn with_capacity_holds_capacity() {
    let mut v = BinaryVec::<u8>::with_capacity(10);
    assert_eq!(v.capacity_slice().len(), 10);
    assert_eq!(v.as_slice().len(), 0);
    for i in 0..10 {
        v.push(i % 3 == 0);
    }
    assert_eq!(v.capacity_slice().len(), 10);
    v.push(true);
    assert_eq!(v.capacity_slice().len(), 20);
    assert_eq!(bits_of(&v), vec![true, false, false, true, false, false, true, false, false, true, true]);
    let empty = BinaryVec::<u32>::with_capacity(0);
    assert_eq!(empty.capacity_slice().len(), 0);
}

#[test]
fn from_bits_packs_words() {
    let bits = vec![true, true, true, false, false, true, true, false, true, true, false];
    let v = BinaryVec::<u8>::from_bits(bits.clone());
    assert_eq!(bits_of(&v), bits);
    let (words, start, end) = v.as_slice().into_word_slice();
    assert_eq!(words, &[0b01100111u8, 0b011]);
    assert_eq!((start, end), (0, 11));
    let whole = BinaryVec::<u8>::from_bits(vec![true; 16]);
    assert_eq!(whole.as_slice().into_word_slice().0, &[0xFFu8, 0xFF]);
    let none = BinaryVec::<u8>::from_bits(Vec::new());
    assert_eq!(none.as_slice().len(), 0);
}

#[test]
fn from_words_holds_all_bits() {
    let v = BinaryVec::<u8>::from_words(vec![0xF0u8, 0x01u8]);
    assert_eq!(v.as_slice().len(), 16);
    for i in 0..16 {
        assert_eq!(v[i], (4..8).contains(&i) || i == 8);
    }
}

#[test]
fn filled_words_counts_full_words() {
    let v = BinaryVec::<u8>::from_bits(vec![false; 17]);
    assert_eq!(v.filled_words(), 2);
    let v = BinaryVec::<u8>::from_bits(vec![false; 7]);
    assert_eq!(v.filled_words(), 0);
    let v = BinaryVec::<u16>::from_bits(vec![true; 32]);
    assert_eq!(v.filled_words(), 2);
}

#[test]
fn vector_display() {
    let v = BinaryVec::<u8>::from_bits(vec![true, false, true]);
    assert_eq!(v.to_string(), "[101]");
    assert_eq!(v.to_string_alternate(), "[\n\t101\n]");
}

#[test]
fn writes_through_mutable_slice_reach_vector() {
    let mut v = BinaryVec::<u8>::from_bits(vec![false; 10]);
    {
        let mut s = v.as_mut_slice();
        assert_eq!(s.set(9, true), Some(false));
        assert_eq!(s.set(10, true), None);
    }
    assert!(v[9]);
    assert_eq!(bits_of(&v).iter().filter(|b| **b).count(), 1);
}

#[test]
fn capacity_slice_mut_writes_past_length() {
    let mut v = BinaryVec::<u8>::with_capacity(8);
    v.push(true);
    {
        let mut s = v.capacity_slice_mut();
        assert_eq!(s.len(), 8);
        s.set(5, true);
    }
    assert_eq!(bits_of(&v), vec![true]);
    let (words, _, _) = v.capacity_slice().into_word_slice();
    assert_eq!(words, &[0b100001u8]);
}

#[test]
fn from_raw_parts_counts_from_first_bit() {
    let v = BinaryVec::<u8>::from_raw_parts(3, 4, 5, vec![0b0111_1000u8]);
    assert_eq!(bits_of(&v), vec![false, false, false, true]);
    assert!(v.as_slice().start_aligned());
    assert_eq!(v.capacity_slice().len(), 5);
}

#[test]
fn push_pop_many_words() {
    let mut v = BinaryVec::<u64>::new();
    for i in 0..1000usize {
        v.push(i % 7 == 0);
    }
    for i in (0..1000usize).rev() {
        assert_eq!(v.pop(), Some(i % 7 == 0));
    }
    assert_eq!(v.pop(), None);
}

#[test]
fn grow_doubles_capacity_of_raw_vector() {
    let mut v = BinaryVec::<u8>::from_raw_parts(3, 4, 5, vec![0b0000_1101u8]);
    assert_eq!(bits_of(&v), vec![true, false, true, true]);
    v.push(false);
    assert_eq!(v.capacity_slice().len(), 5);
    v.push(true);
    assert_eq!(v.capacity_slice().len(), 10);
    assert_eq!(bits_of(&v), vec![true, false, true, true, false, true]);
}

#[test]
fn from_raw_parts_accepts_spare_words() {
    let v = BinaryVec::<u8>::from_raw_parts(0, 2, 3, vec![0b11u8, 0xFF, 0xFF]);
    assert_eq!(bits_of(&v), vec![true, true]);
    assert_eq!(v.capacity_slice().len(), 3);
}

#[test]
fn copy_from_slice_capacity_ends_at_slice_end() {
    let words = [0u8, 0xFFu8, 0u8];
    let s = BinarySlice::<Const, u8>::from_word_slice(&words, 24).unwrap();
    let part = s.sub(binvec::borrow::Bound::Included(6), binvec::borrow::Bound::Excluded(12)).unwrap();
    let mut v = BinaryVec::copy_from_slice(part);
    assert_eq!(bits_of(&v), vec![false, false, true, true, true, true]);
    assert!(v.as_slice().start_aligned());
    assert_eq!(v.capacity_slice().len(), 12);
    let aligned = BinarySlice::<Const, u8>::from_word_slice(&words, 13).unwrap();
    let mut w = BinaryVec::copy_from_slice(aligned);
    assert_eq!(w.capacity_slice().len(), 13);
    assert!(w.can_push());
    w.push(true);
    assert!(w[13]);
    v.push(true);
    assert!(v[6]);
}

#[test]
fn can_push_reports_room_or_growth() {
    let mut v = BinaryVec::<u32>::new();
    assert!(v.can_push());
    v.push(true);
    assert!(v.can_push());
    let arr = BinaryVec::<[u8; 2]>::with_capacity(3);
    assert!(arr.can_push());
}

#[test]
fn from_bits_clears_padding() {
    let v = BinaryVec::<u8>::from_bits(vec![true, false, true]);
    let (words, _, _) = v.capacity_slice().into_word_slice();
    assert_eq!(words, &[0b101u8]);
    assert_eq!(v.capacity_slice().len(), 8);
}

#[test]
fn layout_counts_words() {
    assert_eq!(BinaryVec::<u8>::layout(10), Some(2));
    assert_eq!(BinaryVec::<u64>::layout(64), Some(1));
    assert_eq!(BinaryVec::<u64>::layout(0), Some(0));
    assert_eq!(BinaryVec::<u8>::layout(usize::MAX), None);
}
