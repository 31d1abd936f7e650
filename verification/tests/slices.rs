use binvec::borrow::{BinarySlice, Bound, Const, MutableBinSlice, Mut, WordRef};

fn bits_of_slice(s: &BinarySlice<'_, Const, u8>) -> Vec<bool> {
    let mut out = Vec::new();
    for i in 0..s.len() {
        out.push(s[i]);
    }
    out
}

#[test]
fn from_word_slice_counts_from_lowest_bit() {
    let words = [0b01010101u8];
    let bits = BinarySlice::<Const, u8>::from_word_slice(&words, 8).unwrap();
    assert!(bits[0]);
    assert!(!bits[1]);
    assert!(bits.get(9).is_none());
    assert_eq!(bits.len(), 8);
}

#[test]
fn from_word_slice_shorter_than_words() {
    let words = [1u8];
    let bits = BinarySlice::<Const, u8>::from_word_slice(&words, 2).unwrap();
    assert!(bits[0]);
    assert!(!bits[1]);
    assert!(bits.get(2).is_none());
    assert!(bits.get(9).is_none());
}

#[test]
fn from_word_slice_too_long_is_none() {
    let words = [1u8, 2u8];
    assert!(BinarySlice::<Const, u8>::from_word_slice(&words, 17).is_none());
    assert!(BinarySlice::<Const, u8>::from_word_slice(&words, 16).is_some());
}

#[test]
fn get_reads_across_words() {
    let words = [0u8, 0b100u8, 0x80u8];
    let bits = BinarySlice::<Const, u8>::from_word_slice(&words, 24).unwrap();
    for i in 0..24 {
        assert_eq!(bits.get(i), Some(i == 10 || i == 23));
    }
    assert_eq!(bits.get_unchecked(10), true);
    assert_eq!(bits.get(24), None);
}

#[test]
fn sub_selects_range() {
    let words = [0b1011_0100u8];
    let bits = BinarySlice::<Const, u8>::from_word_slice(&words, 8).unwrap();
    let part = bits.clone().sub(Bound::Included(2), Bound::Excluded(5)).unwrap();
    assert_eq!(bits_of_slice(&part), vec![true, false, true]);
    let tail = bits.clone().sub(Bound::Excluded(5), Bound::Unbounded).unwrap();
    assert_eq!(bits_of_slice(&tail), vec![false, true]);
    let head = bits.clone().sub(Bound::Unbounded, Bound::Included(1)).unwrap();
    assert_eq!(bits_of_slice(&head), vec![false, false]);
}

#[test]
fn sub_end_past_length_is_none() {
    let words = [0xFFu8];
    let bits = BinarySlice::<Const, u8>::from_word_slice(&words, 5).unwrap();
    assert!(bits.clone().sub(Bound::Included(3), Bound::Excluded(100)).is_none());
    assert!(bits.clone().sub(Bound::Included(3), Bound::Excluded(6)).is_none());
    assert!(bits.clone().sub(Bound::Unbounded, Bound::Included(5)).is_none());
    assert!(bits.clone().sub(Bound::Unbounded, Bound::Included(usize::MAX)).is_none());
    let all = bits.clone().sub(Bound::Unbounded, Bound::Included(4)).unwrap();
    assert_eq!(all.len(), 5);
    let part = bits.sub(Bound::Included(3), Bound::Excluded(5)).unwrap();
    assert_eq!(part.len(), 2);
}

#[test]
fn sub_none_when_out_of_bounds_or_inverted() {
    let words = [0xFFu8];
    let bits = BinarySlice::<Const, u8>::from_word_slice(&words, 8).unwrap();
    assert!(bits.clone().sub(Bound::Included(9), Bound::Unbounded).is_none());
    assert!(bits.clone().sub(Bound::Included(5), Bound::Excluded(2)).is_none());
    assert!(bits.clone().sub(Bound::Excluded(usize::MAX), Bound::Unbounded).is_none());
    assert!(bits.clone().sub(Bound::Excluded(3), Bound::Excluded(3)).is_none());
}

#[test]
fn sub_empty_range_inside_is_empty_slice() {
    let words = [0xFFu8];
    let bits = BinarySlice::<Const, u8>::from_word_slice(&words, 8).unwrap();
    let mid = bits.clone().sub(Bound::Included(3), Bound::Excluded(3)).unwrap();
    assert_eq!(mid.len(), 0);
    assert_eq!(mid.get(0), None);
    let front = bits.clone().sub(Bound::Unbounded, Bound::Excluded(0)).unwrap();
    assert_eq!(front.len(), 0);
    let back = bits.clone().sub(Bound::Included(8), Bound::Unbounded).unwrap();
    assert_eq!(back.len(), 0);
    let part = bits.sub(Bound::Included(2), Bound::Excluded(6)).unwrap();
    let inner = part.sub(Bound::Included(4), Bound::Excluded(4)).unwrap();
    assert_eq!(inner.len(), 0);
}

#[test]
fn sub_of_sub_keeps_positions() {
    let words = [0b0000_0000u8, 0b0000_0110u8];
    let bits = BinarySlice::<Const, u8>::from_word_slice(&words, 16).unwrap();
    let a = bits.sub(Bound::Included(4), Bound::Unbounded).unwrap();
    let b = a.sub(Bound::Included(5), Bound::Excluded(8)).unwrap();
    assert_eq!(bits_of_slice(&b), vec![true, true, false]);
    let (start, length, _) = b.into_raw_parts();
    assert_eq!((start, length), (9, 3));
}

#[test]
fn alignment_of_start_and_end() {
    let words = [0u8, 0u8];
    let bits = BinarySlice::<Const, u8>::from_word_slice(&words, 16).unwrap();
    assert!(bits.start_aligned());
    assert!(bits.end_aligned());
    let part = bits.clone().sub(Bound::Included(3), Bound::Excluded(8)).unwrap();
    assert!(!part.start_aligned());
    assert!(part.end_aligned());
    let part = bits.sub(Bound::Included(8), Bound::Excluded(12)).unwrap();
    assert!(part.start_aligned());
    assert!(!part.end_aligned());
}

#[test]
fn into_word_slice_of_whole_words() {
    let words = [0b01100111u8, 0b011u8];
    let bits = BinarySlice::<Const, u8>::from_word_slice(&words, 11).unwrap();
    let (w, start, end) = bits.into_word_slice();
    assert_eq!(w, &[0b01100111u8, 0b011]);
    assert_eq!((start, end), (0, 11));
}

#[test]
fn into_word_slice_of_inner_bits() {
    let words = [1u8, 2u8, 3u8, 4u8];
    let bits = BinarySlice::<Const, u8>::from_word_slice(&words, 32).unwrap();
    let part = bits.sub(Bound::Included(9), Bound::Excluded(20)).unwrap();
    let (w, start, end) = part.into_word_slice();
    assert_eq!(w, &[2u8, 3u8]);
    assert_eq!((start, end), (1, 12));
}

#[test]
fn iterator_gives_every_bit_in_order() {
    let words = [0b1001u8, 0b1u8];
    let bits = BinarySlice::<Const, u8>::from_word_slice(&words, 10).unwrap();
    let part = bits.sub(Bound::Included(3), Bound::Unbounded).unwrap();
    let mut it = part.into_iter();
    let mut got = Vec::new();
    while let Some(b) = it.next() {
        got.push(b);
    }
    assert_eq!(got, vec![true, false, false, false, false, true, false]);
    assert_eq!(it.next(), None);
}

#[test]
fn display_text() {
    let words = [0b000111u8];
    let bits = BinarySlice::<Const, u8>::from_word_slice(&words, 6).unwrap();
    assert_eq!(bits.to_string(), "[111000]");
    let words = [0b0000_0111u8, 0b10u8];
    let bits = BinarySlice::<Const, u8>::from_word_slice(&words, 10).unwrap();
    assert_eq!(bits.to_string_alternate(), "[\n\t11100000\n\t01\n]");
    assert_eq!(BinarySlice::<Const, u8>::empty().to_string(), "[]");
}

#[test]
fn mutable_slice_sets_bits() {
    let mut words = [0u8, 0u8];
    {
        let mut bits = BinarySlice::<Mut, u8>::from_word_slice(&mut words, 12).unwrap();
        assert_eq!(bits.set(3, true), Some(false));
        assert_eq!(bits.set(3, true), Some(true));
        assert_eq!(bits.set(11, true), Some(false));
        assert_eq!(bits.set(12, true), None);
        assert!(!bits.set_unchecked(0, true));
        assert!(bits.get(3).unwrap());
        assert!(bits.as_const()[11]);
    }
    assert_eq!(words, [0b1001u8, 0b1000u8]);
}

#[test]
fn mutable_slice_into_word_slice() {
    let mut words = [0u8, 0u8, 0u8];
    {
        let bits = BinarySlice::<Mut, u8>::from_word_slice(&mut words, 24).unwrap();
        let mut part = bits.sub(Bound::Included(8), Bound::Excluded(12)).unwrap();
        part.set(1, true);
        let inner = part.into_word_slice();
        assert_eq!(inner, &mut [2u8]);
        inner[0] = 0xFF;
    }
    assert_eq!(words, [0u8, 0xFF, 0u8]);
}

#[test]
fn mutable_slice_from_too_few_words() {
    let mut words = [0u8];
    assert!(BinarySlice::<Mut, u8>::from_word_slice(&mut words, 9).is_none());
}

#[test]
fn const_conversions_keep_bits() {
    let mut words = [0b10u8];
    let bits = BinarySlice::<Mut, u8>::from_word_slice(&mut words, 3).unwrap();
    let view = bits.into_const();
    assert_eq!(view.to_string(), "[010]");
    let (start, length, data) = view.into_raw_parts();
    let again = BinarySlice::<Const, u8>::from_raw_parts(start, length, data);
    assert!(again[1]);
    match again.into_raw_parts().2 {
        WordRef::Shared(s) => assert_eq!(s, &[0b10u8]),
        WordRef::Unique(_) => panic!("a constant slice holds its words shared"),
    }
}

#[test]
fn empty_mutable_slice() {
    let mut s = BinarySlice::<Mut, u8>::empty();
    assert_eq!(s.len(), 0);
    assert_eq!(s.set(0, true), None);
    assert_eq!(s.into_const().to_string(), "[]");
}
