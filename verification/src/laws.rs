use vstd::prelude::*;
use crate::borrow::{
    bits_of, bits_text, end_position, width_ok, word_bit, get_spec, next_results, next_spec, set_spec, slice_text, start_position,
    sub_range, BinarySlice, BitBuffer, Bound, Const, Mut,
};
use crate::vec::{pop_spec, BinaryVec};

verus! {

proof fn lemma_u8_mask(x: u8, i: u8)
    by (bit_vector)
    requires
        i < 8,
    ensures
        ((x >> i) & 1 == 1) == (x & (1u8 << i) != 0),
{
}

/// Bit `i` of a `u8` word is the one of value `2^i`: the word has it set
/// exactly when it shares a bit with `1 << i`; the same holds of an `i8`
/// word through its two's complement bits.
pub proof fn law_u8_bit_order(x: u8, y: i8, i: u8)
    requires
        i < 8,
    ensures
        x.bit_at(i as int) == (x & (1u8 << i) != 0),
        y.bit_at(i as int) == ((y as u8) & (1u8 << i) != 0),
{
    lemma_u8_mask(x, i);
    lemma_u8_mask(y as u8, i);
}

proof fn lemma_u16_mask(x: u16, i: u16)
    by (bit_vector)
    requires
        i < 16,
    ensures
        ((x >> i) & 1 == 1) == (x & (1u16 << i) != 0),
{
}

/// Bit `i` of a `u16` word is the one of value `2^i`: the word has it set
/// exactly when it shares a bit with `1 << i`; the same holds of an `i16`
/// word through its two's complement bits.
pub proof fn law_u16_bit_order(x: u16, y: i16, i: u16)
    requires
        i < 16,
    ensures
        x.bit_at(i as int) == (x & (1u16 << i) != 0),
        y.bit_at(i as int) == ((y as u16) & (1u16 << i) != 0),
{
    lemma_u16_mask(x, i);
    lemma_u16_mask(y as u16, i);
}

proof fn lemma_u32_mask(x: u32, i: u32)
    by (bit_vector)
    requires
        i < 32,
    ensures
        ((x >> i) & 1 == 1) == (x & (1u32 << i) != 0),
{
}

/// Bit `i` of a `u32` word is the one of value `2^i`: the word has it set
/// exactly when it shares a bit with `1 << i`; the same holds of an `i32`
/// word through its two's complement bits.
pub proof fn law_u32_bit_order(x: u32, y: i32, i: u32)
    requires
        i < 32,
    ensures
        x.bit_at(i as int) == (x & (1u32 << i) != 0),
        y.bit_at(i as int) == ((y as u32) & (1u32 << i) != 0),
{
    lemma_u32_mask(x, i);
    lemma_u32_mask(y as u32, i);
}

proof fn lemma_u64_mask(x: u64, i: u64)
    by (bit_vector)
    requires
        i < 64,
    ensures
        ((x >> i) & 1 == 1) == (x & (1u64 << i) != 0),
{
}

/// Bit `i` of a `u64` word is the one of value `2^i`: the word has it set
/// exactly when it shares a bit with `1 << i`; the same holds of an `i64`
/// word through its two's complement bits.
pub proof fn law_u64_bit_order(x: u64, y: i64, i: u64)
    requires
        i < 64,
    ensures
        x.bit_at(i as int) == (x & (1u64 << i) != 0),
        y.bit_at(i as int) == ((y as u64) & (1u64 << i) != 0),
{
    lemma_u64_mask(x, i);
    lemma_u64_mask(y as u64, i);
}

proof fn lemma_u128_mask(x: u128, i: u128)
    by (bit_vector)
    requires
        i < 128,
    ensures
        ((x >> i) & 1 == 1) == (x & (1u128 << i) != 0),
{
}

/// Bit `i` of a `u128` word is the one of value `2^i`: the word has it set
/// exactly when it shares a bit with `1 << i`; the same holds of an `i128`
/// word through its two's complement bits.
pub proof fn law_u128_bit_order(x: u128, y: i128, i: u128)
    requires
        i < 128,
    ensures
        x.bit_at(i as int) == (x & (1u128 << i) != 0),
        y.bit_at(i as int) == ((y as u128) & (1u128 << i) != 0),
{
    lemma_u128_mask(x, i);
    lemma_u128_mask(y as u128, i);
}

proof fn lemma_usize_mask(x: usize, i: usize)
    by (bit_vector)
    requires
        i < usize::BITS,
    ensures
        ((x >> i) & 1 == 1) == (x & (1usize << i) != 0),
{
}

/// Bit `i` of a `usize` word is the one of value `2^i`: the word has it set
/// exactly when it shares a bit with `1 << i`; the same holds of an `isize`
/// word through its two's complement bits.
pub proof fn law_usize_bit_order(x: usize, y: isize, i: usize)
    requires
        i < usize::BITS,
    ensures
        x.bit_at(i as int) == (x & (1usize << i) != 0),
        y.bit_at(i as int) == ((y as usize) & (1usize << i) != 0),
{
    lemma_usize_mask(x, i);
    lemma_usize_mask(y as usize, i);
}

/// Writing a bit and reading it back gives the bit written, reading any
/// other bit gives what it was before, and the write returns the old
/// value; a write outside the bits changes nothing and returns `None`.
pub proof fn law_set_then_get(bits: Seq<bool>, i: int, value: bool, j: int)
    ensures
        set_spec(bits, i, value).1 == get_spec(bits, i),
        get_spec(set_spec(bits, i, value).0, j) == if 0 <= i < bits.len() && j == i {
            Some(value)
        } else {
            get_spec(bits, j)
        },
        !(0 <= i < bits.len()) ==> set_spec(bits, i, value).0 == bits,
{
}

/// Reading a bit by index gives the same bit as `get`, which is `None`
/// exactly past the end, where indexing is refused.
pub proof fn law_index_is_get(bits: Seq<bool>, i: int)
    ensures
        0 <= i < bits.len() ==> get_spec(bits, i) == Some(bits[i]),
        get_spec(bits, i) is None <==> !(0 <= i < bits.len()),
{
}

/// Indexing a vector reads the same bit as indexing the slice that
/// `as_slice` gives for it.
pub proof fn law_vec_index_is_slice_index<'a, Word: BitBuffer>(
    v: BinaryVec<Word>,
    s: BinarySlice<'a, Const, Word>,
    i: int,
)
    requires
        s@ == v@,
    ensures
        get_spec(s@, i) == get_spec(v@, i),
        0 <= i < v@.len() ==> s@[i] == v@[i],
{
}

/// Pushing a bit adds it after the others; popping right after gives that
/// bit back and leaves the bits as they were.
pub proof fn law_push_then_pop(bits: Seq<bool>, bit: bool, j: int)
    ensures
        bits.push(bit).len() == bits.len() + 1,
        get_spec(bits.push(bit), j) == if j == bits.len() {
            Some(bit)
        } else {
            get_spec(bits, j)
        },
        pop_spec(bits.push(bit)) == (Some(bit), bits),
{
    assert(bits.push(bit).drop_last() =~= bits);
}

/// `sub` gives a slice exactly when its range lies inside the slice and is
/// not inverted, empty ranges included; the slice it gives runs from the
/// start bound to the end bound.
pub proof fn law_sub_in_bounds(len: nat, start: Bound, end: Bound)
    ensures
        sub_range(len, start, end) is Some <==> start_position(start) <= end_position(len, end)
            <= len,
        sub_range(len, start, end) matches Some((s, l)) ==> {
            &&& s == start_position(start)
            &&& s + l == end_position(len, end)
            &&& s + l <= len
        },
{
}

/// Slicing twice selects the same bits as slicing once with the combined
/// range.
pub proof fn law_sub_of_sub(bits: Seq<bool>, a: usize, b: usize, c: usize, d: usize)
    requires
        a <= b <= bits.len(),
        c <= d <= b - a,
    ensures
        sub_range(bits.len(), Bound::Included(a), Bound::Excluded(b)) == Some((a as nat, (b - a) as nat)),
        sub_range((b - a) as nat, Bound::Included(c), Bound::Excluded(d)) == Some(
            (c as nat, (d - c) as nat),
        ),
        sub_range(
            bits.len(),
            Bound::Included((a + c) as usize),
            Bound::Excluded((a + d) as usize),
        ) == Some(((a + c) as nat, (d - c) as nat)),
        bits.subrange(a as int, b as int).subrange(c as int, d as int) == bits.subrange(
            a + c,
            a + d,
        ),
{
    assert(bits.subrange(a as int, b as int).subrange(c as int, d as int) =~= bits.subrange(
        a + c,
        a + d,
    ));
}

/// Calling `next` `k` times on an iterator with bits `rest` left gives
/// those bits in order and then `None` for every further call: at most
/// `rest.len()` bits come out, and once `None` comes it keeps coming.
pub proof fn law_next_results(rest: Seq<bool>, k: nat)
    ensures
        next_results(rest, k).len() == k,
        forall|i: int| 0 <= i < k ==> #[trigger] next_results(rest, k)[i] == get_spec(rest, i),
    decreases k,
{
    if k > 0 {
        let (first, tail) = next_spec(rest);
        law_next_results(tail, (k - 1) as nat);
        assert forall|i: int| 0 <= i < k implies #[trigger] next_results(rest, k)[i] == get_spec(
            rest,
            i,
        ) by {
            if i > 0 {
                assert(next_results(rest, k)[i] == next_results(tail, (k - 1) as nat)[i - 1]);
                if rest.len() > 0 {
                    assert(get_spec(tail, i - 1) == get_spec(rest, i));
                }
            }
        }
    }
}

/// A slice is shown as an opening bracket, one `1` or `0` per bit in
/// order, and a closing bracket.
pub proof fn law_text_shows_bits(bits: Seq<bool>, width: nat)
    ensures
        slice_text(bits, width, false).len() == bits.len() + 2,
        slice_text(bits, width, false)[0] == '[',
        slice_text(bits, width, false)[bits.len() + 1int] == ']',
        forall|i: int|
            0 <= i < bits.len() ==> #[trigger] slice_text(bits, width, false)[i + 1] == if bits[i] {
                '1'
            } else {
                '0'
            },
    decreases bits.len(),
{
    reveal_with_fuel(crate::borrow::bits_text, 2);
    if bits.len() > 0 {
        law_text_shows_bits(bits.drop_last(), width);
        let prev = slice_text(bits.drop_last(), width, false);
        assert forall|i: int| 0 <= i < bits.len() implies #[trigger] slice_text(bits, width, false)[i
            + 1] == if bits[i] {
            '1'
        } else {
            '0'
        } by {
            if i < bits.len() - 1 {
                assert(bits.drop_last()[i] == bits[i]);
                assert(prev[i + 1] == if bits[i] { '1' } else { '0' });
            }
        }
    }
}

/// What is written through the mutable borrow of a vector is in the vector
/// once the borrow ends: `borrowed` is what `as_mut_slice` gave for
/// `before`, whose value after the borrow is `after`, and `done` is that
/// slice after the writes, now no longer used.
pub proof fn law_mut_slice_writes_back<'a, Word: BitBuffer>(
    before: BinaryVec<Word>,
    after: BinaryVec<Word>,
    borrowed: BinarySlice<'a, Mut, Word>,
    done: BinarySlice<'a, Mut, Word>,
)
    requires
        before.wf(),
        borrowed.wf(),
        borrowed.start_view() == 0,
        borrowed.len_view() == before@.len(),
        borrowed.words_view() == before.words_view(),
        final(borrowed.unique_ref())@.len() == borrowed.words_view().len() ==> after.wf(),
        after.len_view() == before.len_view(),
        after.capacity_view() == before.capacity_view(),
        after.words_view() == final(borrowed.unique_ref())@,
        done.wf(),
        done.start_view() == borrowed.start_view(),
        done.len_view() == borrowed.len_view(),
        done.words_view().len() == borrowed.words_view().len(),
        final(done.unique_ref())@ == final(borrowed.unique_ref())@,
        has_resolved(done),
    ensures
        after.wf(),
        after@ == done@,
{
    crate::borrow::lemma_resolved(done);
    assert(after@ =~= done@);
}

/// The character that shows a bit.
pub open spec fn bit_char(b: bool) -> char {
    if b {
        '1'
    } else {
        '0'
    }
}

/// Up to one word's worth of bits is shown in the alternate form as one
/// line break before the first bit and then the bits as in the plain form.
proof fn lemma_alternate_one_word(bits: Seq<bool>, w: nat)
    requires
        0 < bits.len() <= w,
    ensures
        bits_text(bits, w, true) == seq!['\n', '\t'] + bits_text(bits, w, false),
    decreases bits.len(),
{
    let i = bits.len() - 1;
    let c = seq![bit_char(bits.last())];
    if bits.len() == 1 {
        assert(bits.drop_last().len() == 0);
        assert(bits_text(bits, w, true) == Seq::<char>::empty() + seq!['\n', '\t'] + c);
        assert(bits_text(bits, w, false) == Seq::<char>::empty() + Seq::<char>::empty() + c);
        assert(bits_text(bits, w, true) =~= seq!['\n', '\t'] + bits_text(bits, w, false));
    } else {
        lemma_alternate_one_word(bits.drop_last(), w);
        vstd::arithmetic::div_mod::lemma_small_mod(i as nat, w);
        assert(bits_text(bits, w, true) == bits_text(bits.drop_last(), w, true) + Seq::<char>::empty()
            + c);
        assert(bits_text(bits, w, false) == bits_text(bits.drop_last(), w, false)
            + Seq::<char>::empty() + c);
        assert(bits_text(bits, w, true) =~= seq!['\n', '\t'] + bits_text(bits, w, false));
    }
}

/// After whole words of bits, the next word's bits are shown in the
/// alternate form as one line break and then the bits as in the plain form.
proof fn lemma_alternate_next_word(a: Seq<bool>, b: Seq<bool>, w: nat)
    requires
        0 < w,
        a.len() % w == 0,
        0 < b.len() <= w,
    ensures
        bits_text(a + b, w, true) == bits_text(a, w, true) + seq!['\n', '\t'] + bits_text(
            b,
            w,
            false,
        ),
    decreases b.len(),
{
    let ab = a + b;
    let c = seq![bit_char(b.last())];
    assert(ab.last() == b.last());
    if b.len() == 1 {
        assert(ab.drop_last() =~= a);
        assert(b.drop_last().len() == 0);
        assert(bits_text(ab, w, true) == bits_text(a, w, true) + seq!['\n', '\t'] + c);
        assert(bits_text(b, w, false) == Seq::<char>::empty() + Seq::<char>::empty() + c);
        assert(bits_text(ab, w, true) =~= bits_text(a, w, true) + seq!['\n', '\t'] + bits_text(
            b,
            w,
            false,
        ));
    } else {
        assert(ab.drop_last() =~= a + b.drop_last());
        lemma_alternate_next_word(a, b.drop_last(), w);
        let j = b.len() - 1;
        let k = a.len() / w;
        vstd::arithmetic::div_mod::lemma_fundamental_div_mod(a.len() as int, w as int);
        assert(k * w == a.len()) by (nonlinear_arith)
            requires
                a.len() == w * k + a.len() % w,
                a.len() % w == 0,
        ;
        crate::borrow::lemma_shift_position(w as int, k as int, j as int);
        vstd::arithmetic::div_mod::lemma_small_mod(j as nat, w);
        assert((a.len() + j) % (w as int) != 0);
        assert(bits_text(ab, w, true) == bits_text(ab.drop_last(), w, true) + Seq::<char>::empty()
            + c);
        assert(bits_text(b, w, false) == bits_text(b.drop_last(), w, false) + Seq::<char>::empty()
            + c);
        assert(bits_text(ab, w, true) =~= bits_text(a, w, true) + seq!['\n', '\t'] + bits_text(
            b,
            w,
            false,
        ));
    }
}

/// In the alternate form, bits that fit in one word of width `w` are shown
/// on one line: an opening bracket, a line break and a tab, the bits as in
/// the plain form, a line break and a closing bracket; no bits show as an
/// opening bracket, a line break and a closing bracket.
pub proof fn law_alternate_text_one_word(bits: Seq<bool>, w: nat)
    requires
        bits.len() <= w,
    ensures
        bits.len() == 0 ==> slice_text(bits, w, true) == seq!['[', '\n', ']'],
        0 < bits.len() ==> slice_text(bits, w, true) == seq!['[', '\n', '\t'] + bits_text(
            bits,
            w,
            false,
        ) + seq!['\n', ']'],
{
    if bits.len() == 0 {
        assert(slice_text(bits, w, true) =~= seq!['[', '\n', ']']);
    } else {
        lemma_alternate_one_word(bits, w);
        assert(slice_text(bits, w, true) =~= seq!['[', '\n', '\t'] + bits_text(bits, w, false)
            + seq!['\n', ']']);
    }
}

/// In the alternate form, a line break and a tab stand before the first
/// bit of each word of width `w` and nowhere else: after whole words `a`,
/// the next word's bits `b` add one line break and tab and then the bits as
/// in the plain form.
pub proof fn law_alternate_text_next_word(a: Seq<bool>, b: Seq<bool>, w: nat)
    requires
        0 < w,
        a.len() % w == 0,
        0 < b.len() <= w,
    ensures
        slice_text(a + b, w, true) == seq!['['] + bits_text(a, w, true) + seq!['\n', '\t']
            + bits_text(b, w, false) + seq!['\n', ']'],
{
    lemma_alternate_next_word(a, b, w);
    assert(slice_text(a + b, w, true) =~= seq!['['] + bits_text(a, w, true) + seq!['\n', '\t']
        + bits_text(b, w, false) + seq!['\n', ']']);
}

/// The plain form shows each bit by its character and nothing else.
pub proof fn law_plain_text_is_bit_chars(bits: Seq<bool>, w: nat)
    ensures
        bits_text(bits, w, false) == bits.map_values(|b: bool| bit_char(b)),
    decreases bits.len(),
{
    if bits.len() > 0 {
        law_plain_text_is_bit_chars(bits.drop_last(), w);
        assert(bits_text(bits, w, false) == bits_text(bits.drop_last(), w, false)
            + Seq::<char>::empty() + seq![bit_char(bits.last())]);
        assert(bits_text(bits, w, false) =~= bits.map_values(|b: bool| bit_char(b)));
    } else {
        assert(bits_text(bits, w, false) =~= bits.map_values(|b: bool| bit_char(b)));
    }
}

/// The bits of a run of words come word after word, each word's bits from
/// its bit 0 up: adding a word at the end adds its bits at the end.
pub proof fn law_bits_word_after_word<W: BitBuffer>(words: Seq<W>, x: W)
    requires
        width_ok::<W>(),
    ensures
        bits_of(seq![x]).len() == W::width_spec(),
        forall|i: int| 0 <= i < W::width_spec() ==> #[trigger] bits_of(seq![x])[i] == x.bit_at(i),
        bits_of(words.push(x)) == bits_of(words) + bits_of(seq![x]),
{
    let w = W::width_spec() as int;
    assert(seq![x].len() == 1);
    assert(seq![x].len() * w == w) by (nonlinear_arith)
        requires
            seq![x].len() == 1,
    ;
    assert forall|i: int| 0 <= i < w implies #[trigger] bits_of(seq![x])[i] == x.bit_at(i) by {
        crate::borrow::lemma_push_word(Seq::<W>::empty(), x, i);
        assert(Seq::<W>::empty().push(x) =~= seq![x]);
    }
    assert(words.push(x).len() * w == words.len() * w + w) by (nonlinear_arith)
        requires
            words.push(x).len() == words.len() + 1,
    ;
    assert forall|p: int| 0 <= p < words.push(x).len() * w implies #[trigger] bits_of(
        words.push(x),
    )[p] == (bits_of(words) + bits_of(seq![x]))[p] by {
        crate::borrow::lemma_push_word(words, x, p);
        if p >= words.len() * w {
            crate::borrow::lemma_push_word(Seq::<W>::empty(), x, p - words.len() * w);
            assert(Seq::<W>::empty().push(x) =~= seq![x]);
        }
    }
    assert(bits_of(words.push(x)) =~= bits_of(words) + bits_of(seq![x]));
}

/// The bits of an array word are the bits of its elements, element after
/// element.
pub proof fn law_array_bits<T: BitBuffer, const N: usize>(a: [T; N], i: int)
    requires
        width_ok::<[T; N]>(),
        0 <= i < <[T; N] as BitBuffer>::width_spec(),
    ensures
        a.bit_at(i) == bits_of(a@)[i],
{
    assert(a@.len() == N);
}

} // verus!
