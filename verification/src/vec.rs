use vstd::prelude::*;
use crate::borrow::{
    bits_of, read_word_bit, slice_text, width_ok, word_bit, write_word_bit, BinarySlice, BitBuffer,
    Const, Mut, WordRef,
};
use crate::raw_vec::{layout_ok, next_capacity, words_for, RawBinaryVec};

verus! {

/// What popping the last of `bits` gives: that bit and the bits before it,
/// or `None` and no change when there are none.
pub open spec fn pop_spec(bits: Seq<bool>) -> (Option<bool>, Seq<bool>) {
    if bits.len() == 0 {
        (None, bits)
    } else {
        (Some(bits.last()), bits.drop_last())
    }
}

/// A growable vector of bits, packed into words from the least significant
/// bit of each up.
pub struct BinaryVec<Word: BitBuffer = usize> {
    length: usize,
    buf: RawBinaryVec<Word>,
}

impl<Word: BitBuffer> View for BinaryVec<Word> {
    type V = Seq<bool>;

    /// The bits of the vector.
    open spec fn view(&self) -> Seq<bool> {
        Seq::new(self.len_view(), |i: int| word_bit(self.words_view(), i))
    }
}

impl<Word: BitBuffer> BinaryVec<Word> {
    /// The bits, counted from the first bit of the first word, lie within
    /// the capacity of well formed storage.
    pub closed spec fn wf(&self) -> bool {
        &&& self.buf.wf()
        &&& self.length <= self.buf.capacity
    }

    /// Number of bits in the vector.
    pub closed spec fn len_view(&self) -> nat {
        self.length as nat
    }

    /// Number of bits the vector has room for.
    pub closed spec fn capacity_view(&self) -> nat {
        self.buf.capacity as nat
    }

    /// The words that hold the bits.
    pub closed spec fn words_view(&self) -> Seq<Word> {
        self.buf.data@
    }

    /// A bit can be pushed: there is room for it, or the storage can grow to
    /// its next capacity.
    pub open spec fn can_push_spec(&self) -> bool {
        ||| self.len_view() < self.capacity_view()
        ||| self.can_grow()
    }

    /// The storage can grow to the next capacity after the present one.
    pub open spec fn can_grow(&self) -> bool {
        let end = next_capacity(self.capacity_view(), Word::width_spec());
        &&& end <= usize::MAX
        &&& layout_ok::<Word>(end)
    }

    /// Whether a bit can be pushed: there is room for it, or the storage can
    /// grow to its next capacity.
    pub fn can_push(&self) -> (r: bool)
        requires
            self.wf(),
        ensures
            r == self.can_push_spec(),
    {
        if self.length < self.buf.capacity {
            return true;
        }
        let next = if self.buf.capacity == 0 {
            Word::width()
        } else {
            match self.buf.capacity.checked_mul(2) {
                Some(n) => n,
                None => {
                    return false;
                },
            }
        };
        Self::layout(next).is_some()
    }

    /// What well formedness says, in terms of the public views.
    pub proof fn lemma_wf(&self)
        requires
            self.wf(),
        ensures
            width_ok::<Word>(),
            self@.len() <= self.capacity_view(),
            self.capacity_view() <= self.words_view().len() * Word::width_spec(),
            self.words_view().len() * Word::width_spec() <= usize::MAX,
    {
        self.buf.lemma_room();
    }

    /// The number of words that `capacity` bits need, or `None` when they
    /// cannot be allocated; `Some` exactly when `with_capacity(capacity)`
    /// may be called.
    pub fn layout(capacity: usize) -> (r: Option<usize>)
        requires
            width_ok::<Word>(),
        ensures
            r is Some <==> layout_ok::<Word>(capacity as nat),
            r matches Some(n) ==> n == words_for(capacity as nat, Word::width_spec()),
    {
        RawBinaryVec::<Word>::layout(capacity)
    }

    /// Grows the storage to its next capacity, keeping the vector's bits;
    /// the words added are clear.
    pub(crate) fn grow(&mut self)
        requires
            old(self).wf(),
            old(self).can_grow(),
        ensures
            final(self).wf(),
            final(self)@ == old(self)@,
            final(self).capacity_view() == next_capacity(old(self).capacity_view(), Word::width_spec()),
            final(self).words_view().len() >= old(self).words_view().len(),
            final(self).words_view().subrange(0, old(self).words_view().len() as int) == old(
                self,
            ).words_view(),
            forall|p: int|
                old(self).words_view().len() * Word::width_spec() <= p < final(self).words_view().len()
                    * Word::width_spec() ==> !#[trigger] word_bit(final(self).words_view(), p),
    {
        let ghost old_words = self.buf.data@;
        self.buf.grow();
        proof {
            let w = Word::width_spec() as int;
            assert forall|i: int| 0 <= i < self.length implies #[trigger] self@[i] == old(self)@[i] by {
                let p = i;
                let cap = old(self).buf.capacity as nat;
                let k = words_for(cap, w as nat);
                crate::raw_vec::lemma_words_for(cap, w as nat);
                assert(old_words.len() * w >= cap) by (nonlinear_arith)
                    requires
                        old_words.len() >= k,
                        k * w >= cap,
                        w > 0,
                ;
                crate::borrow::lemma_position(w, old_words.len() as int, p);
                assert(self.buf.data@[p / w] == self.buf.data@.subrange(0, old_words.len() as int)[p / w]);
            }
            assert(self@ =~= old(self)@);
        }
    }

    /// Constructs a new, empty binary vector.
    pub fn new() -> (r: Self)
        requires
            width_ok::<Word>(),
        ensures
            r.wf(),
            r@ == Seq::<bool>::empty(),
            r.capacity_view() == 0,
    {
        let data: Vec<Word> = Vec::new();
        assert(data@.len() * Word::width_spec() == 0);
        let r = BinaryVec { length: 0, buf: RawBinaryVec::from_raw_parts(0, data) };
        proof {
            assert(r@ =~= Seq::<bool>::empty());
        }
        r
    }

    /// Constructs a new, empty binary vector with room for `capacity` bits.
    pub fn with_capacity(capacity: usize) -> (r: Self)
        requires
            width_ok::<Word>(),
            layout_ok::<Word>(capacity as nat),
        ensures
            r.wf(),
            r@ == Seq::<bool>::empty(),
            r.capacity_view() == capacity,
    {
        if capacity == 0 {
            return Self::new();
        }
        let words = match Self::layout(capacity) {
            Some(n) => n,
            None => 0,
        };
        let mut data: Vec<Word> = Vec::new();
        while data.len() < words
            invariant
                data@.len() <= words,
            decreases words - data@.len(),
        {
            data.push(Word::zero());
        }
        let r = BinaryVec { length: 0, buf: RawBinaryVec::from_raw_parts(capacity, data) };
        proof {
            assert(r@ =~= Seq::<bool>::empty());
        }
        r
    }

    /// Constructs a binary vector of the first `length` bits of the given
    /// words, with room for `capacity` bits; the words must hold at least
    /// `start + capacity` bits.
    pub fn from_raw_parts(start: usize, length: usize, capacity: usize, data: Vec<Word>) -> (r: Self)
        requires
            width_ok::<Word>(),
            length <= capacity,
            start + capacity <= usize::MAX,
            words_for((start + capacity) as nat, Word::width_spec()) <= data@.len(),
            data@.len() * Word::width_spec() <= usize::MAX,
        ensures
            r.wf(),
            r.len_view() == length,
            r.capacity_view() == capacity,
            r.words_view() == data@,
    {
        proof {
            crate::raw_vec::lemma_words_for(
                (start + capacity) as nat,
                Word::width_spec(),
            );
            crate::raw_vec::lemma_words_for_le(
                capacity as nat,
                words_for((start + capacity) as nat, Word::width_spec()),
                Word::width_spec(),
            );
        }
        BinaryVec { length, buf: RawBinaryVec::from_raw_parts(capacity, data) }
    }

    /// Pushes a single bit to the vector, growing it first when it is full.
    pub fn push(&mut self, bit: bool)
        requires
            old(self).wf(),
            old(self).can_push_spec(),
        ensures
            final(self).wf(),
            final(self)@ == old(self)@.push(bit),
            final(self).capacity_view() == if old(self).len_view() < old(self).capacity_view() {
                old(self).capacity_view()
            } else {
                next_capacity(old(self).capacity_view(), Word::width_spec())
            },
    {
        if self.length == self.buf.capacity {
            let ghost old_len = self.length;
            self.grow();
            assert(self@.len() == old_len);
        }
        let ghost before = self@;
        let ghost before_words = self.buf.data@;
        let pos = self.length;
        proof {
            self.buf.lemma_room();
        }
        write_word_bit(self.buf.data.as_mut_slice(), pos, bit);
        self.length = self.length + 1;
        proof {
            assert forall|i: int| 0 <= i < self.length implies #[trigger] self@[i] == before.push(
                bit,
            )[i] by {
                assert(bits_of(self.buf.data@)[i] == word_bit(self.buf.data@, i));
                assert(bits_of(before_words)[i] == word_bit(before_words, i));
            }
            assert(self@ =~= before.push(bit));
        }
    }

    /// Pops a single bit from the vector, or returns `None` if it's empty.
    pub fn pop(&mut self) -> (r: Option<bool>)
        requires
            old(self).wf(),
        ensures
            final(self).wf(),
            final(self).capacity_view() == old(self).capacity_view(),
            final(self).words_view() == old(self).words_view(),
            (r, final(self)@) == pop_spec(old(self)@),
    {
        if self.length == 0 {
            return None;
        }
        let v = self.as_slice().get_unchecked(self.length - 1);
        self.length = self.length - 1;
        proof {
            assert(self@ =~= old(self)@.drop_last());
        }
        Some(v)
    }

    /// Borrows the whole vector as a binary slice.
    pub fn as_slice(&self) -> (r: BinarySlice<'_, Const, Word>)
        requires
            self.wf(),
        ensures
            r.wf(),
            r@ == self@,
            r.start_view() == 0,
            r.len_view() == self@.len(),
            r.words_view() == self.words_view(),
    {
        proof {
            self.buf.lemma_room();
        }
        BinarySlice::from_raw_parts(0, self.length, WordRef::Shared(self.buf.data.as_slice()))
    }

    /// Mutably borrows the whole vector as a binary slice; what is written
    /// through it is in the vector when the borrow ends.
    pub fn as_mut_slice(&mut self) -> (r: BinarySlice<'_, Mut, Word>)
        requires
            old(self).wf(),
        ensures
            r.wf(),
            r@ == old(self)@,
            r.start_view() == 0,
            r.len_view() == old(self)@.len(),
            r.words_view() == old(self).words_view(),
            final(r.unique_ref())@.len() == r.words_view().len() ==> final(self).wf(),
            final(self).len_view() == old(self).len_view(),
            final(self).capacity_view() == old(self).capacity_view(),
            final(self).words_view() == final(r.unique_ref())@,
    {
        proof {
            self.buf.lemma_room();
        }
        let length = self.length;
        BinarySlice::from_raw_parts(0, length, WordRef::Unique(self.buf.data.as_mut_slice()))
    }

    /// Returns the number of words completely filled by the vector's bits.
    pub fn filled_words(&self) -> (r: usize)
        requires
            self.wf(),
        ensures
            r == self@.len() / Word::width_spec(),
    {
        self.length / Word::width()
    }

    /// Borrows the whole vector, with the bits past its length up to its
    /// capacity, as a binary slice.
    pub fn capacity_slice(&self) -> (r: BinarySlice<'_, Const, Word>)
        requires
            self.wf(),
        ensures
            r.wf(),
            r.start_view() == 0,
            r.len_view() == self.capacity_view(),
            self@.len() <= r.len_view(),
            r.words_view() == self.words_view(),
            r@.subrange(0, self@.len() as int) == self@,
    {
        proof {
            self.buf.lemma_room();
        }
        let r = BinarySlice::from_raw_parts(
            0,
            self.buf.capacity,
            WordRef::Shared(self.buf.data.as_slice()),
        );
        proof {
            assert(r@.subrange(0, self@.len() as int) =~= self@);
        }
        r
    }

    /// Mutably borrows the whole vector, with the bits past its length up to
    /// its capacity, as a binary slice; what is written through it is in the
    /// vector's words when the borrow ends.
    pub fn capacity_slice_mut(&mut self) -> (r: BinarySlice<'_, Mut, Word>)
        requires
            old(self).wf(),
        ensures
            r.wf(),
            r.start_view() == 0,
            r.len_view() == old(self).capacity_view(),
            old(self)@.len() <= r.len_view(),
            r.words_view() == old(self).words_view(),
            r@.subrange(0, old(self)@.len() as int) == old(self)@,
            final(r.unique_ref())@.len() == r.words_view().len() ==> final(self).wf(),
            final(self).len_view() == old(self).len_view(),
            final(self).capacity_view() == old(self).capacity_view(),
            final(self).words_view() == final(r.unique_ref())@,
    {
        proof {
            self.buf.lemma_room();
        }
        let cap = self.buf.capacity;
        let ghost old_view = self@;
        let r = BinarySlice::from_raw_parts(0, cap, WordRef::Unique(self.buf.data.as_mut_slice()));
        proof {
            assert(r@.subrange(0, old_view.len() as int) =~= old_view);
        }
        r
    }

    /// Shows the bits of the vector as `1` and `0` between square brackets.
    pub fn to_string(&self) -> (r: String)
        requires
            self.wf(),
        ensures
            r@ == slice_text(self@, Word::width_spec(), false),
    {
        self.as_slice().to_string()
    }

    /// Shows the bits of the vector as `1` and `0` between square brackets,
    /// each word's bits on a line of their own.
    pub fn to_string_alternate(&self) -> (r: String)
        requires
            self.wf(),
        ensures
            r@ == slice_text(self@, Word::width_spec(), true),
    {
        self.as_slice().to_string_alternate()
    }
}


impl<Word: BitBuffer> BinaryVec<Word> {
    /// Copies the bits of a slice to a new binary vector, from the first bit
    /// of its first word: the words that hold them are copied, and the bits
    /// are moved down when the slice does not start on a word. The vector has
    /// room for as many bits as the copied words hold up to the slice's end.
    pub fn copy_from_slice<'lt>(slice: BinarySlice<'lt, Const, Word>) -> (r: Self)
        requires
            slice.wf(),
        ensures
            r.wf(),
            r@ == slice@,
            r.capacity_view() == slice.start_view() % Word::width_spec() + slice.len_view(),
    {
        let ghost bits = slice@;
        proof {
            slice.lemma_wf();
        }
        let length = slice.len();
        let (src, start, end) = slice.into_word_slice();
        let w = Word::width();
        let mut data = vstd::slice::slice_to_vec(src);
        proof {
            assert(bits_of(src@).subrange(start as int, end as int).len() == bits.len());
        }
        if start != 0 {
            let mut i: usize = 0;
            while i < length
                invariant
                    width_ok::<Word>(),
                    w == Word::width_spec(),
                    data@.len() == src@.len(),
                    start + length == end,
                    end <= src@.len() * w,
                    i <= length,
                    forall|j: int| 0 <= j < i ==> #[trigger] bits_of(data@)[j] == bits_of(src@)[start + j],
                decreases length - i,
            {
                let b = read_word_bit(src, start + i);
                let ghost before = data@;
                write_word_bit(data.as_mut_slice(), i, b);
                proof {
                    assert forall|j: int| 0 <= j < i + 1 implies #[trigger] bits_of(data@)[j] == bits_of(
                        src@,
                    )[start + j] by {
                        if j < i {
                            assert(bits_of(before)[j] == bits_of(src@)[start + j]);
                        }
                    }
                }
                i = i + 1;
            }
        }
        proof {
            crate::raw_vec::lemma_words_for_le(end as nat, data@.len() as nat, w as nat);
        }
        let ghost data_view = data@;
        let r = BinaryVec { length, buf: RawBinaryVec::from_raw_parts(end, data) };
        proof {
            assert forall|i: int| 0 <= i < length implies #[trigger] r@[i] == bits[i] by {
                assert(bits_of(src@).subrange(start as int, end as int)[i] == bits[i]);
                assert(bits_of(data_view)[i] == word_bit(data_view, i));
                if start == 0 {
                    assert(data_view == src@);
                }
            }
            assert(r@ =~= bits);
        }
        r
    }

    /// Constructs a binary vector holding all the bits of the given words.
    pub fn from_words(words: Vec<Word>) -> (r: Self)
        requires
            width_ok::<Word>(),
            words@.len() * Word::width_spec() <= usize::MAX,
        ensures
            r.wf(),
            r@ == bits_of(words@),
            r.capacity_view() == words@.len() * Word::width_spec(),
    {
        let len = words.len() * Word::width();
        proof {
            crate::raw_vec::lemma_words_for_whole(words@.len() as nat, Word::width_spec());
        }
        let ghost ws = words@;
        let r = BinaryVec { length: len, buf: RawBinaryVec::from_raw_parts(len, words) };
        proof {
            assert(r@ =~= bits_of(ws));
        }
        r
    }

    /// Constructs a binary vector holding the given bits, packed into words
    /// from the least significant bit of the first word up.
    pub fn from_bits(bits: Vec<bool>) -> (r: Self)
        requires
            width_ok::<Word>(),
            bits@.len() + Word::width_spec() <= usize::MAX + 1,
        ensures
            r.wf(),
            r@ == bits@,
            r.capacity_view() == words_for(bits@.len(), Word::width_spec()) * Word::width_spec(),
            bits@.len() <= r.capacity_view(),
            forall|p: int|
                bits@.len() <= p < r.words_view().len() * Word::width_spec() ==> !#[trigger] word_bit(
                    r.words_view(),
                    p,
                ),
    {
        let w = Word::width();
        let n = bits.len();
        let mut words: Vec<Word> = Vec::new();
        let mut cur = Word::zero();
        let mut idx: usize = 0;
        let mut i: usize = 0;
        assert(words@.len() == 0);
        assert(words@.len() * w == 0);
        while i < n
            invariant
                width_ok::<Word>(),
                w == Word::width_spec(),
                n == bits@.len(),
                n + w <= usize::MAX + 1,
                i <= n,
                idx < w,
                i == words@.len() * w + idx,
                forall|p: int| 0 <= p < words@.len() * w ==> #[trigger] word_bit(words@, p) == bits@[p],
                forall|j: int| 0 <= j < idx ==> #[trigger] cur.bit_at(j) == bits@[words@.len() * w + j],
                forall|j: int| idx <= j < w ==> !#[trigger] cur.bit_at(j),
            decreases n - i,
        {
            let b = bits[i];
            let ghost old_cur = cur;
            cur.set_bit(idx, b);
            proof {
                assert forall|j: int| 0 <= j < idx + 1 implies #[trigger] cur.bit_at(j)
                    == bits@[words@.len() * w + j] by {
                    if j < idx {
                        assert(old_cur.bit_at(j) == bits@[words@.len() * w + j]);
                    }
                }
                assert forall|j: int| idx + 1 <= j < w implies !#[trigger] cur.bit_at(j) by {
                    assert(!old_cur.bit_at(j));
                }
            }
            idx = idx + 1;
            i = i + 1;
            if idx == w {
                let ghost before = words@;
                words.push(cur);
                proof {
                    assert(words@.len() * w == before.len() * w + w) by (nonlinear_arith)
                        requires
                            words@.len() == before.len() + 1,
                    ;
                    assert forall|p: int| 0 <= p < words@.len() * w implies #[trigger] word_bit(
                        words@,
                        p,
                    ) == bits@[p] by {
                        crate::borrow::lemma_push_word(before, cur, p);
                        if p >= before.len() * w {
                            assert(cur.bit_at(p - before.len() * w) == bits@[before.len() * w + (p - before.len() * w)]);
                        }
                    }
                }
                cur = Word::zero();
                idx = 0;
            }
        }
        if idx > 0 {
            let ghost before = words@;
            words.push(cur);
            proof {
                assert(words@.len() * w == before.len() * w + w) by (nonlinear_arith)
                    requires
                        words@.len() == before.len() + 1,
                ;
                assert forall|p: int| 0 <= p < n implies #[trigger] word_bit(words@, p) == bits@[p] by {
                    crate::borrow::lemma_push_word(before, cur, p);
                    if p >= before.len() * w {
                        assert(cur.bit_at(p - before.len() * w) == bits@[before.len() * w + (p - before.len() * w)]);
                    }
                }
                assert forall|p: int| n <= p < words@.len() * w implies !#[trigger] word_bit(words@, p) by {
                    crate::borrow::lemma_push_word(before, cur, p);
                    assert(!cur.bit_at(p - before.len() * w));
                }
            }
        }
        proof {
            let k = words@.len();
            if idx == 0 {
                crate::raw_vec::lemma_words_for_whole(k as nat, w as nat);
            } else {
                vstd::arithmetic::div_mod::lemma_fundamental_div_mod_converse_div(
                    n as int,
                    w as int,
                    (k - 1) as int,
                    idx as int,
                );
                vstd::arithmetic::div_mod::lemma_fundamental_div_mod_converse_mod(
                    n as int,
                    w as int,
                    (k - 1) as int,
                    idx as int,
                );
            }
            crate::raw_vec::lemma_words_for(n as nat, w as nat);
        }
        let cap = words.len() * w;
        let ghost ws = words@;
        proof {
            crate::raw_vec::lemma_words_for_whole(ws.len() as nat, w as nat);
        }
        let r = BinaryVec { length: n, buf: RawBinaryVec::from_raw_parts(cap, words) };
        proof {
            assert(r@ =~= bits@);
        }
        r
    }
}

impl<Word: BitBuffer> core::ops::Index<usize> for BinaryVec<Word> {
    type Output = bool;

    /// Returns the given bit, which must be in bounds.
    fn index(&self, index: usize) -> (r: &bool)
        ensures
            *r == self@[index as int],
    {
        if self.as_slice().get_unchecked(index) {
            &true
        } else {
            &false
        }
    }
}

impl<Word: BitBuffer> vstd::std_specs::core::IndexSpecImpl<usize> for BinaryVec<Word> {
    open spec fn index_req(&self, index: &usize) -> bool {
        self.wf() && *index < self.len_view()
    }
}

} // verus!
