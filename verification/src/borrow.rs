use vstd::prelude::*;
use vstd::string::StringExecFns;
use core::marker::PhantomData;

mod seal;
mod words;

verus! {

/// The storage unit of a bit slice: a fixed number of bits, addressed from
/// the least significant one up.
pub trait BitBuffer: seal::BitSeal + Copy + Sized {
    /// Number of bits held by one value.
    spec fn width_spec() -> nat;

    /// The bit at `index`, counted from the least significant bit.
    spec fn bit_at(&self, index: int) -> bool;

    /// Number of bits held by one value.
    fn width() -> (w: usize)
        requires
            0 < Self::width_spec() <= usize::MAX,
        ensures
            w == Self::width_spec(),
    ;

    /// The value whose bits are all clear.
    fn zero() -> (z: Self)
        ensures
            forall|i: int| 0 <= i < Self::width_spec() ==> !#[trigger] z.bit_at(i),
    ;

    /// Sets the bit at `index` to `value`, leaving every other bit as it was.
    fn set_bit(&mut self, index: usize, value: bool)
        requires
            0 < Self::width_spec() <= usize::MAX,
            index < Self::width_spec(),
        ensures
            forall|i: int|
                0 <= i < Self::width_spec() ==> #[trigger] final(self).bit_at(i) == if i
                    == index {
                    value
                } else {
                    old(self).bit_at(i)
                },
    ;

    /// Returns the bit at `index`.
    fn get_bit(&self, index: usize) -> (b: bool)
        requires
            0 < Self::width_spec() <= usize::MAX,
            index < Self::width_spec(),
        ensures
            b == self.bit_at(index as int),
    ;
}

/// A word type whose width is positive and fits in a `usize`; every
/// operation that divides a bit position by the width needs it.
pub open spec fn width_ok<W: BitBuffer>() -> bool {
    0 < W::width_spec() <= usize::MAX
}


/// The bit at position `pos` of a run of words: bit `pos % W` of word `pos / W`.
pub open spec fn word_bit<W: BitBuffer>(words: Seq<W>, pos: int) -> bool {
    words[pos / (W::width_spec() as int)].bit_at(pos % (W::width_spec() as int))
}

/// All the bits of a run of words, word after word.
pub open spec fn bits_of<W: BitBuffer>(words: Seq<W>) -> Seq<bool> {
    Seq::new(words.len() * W::width_spec(), |pos: int| word_bit(words, pos))
}

/// Facts about splitting a bit position `pos` below `w * n` into the word
/// position `pos / w` and the bit position `pos % w`.
pub(crate) proof fn lemma_position(w: int, n: int, pos: int)
    requires
        0 < w,
        0 <= n,
        0 <= pos < n * w,
    ensures
        0 <= pos / w < n,
        0 <= pos % w < w,
        w * (pos / w) + pos % w == pos,
{
    vstd::arithmetic::div_mod::lemma_fundamental_div_mod(pos, w);
    assert(pos / w < n && 0 <= pos / w) by (nonlinear_arith)
        requires
            0 < w,
            0 <= pos < n * w,
            w * (pos / w) + pos % w == pos,
            0 <= pos % w < w,
    ;
}

/// Moving `k` whole words in shifts a bit position by `k * w`.
pub(crate) proof fn lemma_shift_position(w: int, k: int, p: int)
    requires
        0 < w,
        0 <= p,
    ensures
        (k * w + p) / w == k + p / w,
        (k * w + p) % w == p % w,
{
    vstd::arithmetic::div_mod::lemma_fundamental_div_mod(p, w);
    assert(k * w + p == (k + p / w) * w + p % w) by (nonlinear_arith)
        requires
            p == w * (p / w) + p % w,
    ;
    vstd::arithmetic::div_mod::lemma_fundamental_div_mod_converse_div(
        k * w + p,
        w,
        k + p / w,
        p % w,
    );
    vstd::arithmetic::div_mod::lemma_fundamental_div_mod_converse_mod(
        k * w + p,
        w,
        k + p / w,
        p % w,
    );
}

/// The bits of the words from `k` on are the bits of all the words from
/// position `k * W` on.
pub(crate) proof fn lemma_word_bit_subrange<W: BitBuffer>(words: Seq<W>, k: int, j: int, p: int)
    requires
        width_ok::<W>(),
        0 <= k <= j <= words.len(),
        0 <= p < (j - k) * W::width_spec(),
    ensures
        word_bit(words.subrange(k, j), p) == word_bit(words, k * W::width_spec() + p),
{
    let w = W::width_spec() as int;
    lemma_position(w, j - k, p);
    lemma_shift_position(w, k, p);
}

/// The bits of words with one more word pushed: those of the words before,
/// then those of the new word.
pub(crate) proof fn lemma_push_word<W: BitBuffer>(before: Seq<W>, cur: W, p: int)
    requires
        width_ok::<W>(),
        0 <= p < (before.len() + 1) * W::width_spec(),
    ensures
        word_bit(before.push(cur), p) == if p < before.len() * W::width_spec() {
            word_bit(before, p)
        } else {
            cur.bit_at(p - before.len() * W::width_spec())
        },
{
    let w = W::width_spec() as int;
    let k = before.len() as int;
    lemma_position(w, k + 1, p);
    if p < k * w {
        lemma_position(w, k, p);
    } else {
        let j = p - k * w;
        assert((k + 1) * w == k * w + w) by (nonlinear_arith);
        lemma_shift_position(w, k, j);
        vstd::arithmetic::div_mod::lemma_basic_div(j, w);
        vstd::arithmetic::div_mod::lemma_small_mod(j as nat, w as nat);
    }
}

/// Bounds of a range of bit positions, as in `core::ops::Bound`.
pub enum Bound {
    Included(usize),
    Excluded(usize),
    Unbounded,
}

/// What reading bit `i` of `bits` gives: the bit, or `None` outside them.
pub open spec fn get_spec(bits: Seq<bool>, i: int) -> Option<bool> {
    if 0 <= i < bits.len() {
        Some(bits[i])
    } else {
        None
    }
}

/// What writing `value` to bit `i` of `bits` gives: the new bits and the
/// old value, or the bits unchanged and `None` outside them.
pub open spec fn set_spec(bits: Seq<bool>, i: int, value: bool) -> (Seq<bool>, Option<bool>) {
    if 0 <= i < bits.len() {
        (bits.update(i, value), Some(bits[i]))
    } else {
        (bits, None)
    }
}

/// What taking the next bit of the bits `rest` gives: the first bit and
/// the rest after it, or `None` and nothing once they are all taken.
pub open spec fn next_spec(rest: Seq<bool>) -> (Option<bool>, Seq<bool>) {
    if rest.len() == 0 {
        (None, rest)
    } else {
        (Some(rest[0]), rest.drop_first())
    }
}

/// The results of `k` calls of `next` on an iterator with `rest` bits left.
pub open spec fn next_results(rest: Seq<bool>, k: nat) -> Seq<Option<bool>>
    decreases k,
{
    if k == 0 {
        Seq::empty()
    } else {
        seq![next_spec(rest).0] + next_results(next_spec(rest).1, (k - 1) as nat)
    }
}

/// First position that a start bound selects.
pub open spec fn start_position(start: Bound) -> int {
    match start {
        Bound::Included(i) => i as int,
        Bound::Excluded(i) => i + 1,
        Bound::Unbounded => 0,
    }
}

/// Position just past the last one that an end bound selects in a slice of
/// `len` bits.
pub open spec fn end_position(len: nat, end: Bound) -> int {
    match end {
        Bound::Included(i) => i + 1,
        Bound::Excluded(i) => i as int,
        Bound::Unbounded => len as int,
    }
}

/// The part of a slice of `len` bits that the bounds select, as its first
/// position and its length; `None` when the range is out of bounds or
/// inverted. An empty range inside the slice selects an empty part.
pub open spec fn sub_range(len: nat, start: Bound, end: Bound) -> Option<(nat, nat)> {
    let s = start_position(start);
    let e = end_position(len, end);
    if s <= e <= len {
        Some((s as nat, (e - s) as nat))
    } else {
        None
    }
}

/// Sets bit `pos` of the words to `value` and returns its old value.
pub(crate) fn write_word_bit<Word: BitBuffer>(m: &mut [Word], pos: usize, value: bool) -> (r: bool)
    requires
        width_ok::<Word>(),
        pos < old(m)@.len() * Word::width_spec(),
    ensures
        final(m)@.len() == old(m)@.len(),
        r == bits_of(old(m)@)[pos as int],
        bits_of(final(m)@) == bits_of(old(m)@).update(pos as int, value),
{
    let w = Word::width();
    let ghost old_words = m@;
    proof {
        lemma_position(w as int, m@.len() as int, pos as int);
    }
    let k = pos / w;
    let mut x = m[k];
    let old_bit = x.get_bit(pos % w);
    x.set_bit(pos % w, value);
    m[k] = x;
    proof {
        let n = old_words.len() * Word::width_spec();
        assert forall|p: int| 0 <= p < n implies #[trigger] word_bit(m@, p) == if p == pos {
            value
        } else {
            word_bit(old_words, p)
        } by {
            lemma_position(w as int, m@.len() as int, p);
            if p / (w as int) == k && p % (w as int) == pos % w {
                crate::borrow::words::lemma_same_position(w as int, p, pos as int);
            }
        }
        assert(bits_of(m@) =~= bits_of(old_words).update(pos as int, value));
    }
    old_bit
}

/// Returns bit `pos` of the words.
pub(crate) fn read_word_bit<Word: BitBuffer>(m: &[Word], pos: usize) -> (r: bool)
    requires
        width_ok::<Word>(),
        pos < m@.len() * Word::width_spec(),
    ensures
        r == bits_of(m@)[pos as int],
{
    let w = Word::width();
    proof {
        lemma_position(w as int, m@.len() as int, pos as int);
    }
    m[pos / w].get_bit(pos % w)
}

/// Marks the kind of a binary slice: whether it may be written through.
pub trait BorrowType: seal::BorrowSeal {
    /// Whether slices of this kind hold their words by unique reference.
    spec fn is_unique() -> bool;
}

/// Marks a binary borrow as immutable. Only its type is used.
pub enum Const {
    Marker,
}

impl seal::BorrowSeal for Const {}

impl BorrowType for Const {
    open spec fn is_unique() -> bool {
        false
    }
}

/// Marks a binary borrow as mutable. Only its type is used.
pub enum Mut {
    Marker,
}

impl seal::BorrowSeal for Mut {}

impl BorrowType for Mut {
    open spec fn is_unique() -> bool {
        true
    }
}

/// The words under a binary slice, borrowed shared or unique.
pub enum WordRef<'slice, Word> {
    Shared(&'slice [Word]),
    Unique(&'slice mut [Word]),
}

impl<'slice, Word> WordRef<'slice, Word> {
    /// The words as they are now.
    pub open spec fn words(&self) -> Seq<Word> {
        match self {
            WordRef::Shared(s) => s@,
            WordRef::Unique(m) => m@,
        }
    }

    /// The unique borrow, when the words are held by one.
    pub open spec fn unique(&self) -> &'slice mut [Word] {
        match *self {
            WordRef::Unique(m) => m,
            WordRef::Shared(_) => vstd::pervasive::arbitrary(),
        }
    }
}

impl<'slice, Word: BitBuffer> WordRef<'slice, Word> {
    /// Sets bit `pos` of the uniquely borrowed words to `value` and returns
    /// its old value.
    fn write_bit(&mut self, pos: usize, value: bool) -> (r: bool)
        requires
            width_ok::<Word>(),
            *old(self) is Unique,
            pos < old(self).words().len() * Word::width_spec(),
        ensures
            *final(self) is Unique,
            final(final(self).unique())@ == final(old(self).unique())@,
            final(self).words().len() == old(self).words().len(),
            r == bits_of(old(self).words())[pos as int],
            bits_of(final(self).words()) == bits_of(old(self).words()).update(pos as int, value),
    {
        match self {
            WordRef::Unique(m) => write_word_bit(m, pos, value),
            WordRef::Shared(_) => false,
        }
    }
}

/// A run of bits inside a borrowed run of words: bits `start` up to
/// `start + length` of the words, counted word after word from the least
/// significant bit of each.
pub struct BinarySlice<'slice, Ref: BorrowType = Const, Word: BitBuffer + 'slice = usize> {
    start: usize,
    length: usize,
    data: WordRef<'slice, Word>,
    marker: PhantomData<Ref>,
}

impl<'slice, Ref: BorrowType, Word: BitBuffer + 'slice> BinarySlice<'slice, Ref, Word> {
    /// The slice lies inside its words, whose bits can be counted in a
    /// `usize`, and its words are borrowed uniquely exactly when its kind is
    /// [`Mut`].
    pub closed spec fn wf(&self) -> bool {
        &&& width_ok::<Word>()
        &&& self.start + self.length <= self.data.words().len() * Word::width_spec()
        &&& self.data.words().len() * Word::width_spec() <= usize::MAX
        &&& (self.data is Unique) == Ref::is_unique()
    }

    /// What well formedness says, in terms of the public views.
    pub proof fn lemma_wf(&self)
        requires
            self.wf(),
        ensures
            width_ok::<Word>(),
            self.start_view() + self.len_view() <= self.words_view().len() * Word::width_spec(),
            self.words_view().len() * Word::width_spec() <= usize::MAX,
            (self.data_view() is Unique) == Ref::is_unique(),
    {
    }

    /// Position of the slice's first bit in its words.
    pub closed spec fn start_view(&self) -> nat {
        self.start as nat
    }

    /// Number of bits in the slice.
    pub closed spec fn len_view(&self) -> nat {
        self.length as nat
    }

    /// The borrowed words.
    pub closed spec fn data_view(&self) -> WordRef<'slice, Word> {
        self.data
    }

    /// The borrowed words as they are now.
    pub open spec fn words_view(&self) -> Seq<Word> {
        self.data_view().words()
    }


    /// The borrowed words as a shared slice.
    fn words(&self) -> (r: &[Word])
        ensures
            r@ == self.words_view(),
    {
        match &self.data {
            WordRef::Shared(s) => s,
            WordRef::Unique(m) => m,
        }
    }

    /// The borrowed words as a shared slice for the whole borrow.
    fn into_words(self) -> (r: &'slice [Word])
        ensures
            r@ == self.words_view(),
    {
        match self.data {
            WordRef::Shared(s) => s,
            WordRef::Unique(m) => m,
        }
    }

    /// Returns the bit length of the slice.
    pub fn len(&self) -> (r: usize)
        ensures
            r == self.len_view(),
    {
        self.length
    }

    /// Returns the given bit in the slice, or `None` if it doesn't exist.
    pub fn get(&self, index: usize) -> (r: Option<bool>)
        requires
            self.wf(),
        ensures
            r == get_spec(self@, index as int),
    {
        if index >= self.length {
            return None;
        }
        let b = read_word_bit(self.words(), self.start + index);
        Some(b)
    }
}

impl<'slice, Ref: BorrowType, Word: BitBuffer + 'slice> View for BinarySlice<'slice, Ref, Word> {
    type V = Seq<bool>;

    /// The bits of the slice.
    open spec fn view(&self) -> Seq<bool> {
        Seq::new(self.len_view(), |i: int| word_bit(self.words_view(), self.start_view() + i))
    }
}

impl<'slice, Word: BitBuffer + 'slice> BinarySlice<'slice, Mut, Word> {
    /// The unique borrow of the words.
    pub open spec fn unique_ref(&self) -> &'slice mut [Word] {
        self.data_view().unique()
    }

    /// Sets the bit at `index` to `value` and returns its old value, or does
    /// nothing and returns `None` if the index is outside the slice.
    fn _set(&mut self, index: usize, value: bool) -> (r: Option<bool>)
        requires
            old(self).wf(),
        ensures
            final(self).wf(),
            r == if index < old(self).len_view() {
                Some(old(self)@[index as int])
            } else {
                None
            },
            final(self).start_view() == old(self).start_view(),
            final(self).len_view() == old(self).len_view(),
            final(final(self).unique_ref())@ == final(old(self).unique_ref())@,
            bits_of(final(self).words_view()) == if index < old(self).len_view() {
                bits_of(old(self).words_view()).update(
                    old(self).start_view() + index,
                    value,
                )
            } else {
                bits_of(old(self).words_view())
            },
            final(self)@ == if index < old(self).len_view() {
                old(self)@.update(index as int, value)
            } else {
                old(self)@
            },
    {
        if index >= self.length {
            return None;
        }
        let pos = self.start + index;
        let r = self.data.write_bit(pos, value);
        proof {
            assert forall|i: int| 0 <= i < self.length implies #[trigger] self@[i] == old(
                self,
            )@.update(index as int, value)[i] by {
                assert(bits_of(self.data.words())[self.start + i] == word_bit(
                    self.data.words(),
                    self.start + i,
                ));
                assert(bits_of(old(self).data.words())[self.start + i] == word_bit(
                    old(self).data.words(),
                    self.start + i,
                ));
            }
            assert(self@ =~= old(self)@.update(index as int, value));
        }
        Some(r)
    }
}


impl<'slice, Ref: BorrowType, Word: BitBuffer + 'slice> BinarySlice<'slice, Ref, Word> {
    /// Constructs a binary slice over bits `start` up to `start + length` of
    /// the given words.
    pub fn from_raw_parts(start: usize, length: usize, data: WordRef<'slice, Word>) -> (r: Self)
        requires
            width_ok::<Word>(),
            start + length <= data.words().len() * Word::width_spec(),
            data.words().len() * Word::width_spec() <= usize::MAX,
            (data is Unique) == Ref::is_unique(),
        ensures
            r.wf(),
            r.start_view() == start,
            r.len_view() == length,
            r.data_view() == data,
    {
        BinarySlice { start, length, data, marker: PhantomData }
    }

    /// Decomposes the slice into its start, its length and its words.
    pub fn into_raw_parts(self) -> (r: (usize, usize, WordRef<'slice, Word>))
        ensures
            r.0 == self.start_view(),
            r.1 == self.len_view(),
            r.2 == self.data_view(),
    {
        (self.start, self.length, self.data)
    }

    /// Returns whether the start of the binary slice is aligned to a word.
    pub fn start_aligned(&self) -> (r: bool)
        requires
            self.wf(),
        ensures
            r == (self.start_view() % Word::width_spec() == 0),
    {
        self.start % Word::width() == 0
    }

    /// Returns whether the end of the binary slice is aligned to a word.
    pub fn end_aligned(&self) -> (r: bool)
        requires
            self.wf(),
        ensures
            r == ((self.start_view() + self.len_view()) % Word::width_spec() == 0),
    {
        (self.start + self.length) % Word::width() == 0
    }

    /// Returns the given bit of the slice, which must be in bounds; an
    /// unverified caller that passes an index out of bounds gets a panic.
    pub fn get_unchecked(&self, index: usize) -> (r: bool)
        requires
            self.wf(),
            index < self.len_view(),
        ensures
            r == self@[index as int],
    {
        match self.get(index) {
            Some(b) => b,
            None => vstd::pervasive::unreached(),
        }
    }

    /// The position of the first selected bit in the words and the number of
    /// selected bits, or `None` when the range is out of bounds or inverted.
    fn get_sub_bounds(&self, start: Bound, end: Bound) -> (r: Option<(usize, usize)>)
        requires
            self.wf(),
        ensures
            r == match sub_range(self.len_view(), start, end) {
                Some((s, l)) => Some(((self.start_view() + s) as usize, l as usize)),
                None => None,
            },
    {
        let e: usize = match end {
            Bound::Included(i) => {
                if i >= self.length {
                    return None;
                }
                i + 1
            },
            Bound::Excluded(i) => {
                if i > self.length {
                    return None;
                }
                i
            },
            Bound::Unbounded => self.length,
        };
        let s: usize = match start {
            Bound::Included(i) => i,
            Bound::Excluded(i) => {
                if i >= e {
                    return None;
                }
                i + 1
            },
            Bound::Unbounded => 0,
        };
        if s > e {
            return None;
        }
        Some((self.start + s, e - s))
    }

    /// Slices the slice, returning the bits that the bounds select. Returns
    /// `None` if the range is out of bounds or inverted; an empty range
    /// inside the slice gives an empty slice.
    pub fn sub(self, start: Bound, end: Bound) -> (r: Option<Self>)
        requires
            self.wf(),
        ensures
            r is Some <==> sub_range(self.len_view(), start, end) is Some,
            r matches Some(t) ==> {
                let (s, l) = sub_range(self.len_view(), start, end)->0;
                &&& t.wf()
                &&& t.start_view() == self.start_view() + s
                &&& t.len_view() == l
                &&& t.data_view() == self.data_view()
                &&& t@ == self@.subrange(s as int, s + l as int)
            },
    {
        match self.get_sub_bounds(start, end) {
            Some((s, l)) => {
                let ghost old_view = self@;
                let t = BinarySlice { start: s, length: l, data: self.data, marker: PhantomData };
                proof {
                    let (s0, l0) = sub_range(self.len_view(), start, end)->0;
                    assert(t@ =~= old_view.subrange(s0 as int, s0 + l0 as int));
                }
                Some(t)
            },
            None => None,
        }
    }

    /// The bits of the slice, through a shared borrow of it.
    pub fn as_const(&self) -> (r: BinarySlice<'_, Const, Word>)
        requires
            self.wf(),
        ensures
            r.wf(),
            r.start_view() == self.start_view(),
            r.len_view() == self.len_view(),
            r.words_view() == self.words_view(),
            r@ == self@,
    {
        BinarySlice {
            start: self.start,
            length: self.length,
            data: WordRef::Shared(self.words()),
            marker: PhantomData,
        }
    }

    /// Converts the slice to a constant slice over the same bits.
    pub fn into_const(self) -> (r: BinarySlice<'slice, Const, Word>)
        requires
            self.wf(),
        ensures
            r.wf(),
            r.start_view() == self.start_view(),
            r.len_view() == self.len_view(),
            r.words_view() == self.words_view(),
            r@ == self@,
    {
        let start = self.start;
        let length = self.length;
        let data = self.into_words();
        BinarySlice { start, length, data: WordRef::Shared(data), marker: PhantomData }
    }

    /// An iterator over the bits of the slice, from the first.
    pub fn into_iter(self) -> (r: BinarySliceIter<'slice, Ref, Word>)
        requires
            self.wf(),
        ensures
            r.wf(),
            r@ == self@,
    {
        let len = self.length;
        BinarySliceIter { slice: self, front_index: 0, back_index: len }
    }
}

/// Iterator over a binary slice, giving its bits as booleans.
pub struct BinarySliceIter<'slice, Ref: BorrowType, Word: BitBuffer> {
    slice: BinarySlice<'slice, Ref, Word>,
    front_index: usize,
    back_index: usize,
}

impl<'slice, Ref: BorrowType, Word: BitBuffer> BinarySliceIter<'slice, Ref, Word> {
    /// The iterator reads a well formed slice between its two indices.
    pub closed spec fn wf(&self) -> bool {
        &&& self.slice.wf()
        &&& self.front_index <= self.back_index <= self.slice.len_view()
    }

    /// Returns the next bit, or `None` when every bit has been given.
    pub fn next(&mut self) -> (r: Option<bool>)
        requires
            old(self).wf(),
        ensures
            final(self).wf(),
            (r, final(self)@) == next_spec(old(self)@),
    {
        if self.front_index >= self.back_index {
            return None;
        }
        let value = self.slice.get_unchecked(self.front_index);
        self.front_index = self.front_index + 1;
        proof {
            assert(self@ =~= old(self)@.drop_first());
        }
        Some(value)
    }
}

impl<'slice, Ref: BorrowType, Word: BitBuffer> View for BinarySliceIter<'slice, Ref, Word> {
    type V = Seq<bool>;

    /// The bits not yet given.
    closed spec fn view(&self) -> Seq<bool> {
        self.slice@.subrange(self.front_index as int, self.back_index as int)
    }
}

impl<'slice, Word: BitBuffer + 'slice> BinarySlice<'slice, Const, Word> {
    /// The constant slice of no bits.
    pub fn empty() -> (r: Self)
        requires
            width_ok::<Word>(),
        ensures
            r.wf(),
            r@ == Seq::<bool>::empty(),
    {
        let none: &[Word] = &[];
        assert(none@.len() == 0);
        assert(none@.len() * Word::width_spec() == 0);
        let r = BinarySlice { start: 0, length: 0, data: WordRef::Shared(none), marker: PhantomData };
        proof {
            assert(r@ =~= Seq::<bool>::empty());
        }
        r
    }

    /// Constructs a bit slice over the first `length` bits of a slice of
    /// words; bits are counted from the least significant bit of the first
    /// word up, so a slice of length 8 made from `0b00000001u8` has a `1` at
    /// index 0. Returns `None` if the words hold fewer than `length` bits.
    pub fn from_word_slice(slice: &'slice [Word], length: usize) -> (r: Option<Self>)
        requires
            width_ok::<Word>(),
            slice@.len() * Word::width_spec() <= usize::MAX,
        ensures
            r is Some <==> length <= slice@.len() * Word::width_spec(),
            r matches Some(t) ==> {
                &&& t.wf()
                &&& t.start_view() == 0
                &&& t.len_view() == length
                &&& t.words_view() == slice@
                &&& t@ == bits_of(slice@).subrange(0, length as int)
            },
    {
        let len = slice.len() * Word::width();
        if len < length {
            return None;
        }
        let t = BinarySlice { start: 0, length, data: WordRef::Shared(slice), marker: PhantomData };
        proof {
            assert(t@ =~= bits_of(slice@).subrange(0, length as int));
        }
        Some(t)
    }

    /// Deconstructs the slice into the words that hold its bits, the
    /// position of its first bit in them and the position just past its
    /// last. The words may hold bits outside the slice where its start or
    /// end is not aligned to a word; see [`Self::start_aligned`] and
    /// [`Self::end_aligned`].
    pub fn into_word_slice(self) -> (r: (&'slice [Word], usize, usize))
        requires
            self.wf(),
        ensures
            ({
                let w = Word::width_spec() as int;
                let first: int = self.start_view() as int / w;
                let end: int = self.start_view() as int + self.len_view();
                let last: int = if end % w == 0 {
                    end / w
                } else {
                    end / w + 1
                };
                &&& 0 <= first <= last <= self.words_view().len()
                &&& r.0@ == self.words_view().subrange(first, last)
                &&& r.1 == self.start_view() as int % w
                &&& r.2 == end - first * w
                &&& r.1 <= r.2 <= r.0@.len() * w
                &&& r.0@.len() * w <= usize::MAX
                &&& bits_of(r.0@).subrange(r.1 as int, r.2 as int) == self@
            }),
    {
        let w = Word::width();
        let ghost old_view = self@;
        let start = self.start;
        let length = self.length;
        let words = self.into_words();
        let word_start = start / w;
        let end = start + length;
        let bit_start = start % w;
        proof {
            vstd::arithmetic::div_mod::lemma_fundamental_div_mod(start as int, w as int);
            vstd::arithmetic::div_mod::lemma_fundamental_div_mod(end as int, w as int);
            assert(word_start * w <= start) by (nonlinear_arith)
                requires
                    start == w * word_start + start % w,
                    0 <= start % w,
            ;
            assert(end % w != 0 ==> end / w + 1 <= end) by (nonlinear_arith)
                requires
                    end == w * (end / w) + end % w,
                    0 <= end % w < w,
                    w > 0,
            ;
        }
        let bit_length = end - word_start * w;
        let word_end = if end % w == 0 {
            end / w
        } else {
            end / w + 1
        };
        proof {
            assert(word_start <= word_end) by {
                vstd::arithmetic::div_mod::lemma_div_is_ordered(start as int, end as int, w as int);
            }
            assert(word_end <= words@.len()) by (nonlinear_arith)
                requires
                    end <= words@.len() * w,
                    w > 0,
                    end == w * (end / w) + end % w,
                    0 <= end % w < w,
                    word_end == if end % w == 0 { (end / w) as int } else { end / w + 1 },
            ;
            assert(end <= word_end * w) by (nonlinear_arith)
                requires
                    end == w * (end / w) + end % w,
                    0 <= end % w < w,
                    word_end == if end % w == 0 { (end / w) as int } else { end / w + 1 },
            ;
            assert(word_end * w - word_start * w == (word_end - word_start) * w) by (nonlinear_arith);
        }
        let sub = vstd::slice::slice_subrange(words, word_start, word_end);
        proof {
            let ww = w as int;
            assert forall|i: int| 0 <= i < length implies #[trigger] bits_of(sub@).subrange(
                bit_start as int,
                bit_length as int,
            )[i] == old_view[i] by {
                lemma_word_bit_subrange(words@, word_start as int, word_end as int, bit_start + i);
            }
            assert(bits_of(sub@).subrange(bit_start as int, bit_length as int) =~= old_view);
            assert(sub@.len() * ww <= words@.len() * ww) by (nonlinear_arith)
                requires
                    sub@.len() <= words@.len(),
                    ww > 0,
            ;
        }
        (sub, bit_start, bit_length)
    }
}


impl<'slice, Word: BitBuffer + 'slice> BinarySlice<'slice, Mut, Word> {
    /// The mutable slice of no bits.
    pub fn empty() -> (r: Self)
        requires
            width_ok::<Word>(),
        ensures
            r.wf(),
            r@ == Seq::<bool>::empty(),
    {
        let none: &'slice mut [Word] = &mut [];
        assert(none@.len() == 0);
        assert(none@.len() * Word::width_spec() == 0);
        let r = BinarySlice { start: 0, length: 0, data: WordRef::Unique(none), marker: PhantomData };
        proof {
            assert(r@ =~= Seq::<bool>::empty());
        }
        r
    }

    /// Constructs a bit slice over the first `length` bits of a slice of
    /// words, through which they can be written; bits are counted from the
    /// least significant bit of the first word up. Returns `None` if the
    /// words hold fewer than `length` bits.
    pub fn from_word_slice(slice: &'slice mut [Word], length: usize) -> (r: Option<Self>)
        requires
            width_ok::<Word>(),
            old(slice)@.len() * Word::width_spec() <= usize::MAX,
        ensures
            r is Some <==> length <= old(slice)@.len() * Word::width_spec(),
            r is None ==> final(slice)@ == old(slice)@,
            r matches Some(t) ==> {
                &&& t.wf()
                &&& t.start_view() == 0
                &&& t.len_view() == length
                &&& t.words_view() == old(slice)@
                &&& final(t.unique_ref())@ == final(slice)@
                &&& t@ == bits_of(old(slice)@).subrange(0, length as int)
            },
    {
        let len = slice.len() * Word::width();
        if len < length {
            return None;
        }
        let ghost words = slice@;
        let t = BinarySlice { start: 0, length, data: WordRef::Unique(slice), marker: PhantomData };
        proof {
            assert(t@ =~= bits_of(words).subrange(0, length as int));
        }
        Some(t)
    }

    /// Deconstructs the slice into the words that hold its bits, which stay
    /// borrowed uniquely. The words may hold bits outside the slice where its
    /// start or end is not aligned to a word.
    pub fn into_word_slice(self) -> (r: &'slice mut [Word])
        requires
            self.wf(),
        ensures
            ({
                let w = Word::width_spec() as int;
                let first: int = self.start_view() as int / w;
                let end: int = self.start_view() as int + self.len_view();
                let last: int = if end % w == 0 {
                    end / w
                } else {
                    end / w + 1
                };
                let words = self.words_view();
                &&& 0 <= first <= last <= words.len()
                &&& r@ == words.subrange(first, last)
                &&& final(self.unique_ref())@ == words.subrange(0, first) + final(r)@
                    + words.subrange(last, words.len() as int)
            }),
    {
        let w = Word::width();
        let start = self.start;
        let end = self.start + self.length;
        let word_start = start / w;
        let ghost n = self.words_view().len();
        proof {
            vstd::arithmetic::div_mod::lemma_fundamental_div_mod(end as int, w as int);
            assert(end % w != 0 ==> end / w + 1 <= end) by (nonlinear_arith)
                requires
                    end == w * (end / w) + end % w,
                    0 <= end % w < w,
                    w > 0,
            ;
        }
        let word_end = if end % w == 0 {
            end / w
        } else {
            end / w + 1
        };
        proof {
            assert(word_start <= word_end) by {
                vstd::arithmetic::div_mod::lemma_div_is_ordered(start as int, end as int, w as int);
            }
            assert(word_end <= n) by (nonlinear_arith)
                requires
                    end <= n * w,
                    w > 0,
                    end == w * (end / w) + end % w,
                    0 <= end % w < w,
                    word_end == if end % w == 0 { (end / w) as int } else { end / w + 1 },
            ;
        }
        match self.data {
            WordRef::Unique(m) => {
                let (a, _b) = m.split_at_mut(word_end);
                let (_c, d) = a.split_at_mut(word_start);
                d
            },
            WordRef::Shared(_) => vstd::pervasive::unreached(),
        }
    }
}

/// Once a mutable slice is no longer used, its words stay as they are.
pub proof fn lemma_resolved<'slice, Word: BitBuffer>(s: BinarySlice<'slice, Mut, Word>)
    requires
        s.wf(),
        has_resolved(s),
    ensures
        final(s.unique_ref())@ == s.words_view(),
{
    assert(has_resolved(s.data));
}

/// A binary slice whose bits can be written.
pub trait MutableBinSlice<'slice, Word: BitBuffer + 'slice>: seal::MutSeal + Sized {
    /// The slice is well formed.
    spec fn slice_wf(&self) -> bool;

    /// The bits of the slice.
    spec fn bits(&self) -> Seq<bool>;

    /// Sets a bit in the slice to a value and returns the old value, or does
    /// nothing and returns `None` if the index is outside of the slice.
    fn set(&mut self, i: usize, v: bool) -> (r: Option<bool>)
        requires
            old(self).slice_wf(),
        ensures
            final(self).slice_wf(),
            (final(self).bits(), r) == set_spec(old(self).bits(), i as int, v),
    ;

    /// Sets a bit in the slice to a value, the index being in bounds, and
    /// returns the old value.
    fn set_unchecked(&mut self, i: usize, v: bool) -> (r: bool)
        requires
            old(self).slice_wf(),
            i < old(self).bits().len(),
        ensures
            final(self).slice_wf(),
            (final(self).bits(), Some(r)) == set_spec(old(self).bits(), i as int, v),
    {
        match self.set(i, v) {
            Some(b) => b,
            None => false,
        }
    }
}

impl<'slice, Word: BitBuffer + 'slice> seal::MutSeal for BinarySlice<'slice, Mut, Word> {}

impl<'slice, Word: BitBuffer + 'slice> MutableBinSlice<'slice, Word> for BinarySlice<'slice, Mut, Word> {
    open spec fn slice_wf(&self) -> bool {
        self.wf()
    }

    open spec fn bits(&self) -> Seq<bool> {
        self@
    }

    fn set(&mut self, i: usize, v: bool) -> (r: Option<bool>)
        ensures
            final(self).start_view() == old(self).start_view(),
            final(self).len_view() == old(self).len_view(),
            final(final(self).unique_ref())@ == final(old(self).unique_ref())@,
            bits_of(final(self).words_view()) == if i < old(self).len_view() {
                bits_of(old(self).words_view()).update(old(self).start_view() + i, v)
            } else {
                bits_of(old(self).words_view())
            },
    {
        self._set(i, v)
    }

    fn set_unchecked(&mut self, i: usize, v: bool) -> (r: bool)
        ensures
            final(self).start_view() == old(self).start_view(),
            final(self).len_view() == old(self).len_view(),
            final(final(self).unique_ref())@ == final(old(self).unique_ref())@,
            bits_of(final(self).words_view()) == bits_of(old(self).words_view()).update(
                old(self).start_view() + i,
                v,
            ),
    {
        match self._set(i, v) {
            Some(b) => b,
            None => false,
        }
    }
}


/// The characters that show a run of bits: `1` or `0` for each bit and, in
/// the alternate form, a new line and a tab before each word's first bit.
pub open spec fn bits_text(bits: Seq<bool>, width: nat, alternate: bool) -> Seq<char>
    decreases bits.len(),
{
    if bits.len() == 0 {
        Seq::empty()
    } else {
        let i = bits.len() - 1;
        let brk: Seq<char> = if alternate && i % (width as int) == 0 {
            seq!['\n', '\t']
        } else {
            Seq::empty()
        };
        bits_text(bits.drop_last(), width, alternate) + brk + seq![
            if bits.last() {
                '1'
            } else {
                '0'
            },
        ]
    }
}

/// How a binary slice is shown: its bits between square brackets and, in
/// the alternate form, a new line before the closing bracket.
pub open spec fn slice_text(bits: Seq<bool>, width: nat, alternate: bool) -> Seq<char> {
    seq!['['] + bits_text(bits, width, alternate) + if alternate {
        seq!['\n']
    } else {
        Seq::empty()
    } + seq![']']
}

impl<'slice, Ref: BorrowType, Word: BitBuffer + 'slice> BinarySlice<'slice, Ref, Word> {
    /// Writes the bits of the slice, word after word in the alternate form.
    fn render(&self, alternate: bool) -> (r: String)
        requires
            self.wf(),
        ensures
            r@ == slice_text(self@, Word::width_spec(), alternate),
    {
        let w = Word::width();
        let mut out = String::from_str("[");
        proof {
            reveal_strlit("[");
            reveal_strlit("\n\t");
            reveal_strlit("1");
            reveal_strlit("0");
            reveal_strlit("\n");
            reveal_strlit("]");
            assert(self@.subrange(0, 0) =~= Seq::<bool>::empty());
        }
        let mut i: usize = 0;
        while i < self.length
            invariant
                self.wf(),
                w == Word::width_spec(),
                i <= self.len_view(),
                out@ == seq!['['] + bits_text(self@.subrange(0, i as int), w as nat, alternate),
            decreases self.len_view() - i,
        {
            proof {
                reveal_strlit("\n\t");
                reveal_strlit("1");
                reveal_strlit("0");
            }
            let ghost before = out@;
            let ghost prefix = self@.subrange(0, i as int);
            let ghost next = self@.subrange(0, i + 1);
            if alternate && i % w == 0 {
                out.append("\n\t");
            }
            let ghost mid = out@;
            let b = self.get_unchecked(i);
            if b {
                out.append("1");
            } else {
                out.append("0");
            }
            proof {
                assert(next.drop_last() =~= prefix);
                assert(next.last() == b);
                let brk: Seq<char> = if alternate && i % w == 0 {
                    seq!['\n', '\t']
                } else {
                    Seq::empty()
                };
                let c: Seq<char> = seq![if b { '1' } else { '0' }];
                assert(mid =~= before + brk);
                assert(out@ =~= before + brk + c);
                assert(bits_text(next, w as nat, alternate) == bits_text(prefix, w as nat, alternate)
                    + brk + c);
                assert(out@ =~= seq!['['] + bits_text(next, w as nat, alternate));
            }
            i = i + 1;
        }
        if alternate {
            out.append("\n");
        }
        out.append("]");
        proof {
            assert(self@.subrange(0, self.len_view() as int) =~= self@);
            assert(out@ =~= slice_text(self@, w as nat, alternate));
        }
        out
    }

    /// Shows the bits of the slice as `1` and `0` between square brackets.
    pub fn to_string(&self) -> (r: String)
        requires
            self.wf(),
        ensures
            r@ == slice_text(self@, Word::width_spec(), false),
    {
        self.render(false)
    }

    /// Shows the bits of the slice as `1` and `0` between square brackets,
    /// each word's bits on a line of their own.
    pub fn to_string_alternate(&self) -> (r: String)
        requires
            self.wf(),
        ensures
            r@ == slice_text(self@, Word::width_spec(), true),
    {
        self.render(true)
    }
}

impl<'slice, Ref: BorrowType, Word: BitBuffer> core::ops::Index<usize> for BinarySlice<
    'slice,
    Ref,
    Word,
> {
    type Output = bool;

    /// Returns the given bit, which must be in bounds.
    fn index(&self, index: usize) -> (r: &bool)
        ensures
            *r == self@[index as int],
    {
        if self.get_unchecked(index) {
            &true
        } else {
            &false
        }
    }
}

impl<'slice, Ref: BorrowType, Word: BitBuffer> vstd::std_specs::core::IndexSpecImpl<usize> for BinarySlice<
    'slice,
    Ref,
    Word,
> {
    open spec fn index_req(&self, index: &usize) -> bool {
        self.wf() && *index < self.len_view()
    }
}

impl<'slice, Word: BitBuffer> Clone for BinarySlice<'slice, Const, Word> {
    /// Another constant slice over the same bits.
    fn clone(&self) -> (r: Self)
        ensures
            self.wf() ==> r == *self,
    {
        match self.data {
            WordRef::Shared(s) => BinarySlice {
                start: self.start,
                length: self.length,
                data: WordRef::Shared(s),
                marker: PhantomData,
            },
            WordRef::Unique(_) => BinarySlice {
                start: 0,
                length: 0,
                data: WordRef::Shared(&[]),
                marker: PhantomData,
            },
        }
    }
}

} // verus!
