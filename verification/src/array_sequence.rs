//! A compact container for a sequence of variable-length sub-sequences:
//! one flat vector of elements and one vector of offsets into it.

use vstd::prelude::*;

verus! {

/// Why an `ArraySequence` could not be built.
#[derive(Clone, Copy, Debug, PartialEq, Eq)]
pub enum ArraySequenceError {
    /// The lengths do not add up to the number of elements.
    LengthMismatch,
}

/// Sum of all the entries of `lengths`.
pub open spec fn sum_lengths(lengths: Seq<usize>) -> int
    decreases lengths.len(),
{
    if lengths.len() == 0 {
        0
    } else {
        sum_lengths(lengths.drop_last()) + lengths.last() as int
    }
}

/// The offsets that `lengths` give: entry `i` is the sum of the first `i` lengths.
pub open spec fn offsets_of(lengths: Seq<usize>) -> Seq<int> {
    Seq::new(lengths.len() + 1, |i: int| sum_lengths(lengths.take(i)))
}

/// All the sub-sequences of `chunks`, one after the other.
pub open spec fn concat_all<T>(chunks: Seq<Seq<T>>) -> Seq<T>
    decreases chunks.len(),
{
    if chunks.len() == 0 {
        Seq::empty()
    } else {
        concat_all(chunks.drop_last()) + chunks.last()
    }
}

/// The sum of one more length is the sum so far and that length.
pub proof fn lemma_sum_take_step(lengths: Seq<usize>, i: int)
    requires
        0 <= i < lengths.len(),
    ensures
        sum_lengths(lengths.take(i + 1)) == sum_lengths(lengths.take(i)) + lengths[i] as int,
{
    assert(lengths.take(i + 1).drop_last() =~= lengths.take(i));
}

/// The sum of the first lengths never passes the sum of more of them.
pub proof fn lemma_sum_take_monotone(lengths: Seq<usize>, i: int, j: int)
    requires
        0 <= i <= j <= lengths.len(),
    ensures
        sum_lengths(lengths.take(i)) <= sum_lengths(lengths.take(j)),
    decreases j - i,
{
    if i < j {
        lemma_sum_take_step(lengths, j - 1);
        lemma_sum_take_monotone(lengths, i, j - 1);
    }
}

/// The offsets that a streaming build holds once each of `chunks` has been
/// pushed element by element and closed by an `end_push`: a chunk without
/// elements commits nothing.
pub open spec fn streamed_offsets<T>(chunks: Seq<Seq<T>>) -> Seq<int>
    decreases chunks.len(),
{
    if chunks.len() == 0 {
        seq![0int]
    } else if chunks.last().len() == 0 {
        streamed_offsets(chunks.drop_last())
    } else {
        streamed_offsets(chunks.drop_last()).push(concat_all(chunks).len() as int)
    }
}

/// A streaming build and `new` agree. When no chunk is empty, pushing the
/// chunks one by one leaves the offsets that `new` computes from their
/// lengths, and the lengths add up to the number of elements pushed, so
/// that `new` accepts them together with the same elements.
pub proof fn lemma_streaming_build_matches_new<T>(chunks: Seq<Seq<T>>, lengths: Seq<usize>)
    requires
        lengths.len() == chunks.len(),
        forall|i: int| 0 <= i < chunks.len() ==> lengths[i] == (#[trigger] chunks[i]).len(),
        forall|i: int| 0 <= i < chunks.len() ==> (#[trigger] chunks[i]).len() > 0,
    ensures
        sum_lengths(lengths) == concat_all(chunks).len(),
        streamed_offsets(chunks) == offsets_of(lengths),
    decreases chunks.len(),
{
    if chunks.len() == 0 {
        assert(lengths.take(0) =~= lengths);
        assert(streamed_offsets(chunks) =~= offsets_of(lengths));
    } else {
        let n = chunks.len() as int;
        lemma_streaming_build_matches_new(chunks.drop_last(), lengths.drop_last());
        assert(lengths.take(n) =~= lengths);
        assert forall|i: int| 0 <= i < n implies lengths.take(i) == lengths.drop_last().take(
            i,
        ) by {
            assert(lengths.take(i) =~= lengths.drop_last().take(i));
        }
        assert(streamed_offsets(chunks) =~= offsets_of(lengths));
    }
}

/// One step of a streaming build keeps it in line with `new`. Let `before`
/// hold the offsets that `new` computes from `lengths`, with nothing
/// pending, and let `after` be what pushing the elements of a non-empty
/// `chunk` and one `end_push` make of it. Then `after` holds the offsets
/// that `new` computes from `lengths` followed by the length of `chunk`.
pub proof fn lemma_streaming_step<T>(
    before: ArraySequence<T>,
    after: ArraySequence<T>,
    lengths: Seq<usize>,
    chunk: Seq<T>,
)
    requires
        before.is_complete(),
        before.offsets@.map_values(|o: usize| o as int) == offsets_of(lengths),
        0 < chunk.len() <= usize::MAX,
        after.data@ == before.data@ + chunk,
        after.offsets@ == before.offsets@.push(after.data@.len() as usize),
        after.data@.len() <= usize::MAX,
    ensures
        after.offsets@.map_values(|o: usize| o as int) == offsets_of(
            lengths.push(chunk.len() as usize),
        ),
        sum_lengths(lengths.push(chunk.len() as usize)) == after.data@.len(),
{
    let more = lengths.push(chunk.len() as usize);
    let n = lengths.len() as int;
    assert(before.offsets@.len() == n + 1) by {
        assert(before.offsets@.map_values(|o: usize| o as int).len() == offsets_of(lengths).len());
    }
    assert(lengths.take(n) =~= lengths);
    assert(before.offsets@.map_values(|o: usize| o as int)[n] == sum_lengths(lengths));
    assert(more.drop_last() =~= lengths);
    assert(more.take(n + 1) =~= more);
    assert forall|i: int| 0 <= i <= n implies more.take(i) == lengths.take(i) by {
        assert(more.take(i) =~= lengths.take(i));
    }
    assert forall|i: int| 0 <= i <= n + 1 implies after.offsets@.map_values(|o: usize| o as int)[i]
        == offsets_of(more)[i] by {
        if i <= n {
            assert(before.offsets@.map_values(|o: usize| o as int)[i] == offsets_of(lengths)[i]);
        }
    }
    assert(after.offsets@.map_values(|o: usize| o as int) =~= offsets_of(more));
}

/// A sequence of sub-sequences of varying length, held as one flat vector
/// of elements and the offsets at which the sub-sequences start and end.
///
/// Elements that were pushed and not yet committed by `end_push` lie after
/// the last offset.
#[derive(Clone, Debug, PartialEq)]
pub struct ArraySequence<T> {
    /// `offsets[i]..offsets[i + 1]` is where sub-sequence `i` lies in `data`.
    pub offsets: Vec<usize>,
    /// The elements of all the sub-sequences, in order.
    pub data: Vec<T>,
}

impl<T> ArraySequence<T> {
    /// The offsets start at 0, never decrease and stay inside `data`.
    pub open spec fn wf(&self) -> bool {
        &&& self.offsets@.len() >= 1
        &&& self.offsets@[0] == 0
        &&& forall|i: int, j: int|
            0 <= i <= j < self.offsets@.len() ==> self.offsets@[i] <= self.offsets@[j]
        &&& self.offsets@.last() <= self.data@.len()
    }

    /// No element waits for an `end_push`: the last offset is the number of elements.
    pub open spec fn is_complete(&self) -> bool {
        self.offsets@.last() == self.data@.len()
    }

    /// Number of committed sub-sequences.
    pub open spec fn spec_len(&self) -> nat {
        (self.offsets@.len() - 1) as nat
    }

    /// The committed sub-sequences.
    pub open spec fn view(&self) -> Seq<Seq<T>> {
        Seq::new(
            self.spec_len(),
            |i: int| self.data@.subrange(self.offsets@[i] as int, self.offsets@[i + 1] as int),
        )
    }

    /// The elements pushed since the last commit.
    pub open spec fn pending(&self) -> Seq<T> {
        self.data@.subrange(self.offsets@.last() as int, self.data@.len() as int)
    }

    /// A container without any sub-sequence.
    pub fn empty() -> (res: ArraySequence<T>)
        ensures
            res.wf(),
            res.is_complete(),
            res.offsets@ == seq![0usize],
            res.data@ == Seq::<T>::empty(),
            res@ == Seq::<Seq<T>>::empty(),
    {
        let res = ArraySequence { offsets: vec![0], data: Vec::new() };
        assert(res@ =~= Seq::<Seq<T>>::empty());
        res
    }

    /// A container without any sub-sequence, with room for `n` elements.
    pub fn with_capacity(n: usize) -> (res: ArraySequence<T>)
        ensures
            res.wf(),
            res.is_complete(),
            res.offsets@ == seq![0usize],
            res.data@ == Seq::<T>::empty(),
            res@ == Seq::<Seq<T>>::empty(),
    {
        let res = ArraySequence { offsets: vec![0], data: Vec::with_capacity(n) };
        assert(res@ =~= Seq::<Seq<T>>::empty());
        res
    }

    /// Builds the container from the length of each sub-sequence and the
    /// elements of all of them. Fails unless the lengths add up to `data.len()`.
    pub fn new(lengths: Vec<usize>, data: Vec<T>) -> (res: Result<
        ArraySequence<T>,
        ArraySequenceError,
    >)
        ensures
            res.is_ok() <==> sum_lengths(lengths@) == data@.len(),
            res matches Err(e) ==> e == ArraySequenceError::LengthMismatch,
            res matches Ok(a) ==> {
                &&& a.wf()
                &&& a.is_complete()
                &&& a.data@ == data@
                &&& a.offsets@.len() == lengths@.len() + 1
                &&& a.offsets@[0] == 0
                &&& a.offsets@.last() == data@.len()
                &&& forall|i: int|
                    0 <= i < lengths@.len() ==> a.offsets@[i + 1] - a.offsets@[i] == lengths@[i]
                &&& a.offsets@.map_values(|o: usize| o as int) == offsets_of(lengths@)
                &&& a@.len() == lengths@.len()
                &&& forall|i: int| 0 <= i < lengths@.len() ==> (#[trigger] a@[i]).len() == lengths@[i]
            },
    {
        let n = lengths.len();
        let total = data.len();
        let mut offsets: Vec<usize> = Vec::new();
        offsets.push(0);
        let mut sum: usize = 0;
        let mut i: usize = 0;
        proof {
            assert(lengths@.take(0) =~= Seq::<usize>::empty());
        }
        while i < n
            invariant
                n == lengths@.len(),
                total == data@.len(),
                0 <= i <= n,
                sum <= total,
                sum == sum_lengths(lengths@.take(i as int)),
                offsets@.len() == i + 1,
                forall|k: int| 0 <= k <= i ==> offsets@[k] == sum_lengths(lengths@.take(k)),
            decreases n - i,
        {
            let len = lengths[i];
            proof {
                lemma_sum_take_step(lengths@, i as int);
            }
            if len > total - sum {
                proof {
                    lemma_sum_take_monotone(lengths@, i as int + 1, n as int);
                    assert(lengths@.take(n as int) =~= lengths@);
                }
                return Err(ArraySequenceError::LengthMismatch);
            }
            sum = sum + len;
            offsets.push(sum);
            i = i + 1;
        }
        proof {
            assert(lengths@.take(n as int) =~= lengths@);
        }
        if sum != total {
            return Err(ArraySequenceError::LengthMismatch);
        }
        let res = ArraySequence { offsets, data };
        proof {
            assert forall|a: int, b: int| 0 <= a <= b < res.offsets@.len() implies res.offsets@[a]
                <= res.offsets@[b] by {
                lemma_sum_take_monotone(lengths@, a, b);
            }
            assert forall|k: int| 0 <= k < lengths@.len() implies res.offsets@[k + 1]
                - res.offsets@[k] == lengths@[k] by {
                lemma_sum_take_step(lengths@, k);
            }
            assert(res.offsets@.map_values(|o: usize| o as int) =~= offsets_of(lengths@));
        }
        Ok(res)
    }

    /// Appends one element to the sub-sequence under construction.
    pub fn push(&mut self, val: T)
        requires
            old(self).wf(),
        ensures
            final(self).wf(),
            final(self).offsets@ == old(self).offsets@,
            final(self).data@ == old(self).data@.push(val),
            final(self)@ == old(self)@,
            final(self).pending() == old(self).pending().push(val),
    {
        self.data.push(val);
        proof {
            assert(self@ =~~= old(self)@);
            assert(self.pending() =~= old(self).pending().push(val));
        }
    }

    /// Number of elements pushed since the last commit.
    pub fn nb_push_done(&self) -> (nb: usize)
        requires
            self.wf(),
        ensures
            nb == self.pending().len(),
            nb == self.data@.len() - self.offsets@.last(),
    {
        self.data.len() - self.offsets[self.offsets.len() - 1]
    }

    /// Commits the elements pushed since the last commit as one new
    /// sub-sequence. Does nothing when there is none.
    pub fn end_push(&mut self)
        requires
            old(self).wf(),
        ensures
            final(self).wf(),
            final(self).is_complete(),
            final(self).data@ == old(self).data@,
            old(self).pending().len() == 0 ==> final(self).offsets@ == old(self).offsets@
                && final(self)@ == old(self)@,
            old(self).pending().len() > 0 ==> final(self).offsets@ == old(self).offsets@.push(
                old(self).data@.len() as usize,
            ) && final(self)@ == old(self)@.push(old(self).pending()),
    {
        let nb = self.nb_push_done();
        if nb > 0 {
            self.offsets.push(self.data.len());
            proof {
                assert(self@ =~~= old(self)@.push(old(self).pending()));
            }
        }
    }

    /// Whether the offsets start at 0, never decrease and stay inside the
    /// elements: whether the container can be used.
    pub fn is_well_formed(&self) -> (b: bool)
        ensures
            b == self.wf(),
    {
        let n = self.offsets.len();
        if n == 0 || self.offsets[0] != 0 {
            return false;
        }
        let mut i: usize = 1;
        while i < n
            invariant
                n == self.offsets@.len(),
                1 <= i <= n,
                self.offsets@[0] == 0,
                forall|a: int, b: int| 0 <= a <= b < i ==> self.offsets@[a] <= self.offsets@[b],
            decreases n - i,
        {
            if self.offsets[i - 1] > self.offsets[i] {
                return false;
            }
            proof {
                assert forall|a: int, b: int| 0 <= a <= b < i + 1 implies self.offsets@[a]
                    <= self.offsets@[b] by {
                    if b == i && a < i {
                        assert(self.offsets@[a] <= self.offsets@[i - 1]);
                    }
                }
            }
            i = i + 1;
        }
        self.offsets[n - 1] <= self.data.len()
    }

    /// Number of committed sub-sequences.
    pub fn len(&self) -> (n: usize)
        requires
            self.wf(),
        ensures
            n == self@.len(),
            n == self.offsets@.len() - 1,
    {
        self.offsets.len() - 1
    }

    /// Whether the container holds no element at all, committed or not.
    pub fn is_empty(&self) -> (b: bool)
        ensures
            b == (self.data@.len() == 0),
    {
        self.data.len() == 0
    }

    /// Length of sub-sequence `i`, without building a slice.
    pub fn length_of_array(&self, i: usize) -> (n: usize)
        requires
            self.wf(),
            i < self@.len(),
        ensures
            n == self@[i as int].len(),
    {
        let count = self.offsets.len();
        assert(i + 1 < count);
        self.offsets[i + 1] - self.offsets[i]
    }

    /// Sub-sequence `i`.
    pub fn index(&self, i: usize) -> (s: &[T])
        requires
            self.wf(),
            i < self@.len(),
        ensures
            s@ == self@[i as int],
    {
        let count = self.offsets.len();
        assert(i + 1 < count);
        let start = self.offsets[i];
        let end = self.offsets[i + 1];
        vstd::slice::slice_subrange(self.data.as_slice(), start, end)
    }

    /// Sub-sequence `i`, or `None` where there is no such sub-sequence.
    pub fn get(&self, i: usize) -> (res: Option<&[T]>)
        requires
            self.wf(),
        ensures
            res.is_some() <==> i < self@.len(),
            res matches Some(s) ==> s@ == self@[i as int],
    {
        if i < self.len() {
            Some(self.index(i))
        } else {
            None
        }
    }
}


impl<T> ArraySequence<T> {
    /// Commits all of `values` as one new sub-sequence, after whatever
    /// is pending. Does nothing when both are empty.
    pub fn extend(&mut self, values: Vec<T>)
        requires
            old(self).wf(),
        ensures
            final(self).wf(),
            final(self).is_complete(),
            final(self).data@ == old(self).data@ + values@,
            old(self).pending().len() + values@.len() == 0 ==> final(self)@ == old(self)@,
            old(self).pending().len() + values@.len() > 0 ==> final(self)@ == old(self)@.push(
                old(self).pending() + values@,
            ),
    {
        let ghost added = values@;
        let mut values = values;
        self.data.append(&mut values);
        proof {
            assert(self.pending() =~= old(self).pending() + added);
            assert(self@ =~~= old(self)@);
        }
        self.end_push();
    }

    /// An iterator over the committed sub-sequences, from both ends.
    pub fn iter<'a>(&'a self) -> (it: ArraySequenceIterator<'a, T>)
        requires
            self.wf(),
        ensures
            it.wf(),
            it.remaining() == self@,
    {
        let it = ArraySequenceIterator { arr: self, front: 0, back: self.len() };
        proof {
            assert(it.remaining() =~= self@);
        }
        it
    }
}

impl<T: Copy> ArraySequence<T> {
    /// Commits a copy of `other` as one new sub-sequence, after whatever
    /// is pending. Does nothing when both are empty.
    pub fn extend_from_slice(&mut self, other: &[T])
        requires
            old(self).wf(),
        ensures
            final(self).wf(),
            final(self).is_complete(),
            final(self).data@ == old(self).data@ + other@,
            old(self).pending().len() + other@.len() == 0 ==> final(self)@ == old(self)@,
            old(self).pending().len() + other@.len() > 0 ==> final(self)@ == old(self)@.push(
                old(self).pending() + other@,
            ),
    {
        let n = other.len();
        let mut i: usize = 0;
        while i < n
            invariant
                n == other@.len(),
                0 <= i <= n,
                self.wf(),
                self.offsets@ == old(self).offsets@,
                self.data@ == old(self).data@ + other@.take(i as int),
            decreases n - i,
        {
            self.data.push(other[i]);
            proof {
                assert(self.data@ =~= old(self).data@ + other@.take(i as int + 1));
            }
            i = i + 1;
        }
        proof {
            assert(other@.take(n as int) =~= other@);
            assert(self.pending() =~= old(self).pending() + other@);
            assert(self@ =~~= old(self)@);
        }
        self.end_push();
    }

    /// A new container with the non-empty sub-sequences that `predicate`
    /// accepts, in their order.
    pub fn filter<P: Fn(&[T]) -> bool>(&self, predicate: &P) -> (res: ArraySequence<T>)
        requires
            self.wf(),
            forall|s: &[T]| predicate.requires((s,)),
        ensures
            res.wf(),
            res.is_complete(),
            is_filtered(self@, predicate, res@),
    {
        let mut new = ArraySequence::<T>::empty();
        let n = self.len();
        let mut i: usize = 0;
        proof {
            assert(self@.take(0) =~= Seq::<Seq<T>>::empty());
        }
        while i < n
            invariant
                n == self@.len(),
                0 <= i <= n,
                self.wf(),
                new.wf(),
                new.is_complete(),
                forall|s: &[T]| predicate.requires((s,)),
                is_filtered(self@.take(i as int), predicate, new@),
            decreases n - i,
        {
            let array = self.index(i);
            let ghost before = new@;
            let keep = predicate(array);
            proof {
                assert(self@.take(i as int + 1).drop_last() =~= self@.take(i as int));
                assert(self@.take(i as int + 1).last() == self@[i as int]);
                assert(answers(predicate, self@[i as int], keep));
                assert(new.pending() =~= Seq::<T>::empty());
            }
            if keep {
                new.extend_from_slice(array);
                proof {
                    assert(Seq::<T>::empty() + array@ =~= array@);
                    if array@.len() > 0 {
                        assert(new@.drop_last() =~= before);
                    }
                }
            }
            i = i + 1;
        }
        proof {
            assert(self@.take(n as int) =~= self@);
        }
        new
    }
}

/// `predicate` may answer `verdict` when it is asked about a slice that holds `s`.
pub open spec fn answers<T, P: Fn(&[T]) -> bool>(predicate: &P, s: Seq<T>, verdict: bool) -> bool {
    exists|x: &[T]| x@ == s && predicate.ensures((x,), verdict)
}

/// `out` is what is left of `src` when `predicate` is asked about each
/// sub-sequence in turn and those that are empty or refused are dropped.
pub open spec fn is_filtered<T, P: Fn(&[T]) -> bool>(
    src: Seq<Seq<T>>,
    predicate: &P,
    out: Seq<Seq<T>>,
) -> bool
    decreases src.len(),
{
    if src.len() == 0 {
        out.len() == 0
    } else if answers(predicate, src.last(), true) && src.last().len() > 0 && out.len() > 0
        && out.last() == src.last() && is_filtered(src.drop_last(), predicate, out.drop_last()) {
        true
    } else {
        (answers(predicate, src.last(), false) || src.last().len() == 0) && is_filtered(
            src.drop_last(),
            predicate,
            out,
        )
    }
}

/// A walk over the committed sub-sequences of an `ArraySequence`, which can
/// be advanced from the front and from the back.
pub struct ArraySequenceIterator<'a, T> {
    arr: &'a ArraySequence<T>,
    front: usize,
    back: usize,
}

impl<'a, T> ArraySequenceIterator<'a, T> {
    /// The walk has not passed the ends of its container.
    pub closed spec fn wf(&self) -> bool {
        self.arr.wf() && self.front <= self.back <= self.arr@.len()
    }

    /// The sub-sequences that have not been handed out yet.
    pub closed spec fn remaining(&self) -> Seq<Seq<T>> {
        self.arr@.subrange(self.front as int, self.back as int)
    }

    /// Hands out the first remaining sub-sequence.
    pub fn next(&mut self) -> (res: Option<&'a [T]>)
        requires
            old(self).wf(),
        ensures
            final(self).wf(),
            old(self).remaining().len() == 0 ==> res.is_none() && final(self).remaining() == old(self).remaining(),
            old(self).remaining().len() > 0 ==> res.is_some() && res.unwrap()@ == old(self).remaining().first() && final(self).remaining() == old(self).remaining().drop_first(),
    {
        if self.front < self.back {
            let s = self.arr.index(self.front);
            self.front = self.front + 1;
            proof {
                assert(self.remaining() =~= old(self).remaining().drop_first());
            }
            Some(s)
        } else {
            None
        }
    }

    /// Hands out the last remaining sub-sequence.
    pub fn next_back(&mut self) -> (res: Option<&'a [T]>)
        requires
            old(self).wf(),
        ensures
            final(self).wf(),
            old(self).remaining().len() == 0 ==> res.is_none() && final(self).remaining() == old(self).remaining(),
            old(self).remaining().len() > 0 ==> res.is_some() && res.unwrap()@ == old(self).remaining().last() && final(self).remaining() == old(self).remaining().drop_last(),
    {
        if self.front < self.back {
            self.back = self.back - 1;
            let s = self.arr.index(self.back);
            proof {
                assert(self.remaining() =~= old(self).remaining().drop_last());
            }
            Some(s)
        } else {
            None
        }
    }
}


/// A walk over the committed sub-sequences of an `ArraySequence` that lets
/// their elements be changed.
pub struct ArraySequenceIteratorMut<'a, T> {
    /// The elements that have not been handed out yet.
    pub data: &'a mut [T],
    /// The offsets of the container.
    pub offsets: &'a [usize],
    /// The offset at which the next sub-sequence ends.
    pub idx: usize,
    /// The offset at which the next sub-sequence starts.
    pub last_offset: usize,
}

impl<'a, T> ArraySequenceIteratorMut<'a, T> {
    /// The offsets never decrease, and the elements that are left are
    /// those from the start of the next sub-sequence on.
    pub open spec fn wf(&self) -> bool {
        &&& 1 <= self.idx <= self.offsets@.len()
        &&& self.offsets@[self.idx - 1] == self.last_offset
        &&& forall|i: int, j: int|
            0 <= i <= j < self.offsets@.len() ==> self.offsets@[i] <= self.offsets@[j]
        &&& self.last_offset + self.data@.len() >= self.offsets@.last()
    }

    /// Hands out the next sub-sequence, whose elements can be changed:
    /// what is changed in it is changed in the container, and the elements
    /// that are left stay with the walk.
    pub fn next(&mut self) -> (res: Option<&'a mut [T]>)
        requires
            old(self).wf(),
        ensures
            final(self).wf(),
            final(self).offsets == old(self).offsets,
            res.is_some() <==> old(self).idx < old(self).offsets@.len(),
            res.is_none() ==> *final(self) == *old(self),
            res matches Some(s) ==> {
                &&& final(self).idx == old(self).idx + 1
                &&& final(self).last_offset == old(self).offsets@[old(self).idx as int]
                &&& s@ == old(self).data@.take(
                    old(self).offsets@[old(self).idx as int] - old(self).last_offset,
                )
                &&& final(self).data@ == old(self).data@.skip(
                    old(self).offsets@[old(self).idx as int] - old(self).last_offset,
                )
                &&& final(old(self).data)@ == final(s)@ + final(final(self).data)@
            },
    {
        if self.idx >= self.offsets.len() {
            return None;
        }
        let current = self.offsets[self.idx];
        let nb = current - self.last_offset;
        let mut data: &'a mut [T] = &mut [];
        core::mem::swap(&mut self.data, &mut data);
        let (slice, rest) = data.split_at_mut(nb);
        self.data = rest;
        self.last_offset = current;
        self.idx = self.idx + 1;
        Some(slice)
    }
}

impl<T> ArraySequence<T> {
    /// A walk over the committed sub-sequences that lets their elements be
    /// changed: the container ends up with its offsets and with the
    /// elements as the walk leaves them.
    pub fn iter_mut<'a>(&'a mut self) -> (it: ArraySequenceIteratorMut<'a, T>)
        requires
            old(self).wf(),
        ensures
            it.wf(),
            it.idx == 1,
            it.last_offset == 0,
            it.offsets@ == old(self).offsets@,
            it.data@ == old(self).data@,
            final(self).offsets@ == old(self).offsets@,
            final(self).data@ == final(it.data)@,
    {
        ArraySequenceIteratorMut {
            data: self.data.as_mut_slice(),
            offsets: self.offsets.as_slice(),
            idx: 1,
            last_offset: 0,
        }
    }
}

} // verus!
