//! Streamlines together with the values that belong to their points and to
//! each of them as a whole.

use crate::array_sequence::ArraySequence;
use vstd::prelude::*;

verus! {

/// A point in space: the bits of its three single-precision coordinates.
pub type Point = [u32; 3];

/// The points of one streamline.
pub type Points = Vec<Point>;

/// Streamlines, one after the other.
pub type Streamlines = ArraySequence<Point>;

/// One streamline with the scalars of its points and its properties.
pub type TractogramItem = (Points, ArraySequence<u32>, Vec<u32>);

/// Streamlines of points `P`, with values `V` for the scalars of each point
/// and for the properties of each streamline.
#[derive(Clone, Debug, PartialEq)]
pub struct Tractogram<P, V> {
    pub streamlines: ArraySequence<P>,
    /// For each streamline, the scalars of its points, point after point.
    pub scalars: ArraySequence<V>,
    /// For each streamline, its properties.
    pub properties: ArraySequence<V>,
}

impl<P, V> Tractogram<P, V> {
    /// The three containers are well formed.
    pub open spec fn wf(&self) -> bool {
        self.streamlines.wf() && self.scalars.wf() && self.properties.wf()
    }

    /// Streamline `idx` can be handed out: it exists, and so do its scalars
    /// and its properties unless the tractogram holds no scalar, or no
    /// property, at all.
    pub open spec fn has_item(&self, idx: int) -> bool {
        &&& 0 <= idx < self.streamlines@.len()
        &&& self.scalars.data@.len() == 0 || idx < self.scalars@.len()
        &&& self.properties.data@.len() == 0 || idx < self.properties@.len()
    }

    /// The scalars of streamline `idx`: none where the tractogram holds none.
    pub open spec fn scalars_of(&self, idx: int) -> Seq<V> {
        if self.scalars.data@.len() == 0 {
            Seq::empty()
        } else {
            self.scalars@[idx]
        }
    }

    /// The properties of streamline `idx`: none where the tractogram holds none.
    pub open spec fn properties_of(&self, idx: int) -> Seq<V> {
        if self.properties.data@.len() == 0 {
            Seq::empty()
        } else {
            self.properties@[idx]
        }
    }

    /// A tractogram of these streamlines, scalars and properties.
    pub fn new(
        streamlines: ArraySequence<P>,
        scalars: ArraySequence<V>,
        properties: ArraySequence<V>,
    ) -> (t: Tractogram<P, V>)
        ensures
            t.streamlines == streamlines,
            t.scalars == scalars,
            t.properties == properties,
    {
        Tractogram { streamlines, scalars, properties }
    }

    /// Whether the three containers are well formed.
    pub fn is_well_formed(&self) -> (b: bool)
        ensures
            b == self.wf(),
    {
        self.streamlines.is_well_formed() && self.scalars.is_well_formed()
            && self.properties.is_well_formed()
    }

    /// Streamline `idx` with its scalars and its properties.
    pub fn item(&self, idx: usize) -> (res: (&[P], &[V], &[V]))
        requires
            self.wf(),
            self.has_item(idx as int),
        ensures
            res.0@ == self.streamlines@[idx as int],
            res.1@ == self.scalars_of(idx as int),
            res.2@ == self.properties_of(idx as int),
    {
        let scalars = if self.scalars.is_empty() {
            vstd::slice::slice_subrange(self.scalars.data.as_slice(), 0, 0)
        } else {
            self.scalars.index(idx)
        };
        let properties = if self.properties.is_empty() {
            vstd::slice::slice_subrange(self.properties.data.as_slice(), 0, 0)
        } else {
            self.properties.index(idx)
        };
        proof {
            assert(scalars@ =~= self.scalars_of(idx as int));
            assert(properties@ =~= self.properties_of(idx as int));
        }
        (self.streamlines.index(idx), scalars, properties)
    }

    /// Streamline `idx` with its scalars and its properties, or `None`
    /// where it cannot be handed out.
    pub fn get(&self, idx: usize) -> (res: Option<(&[P], &[V], &[V])>)
        requires
            self.wf(),
        ensures
            res.is_some() <==> self.has_item(idx as int),
            res matches Some(item) ==> item.0@ == self.streamlines@[idx as int] && item.1@
                == self.scalars_of(idx as int) && item.2@ == self.properties_of(idx as int),
    {
        if idx < self.streamlines.len() && (self.scalars.is_empty() || idx < self.scalars.len())
            && (self.properties.is_empty() || idx < self.properties.len()) {
            Some(self.item(idx))
        } else {
            None
        }
    }

    /// A walk over the streamlines, from both ends.
    pub fn iter<'a>(&'a self) -> (it: TractogramIterator<'a, P, V>)
        requires
            self.wf(),
        ensures
            it.wf(),
            it.source() == self,
            it.front() == 0,
            it.back() == self.streamlines@.len(),
    {
        TractogramIterator { tractogram: self, start: 0, end: self.streamlines.len() }
    }
}

/// A walk over the streamlines of a tractogram, which can be advanced from
/// the front and from the back.
pub struct TractogramIterator<'a, P, V> {
    tractogram: &'a Tractogram<P, V>,
    start: usize,
    end: usize,
}

impl<'a, P, V> TractogramIterator<'a, P, V> {
    /// The walk has not passed the ends of its tractogram.
    pub closed spec fn wf(&self) -> bool {
        self.tractogram.wf() && self.start <= self.end <= self.tractogram.streamlines@.len()
    }

    /// The tractogram that is walked over.
    pub closed spec fn source(&self) -> &'a Tractogram<P, V> {
        self.tractogram
    }

    /// The streamline that `next` hands out next.
    pub closed spec fn front(&self) -> int {
        self.start as int
    }

    /// The streamline after the one that `next_back` hands out next.
    pub closed spec fn back(&self) -> int {
        self.end as int
    }

    /// Number of streamlines that are left.
    pub fn len(&self) -> (n: usize)
        requires
            self.wf(),
        ensures
            n == self.back() - self.front(),
    {
        self.end - self.start
    }

    /// Hands out the next streamline from the front, or `None` at the end
    /// and where the scalars or properties of that streamline are missing.
    pub fn next(&mut self) -> (res: Option<(&'a [P], &'a [V], &'a [V])>)
        requires
            old(self).wf(),
        ensures
            final(self).wf(),
            final(self).source() == old(self).source(),
            final(self).back() == old(self).back(),
            res.is_some() <==> old(self).front() < old(self).back() && old(self).source().has_item(
                old(self).front(),
            ),
            res.is_some() ==> final(self).front() == old(self).front() + 1,
            res.is_none() ==> final(self).front() == old(self).front(),
            res matches Some(item) ==> item.0@ == old(self).source().streamlines@[old(self).front()] && item.1@ == old(self).source().scalars_of(old(self).front()) && item.2@
                == old(self).source().properties_of(old(self).front()),
    {
        if self.start < self.end {
            match self.tractogram.get(self.start) {
                Some(item) => {
                    self.start = self.start + 1;
                    Some(item)
                },
                None => None,
            }
        } else {
            None
        }
    }

    /// Hands out the next streamline from the back, or `None` at the end
    /// and where the scalars or properties of that streamline are missing.
    pub fn next_back(&mut self) -> (res: Option<(&'a [P], &'a [V], &'a [V])>)
        requires
            old(self).wf(),
        ensures
            final(self).wf(),
            final(self).source() == old(self).source(),
            final(self).front() == old(self).front(),
            res.is_some() <==> old(self).front() < old(self).back() && old(self).source().has_item(
                old(self).back() - 1,
            ),
            res.is_some() ==> final(self).back() == old(self).back() - 1,
            res.is_none() ==> final(self).back() == old(self).back(),
            res matches Some(item) ==> item.0@ == old(self).source().streamlines@[old(self).back() - 1] && item.1@ == old(self).source().scalars_of(old(self).back() - 1)
                && item.2@ == old(self).source().properties_of(old(self).back() - 1),
    {
        if self.start < self.end {
            match self.tractogram.get(self.end - 1) {
                Some(item) => {
                    self.end = self.end - 1;
                    Some(item)
                },
                None => None,
            }
        } else {
            None
        }
    }
}

} // verus!
