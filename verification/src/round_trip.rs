//! What is written is read back: the laws that tie the writer to the
//! reader.

use crate::bytes::Endianness;
use crate::cheader::{detected_endianness, CHeader, HEADER_SIZE};
use crate::reader::{is_read, lemma_read_back};
use crate::record::{body_bytes, fits, lemma_body_bytes_push, total_scalars, ReadError};
use crate::tractogram::{Point, Tractogram};
use crate::writer::{items_bytes, used_scalars};
use vstd::prelude::*;

verus! {

/// The tractogram holds what a file with `s` scalars for each point and
/// `p` properties for each streamline holds: for each streamline its
/// scalars and its properties, in full, and none where the file has none.
pub open spec fn channels_match(t: Tractogram<Point, u32>, s: int, p: int) -> bool {
    let n = t.streamlines@.len();
    &&& t.wf()
    &&& t.streamlines.is_complete()
    &&& t.scalars.is_complete()
    &&& t.properties.is_complete()
    &&& s >= 0
    &&& p >= 0
    &&& forall|i: int| 0 <= i < n ==> (#[trigger] t.streamlines@[i]).len() <= i32::MAX
    &&& if s == 0 {
        t.scalars.data@.len() == 0
    } else {
        t.scalars@.len() == n && forall|i: int|
            0 <= i < n ==> (#[trigger] t.scalars@[i]).len() == t.streamlines@[i].len() * s
    }
    &&& if p == 0 {
        t.properties.data@.len() == 0
    } else {
        t.properties@.len() == n && forall|i: int|
            0 <= i < n ==> (#[trigger] t.properties@[i]).len() == p
    }
}

/// The scalars of the first `k` streamlines of `t`, as the file holds them.
pub open spec fn scalars_upto(t: Tractogram<Point, u32>, s: int, k: int) -> Seq<u32> {
    if s == 0 {
        Seq::empty()
    } else {
        t.scalars.data@.take(t.scalars.offsets@[k] as int)
    }
}

/// The properties of the first `k` streamlines of `t`, as the file holds them.
pub open spec fn properties_upto(t: Tractogram<Point, u32>, p: int, k: int) -> Seq<u32> {
    if p == 0 {
        Seq::empty()
    } else {
        t.properties.data@.take(t.properties.offsets@[k] as int)
    }
}

proof fn lemma_items_are_body(t: Tractogram<Point, u32>, s: int, p: int, k: int)
    requires
        channels_match(t, s, p),
        0 <= k <= t.streamlines@.len(),
    ensures
        fits(t.streamlines@.take(k), scalars_upto(t, s, k), properties_upto(t, p, k), s, p),
        items_bytes(t, s, k) == body_bytes(
            t.streamlines@.take(k),
            scalars_upto(t, s, k),
            properties_upto(t, p, k),
            s,
            p,
            Endianness::Little,
        ),
    decreases k,
{
    let e = Endianness::Little;
    let sl = t.streamlines@;
    if k == 0 {
        assert(sl.take(0) =~= Seq::<Seq<Point>>::empty());
        assert(scalars_upto(t, s, 0) =~= Seq::<u32>::empty());
        assert(properties_upto(t, p, 0) =~= Seq::<u32>::empty());
        assert(0 * p == 0) by (nonlinear_arith);
    } else {
        lemma_items_are_body(t, s, p, k - 1);
        let points = sl[k - 1];
        let more_scalars = used_scalars(t.scalars_of(k - 1), s);
        let more_properties = t.properties_of(k - 1);
        assert(sl.take(k) =~= sl.take(k - 1).push(points));
        assert(sl.take(k).drop_last() =~= sl.take(k - 1));
        if s == 0 {
            assert(points.len() * s == 0) by (nonlinear_arith)
                requires
                    s == 0,
            ;
            assert(scalars_upto(t, s, k) =~= scalars_upto(t, s, k - 1) + more_scalars);
        } else {
            assert(t.scalars@[k - 1].len() == points.len() * s);
            assert(more_scalars =~= t.scalars@[k - 1]);
            assert(scalars_upto(t, s, k) =~= scalars_upto(t, s, k - 1) + more_scalars);
        }
        if p == 0 {
            assert(more_properties =~= Seq::<u32>::empty());
            assert(properties_upto(t, p, k) =~= properties_upto(t, p, k - 1) + more_properties);
        } else {
            assert(t.properties@[k - 1].len() == p);
            assert(more_properties =~= t.properties@[k - 1]);
            assert(properties_upto(t, p, k) =~= properties_upto(t, p, k - 1) + more_properties);
        }
        assert(k * p == (k - 1) * p + p) by (nonlinear_arith);
        assert(total_scalars(sl.take(k), s) == total_scalars(sl.take(k - 1), s) + points.len()
            * s);
        assert forall|i: int| 0 <= i < k implies (#[trigger] sl.take(k)[i]).len() <= i32::MAX by {
            assert(sl.take(k)[i] == sl[i]);
        }
        lemma_body_bytes_push(
            sl.take(k - 1),
            scalars_upto(t, s, k - 1),
            properties_upto(t, p, k - 1),
            points,
            more_scalars,
            more_properties,
            s,
            p,
            e,
        );
    }
}

/// The bytes that a writer appends for a tractogram whose channels match
/// the file are the bytes of its streamlines with all its scalars and all
/// its properties.
pub proof fn lemma_written_tractogram(t: Tractogram<Point, u32>, s: int, p: int)
    requires
        channels_match(t, s, p),
    ensures
        fits(t.streamlines@, t.scalars.data@, t.properties.data@, s, p),
        items_bytes(t, s, t.streamlines@.len() as int) == body_bytes(
            t.streamlines@,
            t.scalars.data@,
            t.properties.data@,
            s,
            p,
            Endianness::Little,
        ),
{
    let n = t.streamlines@.len() as int;
    lemma_items_are_body(t, s, p, n);
    assert(t.streamlines@.take(n) =~= t.streamlines@);
    assert(scalars_upto(t, s, n) =~= t.scalars.data@);
    assert(properties_upto(t, p, n) =~= t.properties.data@);
}

/// A tractogram that is written and read again comes back bit for bit.
///
/// Let the bytes from `at` on be what a writer appends for the tractogram
/// `t`, whose channels match the file. Then whatever reading from `at`
/// comes to is a success, with the streamlines, the scalars and the
/// properties of `t`.
pub proof fn lemma_tractogram_round_trip(
    t: Tractogram<Point, u32>,
    s: int,
    p: int,
    bytes: Seq<u8>,
    at: int,
    res: Result<Tractogram<Point, u32>, ReadError>,
)
    requires
        channels_match(t, s, p),
        0 <= at <= bytes.len(),
        bytes.subrange(at, bytes.len() as int) == items_bytes(t, s, t.streamlines@.len() as int),
        is_read(bytes, at, Endianness::Little, s, p, res),
    ensures
        res matches Ok(back) && back.streamlines@ == t.streamlines@ && back.scalars.data@
            == t.scalars.data@ && back.properties.data@ == t.properties.data@,
{
    lemma_written_tractogram(t, s, p);
    lemma_read_back(
        bytes,
        at,
        Endianness::Little,
        s,
        p,
        t.streamlines@,
        t.scalars.data@,
        t.properties.data@,
        res,
    );
}

/// A header that is written and read again comes back as it was.
///
/// Let the bytes start with what `header` writes, and let its version be at
/// most 255. Then whatever reading comes to, as `CHeader::read` states it, is
/// this header, read lowest byte first.
pub proof fn lemma_header_round_trip(header: CHeader, bytes: Seq<u8>, back: CHeader, e: Endianness)
    requires
        header.version <= 255,
        bytes.len() >= HEADER_SIZE,
        bytes.subrange(0, HEADER_SIZE as int) == header.encode(Endianness::Little),
        e == detected_endianness(bytes),
        back.encode(e) == bytes.subrange(0, HEADER_SIZE as int),
    ensures
        e == Endianness::Little,
        back == header,
{
    header.lemma_little_endian_detected(bytes);
    back.lemma_encode_injective(&header, e);
}

} // verus!
