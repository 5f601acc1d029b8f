//! One streamline as it lies in a file: the number of its points, then for
//! each point its three coordinates and its scalars, then its properties.

use crate::bytes::{
    lemma_i32_bytes_injective, lemma_u32s_bytes_injective, u32_bytes, u32s_bytes, unsigned32,
    Endianness,
};
use crate::tractogram::Point;
use vstd::prelude::*;

verus! {

/// Why streamlines could not be read.
#[derive(Clone, Copy, Debug, PartialEq, Eq)]
pub enum ReadError {
    /// The bytes end inside a streamline.
    Truncated,
    /// A streamline declares a negative number of points.
    NegativeCount,
}

/// Raw coordinates and coordinates in voxel space exclude each other.
#[derive(Clone, Copy, Debug, PartialEq, Eq)]
pub struct ModeConflict;

/// Why a streamline could not be written.
#[derive(Clone, Copy, Debug, PartialEq, Eq)]
pub enum WriteError {
    /// The streamline has more points than a signed 32-bit number can tell.
    TooManyPoints,
    /// There are not as many scalars as the points need.
    ScalarMismatch,
    /// More streamlines were written than a signed 32-bit number can tell.
    TooManyStreamlines,
    /// A streamline of a tractogram lacks its scalars or its properties.
    MissingChannels,
}

/// The coordinates of `points` and `scalars`, `s` of them for each point,
/// in the order of the file: three coordinates, then the scalars of that
/// point, point after point.
pub open spec fn interleaved(points: Seq<Point>, scalars: Seq<u32>, s: int) -> Seq<u32>
    decreases points.len(),
{
    if points.len() == 0 {
        Seq::empty()
    } else {
        interleaved(points.drop_last(), scalars.take(scalars.len() - s), s) + points.last()@
            + scalars.subrange(scalars.len() - s, scalars.len() as int)
    }
}

/// The bytes of one streamline in byte order `e`.
#[verifier::opaque]
pub open spec fn record_bytes(
    points: Seq<Point>,
    scalars: Seq<u32>,
    properties: Seq<u32>,
    s: int,
    e: Endianness,
) -> Seq<u8> {
    u32_bytes(unsigned32(points.len() as int), e) + u32s_bytes(interleaved(points, scalars, s), e)
        + u32s_bytes(properties, e)
}

/// Number of 32-bit words that follow the count of a streamline of `n`
/// points.
pub open spec fn record_words(n: int, s: int, p: int) -> int {
    n * (3 + s) + p
}

/// The bytes of streamlines in byte order `e`, one after the other, where
/// `scalars` and `properties` hold the scalars and the properties of all
/// of them in order: `s` scalars for each point and `p` properties for each
/// streamline.
pub open spec fn body_bytes(
    streamlines: Seq<Seq<Point>>,
    scalars: Seq<u32>,
    properties: Seq<u32>,
    s: int,
    p: int,
    e: Endianness,
) -> Seq<u8>
    decreases streamlines.len(),
{
    if streamlines.len() == 0 {
        Seq::empty()
    } else {
        let cut = scalars.len() - streamlines.last().len() * s;
        body_bytes(
            streamlines.drop_last(),
            scalars.take(cut),
            properties.take(properties.len() - p),
            s,
            p,
            e,
        ) + record_bytes(
            streamlines.last(),
            scalars.skip(cut),
            properties.skip(properties.len() - p),
            s,
            e,
        )
    }
}

/// Number of points of all the streamlines together.
pub open spec fn total_points(streamlines: Seq<Seq<Point>>) -> int
    decreases streamlines.len(),
{
    if streamlines.len() == 0 {
        0
    } else {
        total_points(streamlines.drop_last()) + streamlines.last().len()
    }
}

/// The bytes of streamlines followed by one more are those of the first
/// followed by those of the last.
pub proof fn lemma_body_bytes_push(
    streamlines: Seq<Seq<Point>>,
    scalars: Seq<u32>,
    properties: Seq<u32>,
    points: Seq<Point>,
    more_scalars: Seq<u32>,
    more_properties: Seq<u32>,
    s: int,
    p: int,
    e: Endianness,
)
    requires
        more_scalars.len() == points.len() * s,
        more_properties.len() == p,
    ensures
        body_bytes(
            streamlines.push(points),
            scalars + more_scalars,
            properties + more_properties,
            s,
            p,
            e,
        ) == body_bytes(streamlines, scalars, properties, s, p, e) + record_bytes(
            points,
            more_scalars,
            more_properties,
            s,
            e,
        ),
{
    let all = streamlines.push(points);
    let sc = scalars + more_scalars;
    let pr = properties + more_properties;
    assert(all.drop_last() =~= streamlines);
    assert(all.last() == points);
    assert(sc.take(sc.len() - points.len() * s) =~= scalars);
    assert(sc.skip(sc.len() - points.len() * s) =~= more_scalars);
    assert(pr.take(pr.len() - p) =~= properties);
    assert(pr.skip(pr.len() - p) =~= more_properties);
}

/// The bytes of one word sequence after another are the bytes of both.
pub proof fn lemma_u32s_bytes_concat(a: Seq<u32>, b: Seq<u32>, e: Endianness)
    ensures
        u32s_bytes(a + b, e) == u32s_bytes(a, e) + u32s_bytes(b, e),
{
    assert(u32s_bytes(a + b, e) =~= u32s_bytes(a, e) + u32s_bytes(b, e));
}

/// As many points with as many scalars each give as many words.
pub proof fn lemma_interleaved_len(points: Seq<Point>, scalars: Seq<u32>, s: int)
    requires
        s >= 0,
        scalars.len() == points.len() * s,
    ensures
        interleaved(points, scalars, s).len() == points.len() * (3 + s),
    decreases points.len(),
{
    if points.len() > 0 {
        let n = points.len() as int;
        assert((n - 1) * s == n * s - s) by (nonlinear_arith);
        assert((n - 1) * (3 + s) + 3 + s == n * (3 + s)) by (nonlinear_arith);
        assert(n * s >= s) by (nonlinear_arith)
            requires
                n >= 1,
                s >= 0,
        ;
        lemma_interleaved_len(points.drop_last(), scalars.take(scalars.len() - s), s);
    } else {
        assert(points.len() * (3 + s) == 0) by (nonlinear_arith)
            requires
                points.len() == 0,
        ;
    }
}

/// Points and scalars that give the same words are the same.
pub proof fn lemma_interleaved_injective(
    points: Seq<Point>,
    scalars: Seq<u32>,
    other_points: Seq<Point>,
    other_scalars: Seq<u32>,
    s: int,
)
    requires
        s >= 0,
        points.len() == other_points.len(),
        scalars.len() == points.len() * s,
        other_scalars.len() == points.len() * s,
        interleaved(points, scalars, s) == interleaved(other_points, other_scalars, s),
    ensures
        points == other_points,
        scalars == other_scalars,
    decreases points.len(),
{
    if points.len() == 0 {
        assert(points =~= other_points);
        assert(points.len() * s == 0) by (nonlinear_arith)
            requires
                points.len() == 0,
        ;
        assert(scalars =~= other_scalars);
    } else {
        let n = points.len() as int;
        assert((n - 1) * s == n * s - s) by (nonlinear_arith);
        assert(n * s >= s) by (nonlinear_arith)
            requires
                n >= 1,
                s >= 0,
        ;
        let w = interleaved(points, scalars, s);
        let head = interleaved(points.drop_last(), scalars.take(scalars.len() - s), s);
        let h = head.len() as int;
        let other_head = interleaved(
            other_points.drop_last(),
            other_scalars.take(other_scalars.len() - s),
            s,
        );
        lemma_interleaved_len(points.drop_last(), scalars.take(scalars.len() - s), s);
        lemma_interleaved_len(
            other_points.drop_last(),
            other_scalars.take(other_scalars.len() - s),
            s,
        );
        assert(head =~= w.take(h));
        assert(other_head =~= w.take(h));
        assert(points.last()@ =~= w.subrange(h, h + 3));
        assert(other_points.last()@ =~= w.subrange(h, h + 3));
        assert(points.last() =~= other_points.last());
        let tail = scalars.subrange(scalars.len() - s, scalars.len() as int);
        let other_tail = other_scalars.subrange(scalars.len() - s, scalars.len() as int);
        assert(tail =~= w.subrange(h + 3, w.len() as int));
        assert(other_tail =~= w.subrange(h + 3, w.len() as int));
        lemma_interleaved_injective(
            points.drop_last(),
            scalars.take(scalars.len() - s),
            other_points.drop_last(),
            other_scalars.take(other_scalars.len() - s),
            s,
        );
        assert(points =~= points.drop_last().push(points.last()));
        assert(other_points =~= other_points.drop_last().push(other_points.last()));
        assert(scalars =~= scalars.take(scalars.len() - s) + tail);
        assert(other_scalars =~= other_scalars.take(scalars.len() - s) + other_tail);
    }
}

/// A streamline is read back as it was written: two streamlines with the
/// same bytes, with `s` scalars for each point and as many properties as
/// each other, are the same streamline.
pub proof fn lemma_record_bytes_injective(
    points: Seq<Point>,
    scalars: Seq<u32>,
    properties: Seq<u32>,
    other_points: Seq<Point>,
    other_scalars: Seq<u32>,
    other_properties: Seq<u32>,
    s: int,
    e: Endianness,
)
    requires
        s >= 0,
        points.len() <= i32::MAX,
        other_points.len() <= i32::MAX,
        scalars.len() == points.len() * s,
        other_scalars.len() == other_points.len() * s,
        properties.len() == other_properties.len(),
        record_bytes(points, scalars, properties, s, e) == record_bytes(
            other_points,
            other_scalars,
            other_properties,
            s,
            e,
        ),
    ensures
        points == other_points,
        scalars == other_scalars,
        properties == other_properties,
{
    reveal(record_bytes);
    let b = record_bytes(points, scalars, properties, s, e);
    let w = interleaved(points, scalars, s);
    let other_w = interleaved(other_points, other_scalars, s);
    let m = 4 + 4 * (w.len() as int);
    assert(u32_bytes(unsigned32(points.len() as int), e) =~= b.subrange(0, 4));
    assert(u32_bytes(unsigned32(other_points.len() as int), e) =~= b.subrange(0, 4));
    lemma_i32_bytes_injective(points.len() as i32, other_points.len() as i32, e);
    lemma_interleaved_len(points, scalars, s);
    lemma_interleaved_len(other_points, other_scalars, s);
    assert(u32s_bytes(w, e) =~= b.subrange(4, m));
    assert(u32s_bytes(other_w, e) =~= b.subrange(4, m));
    lemma_u32s_bytes_injective(w, other_w, e);
    assert(u32s_bytes(properties, e) =~= b.subrange(m, b.len() as int));
    assert(u32s_bytes(other_properties, e) =~= b.subrange(m, b.len() as int));
    lemma_u32s_bytes_injective(properties, other_properties, e);
    lemma_interleaved_injective(points, scalars, other_points, other_scalars, s);
}


/// Number of scalars of all the streamlines together, `s` for each point.
pub open spec fn total_scalars(streamlines: Seq<Seq<Point>>, s: int) -> int
    decreases streamlines.len(),
{
    if streamlines.len() == 0 {
        0
    } else {
        total_scalars(streamlines.drop_last(), s) + streamlines.last().len() * s
    }
}

/// The streamlines can lie in a file with `s` scalars for each point and
/// `p` properties for each streamline, and `scalars` and `properties` hold
/// as many values as these streamlines need.
pub open spec fn fits(
    streamlines: Seq<Seq<Point>>,
    scalars: Seq<u32>,
    properties: Seq<u32>,
    s: int,
    p: int,
) -> bool {
    &&& s >= 0
    &&& p >= 0
    &&& forall|i: int| 0 <= i < streamlines.len() ==> (#[trigger] streamlines[i]).len() <= i32::MAX
    &&& scalars.len() == total_scalars(streamlines, s)
    &&& properties.len() == streamlines.len() * p
}

/// The scalars of all the streamlines are `s` times their points.
pub proof fn lemma_total_scalars(streamlines: Seq<Seq<Point>>, s: int)
    ensures
        total_scalars(streamlines, s) == total_points(streamlines) * s,
    decreases streamlines.len(),
{
    if streamlines.len() == 0 {
        assert(0 * s == 0) by (nonlinear_arith);
    } else {
        lemma_total_scalars(streamlines.drop_last(), s);
        let a = total_points(streamlines.drop_last());
        let b = streamlines.last().len() as int;
        assert((a + b) * s == a * s + b * s) by (nonlinear_arith);
    }
}

proof fn lemma_total_scalars_front(streamlines: Seq<Seq<Point>>, s: int)
    requires
        streamlines.len() > 0,
        s >= 0,
    ensures
        total_scalars(streamlines, s) == streamlines[0].len() * s + total_scalars(
            streamlines.drop_first(),
            s,
        ),
        total_scalars(streamlines.drop_first(), s) >= 0,
        streamlines[0].len() * s >= 0,
    decreases streamlines.len(),
{
    let n0 = streamlines[0].len() as int;
    assert(n0 * s >= 0) by (nonlinear_arith)
        requires
            n0 >= 0,
            s >= 0,
    ;
    if streamlines.len() == 1 {
        assert(streamlines.drop_last() =~= Seq::<Seq<Point>>::empty());
        assert(streamlines.drop_first() =~= Seq::<Seq<Point>>::empty());
        assert(streamlines.last() == streamlines[0]);
    } else {
        lemma_total_scalars_front(streamlines.drop_last(), s);
        assert(streamlines.drop_last().drop_first() =~= streamlines.drop_first().drop_last());
        assert(streamlines.drop_first().last() == streamlines.last());
        let nl = streamlines.last().len() as int;
        assert(nl * s >= 0) by (nonlinear_arith)
            requires
                nl >= 0,
                s >= 0,
        ;
    }
}

/// The bytes of a streamline start with those of its count.
pub proof fn lemma_record_starts_with_count(
    points: Seq<Point>,
    scalars: Seq<u32>,
    properties: Seq<u32>,
    s: int,
    e: Endianness,
)
    ensures
        record_bytes(points, scalars, properties, s, e).len() >= 4,
        record_bytes(points, scalars, properties, s, e).subrange(0, 4) == u32_bytes(
            unsigned32(points.len() as int),
            e,
        ),
{
    reveal(record_bytes);
    assert(record_bytes(points, scalars, properties, s, e).subrange(0, 4) =~= u32_bytes(
        unsigned32(points.len() as int),
        e,
    ));
}

proof fn lemma_total_scalars_nonnegative(streamlines: Seq<Seq<Point>>, s: int)
    requires
        s >= 0,
    ensures
        total_scalars(streamlines, s) >= 0,
    decreases streamlines.len(),
{
    if streamlines.len() > 0 {
        lemma_total_scalars_nonnegative(streamlines.drop_last(), s);
        let nl = streamlines.last().len() as int;
        assert(nl * s >= 0) by (nonlinear_arith)
            requires
                nl >= 0,
                s >= 0,
        ;
    }
}

/// The bytes of a streamline are four for its count and four for each of
/// its coordinates, scalars and properties.
pub proof fn lemma_record_len(
    points: Seq<Point>,
    scalars: Seq<u32>,
    properties: Seq<u32>,
    s: int,
    e: Endianness,
)
    requires
        s >= 0,
        scalars.len() == points.len() * s,
    ensures
        record_bytes(points, scalars, properties, s, e).len() == 4 + 4 * record_words(
            points.len() as int,
            s,
            properties.len() as int,
        ),
{
    reveal(record_bytes);
    lemma_interleaved_len(points, scalars, s);
}

/// The bytes of streamlines are those of the first followed by those of
/// the others.
pub proof fn lemma_body_bytes_front(
    streamlines: Seq<Seq<Point>>,
    scalars: Seq<u32>,
    properties: Seq<u32>,
    s: int,
    p: int,
    e: Endianness,
)
    requires
        streamlines.len() > 0,
        fits(streamlines, scalars, properties, s, p),
    ensures
        streamlines[0].len() * s <= scalars.len(),
        p <= properties.len(),
        fits(
            streamlines.drop_first(),
            scalars.skip(streamlines[0].len() * s),
            properties.skip(p),
            s,
            p,
        ),
        body_bytes(streamlines, scalars, properties, s, p, e) == record_bytes(
            streamlines[0],
            scalars.take(streamlines[0].len() * s),
            properties.take(p),
            s,
            e,
        ) + body_bytes(
            streamlines.drop_first(),
            scalars.skip(streamlines[0].len() * s),
            properties.skip(p),
            s,
            p,
            e,
        ),
    decreases streamlines.len(),
{
    let n = streamlines.len() as int;
    let n0 = streamlines[0].len() as int;
    let first = n0 * s;
    lemma_total_scalars_front(streamlines, s);
    assert(n * p == p + (n - 1) * p) by (nonlinear_arith);
    assert((n - 1) * p >= 0) by (nonlinear_arith)
        requires
            n >= 1,
            p >= 0,
    ;
    let rest = streamlines.drop_first();
    assert forall|i: int| 0 <= i < rest.len() implies (#[trigger] rest[i]).len() <= i32::MAX by {
        assert(rest[i] == streamlines[i + 1]);
    }
    if n == 1 {
        assert(streamlines.drop_last() =~= Seq::<Seq<Point>>::empty());
        assert(rest =~= Seq::<Seq<Point>>::empty());
        assert(streamlines.last() == streamlines[0]);
        assert(n * p == p) by (nonlinear_arith)
            requires
                n == 1,
        ;
        assert(total_scalars(rest, s) == 0);
        assert(scalars.len() == first);
        assert(properties.len() == p);
        assert(scalars.take(first) =~= scalars.skip(scalars.len() - first));
        assert(properties.take(p) =~= properties.skip(properties.len() - p));
        assert(body_bytes(
            streamlines.drop_last(),
            scalars.take(scalars.len() - first),
            properties.take(properties.len() - p),
            s,
            p,
            e,
        ) =~= Seq::<u8>::empty());
        assert(body_bytes(rest, scalars.skip(first), properties.skip(p), s, p, e)
            =~= Seq::<u8>::empty());
        assert(body_bytes(streamlines, scalars, properties, s, p, e) =~= record_bytes(
            streamlines[0],
            scalars.take(first),
            properties.take(p),
            s,
            e,
        ) + body_bytes(rest, scalars.skip(first), properties.skip(p), s, p, e));
    } else {
        let last = streamlines.last();
        let nl = last.len() as int;
        let cut = scalars.len() - nl * s;
        let head = streamlines.drop_last();
        let head_scalars = scalars.take(cut);
        let head_properties = properties.take(properties.len() - p);
        assert(nl * s >= 0) by (nonlinear_arith)
            requires
                nl >= 0,
                s >= 0,
        ;
        assert((n - 1) * p == n * p - p) by (nonlinear_arith);
        assert forall|i: int| 0 <= i < head.len() implies (#[trigger] head[i]).len()
            <= i32::MAX by {
            assert(head[i] == streamlines[i]);
        }
        lemma_total_scalars_nonnegative(head, s);
        assert(cut == total_scalars(head, s));
        assert(head_scalars.len() == cut);
        assert(head_properties.len() == head.len() * p);
        lemma_body_bytes_front(head, head_scalars, head_properties, s, p, e);
        assert(head[0] == streamlines[0]);
        assert(head.drop_first() =~= rest.drop_last());
        assert(rest.last() == last);
        let rest_scalars = scalars.skip(first);
        let rest_properties = properties.skip(p);
        assert(rest_scalars.take(rest_scalars.len() - nl * s) =~= head_scalars.skip(first));
        assert(rest_scalars.skip(rest_scalars.len() - nl * s) =~= scalars.skip(cut));
        assert(rest_properties.take(rest_properties.len() - p) =~= head_properties.skip(p));
        assert(rest_properties.skip(rest_properties.len() - p) =~= properties.skip(
            properties.len() - p,
        ));
        assert(head_scalars.take(first) =~= scalars.take(first));
        assert(head_properties.take(p) =~= properties.take(p));
        assert(body_bytes(streamlines, scalars, properties, s, p, e) =~= record_bytes(
            streamlines[0],
            scalars.take(first),
            properties.take(p),
            s,
            e,
        ) + body_bytes(rest, rest_scalars, rest_properties, s, p, e));
    }
}

/// Streamlines are read back as they were written: streamlines with the
/// same bytes, for the same numbers of channels, are the same, scalars
/// and properties included.
pub proof fn lemma_body_bytes_injective(
    streamlines: Seq<Seq<Point>>,
    scalars: Seq<u32>,
    properties: Seq<u32>,
    other_streamlines: Seq<Seq<Point>>,
    other_scalars: Seq<u32>,
    other_properties: Seq<u32>,
    s: int,
    p: int,
    e: Endianness,
)
    requires
        fits(streamlines, scalars, properties, s, p),
        fits(other_streamlines, other_scalars, other_properties, s, p),
        body_bytes(streamlines, scalars, properties, s, p, e) == body_bytes(
            other_streamlines,
            other_scalars,
            other_properties,
            s,
            p,
            e,
        ),
    ensures
        streamlines == other_streamlines,
        scalars == other_scalars,
        properties == other_properties,
    decreases streamlines.len(),
{
    let b = body_bytes(streamlines, scalars, properties, s, p, e);
    if streamlines.len() == 0 || other_streamlines.len() == 0 {
        if streamlines.len() > 0 {
            lemma_body_bytes_front(streamlines, scalars, properties, s, p, e);
            lemma_record_starts_with_count(
                streamlines[0],
                scalars.take(streamlines[0].len() * s),
                properties.take(p),
                s,
                e,
            );
            assert(b.len() >= 4);
        }
        if other_streamlines.len() > 0 {
            lemma_body_bytes_front(other_streamlines, other_scalars, other_properties, s, p, e);
            lemma_record_starts_with_count(
                other_streamlines[0],
                other_scalars.take(other_streamlines[0].len() * s),
                other_properties.take(p),
                s,
                e,
            );
            assert(b.len() >= 4);
        }
        assert(0 * p == 0) by (nonlinear_arith);
        assert(streamlines =~= other_streamlines);
        assert(scalars =~= other_scalars);
        assert(properties =~= other_properties);
    } else {
        lemma_body_bytes_front(streamlines, scalars, properties, s, p, e);
        lemma_body_bytes_front(other_streamlines, other_scalars, other_properties, s, p, e);
        let n0 = streamlines[0].len() as int;
        let m0 = other_streamlines[0].len() as int;
        let first = record_bytes(streamlines[0], scalars.take(n0 * s), properties.take(p), s, e);
        let other_first = record_bytes(
            other_streamlines[0],
            other_scalars.take(m0 * s),
            other_properties.take(p),
            s,
            e,
        );
        let rest = body_bytes(
            streamlines.drop_first(),
            scalars.skip(n0 * s),
            properties.skip(p),
            s,
            p,
            e,
        );
        let other_rest = body_bytes(
            other_streamlines.drop_first(),
            other_scalars.skip(m0 * s),
            other_properties.skip(p),
            s,
            p,
            e,
        );
        lemma_record_starts_with_count(
            streamlines[0],
            scalars.take(n0 * s),
            properties.take(p),
            s,
            e,
        );
        lemma_record_starts_with_count(
            other_streamlines[0],
            other_scalars.take(m0 * s),
            other_properties.take(p),
            s,
            e,
        );
        assert(first.subrange(0, 4) =~= b.subrange(0, 4));
        assert(other_first.subrange(0, 4) =~= b.subrange(0, 4));
        lemma_i32_bytes_injective(n0 as i32, m0 as i32, e);
        lemma_record_len(streamlines[0], scalars.take(n0 * s), properties.take(p), s, e);
        lemma_record_len(
            other_streamlines[0],
            other_scalars.take(m0 * s),
            other_properties.take(p),
            s,
            e,
        );
        let l = first.len() as int;
        assert(first =~= b.subrange(0, l));
        assert(other_first =~= b.subrange(0, l));
        assert(rest =~= b.subrange(l, b.len() as int));
        assert(other_rest =~= b.subrange(l, b.len() as int));
        lemma_record_bytes_injective(
            streamlines[0],
            scalars.take(n0 * s),
            properties.take(p),
            other_streamlines[0],
            other_scalars.take(m0 * s),
            other_properties.take(p),
            s,
            e,
        );
        lemma_body_bytes_injective(
            streamlines.drop_first(),
            scalars.skip(n0 * s),
            properties.skip(p),
            other_streamlines.drop_first(),
            other_scalars.skip(m0 * s),
            other_properties.skip(p),
            s,
            p,
            e,
        );
        assert(streamlines =~= seq![streamlines[0]] + streamlines.drop_first());
        assert(other_streamlines =~= seq![other_streamlines[0]] + other_streamlines.drop_first());
        assert(scalars =~= scalars.take(n0 * s) + scalars.skip(n0 * s));
        assert(other_scalars =~= other_scalars.take(m0 * s) + other_scalars.skip(m0 * s));
        assert(properties =~= properties.take(p) + properties.skip(p));
        assert(other_properties =~= other_properties.take(p) + other_properties.skip(p));
    }
}

} // verus!
