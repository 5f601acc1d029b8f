//! Decoding of the streamlines that follow the header of a file.

use crate::array_sequence::ArraySequence;
use crate::bytes::{read_i32, read_u32, signed32, u32_bytes, u32_of, u32s_bytes, Endianness};
use crate::bytes::lemma_u32_of_bytes;
use crate::record::{
    body_bytes, fits, interleaved, lemma_body_bytes_front, lemma_body_bytes_injective,
    lemma_body_bytes_push, lemma_record_len, lemma_record_starts_with_count, record_bytes,
    record_words, total_scalars, ModeConflict, ReadError,
};
use crate::tractogram::{Point, Points, Streamlines, Tractogram, TractogramItem};
use crate::cheader::HEADER_SIZE;
use crate::header::Header;
use vstd::prelude::*;

verus! {

/// The number of points that the streamline at `at` declares.
pub open spec fn count_at(bytes: Seq<u8>, at: int, e: Endianness) -> int {
    signed32(u32_of(bytes.subrange(at, at + 4), e))
}

/// Number of bytes that follow the count of a streamline of `nb_points`
/// points: four for each coordinate, scalar and property. `None` where
/// that number does not fit.
pub fn record_size(nb_points: usize, nb_scalars: usize, nb_properties: usize) -> (res: Option<
    usize,
>)
    ensures
        res.is_some() <==> 4 * record_words(
            nb_points as int,
            nb_scalars as int,
            nb_properties as int,
        ) <= usize::MAX,
        res matches Some(size) ==> size == 4 * record_words(
            nb_points as int,
            nb_scalars as int,
            nb_properties as int,
        ),
{
    let words = if nb_points == 0 {
        assert(nb_points * (3 + nb_scalars) == 0) by (nonlinear_arith)
            requires
                nb_points == 0,
        ;
        0
    } else {
        let per_point = match nb_scalars.checked_add(3) {
            Some(v) => v,
            None => {
                assert(nb_points * (3 + nb_scalars) > usize::MAX) by (nonlinear_arith)
                    requires
                        nb_points >= 1,
                        3 + nb_scalars > usize::MAX,
                ;
                return None;
            },
        };
        match nb_points.checked_mul(per_point) {
            Some(v) => v,
            None => {
                return None;
            },
        }
    };
    match words.checked_add(nb_properties) {
        Some(total) => total.checked_mul(4),
        None => None,
    }
}

/// The `n` 32-bit patterns at `at` in `bytes`, in byte order `e`.
pub fn read_words(bytes: &[u8], at: usize, n: usize, e: Endianness) -> (words: Vec<u32>)
    requires
        at + 4 * n <= bytes@.len(),
    ensures
        words@.len() == n,
        u32s_bytes(words@, e) == bytes@.subrange(at as int, at + 4 * n),
{
    let len = bytes.len();
    let mut words: Vec<u32> = Vec::with_capacity(n);
    let mut i: usize = 0;
    while i < n
        invariant
            0 <= i <= n,
            at + 4 * n <= bytes@.len(),
            len == bytes@.len(),
            words@.len() == i,
            forall|k: int|
                0 <= k < i ==> u32_bytes(words@[k] as int, e) == bytes@.subrange(
                    at + 4 * k,
                    at + 4 * k + 4,
                ),
        decreases n - i,
    {
        words.push(read_u32(bytes, at + 4 * i, e));
        i = i + 1;
    }
    proof {
        assert forall|j: int| 0 <= j < 4 * n implies u32s_bytes(words@, e)[j] == bytes@[at + j] by {
            let k = j / 4;
            assert(u32_bytes(words@[k] as int, e) == bytes@.subrange(at + 4 * k, at + 4 * k + 4));
            assert(bytes@.subrange(at + 4 * k, at + 4 * k + 4)[j % 4] == bytes@[at + j]);
        }
        assert(u32s_bytes(words@, e) =~= bytes@.subrange(at as int, at + 4 * n));
    }
    words
}

/// Appends to `points` and `scalars` the points and the scalars that
/// `words` hold: for each point three coordinates and then `nb_scalars`
/// scalars.
pub fn split_words(
    words: &[u32],
    nb_points: usize,
    nb_scalars: usize,
    points: &mut Points,
    scalars: &mut Vec<u32>,
)
    requires
        words@.len() == nb_points * (3 + nb_scalars),
    ensures
        final(points)@.len() == old(points)@.len() + nb_points,
        final(points)@.take(old(points)@.len() as int) == old(points)@,
        final(scalars)@.len() == old(scalars)@.len() + nb_points * nb_scalars,
        final(scalars)@.take(old(scalars)@.len() as int) == old(scalars)@,
        interleaved(
            final(points)@.skip(old(points)@.len() as int),
            final(scalars)@.skip(old(scalars)@.len() as int),
            nb_scalars as int,
        ) == words@,
{
    let ghost first_new_point = points@.len() as int;
    let ghost first_new_scalar = scalars@.len() as int;
    let ghost s = nb_scalars as int;
    let total = words.len();
    let mut k: usize = 0;
    let mut off: usize = 0;
    proof {
        assert(0 * (3 + s) == 0) by (nonlinear_arith);
        assert(0 * s == 0) by (nonlinear_arith);
        assert(points@.skip(first_new_point) =~= Seq::<Point>::empty());
        assert(words@.take(0) =~= Seq::<u32>::empty());
    }
    while k < nb_points
        invariant
            0 <= k <= nb_points,
            s == nb_scalars,
            total == words@.len(),
            words@.len() == nb_points * (3 + s),
            off == k * (3 + s),
            first_new_point == old(points)@.len(),
            first_new_scalar == old(scalars)@.len(),
            points@.len() == first_new_point + k,
            points@.take(first_new_point) == old(points)@,
            scalars@.len() == first_new_scalar + k * s,
            scalars@.take(first_new_scalar) == old(scalars)@,
            interleaved(points@.skip(first_new_point), scalars@.skip(first_new_scalar), s) == words@.take(off as int),
        decreases nb_points - k,
    {
        proof {
            assert((k + 1) * (3 + s) == k * (3 + s) + 3 + s) by (nonlinear_arith);
            assert((k + 1) * s == k * s + s) by (nonlinear_arith);
            assert((k + 1) * (3 + s) <= nb_points * (3 + s)) by (nonlinear_arith)
                requires
                    k + 1 <= nb_points,
                    s >= 0,
            ;
        }
        let ghost points_before = points@;
        let ghost scalars_before = scalars@;
        let p: Point = [words[off], words[off + 1], words[off + 2]];
        points.push(p);
        let mut j: usize = 0;
        while j < nb_scalars
            invariant
                0 <= j <= nb_scalars,
                s == nb_scalars,
                total == words@.len(),
                off + 3 + s <= total,
                scalars@ == scalars_before + words@.subrange(off + 3, off + 3 + j),
            decreases nb_scalars - j,
        {
            scalars.push(words[off + 3 + j]);
            proof {
                assert(scalars@ =~= scalars_before + words@.subrange(off + 3, off + 3 + j + 1));
            }
            j = j + 1;
        }
        proof {
            let new_points = points@.skip(first_new_point);
            let new_scalars = scalars@.skip(first_new_scalar);
            assert(new_points.drop_last() =~= points_before.skip(first_new_point));
            assert(new_points.last() == p);
            assert(new_scalars.take(new_scalars.len() - s) =~= scalars_before.skip(first_new_scalar));
            assert(new_scalars.subrange(new_scalars.len() - s, new_scalars.len() as int)
                =~= words@.subrange(off + 3, off + 3 + s));
            assert(p@ =~= words@.subrange(off as int, off + 3));
            assert(words@.take(off + 3 + s) =~= words@.take(off as int) + p@ + words@.subrange(
                off + 3,
                off + 3 + s,
            ));
            assert(points@.take(first_new_point) =~= points_before.take(first_new_point));
            assert(scalars@.take(first_new_scalar) =~= scalars_before.take(first_new_scalar));
        }
        off = off + 3 + nb_scalars;
        k = k + 1;
    }
    proof {
        assert(words@.take(off as int) =~= words@);
    }
}


/// What reading one streamline at `at` comes to, when the channel counts
/// are `s` and `p`: the end of the bytes, a failure, or the streamline and
/// the place of the next one.
pub open spec fn is_step(
    bytes: Seq<u8>,
    at: int,
    e: Endianness,
    s: int,
    p: int,
    res: Result<Option<(TractogramItem, usize)>, ReadError>,
) -> bool {
    let n = count_at(bytes, at, e);
    let next = at + 4 + 4 * record_words(n, s, p);
    match res {
        Ok(None) => at + 4 > bytes.len(),
        Err(ReadError::NegativeCount) => at + 4 <= bytes.len() && n < 0,
        Err(ReadError::Truncated) => at + 4 <= bytes.len() && n >= 0 && next > bytes.len(),
        Ok(Some((item, after))) => {
            &&& at + 4 <= bytes.len()
            &&& 0 <= n <= i32::MAX
            &&& after == next
            &&& next <= bytes.len()
            &&& item.0@.len() == n
            &&& item.1.wf()
            &&& item.1.is_complete()
            &&& item.1.data@.len() == n * s
            &&& item.1@ == if n * s > 0 {
                seq![item.1.data@]
            } else {
                Seq::<Seq<u32>>::empty()
            }
            &&& item.2@.len() == p
            &&& record_bytes(item.0@, item.1.data@, item.2@, s, e) == bytes.subrange(at, next)
        },
    }
}

/// Reads the streamline at `at` with its scalars and its properties.
///
/// Fewer than four bytes at `at` are the end of the streamlines: `None`.
/// A negative count, and bytes that end before the streamline does, are
/// failures.
pub fn next_item(
    bytes: &[u8],
    at: usize,
    e: Endianness,
    nb_scalars: usize,
    nb_properties: usize,
) -> (res: Result<Option<(TractogramItem, usize)>, ReadError>)
    requires
        at <= bytes@.len(),
    ensures
        is_step(bytes@, at as int, e, nb_scalars as int, nb_properties as int, res),
{
    let len = bytes.len();
    if len - at < 4 {
        return Ok(None);
    }
    let count = read_i32(bytes, at, e);
    if count < 0 {
        return Err(ReadError::NegativeCount);
    }
    let nb_points = count as usize;
    let size = match record_size(nb_points, nb_scalars, nb_properties) {
        Some(size) => size,
        None => {
            return Err(ReadError::Truncated);
        },
    };
    if size > len - at - 4 {
        return Err(ReadError::Truncated);
    }
    let nb_words = size / 4 - nb_properties;
    let words = read_words(bytes, at + 4, nb_words, e);
    let properties = read_words(bytes, at + 4 + 4 * nb_words, nb_properties, e);
    let mut points: Points = Vec::with_capacity(nb_points);
    let mut values: Vec<u32> = Vec::new();
    split_words(words.as_slice(), nb_points, nb_scalars, &mut points, &mut values);
    let mut scalars: ArraySequence<u32> = ArraySequence::with_capacity(values.len());
    proof {
        assert(points@.skip(0) =~= points@);
        assert(values@.skip(0) =~= values@);
        assert(scalars.pending() =~= Seq::<u32>::empty());
        assert(Seq::<u32>::empty() + values@ =~= values@);
    }
    scalars.extend(values);
    proof {
        reveal(record_bytes);
        let b = bytes@;
        let next = at + 4 + size;
        assert(scalars.data@ =~= values@);
        assert(b.subrange(at as int, at + 4) + b.subrange(at + 4, at + 4 + 4 * nb_words)
            + b.subrange(at + 4 + 4 * nb_words, next) =~= b.subrange(at as int, next));
        assert(scalars@ =~= if nb_points * nb_scalars > 0 {
            seq![scalars.data@]
        } else {
            Seq::<Seq<u32>>::empty()
        });
    }
    Ok(Some(((points, scalars, properties), at + 4 + size)))
}

/// A step without the scalars and the properties that it has read.
pub open spec fn without_channels(
    full: Result<Option<(TractogramItem, usize)>, ReadError>,
) -> Result<Option<(Points, usize)>, ReadError> {
    match full {
        Ok(None) => Ok(None),
        Err(err) => Err(err),
        Ok(Some((item, after))) => Ok(Some((item.0, after))),
    }
}

/// Reads the points of the streamline at `at` and passes over its scalars
/// and its properties: what `next_item` reads, without them.
pub fn next_streamline(
    bytes: &[u8],
    at: usize,
    e: Endianness,
    nb_scalars: usize,
    nb_properties: usize,
) -> (res: Result<Option<(Points, usize)>, ReadError>)
    requires
        at <= bytes@.len(),
    ensures
        exists|full: Result<Option<(TractogramItem, usize)>, ReadError>|
            is_step(bytes@, at as int, e, nb_scalars as int, nb_properties as int, full) && res
                == without_channels(full),
{
    let full = next_item(bytes, at, e, nb_scalars, nb_properties);
    let ghost witness = full;
    let res = match full {
        Ok(None) => Ok(None),
        Err(err) => Err(err),
        Ok(Some((item, after))) => Ok(Some((item.0, after))),
    };
    assert(is_step(bytes@, at as int, e, nb_scalars as int, nb_properties as int, witness) && res
        == without_channels(witness));
    res
}


/// Every streamline from `at` on is whole and declares no negative count,
/// up to a place where fewer than four bytes are left.
pub open spec fn well_framed(bytes: Seq<u8>, at: int, e: Endianness, s: int, p: int) -> bool
    decreases bytes.len() - at,
{
    if at + 4 > bytes.len() {
        true
    } else {
        let n = count_at(bytes, at, e);
        let next = at + 4 + 4 * record_words(n, s, p);
        n >= 0 && s >= 0 && p >= 0 && next <= bytes.len() && well_framed(bytes, next, e, s, p)
    }
}

/// The failure on which reading the streamlines from `at` on stops: that
/// of the first streamline that is not whole or declares a negative count.
pub open spec fn first_failure(bytes: Seq<u8>, at: int, e: Endianness, s: int, p: int) -> ReadError
    decreases bytes.len() - at,
{
    if at + 4 > bytes.len() {
        ReadError::Truncated
    } else {
        let n = count_at(bytes, at, e);
        let next = at + 4 + 4 * record_words(n, s, p);
        if n < 0 {
            ReadError::NegativeCount
        } else if s >= 0 && p >= 0 && next <= bytes.len() {
            first_failure(bytes, next, e, s, p)
        } else {
            ReadError::Truncated
        }
    }
}

/// Where the streamlines that start at `at` end, if they are well framed.
pub open spec fn frame_end(bytes: Seq<u8>, at: int, e: Endianness, s: int, p: int) -> int
    decreases bytes.len() - at,
{
    if at + 4 > bytes.len() {
        at
    } else {
        let n = count_at(bytes, at, e);
        let next = at + 4 + 4 * record_words(n, s, p);
        if n >= 0 && s >= 0 && p >= 0 && next <= bytes.len() {
            frame_end(bytes, next, e, s, p)
        } else {
            at
        }
    }
}

/// The sub-sequences that a streaming build commits when it is given the
/// scalars or the properties of each of the first `k` streamlines in turn:
/// `width[i]` values for streamline `i`, none committed where that is zero.
pub open spec fn committed(values: Seq<u32>, widths: Seq<int>, k: int) -> Seq<Seq<u32>>
    decreases k,
{
    if k <= 0 {
        Seq::empty()
    } else {
        let before = committed(values.take(values.len() - widths[k - 1]), widths, k - 1);
        if widths[k - 1] > 0 {
            before.push(values.skip(values.len() - widths[k - 1]))
        } else {
            before
        }
    }
}

/// `res` is what reading all the streamlines from `at` on comes to.
///
/// Reading succeeds exactly where the streamlines are well framed, and fails
/// with the failure of the first that is not. The tractogram read holds the
/// streamlines whose bytes lie between `at` and the end of the frame, in
/// order, with all their scalars and all their properties.
pub open spec fn is_read(
    bytes: Seq<u8>,
    at: int,
    e: Endianness,
    s: int,
    p: int,
    res: Result<Tractogram<Point, u32>, ReadError>,
) -> bool {
    &&& res.is_ok() <==> well_framed(bytes, at, e, s, p)
    &&& res matches Err(err) ==> err == first_failure(bytes, at, e, s, p)
    &&& res matches Ok(t) ==> {
        &&& is_gathered(t.streamlines, t.scalars, t.properties, s, p)
        &&& body_bytes(t.streamlines@, t.scalars.data@, t.properties.data@, s, p, e)
            == bytes.subrange(at, frame_end(bytes, at, e, s, p))
    }
}

/// What is left of a reading when only the streamlines are kept.
pub open spec fn streamlines_only(res: Result<Tractogram<Point, u32>, ReadError>) -> Result<
    Streamlines,
    ReadError,
> {
    match res {
        Ok(t) => Ok(t.streamlines),
        Err(err) => Err(err),
    }
}

/// Reads all the streamlines from `at` on, with their scalars and their
/// properties.
///
/// The streamlines come one after the other until fewer than four bytes
/// are left. The scalars and the properties of each streamline are
/// committed as one sub-sequence each, where there are any.
pub fn read_tractogram(
    bytes: &[u8],
    at: usize,
    e: Endianness,
    nb_scalars: usize,
    nb_properties: usize,
) -> (res: Result<Tractogram<Point, u32>, ReadError>)
    requires
        at <= bytes@.len(),
    ensures
        is_read(bytes@, at as int, e, nb_scalars as int, nb_properties as int, res),
{
    let ghost s = nb_scalars as int;
    let ghost p = nb_properties as int;
    let mut streamlines: Streamlines = ArraySequence::with_capacity(300);
    let mut scalars: ArraySequence<u32> = ArraySequence::with_capacity(300);
    let mut properties: ArraySequence<u32> = ArraySequence::with_capacity(300);
    let mut pos: usize = at;
    proof {
        assert(bytes@.subrange(at as int, at as int) =~= Seq::<u8>::empty());
        assert(streamlines@.len() * p == 0) by (nonlinear_arith)
            requires
                streamlines@.len() == 0,
        ;
        assert(scalars@ =~= committed(scalars.data@, scalar_widths(streamlines@, s), 0));
        assert(properties@ =~= committed(properties.data@, property_widths(streamlines@, p), 0));
    }
    loop
        invariant
            s == nb_scalars,
            p == nb_properties,
            at <= pos <= bytes@.len(),
            is_gathered(streamlines, scalars, properties, s, p),
            body_bytes(streamlines@, scalars.data@, properties.data@, s, p, e) == bytes@.subrange(
                at as int,
                pos as int,
            ),
            well_framed(bytes@, at as int, e, s, p) == well_framed(bytes@, pos as int, e, s, p),
            first_failure(bytes@, at as int, e, s, p) == first_failure(bytes@, pos as int, e, s, p),
            frame_end(bytes@, at as int, e, s, p) == frame_end(bytes@, pos as int, e, s, p),
        decreases bytes@.len() - pos,
    {
        let step = next_item(bytes, pos, e, nb_scalars, nb_properties);
        match step {
            Ok(None) => {
                return Ok(Tractogram { streamlines, scalars, properties });
            },
            Err(err) => {
                return Err(err);
            },
            Ok(Some((item, next))) => {
                proof {
                    assert(bytes@.subrange(at as int, pos as int) + bytes@.subrange(
                        pos as int,
                        next as int,
                    ) =~= bytes@.subrange(at as int, next as int));
                }
                append_item(
                    &mut streamlines,
                    &mut scalars,
                    &mut properties,
                    item,
                    nb_scalars,
                    nb_properties,
                    Ghost(e),
                );
                pos = next;
            },
        }
    }
}

/// Reads all the streamlines from `at` on and passes over their scalars and
/// their properties: what `read_tractogram` reads, without them.
pub fn read_points(
    bytes: &[u8],
    at: usize,
    e: Endianness,
    nb_scalars: usize,
    nb_properties: usize,
) -> (res: Result<Streamlines, ReadError>)
    requires
        at <= bytes@.len(),
    ensures
        exists|full: Result<Tractogram<Point, u32>, ReadError>|
            is_read(bytes@, at as int, e, nb_scalars as int, nb_properties as int, full) && res
                == streamlines_only(full),
{
    let full = read_tractogram(bytes, at, e, nb_scalars, nb_properties);
    let ghost witness = full;
    let res = match full {
        Ok(t) => Ok(t.streamlines),
        Err(err) => Err(err),
    };
    assert(is_read(bytes@, at as int, e, nb_scalars as int, nb_properties as int, witness) && res
        == streamlines_only(witness));
    res
}

/// The widths of the scalars of each streamline, `s` for each point.
pub open spec fn scalar_widths(streamlines: Seq<Seq<Point>>, s: int) -> Seq<int> {
    Seq::new(streamlines.len(), |i: int| streamlines[i].len() * s)
}

/// The widths of the properties of each streamline: `p` for each.
pub open spec fn property_widths(streamlines: Seq<Seq<Point>>, p: int) -> Seq<int> {
    Seq::new(streamlines.len(), |i: int| p)
}

/// The containers hold whole streamlines with all their scalars and
/// properties, committed streamline by streamline.
pub open spec fn is_gathered(
    streamlines: Streamlines,
    scalars: ArraySequence<u32>,
    properties: ArraySequence<u32>,
    s: int,
    p: int,
) -> bool {
    &&& streamlines.wf()
    &&& streamlines.is_complete()
    &&& scalars.wf()
    &&& scalars.is_complete()
    &&& properties.wf()
    &&& properties.is_complete()
    &&& fits(streamlines@, scalars.data@, properties.data@, s, p)
    &&& scalars@ == committed(
        scalars.data@,
        scalar_widths(streamlines@, s),
        streamlines@.len() as int,
    )
    &&& properties@ == committed(
        properties.data@,
        property_widths(streamlines@, p),
        streamlines@.len() as int,
    )
}

/// Appends one streamline that was read, with its scalars and properties.
fn append_item(
    streamlines: &mut Streamlines,
    scalars: &mut ArraySequence<u32>,
    properties: &mut ArraySequence<u32>,
    item: TractogramItem,
    nb_scalars: usize,
    nb_properties: usize,
    Ghost(e): Ghost<Endianness>,
)
    requires
        is_gathered(
            *old(streamlines),
            *old(scalars),
            *old(properties),
            nb_scalars as int,
            nb_properties as int,
        ),
        item.0@.len() <= i32::MAX,
        item.1.data@.len() == item.0@.len() * nb_scalars,
        item.2@.len() == nb_properties,
    ensures
        is_gathered(
            *final(streamlines),
            *final(scalars),
            *final(properties),
            nb_scalars as int,
            nb_properties as int,
        ),
        final(streamlines)@ == old(streamlines)@.push(item.0@),
        body_bytes(
            final(streamlines)@,
            final(scalars).data@,
            final(properties).data@,
            nb_scalars as int,
            nb_properties as int,
            e,
        ) == body_bytes(
            old(streamlines)@,
            old(scalars).data@,
            old(properties).data@,
            nb_scalars as int,
            nb_properties as int,
            e,
        ) + record_bytes(item.0@, item.1.data@, item.2@, nb_scalars as int, e),
{
    let ghost s = nb_scalars as int;
    let ghost p = nb_properties as int;
    let (points, item_scalars, item_properties) = item;
    let ghost old_streamlines = streamlines@;
    let ghost n = points@.len() as int;
    let ghost new_points = points@;
    let mut points = points;
    proof {
        lemma_body_bytes_push(
            old_streamlines,
            scalars.data@,
            properties.data@,
            points@,
            item_scalars.data@,
            item_properties@,
            s,
            p,
            e,
        );
    }
    streamlines.data.append(&mut points);
    streamlines.offsets.push(streamlines.data.len());
    proof {
        assert(streamlines@ =~~= old_streamlines.push(new_points));
        assert(streamlines@.drop_last() =~= old_streamlines);
        assert(streamlines@.last() == new_points);
        assert(total_scalars(streamlines@, s) == total_scalars(old_streamlines, s) + n * s);
        assert forall|i: int| 0 <= i < streamlines@.len() implies (#[trigger] streamlines@[i]).len()
            <= i32::MAX by {
            if i < old_streamlines.len() {
                assert(streamlines@[i] == old_streamlines[i]);
            }
        }
        assert((old_streamlines.len() + 1) * p == old_streamlines.len() * p + p)
            by (nonlinear_arith);
        assert(scalars.pending() =~= Seq::<u32>::empty());
        assert(properties.pending() =~= Seq::<u32>::empty());
        assert(Seq::<u32>::empty() + item_scalars.data@ =~= item_scalars.data@);
        assert(Seq::<u32>::empty() + item_properties@ =~= item_properties@);
    }
    scalars.extend_from_slice(item_scalars.data.as_slice());
    properties.extend_from_slice(item_properties.as_slice());
    proof {
        let k = streamlines@.len() as int;
        let widths = scalar_widths(streamlines@, s);
        let old_widths = scalar_widths(old_streamlines, s);
        assert(widths[k - 1] == n * s);
        assert(scalars.data@.take(scalars.data@.len() - widths[k - 1]) =~= old(scalars).data@);
        assert(scalars.data@.skip(scalars.data@.len() - widths[k - 1]) =~= item_scalars.data@);
        lemma_committed_widths(old(scalars).data@, widths, old_widths, k - 1);
        let even = property_widths(streamlines@, p);
        let old_even = property_widths(old_streamlines, p);
        assert(even[k - 1] == p);
        assert(properties.data@.take(properties.data@.len() - even[k - 1]) =~= old(
            properties,
        ).data@);
        assert(properties.data@.skip(properties.data@.len() - even[k - 1]) =~= item_properties@);
        lemma_committed_widths(old(properties).data@, even, old_even, k - 1);
    }
}

/// Reads the streamlines of a file that is held in memory, one by one or
/// all at once, from the end of the header on.
pub struct Reader<'a> {
    bytes: &'a [u8],
    position: usize,
    endianness: Endianness,
    header: Header,
    raw: bool,
    voxel_space: bool,
}

impl<'a> Reader<'a> {
    /// The bytes of the file.
    pub closed spec fn bytes(&self) -> Seq<u8> {
        self.bytes@
    }

    /// Where the next streamline starts.
    pub closed spec fn position(&self) -> int {
        self.position as int
    }

    /// The byte order of the file.
    pub closed spec fn endianness(&self) -> Endianness {
        self.endianness
    }

    /// The points are handed out as they lie in the file.
    pub closed spec fn is_raw(&self) -> bool {
        self.raw
    }

    /// The points are handed out in voxel space.
    pub closed spec fn is_voxel_space(&self) -> bool {
        self.voxel_space
    }

    /// The header of the file.
    pub closed spec fn header(&self) -> Header {
        self.header
    }

    /// The position lies inside the file.
    pub closed spec fn wf(&self) -> bool {
        self.position <= self.bytes@.len()
    }

    /// Number of scalars of each point.
    pub open spec fn nb_scalars(&self) -> int {
        self.header().scalars_name@.len() as int
    }

    /// Number of properties of each streamline.
    pub open spec fn nb_properties(&self) -> int {
        self.header().properties_name@.len() as int
    }

    /// Nothing but the position, and perhaps the header, differs.
    pub open spec fn same_file(&self, other: &Reader<'a>) -> bool {
        &&& self.bytes() == other.bytes()
        &&& self.endianness() == other.endianness()
        &&& self.is_raw() == other.is_raw()
        &&& self.is_voxel_space() == other.is_voxel_space()
    }

    /// A reader of the file `bytes`, whose header `header` was read in the
    /// byte order `endianness`. It stands at the first streamline.
    pub fn new(bytes: &'a [u8], header: Header, endianness: Endianness) -> (r: Reader<'a>)
        requires
            bytes@.len() >= HEADER_SIZE,
        ensures
            r.wf(),
            r.bytes() == bytes@,
            r.position() == HEADER_SIZE,
            r.endianness() == endianness,
            r.header() == header,
            !r.is_raw(),
            !r.is_voxel_space(),
    {
        Reader { bytes, position: HEADER_SIZE, endianness, header, raw: false, voxel_space: false }
    }

    /// From now on the points are to be handed out in voxel space: the
    /// affine of the header becomes the scaling by `scale`, the bits of the
    /// reciprocal of the voxel size, without a translation. Fails after `raw`.
    pub fn to_voxel_space(self, scale: [u32; 3]) -> (res: Result<Reader<'a>, ModeConflict>)
        ensures
            res.is_ok() <==> !self.is_raw(),
            res matches Ok(r) ==> {
                &&& r.is_voxel_space()
                &&& !r.is_raw()
                &&& r.wf() == self.wf()
                &&& r.bytes() == self.bytes()
                &&& r.position() == self.position()
                &&& r.endianness() == self.endianness()
                &&& r.header().affine_to_rasmm@ == seq![
                    scale@[0],
                    0u32,
                    0u32,
                    0u32,
                    scale@[1],
                    0u32,
                    0u32,
                    0u32,
                    scale@[2],
                ]
                &&& r.header().translation@ == seq![0u32, 0u32, 0u32]
                &&& r.header().c_header == self.header().c_header
                &&& r.header().affine4_to_rasmm == self.header().affine4_to_rasmm
                &&& r.header().nb_streamlines == self.header().nb_streamlines
                &&& r.header().scalars_name == self.header().scalars_name
                &&& r.header().properties_name == self.header().properties_name
            },
    {
        if self.raw {
            return Err(ModeConflict);
        }
        let mut r = self;
        r.voxel_space = true;
        r.header.affine_to_rasmm = [scale[0], 0, 0, 0, scale[1], 0, 0, 0, scale[2]];
        r.header.translation = [0, 0, 0];
        proof {
            assert(r.header.affine_to_rasmm@ =~= seq![
                scale@[0],
                0u32,
                0u32,
                0u32,
                scale@[1],
                0u32,
                0u32,
                0u32,
                scale@[2],
            ]);
            assert(r.header.translation@ =~= seq![0u32, 0u32, 0u32]);
        }
        Ok(r)
    }

    /// From now on the points are to be handed out as they lie in the
    /// file. Fails after `to_voxel_space`.
    pub fn raw(self) -> (res: Result<Reader<'a>, ModeConflict>)
        ensures
            res.is_ok() <==> !self.is_voxel_space(),
            res matches Ok(r) ==> r.is_raw() && !r.is_voxel_space() && r.wf() == self.wf()
                && r.bytes() == self.bytes() && r.position() == self.position() && r.endianness()
                == self.endianness() && r.header() == self.header(),
    {
        if self.voxel_space {
            return Err(ModeConflict);
        }
        let mut r = self;
        r.raw = true;
        Ok(r)
    }

    /// The header of the file.
    pub fn get_header(&self) -> (h: &Header)
        ensures
            *h == self.header(),
    {
        &self.header
    }

    /// Whether the affine of the header is to be applied to the points
    /// read: it is unless the reading is raw.
    pub fn transforms_points(&self) -> (b: bool)
        ensures
            b == !self.is_raw(),
    {
        !self.raw
    }

    /// Reads the next streamline with its scalars and its properties, as
    /// it lies in the file, and moves on to the one after it. At the end of
    /// the file, and on a failure, the reader stays where it is.
    pub fn next(&mut self) -> (res: Result<Option<TractogramItem>, ReadError>)
        requires
            old(self).wf(),
        ensures
            final(self).wf(),
            old(self).same_file(final(self)),
            final(self).header() == old(self).header(),
            exists|step: Result<Option<(TractogramItem, usize)>, ReadError>|
                is_step(
                    old(self).bytes(),
                    old(self).position(),
                    old(self).endianness(),
                    old(self).nb_scalars(),
                    old(self).nb_properties(),
                    step,
                ) && res == without_place(step) && final(self).position() == place_after(
                    step,
                    old(self).position(),
                ),
    {
        let step = next_item(
            self.bytes,
            self.position,
            self.endianness,
            self.header.scalars_name.len(),
            self.header.properties_name.len(),
        );
        let ghost witness = step;
        let res = match step {
            Ok(Some((item, after))) => {
                self.position = after;
                Ok(Some(item))
            },
            Ok(None) => Ok(None),
            Err(e) => Err(e),
        };
        assert(is_step(
            old(self).bytes(),
            old(self).position(),
            old(self).endianness(),
            old(self).nb_scalars(),
            old(self).nb_properties(),
            witness,
        ) && res == without_place(witness) && self.position() == place_after(
            witness,
            old(self).position(),
        ));
        res
    }

    /// Reads all the streamlines that are left, with their scalars and
    /// their properties, as they lie in the file. After that the reader
    /// stands at the end of the file; on a failure it stays where it is.
    pub fn tractogram(&mut self) -> (res: Result<Tractogram<Point, u32>, ReadError>)
        requires
            old(self).wf(),
        ensures
            final(self).wf(),
            old(self).same_file(final(self)),
            final(self).header() == old(self).header(),
            is_read(
                old(self).bytes(),
                old(self).position(),
                old(self).endianness(),
                old(self).nb_scalars(),
                old(self).nb_properties(),
                res,
            ),
            res.is_ok() ==> final(self).position() == old(self).bytes().len(),
            res.is_err() ==> final(self).position() == old(self).position(),
    {
        let res = read_tractogram(
            self.bytes,
            self.position,
            self.endianness,
            self.header.scalars_name.len(),
            self.header.properties_name.len(),
        );
        if res.is_ok() {
            self.position = self.bytes.len();
        }
        res
    }

    /// Reads the points of all the streamlines that are left, as they lie
    /// in the file, and passes over their scalars and their properties.
    /// After that the reader stands at the end of the file; on a failure
    /// it stays where it is.
    pub fn streamlines(&mut self) -> (res: Result<Streamlines, ReadError>)
        requires
            old(self).wf(),
        ensures
            final(self).wf(),
            old(self).same_file(final(self)),
            final(self).header() == old(self).header(),
            exists|full: Result<Tractogram<Point, u32>, ReadError>|
                is_read(
                    old(self).bytes(),
                    old(self).position(),
                    old(self).endianness(),
                    old(self).nb_scalars(),
                    old(self).nb_properties(),
                    full,
                ) && res == streamlines_only(full),
            res.is_ok() ==> final(self).position() == old(self).bytes().len(),
            res.is_err() ==> final(self).position() == old(self).position(),
    {
        let res = read_points(
            self.bytes,
            self.position,
            self.endianness,
            self.header.scalars_name.len(),
            self.header.properties_name.len(),
        );
        if res.is_ok() {
            self.position = self.bytes.len();
        }
        res
    }

    /// A walk over the points of the streamlines that are left.
    pub fn into_streamlines_iter(self) -> (it: StreamlinesIter<'a>)
        ensures
            it.reader() == self,
    {
        StreamlinesIter { reader: self }
    }
}

/// A step without the place of the next streamline.
pub open spec fn without_place(
    step: Result<Option<(TractogramItem, usize)>, ReadError>,
) -> Result<Option<TractogramItem>, ReadError> {
    match step {
        Ok(Some((item, after))) => Ok(Some(item)),
        Ok(None) => Ok(None),
        Err(e) => Err(e),
    }
}

/// The place at which a reader stands after a step from `position`.
pub open spec fn place_after(
    step: Result<Option<(TractogramItem, usize)>, ReadError>,
    position: int,
) -> int {
    match step {
        Ok(Some((item, after))) => after as int,
        _ => position,
    }
}

/// A walk over the points of the streamlines of a file, which passes over
/// the scalars and the properties.
pub struct StreamlinesIter<'a> {
    reader: Reader<'a>,
}

impl<'a> StreamlinesIter<'a> {
    /// The reader that is walked with.
    pub closed spec fn reader(&self) -> Reader<'a> {
        self.reader
    }

    /// Reads the points of the next streamline, as they lie in the file:
    /// those of the streamline that the reader would read next.
    pub fn next(&mut self) -> (res: Result<Option<Points>, ReadError>)
        requires
            old(self).reader().wf(),
        ensures
            final(self).reader().wf(),
            old(self).reader().same_file(&final(self).reader()),
            final(self).reader().header() == old(self).reader().header(),
            exists|step: Result<Option<(TractogramItem, usize)>, ReadError>|
                is_step(
                    old(self).reader().bytes(),
                    old(self).reader().position(),
                    old(self).reader().endianness(),
                    old(self).reader().nb_scalars(),
                    old(self).reader().nb_properties(),
                    step,
                ) && res == points_of(step) && final(self).reader().position() == place_after(
                    step,
                    old(self).reader().position(),
                ),
    {
        let step = next_item(
            self.reader.bytes,
            self.reader.position,
            self.reader.endianness,
            self.reader.header.scalars_name.len(),
            self.reader.header.properties_name.len(),
        );
        let ghost witness = step;
        let res = match step {
            Ok(Some((item, after))) => {
                self.reader.position = after;
                Ok(Some(item.0))
            },
            Ok(None) => Ok(None),
            Err(e) => Err(e),
        };
        assert(is_step(
            old(self).reader().bytes(),
            old(self).reader().position(),
            old(self).reader().endianness(),
            old(self).reader().nb_scalars(),
            old(self).reader().nb_properties(),
            witness,
        ) && res == points_of(witness) && self.reader().position() == place_after(
            witness,
            old(self).reader().position(),
        ));
        res
    }
}

/// The points of a step, without the place of the next streamline.
pub open spec fn points_of(
    step: Result<Option<(TractogramItem, usize)>, ReadError>,
) -> Result<Option<Points>, ReadError> {
    match step {
        Ok(Some((item, after))) => Ok(Some(item.0)),
        Ok(None) => Ok(None),
        Err(e) => Err(e),
    }
}

/// Bytes that end with the bytes of streamlines are well framed from where
/// these start, up to the end.
pub proof fn lemma_written_is_well_framed(
    bytes: Seq<u8>,
    at: int,
    e: Endianness,
    s: int,
    p: int,
    streamlines: Seq<Seq<Point>>,
    scalars: Seq<u32>,
    properties: Seq<u32>,
)
    requires
        0 <= at <= bytes.len(),
        fits(streamlines, scalars, properties, s, p),
        bytes.subrange(at, bytes.len() as int) == body_bytes(
            streamlines,
            scalars,
            properties,
            s,
            p,
            e,
        ),
    ensures
        well_framed(bytes, at, e, s, p),
        frame_end(bytes, at, e, s, p) == bytes.len(),
    decreases streamlines.len(),
{
    let body = body_bytes(streamlines, scalars, properties, s, p, e);
    if streamlines.len() > 0 {
        let n0 = streamlines[0].len() as int;
        lemma_body_bytes_front(streamlines, scalars, properties, s, p, e);
        let first = record_bytes(streamlines[0], scalars.take(n0 * s), properties.take(p), s, e);
        lemma_record_starts_with_count(
            streamlines[0],
            scalars.take(n0 * s),
            properties.take(p),
            s,
            e,
        );
        lemma_record_len(streamlines[0], scalars.take(n0 * s), properties.take(p), s, e);
        lemma_u32_of_bytes(n0, e);
        assert(bytes.subrange(at, at + 4) =~= first.subrange(0, 4)) by {
            assert(body.subrange(0, 4) =~= first.subrange(0, 4));
            assert(bytes.subrange(at, at + 4) =~= body.subrange(0, 4));
        }
        assert(count_at(bytes, at, e) == n0);
        let next = at + first.len();
        assert(bytes.subrange(next, bytes.len() as int) =~= body.subrange(
            first.len() as int,
            body.len() as int,
        ));
        assert(body.subrange(first.len() as int, body.len() as int) =~= body_bytes(
            streamlines.drop_first(),
            scalars.skip(n0 * s),
            properties.skip(p),
            s,
            p,
            e,
        ));
        lemma_written_is_well_framed(
            bytes,
            next,
            e,
            s,
            p,
            streamlines.drop_first(),
            scalars.skip(n0 * s),
            properties.skip(p),
        );
        assert(properties.take(p).len() == p);
        assert(next == at + 4 + 4 * record_words(n0, s, p));
        assert(body.len() == bytes.len() - at);
        assert(next <= bytes.len());
        assert(at + 4 <= bytes.len());
    } else {
        assert(body.len() == 0);
        assert(bytes.subrange(at, bytes.len() as int).len() == bytes.len() - at);
        assert(at == bytes.len());
    }
}

/// Streamlines that were written are read back bit for bit. Where the bytes
/// from `at` on are those of streamlines with their scalars and properties,
/// reading from `at` succeeds and gives these streamlines, these scalars
/// and these properties.
pub proof fn lemma_read_back(
    bytes: Seq<u8>,
    at: int,
    e: Endianness,
    s: int,
    p: int,
    streamlines: Seq<Seq<Point>>,
    scalars: Seq<u32>,
    properties: Seq<u32>,
    res: Result<Tractogram<Point, u32>, ReadError>,
)
    requires
        0 <= at <= bytes.len(),
        fits(streamlines, scalars, properties, s, p),
        bytes.subrange(at, bytes.len() as int) == body_bytes(
            streamlines,
            scalars,
            properties,
            s,
            p,
            e,
        ),
        is_read(bytes, at, e, s, p, res),
    ensures
        res matches Ok(t) && t.streamlines@ == streamlines && t.scalars.data@ == scalars
            && t.properties.data@ == properties,
{
    lemma_written_is_well_framed(bytes, at, e, s, p, streamlines, scalars, properties);
    let t = res.unwrap();
    lemma_body_bytes_injective(
        streamlines,
        scalars,
        properties,
        t.streamlines@,
        t.scalars.data@,
        t.properties.data@,
        s,
        p,
        e,
    );
}

/// Only the widths of the first `k` streamlines count for what they commit.
pub proof fn lemma_committed_widths(values: Seq<u32>, widths: Seq<int>, other: Seq<int>, k: int)
    requires
        0 <= k <= widths.len(),
        k <= other.len(),
        forall|i: int| 0 <= i < k ==> widths[i] == other[i],
    ensures
        committed(values, widths, k) == committed(values, other, k),
    decreases k,
{
    if k > 0 {
        lemma_committed_widths(values.take(values.len() - widths[k - 1]), widths, other, k - 1);
    }
}

} // verus!
