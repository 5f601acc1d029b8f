//! Encoding of a header and of the streamlines that follow it.

use crate::bytes::{put_i32, put_u32s, unsigned32, u32_bytes, u32s_bytes, Endianness};
use crate::cheader::{default_geometry, default_rest, patch_n_count, CHeader, HEADER_SIZE, N_COUNT_OFFSET};
use crate::header::Header;
use crate::record::{
    interleaved, lemma_u32s_bytes_concat, record_bytes, ModeConflict, WriteError,
};
use crate::tractogram::{Point, Tractogram};
use vstd::prelude::*;
use vstd::slice::slice_subrange;

verus! {

/// The scalars that are written for a streamline: none where the file has
/// no scalar channel.
pub open spec fn used_scalars(scalars: Seq<u32>, s: int) -> Seq<u32> {
    if s == 0 {
        Seq::empty()
    } else {
        scalars
    }
}

/// Why a streamline of `n` points with `scalars_len` scalars is refused by
/// a writer for `s` scalar channels that has written `count` streamlines,
/// if it is.
pub open spec fn item_refusal(count: int, n: int, scalars_len: int, s: int) -> Option<WriteError> {
    if n > i32::MAX {
        Some(WriteError::TooManyPoints)
    } else if s > 0 && scalars_len != n * s {
        Some(WriteError::ScalarMismatch)
    } else if count >= i32::MAX {
        Some(WriteError::TooManyStreamlines)
    } else {
        None
    }
}

/// Why the first of the streamlines of `t` from `k` on that cannot be
/// written is refused, if there is one.
pub open spec fn tractogram_refusal(t: Tractogram<Point, u32>, count: int, s: int, k: int) -> Option<
    WriteError,
>
    decreases t.streamlines@.len() - k,
{
    if k < 0 || k >= t.streamlines@.len() {
        None
    } else if !t.has_item(k) {
        Some(WriteError::MissingChannels)
    } else if item_refusal(count + k, t.streamlines@[k].len() as int, t.scalars_of(k).len() as int, s)
        is Some {
        item_refusal(count + k, t.streamlines@[k].len() as int, t.scalars_of(k).len() as int, s)
    } else {
        tractogram_refusal(t, count, s, k + 1)
    }
}

/// The bytes of the first `k` streamlines of `t` with their scalars and
/// their properties, lowest byte first.
pub open spec fn items_bytes(t: Tractogram<Point, u32>, s: int, k: int) -> Seq<u8>
    decreases k,
{
    if k <= 0 {
        Seq::empty()
    } else {
        items_bytes(t, s, k - 1) + record_bytes(
            t.streamlines@[k - 1],
            used_scalars(t.scalars_of(k - 1), s),
            t.properties_of(k - 1),
            s,
            Endianness::Little,
        )
    }
}

/// What a file is written through: it counts the streamlines, so that
/// their number can be set in the header once the last one is written.
pub struct Writer {
    header: CHeader,
    nb_scalars: usize,
    real_n_count: i32,
    raw: bool,
    voxel_space: bool,
}

fn check_item(count: i32, nb_points: usize, nb_values: usize, nb_scalars: usize) -> (res: Option<
    WriteError,
>)
    ensures
        res == item_refusal(count as int, nb_points as int, nb_values as int, nb_scalars as int),
{
    if nb_points > 0x7fff_ffff {
        return Some(WriteError::TooManyPoints);
    }
    if nb_scalars > 0 {
        let fits = match nb_points.checked_mul(nb_scalars) {
            Some(needed) => needed == nb_values,
            None => false,
        };
        if !fits {
            return Some(WriteError::ScalarMismatch);
        }
    }
    if count == 0x7fff_ffff {
        return Some(WriteError::TooManyStreamlines);
    }
    None
}

/// Appends a streamline that is known to fit.
fn put_record(
    out: &mut Vec<u8>,
    points: &[Point],
    scalars: &[u32],
    properties: &[u32],
    nb_scalars: usize,
)
    requires
        points@.len() <= i32::MAX,
        scalars@.len() == points@.len() * nb_scalars,
    ensures
        final(out)@ == old(out)@ + record_bytes(
            points@,
            scalars@,
            properties@,
            nb_scalars as int,
            Endianness::Little,
        ),
{
    let e = Endianness::Little;
    let ghost s = nb_scalars as int;
    let n = points.len();
    let total = scalars.len();
    put_i32(out, n as i32);
    let ghost base = out@;
    let mut k: usize = 0;
    let mut off: usize = 0;
    proof {
        assert(points@.take(0) =~= Seq::<Point>::empty());
        assert(0 * s == 0) by (nonlinear_arith);
        assert(base + u32s_bytes(Seq::<u32>::empty(), e) =~= base);
    }
    while k < n
        invariant
            e == Endianness::Little,
            s == nb_scalars,
            n == points@.len(),
            total == scalars@.len(),
            total == n * s,
            0 <= k <= n,
            off == k * s,
            off <= total,
            out@ == base + u32s_bytes(
                interleaved(points@.take(k as int), scalars@.take(off as int), s),
                e,
            ),
        decreases n - k,
    {
        proof {
            assert((k + 1) * s == k * s + s) by (nonlinear_arith);
            assert((k + 1) * s <= n * s) by (nonlinear_arith)
                requires
                    k + 1 <= n,
                    s >= 0,
            ;
        }
        let ghost before = interleaved(points@.take(k as int), scalars@.take(off as int), s);
        put_u32s(out, points[k].as_slice());
        let chunk = slice_subrange(scalars, off, off + nb_scalars);
        put_u32s(out, chunk);
        proof {
            let more_points = points@.take(k as int + 1);
            let more_scalars = scalars@.take(off + s);
            assert(more_points.drop_last() =~= points@.take(k as int));
            assert(more_points.last() == points@[k as int]);
            assert(more_scalars.take(more_scalars.len() - s) =~= scalars@.take(off as int));
            assert(more_scalars.subrange(more_scalars.len() - s, more_scalars.len() as int)
                =~= chunk@);
            assert(interleaved(more_points, more_scalars, s) == before + points@[k as int]@
                + chunk@);
            lemma_u32s_bytes_concat(before, points@[k as int]@, e);
            lemma_u32s_bytes_concat(before + points@[k as int]@, chunk@, e);
            assert(out@ =~= base + u32s_bytes(interleaved(more_points, more_scalars, s), e));
        }
        off = off + nb_scalars;
        k = k + 1;
    }
    proof {
        assert(points@.take(n as int) =~= points@);
        assert(scalars@.take(total as int) =~= scalars@);
    }
    put_u32s(out, properties);
    proof {
        reveal(record_bytes);
        assert(out@ =~= old(out)@ + record_bytes(points@, scalars@, properties@, s, e));
    }
}

impl Writer {
    /// The header that was written.
    pub closed spec fn header(&self) -> CHeader {
        self.header
    }

    /// Number of scalars that each point has in the file.
    pub closed spec fn spec_nb_scalars(&self) -> usize {
        self.nb_scalars
    }

    /// Number of streamlines written.
    pub closed spec fn spec_n_count(&self) -> i32 {
        self.real_n_count
    }

    /// The points are written as they are given.
    pub closed spec fn is_raw(&self) -> bool {
        self.raw
    }

    /// The points given are in voxel space.
    pub closed spec fn is_voxel_space(&self) -> bool {
        self.voxel_space
    }

    /// Starts a file: appends to `out` the header of `reference`, or that
    /// of an empty file where there is none, and counts from zero.
    pub fn new(reference: Option<&Header>, out: &mut Vec<u8>) -> (w: Writer)
        ensures
            final(out)@ == old(out)@ + w.header().encode(Endianness::Little),
            final(out)@.len() == old(out)@.len() + HEADER_SIZE,
            reference matches Some(h) ==> w.header() == h.c_header && w.spec_nb_scalars()
                == h.scalars_name@.len(),
            reference is None ==> default_geometry(w.header()) && default_rest(w.header())
                && w.spec_nb_scalars() == 0,
            w.spec_n_count() == 0,
            !w.is_raw(),
            !w.is_voxel_space(),
    {
        let (header, nb_scalars) = match reference {
            Some(h) => (h.c_header, h.scalars_name.len()),
            None => (CHeader::default(), 0),
        };
        header.write(out);
        Writer { header, nb_scalars, real_n_count: 0, raw: false, voxel_space: false }
    }

    /// Number of scalars that each point has in the file.
    pub fn nb_scalars(&self) -> (n: usize)
        ensures
            n == self.spec_nb_scalars(),
    {
        self.nb_scalars
    }

    /// Number of streamlines written so far.
    pub fn n_count(&self) -> (n: i32)
        ensures
            n == self.spec_n_count(),
    {
        self.real_n_count
    }

    /// Whether the points are to be transformed before they are written:
    /// they are unless the output is raw.
    pub fn transforms_points(&self) -> (b: bool)
        ensures
            b == !self.is_raw(),
    {
        !self.raw
    }

    /// From now on the points given are in voxel space. Fails after `raw`.
    pub fn from_voxel_space(self) -> (res: Result<Writer, ModeConflict>)
        ensures
            res.is_ok() <==> !self.is_raw(),
            res matches Ok(w) ==> w.is_voxel_space() && !w.is_raw() && w.header() == self.header()
                && w.spec_nb_scalars() == self.spec_nb_scalars() && w.spec_n_count()
                == self.spec_n_count(),
    {
        if self.raw {
            return Err(ModeConflict);
        }
        let mut w = self;
        w.voxel_space = true;
        Ok(w)
    }

    /// From now on the points are written as they are given. Fails after
    /// `from_voxel_space`.
    pub fn raw(self) -> (res: Result<Writer, ModeConflict>)
        ensures
            res.is_ok() <==> !self.is_voxel_space(),
            res matches Ok(w) ==> w.is_raw() && !w.is_voxel_space() && w.header() == self.header()
                && w.spec_nb_scalars() == self.spec_nb_scalars() && w.spec_n_count()
                == self.spec_n_count(),
    {
        if self.voxel_space {
            return Err(ModeConflict);
        }
        let mut w = self;
        w.raw = true;
        Ok(w)
    }

    /// This writer after one more streamline.
    pub open spec fn counted(self, after: Writer) -> bool {
        &&& after.header() == self.header()
        &&& after.spec_nb_scalars() == self.spec_nb_scalars()
        &&& after.is_raw() == self.is_raw()
        &&& after.is_voxel_space() == self.is_voxel_space()
    }

    /// Appends one streamline with its scalars and its properties to `out`
    /// and counts it. Where the file has no scalar channel, `scalars` is
    /// passed over. A streamline that is refused leaves everything as it was.
    pub fn write_item(
        &mut self,
        points: &[Point],
        scalars: &[u32],
        properties: &[u32],
        out: &mut Vec<u8>,
    ) -> (res: Result<(), WriteError>)
        ensures
            old(self).counted(*final(self)),
            res.is_ok() <==> item_refusal(
                old(self).spec_n_count() as int,
                points@.len() as int,
                scalars@.len() as int,
                old(self).spec_nb_scalars() as int,
            ) is None,
            res matches Err(e) ==> item_refusal(
                old(self).spec_n_count() as int,
                points@.len() as int,
                scalars@.len() as int,
                old(self).spec_nb_scalars() as int,
            ) == Some(e) && final(out)@ == old(out)@ && final(self).spec_n_count() == old(self).spec_n_count(),
            res.is_ok() ==> final(self).spec_n_count() == old(self).spec_n_count() + 1 && final(out)@ == old(out)@ + record_bytes(
                points@,
                used_scalars(scalars@, old(self).spec_nb_scalars() as int),
                properties@,
                old(self).spec_nb_scalars() as int,
                Endianness::Little,
            ),
    {
        match check_item(self.real_n_count, points.len(), scalars.len(), self.nb_scalars) {
            Some(e) => {
                return Err(e);
            },
            None => {},
        }
        if self.nb_scalars == 0 {
            let none = slice_subrange(scalars, 0, 0);
            proof {
                assert(points@.len() * 0 == 0) by (nonlinear_arith);
                assert(none@ =~= used_scalars(scalars@, 0));
            }
            put_record(out, points, none, properties, 0);
        } else {
            put_record(out, points, scalars, properties, self.nb_scalars);
        }
        self.real_n_count = self.real_n_count + 1;
        Ok(())
    }

    /// Appends one streamline without scalars or properties to `out` and
    /// counts it. A streamline that is refused leaves everything as it was.
    pub fn write_points(&mut self, points: &[Point], out: &mut Vec<u8>) -> (res: Result<
        (),
        WriteError,
    >)
        ensures
            old(self).counted(*final(self)),
            res.is_ok() <==> item_refusal(
                old(self).spec_n_count() as int,
                points@.len() as int,
                0,
                0,
            ) is None,
            res matches Err(e) ==> item_refusal(
                old(self).spec_n_count() as int,
                points@.len() as int,
                0,
                0,
            ) == Some(e) && final(out)@ == old(out)@ && final(self).spec_n_count() == old(self).spec_n_count(),
            res.is_ok() ==> final(self).spec_n_count() == old(self).spec_n_count() + 1 && final(out)@ == old(out)@ + record_bytes(
                points@,
                Seq::<u32>::empty(),
                Seq::<u32>::empty(),
                0,
                Endianness::Little,
            ),
    {
        match check_item(self.real_n_count, points.len(), 0, 0) {
            Some(e) => {
                return Err(e);
            },
            None => {},
        }
        let none: Vec<u32> = Vec::new();
        proof {
            assert(points@.len() * 0 == 0) by (nonlinear_arith);
        }
        put_record(out, points, none.as_slice(), none.as_slice(), 0);
        self.real_n_count = self.real_n_count + 1;
        Ok(())
    }

    /// Appends every streamline of `tractogram` with its scalars and its
    /// properties to `out`, in order, and counts them. Where one of them
    /// cannot be written, fails as the first such one is refused and leaves
    /// everything as it was.
    pub fn write_tractogram(&mut self, tractogram: &Tractogram<Point, u32>, out: &mut Vec<u8>) -> (res:
        Result<(), WriteError>)
        requires
            tractogram.wf(),
        ensures
            old(self).counted(*final(self)),
            res.is_ok() <==> tractogram_refusal(
                *tractogram,
                old(self).spec_n_count() as int,
                old(self).spec_nb_scalars() as int,
                0,
            ) is None,
            res matches Err(e) ==> tractogram_refusal(
                *tractogram,
                old(self).spec_n_count() as int,
                old(self).spec_nb_scalars() as int,
                0,
            ) == Some(e) && final(out)@ == old(out)@ && final(self).spec_n_count() == old(self).spec_n_count(),
            res.is_ok() ==> final(self).spec_n_count() == old(self).spec_n_count()
                + tractogram.streamlines@.len() && final(out)@ == old(out)@ + items_bytes(
                *tractogram,
                old(self).spec_nb_scalars() as int,
                tractogram.streamlines@.len() as int,
            ),
    {
        let ghost count = self.real_n_count as int;
        let ghost s = self.nb_scalars as int;
        let n = tractogram.streamlines.len();
        let mut reached: i32 = self.real_n_count;
        let mut k: usize = 0;
        while k < n
            invariant
                tractogram.wf(),
                n == tractogram.streamlines@.len(),
                0 <= k <= n,
                count == self.real_n_count,
                s == self.nb_scalars,
                reached == count + k,
                tractogram_refusal(*tractogram, count, s, 0) == tractogram_refusal(
                    *tractogram,
                    count,
                    s,
                    k as int,
                ),
            decreases n - k,
        {
            match tractogram.get(k) {
                None => {
                    return Err(WriteError::MissingChannels);
                },
                Some(item) => {
                    match check_item(reached, item.0.len(), item.1.len(), self.nb_scalars) {
                        Some(e) => {
                            return Err(e);
                        },
                        None => {},
                    }
                },
            }
            reached = reached + 1;
            k = k + 1;
        }
        let mut k: usize = 0;
        proof {
            assert(out@ + items_bytes(*tractogram, s, 0) =~= out@);
        }
        while k < n
            invariant
                tractogram.wf(),
                n == tractogram.streamlines@.len(),
                0 <= k <= n,
                old(self).counted(*self),
                count == old(self).spec_n_count(),
                s == self.nb_scalars,
                self.real_n_count == count + k,
                tractogram_refusal(*tractogram, count, s, k as int) is None,
                out@ == old(out)@ + items_bytes(*tractogram, s, k as int),
            decreases n - k,
        {
            let item = tractogram.item(k);
            match self.write_item(item.0, item.1, item.2, out) {
                Ok(()) => {},
                Err(e) => {
                    return Err(e);
                },
            }
            proof {
                assert(out@ =~= old(out)@ + items_bytes(*tractogram, s, k as int + 1));
            }
            k = k + 1;
        }
        Ok(())
    }

    /// Sets the number of streamlines written in the header at the start
    /// of `bytes`, the file written so far.
    pub fn finish(&self, bytes: &mut Vec<u8>)
        requires
            old(bytes)@.len() >= HEADER_SIZE,
        ensures
            final(bytes)@ == old(bytes)@.subrange(0, N_COUNT_OFFSET as int) + u32_bytes(
                unsigned32(self.spec_n_count() as int),
                Endianness::Little,
            ) + old(bytes)@.subrange(N_COUNT_OFFSET + 4, old(bytes)@.len() as int),
    {
        patch_n_count(bytes, self.real_n_count)
    }
}

} // verus!
