//! Axis codes and orientations: which anatomical axis each array axis follows,
//! and in which direction.

use vstd::prelude::*;
use vstd::string::*;

verus! {

/// Whether an axis is followed in its own direction or against it.
#[derive(Clone, Copy, Debug, PartialEq, Eq, Structural)]
pub enum Direction {
    Normal,
    Reversed,
}

impl Direction {
    /// `1` for `Normal`, `-1` for `Reversed`.
    pub open spec fn spec_sign(self) -> int {
        if self == Direction::Normal {
            1
        } else {
            -1
        }
    }

    /// `1` for `Normal`, `-1` for `Reversed`.
    pub fn sign(&self) -> (s: i32)
        ensures
            s == self.spec_sign(),
    {
        match self {
            Direction::Normal => 1,
            Direction::Reversed => -1,
        }
    }
}

/// An output axis (0, 1 or 2) and the direction in which it is followed.
pub type Orientation = (usize, Direction);

/// One orientation for each of the three input axes.
pub type Orientations = [Orientation; 3];

/// Every axis is 0, 1 or 2.
pub open spec fn axes_in_range(o: Seq<Orientation>) -> bool {
    o[0].0 < 3 && o[1].0 < 3 && o[2].0 < 3
}

/// A signed permutation: every axis is 0, 1 or 2 and none is used twice.
pub open spec fn is_valid(o: Seq<Orientation>) -> bool {
    axes_in_range(o) && o[0].0 != o[1].0 && o[0].0 != o[2].0 && o[1].0 != o[2].0
}

/// The identity orientation, "RAS".
pub open spec fn identity() -> Seq<Orientation> {
    seq![(0usize, Direction::Normal), (1usize, Direction::Normal), (2usize, Direction::Normal)]
}

/// The letter of an orientation: R/L for axis 0, A/P for axis 1, S/I for the
/// last axis; the first letter of each pair stands for `Normal`.
pub open spec fn axis_letter(o: Orientation) -> char {
    if o.0 == 0 {
        if o.1 == Direction::Normal {
            'R'
        } else {
            'L'
        }
    } else if o.0 == 1 {
        if o.1 == Direction::Normal {
            'A'
        } else {
            'P'
        }
    } else {
        if o.1 == Direction::Normal {
            'S'
        } else {
            'I'
        }
    }
}

/// The orientation that a letter stands for, if it is one of R, L, A, P, S, I.
pub open spec fn letter_orientation(c: char) -> Option<Orientation> {
    if c == 'R' {
        Some((0usize, Direction::Normal))
    } else if c == 'L' {
        Some((0usize, Direction::Reversed))
    } else if c == 'A' {
        Some((1usize, Direction::Normal))
    } else if c == 'P' {
        Some((1usize, Direction::Reversed))
    } else if c == 'S' {
        Some((2usize, Direction::Normal))
    } else if c == 'I' {
        Some((2usize, Direction::Reversed))
    } else {
        None
    }
}

/// What `axcodes_to_orientations` gives for input axis `i`: the orientation
/// of the `i`-th letter, or axis 0 unreversed where there is no such letter.
pub open spec fn decoded_axis(axcodes: Seq<char>, i: int) -> Orientation {
    if i < axcodes.len() && letter_orientation(axcodes[i]).is_some() {
        letter_orientation(axcodes[i]).unwrap()
    } else {
        (0usize, Direction::Normal)
    }
}

/// `String::push`: appends `c` to `s` and leaves the rest of it as it was.
#[verifier::external_body]
fn push_char(s: &mut String, c: char)
    ensures
        final(s)@ == old(s)@.push(c),
{
    s.push(c)
}

fn letter_of(o: Orientation) -> (c: char)
    ensures
        c == axis_letter(o),
{
    let normal = match o.1 {
        Direction::Normal => true,
        Direction::Reversed => false,
    };
    if o.0 == 0 {
        if normal { 'R' } else { 'L' }
    } else if o.0 == 1 {
        if normal { 'A' } else { 'P' }
    } else {
        if normal { 'S' } else { 'I' }
    }
}

fn orientation_of(c: char) -> (o: Option<Orientation>)
    ensures
        o == letter_orientation(c),
{
    if c == 'R' {
        Some((0, Direction::Normal))
    } else if c == 'L' {
        Some((0, Direction::Reversed))
    } else if c == 'A' {
        Some((1, Direction::Normal))
    } else if c == 'P' {
        Some((1, Direction::Reversed))
    } else if c == 'S' {
        Some((2, Direction::Normal))
    } else if c == 'I' {
        Some((2, Direction::Reversed))
    } else {
        None
    }
}

/// The three-letter label of `orientations`; the identity gives "RAS".
pub fn orientations_to_axcodes(orientations: Orientations) -> (axcodes: String)
    requires
        axes_in_range(orientations@),
    ensures
        axcodes@ == seq![
            axis_letter(orientations[0]),
            axis_letter(orientations[1]),
            axis_letter(orientations[2]),
        ],
{
    let mut axcodes = String::new();
    push_char(&mut axcodes, letter_of(orientations[0]));
    push_char(&mut axcodes, letter_of(orientations[1]));
    push_char(&mut axcodes, letter_of(orientations[2]));
    proof {
        assert(axcodes@ =~= seq![
            axis_letter(orientations[0]),
            axis_letter(orientations[1]),
            axis_letter(orientations[2]),
        ]);
    }
    axcodes
}

/// The orientations that the first three letters of `axcodes` stand for;
/// "RAS" gives the identity. A letter outside R, L, A, P, S, I, or a missing
/// one, leaves axis 0 unreversed in its place.
pub fn axcodes_to_orientations(axcodes: &str) -> (orientations: Orientations)
    ensures
        orientations@ == decoded(axcodes@),
{
    let mut orientations: Orientations = [
        (0, Direction::Normal),
        (0, Direction::Normal),
        (0, Direction::Normal),
    ];
    let n = axcodes.unicode_len();
    let mut i: usize = 0;
    while i < 3 && i < n
        invariant
            n == axcodes@.len(),
            0 <= i <= 3,
            forall|k: int| 0 <= k < i ==> orientations[k] == decoded_axis(axcodes@, k),
            forall|k: int| i <= k < 3 ==> orientations[k] == (0usize, Direction::Normal),
        decreases 3 - i,
    {
        match orientation_of(axcodes.get_char(i)) {
            Some(o) => {
                orientations[i] = o;
            },
            None => {},
        }
        i = i + 1;
    }
    assert(orientations@ =~= decoded(axcodes@));
    orientations
}

/// The first input axis of `o` that follows output axis `axis`, or 3.
pub open spec fn first_with_axis(o: Seq<Orientation>, axis: usize) -> int {
    if o[0].0 == axis {
        0
    } else if o[1].0 == axis {
        1
    } else if o[2].0 == axis {
        2
    } else {
        3
    }
}

/// `Normal` where the two directions agree, `Reversed` where they differ.
pub open spec fn relative_direction(a: Direction, b: Direction) -> Direction {
    if a == b {
        Direction::Normal
    } else {
        Direction::Reversed
    }
}

/// Entry `s` of the transform from `start` to `end`, when only the first
/// `k` axes of `end` have been matched.
pub open spec fn transform_upto(
    start: Seq<Orientation>,
    end: Seq<Orientation>,
    k: int,
    s: int,
) -> Orientation
    decreases k,
{
    if k <= 0 {
        (0usize, Direction::Normal)
    } else if first_with_axis(start, end[k - 1].0) == s {
        ((k - 1) as usize, relative_direction(start[s].1, end[k - 1].1))
    } else {
        transform_upto(start, end, k - 1, s)
    }
}

/// Entry `s` of the transform from `start` to `end`: the last axis of `end`
/// whose output axis is first followed in `start` by axis `s`, and whether
/// the two directions differ.
pub open spec fn transform_entry(
    start: Seq<Orientation>,
    end: Seq<Orientation>,
    s: int,
) -> Orientation {
    transform_upto(start, end, 3, s)
}

/// The transform from `start` to `end`, entry by entry.
pub open spec fn transform(start: Seq<Orientation>, end: Seq<Orientation>) -> Seq<Orientation> {
    Seq::new(3, |s: int| transform_entry(start, end, s))
}

/// The orientations that the first three letters of `axcodes` stand for.
pub open spec fn decoded(axcodes: Seq<char>) -> Seq<Orientation> {
    Seq::new(3, |i: int| decoded_axis(axcodes, i))
}

fn find_axis(o: &Orientations, axis: usize) -> (s: usize)
    ensures
        s == first_with_axis(o@, axis),
{
    if o[0].0 == axis {
        0
    } else if o[1].0 == axis {
        1
    } else if o[2].0 == axis {
        2
    } else {
        3
    }
}

fn same_direction(a: Direction, b: Direction) -> (r: Direction)
    ensures
        r == relative_direction(a, b),
{
    match (a, b) {
        (Direction::Normal, Direction::Normal) => Direction::Normal,
        (Direction::Reversed, Direction::Reversed) => Direction::Normal,
        _ => Direction::Reversed,
    }
}

/// The orientation that transforms from `start_orientations` to
/// `end_orientations`.
pub fn orientations_transform(
    start_orientations: &Orientations,
    end_orientations: &Orientations,
) -> (result: Orientations)
    ensures
        result@ == transform(start_orientations@, end_orientations@),
{
    let mut result: Orientations = [
        (0, Direction::Normal),
        (0, Direction::Normal),
        (0, Direction::Normal),
    ];
    let mut e: usize = 0;
    while e < 3
        invariant
            0 <= e <= 3,
            forall|s: int|
                0 <= s < 3 ==> result[s] == transform_upto(
                    start_orientations@,
                    end_orientations@,
                    e as int,
                    s,
                ),
        decreases 3 - e,
    {
        let end = end_orientations[e];
        let s = find_axis(start_orientations, end.0);
        if s < 3 {
            let start = start_orientations[s];
            result[s] = (e, same_direction(start.1, end.1));
        }
        e = e + 1;
    }
    assert(result@ =~= transform(start_orientations@, end_orientations@));
    result
}

/// Transforming a valid orientation into itself maps every axis to itself,
/// unreversed.
pub proof fn lemma_transform_to_self_is_identity(o: Seq<Orientation>)
    requires
        o.len() == 3,
        is_valid(o),
    ensures
        transform(o, o) == identity(),
{
    reveal_with_fuel(transform_upto, 4);
    assert(transform(o, o) =~= identity());
}

/// The letters of orientations stand for these orientations again.
pub proof fn lemma_axcodes_round_trip(o: Seq<Orientation>)
    requires
        o.len() == 3,
        axes_in_range(o),
    ensures
        decoded(seq![axis_letter(o[0]), axis_letter(o[1]), axis_letter(o[2])]) == o,
{
    assert(decoded(seq![axis_letter(o[0]), axis_letter(o[1]), axis_letter(o[2])]) =~= o);
}

/// Between valid orientations the transform is valid, and entry `s` names
/// the one axis of `end` that follows the same output axis as axis `s` of
/// `start`.
pub proof fn lemma_transform_matches_axes(start: Seq<Orientation>, end: Seq<Orientation>, s: int)
    requires
        start.len() == 3,
        end.len() == 3,
        is_valid(start),
        is_valid(end),
        0 <= s < 3,
    ensures
        transform_entry(start, end, s).0 < 3,
        end[transform_entry(start, end, s).0 as int].0 == start[s].0,
        transform_entry(start, end, s).1 == relative_direction(
            start[s].1,
            end[transform_entry(start, end, s).0 as int].1,
        ),
{
    reveal_with_fuel(transform_upto, 4);
}


/// Entry `(i, j)` of the 4x4 matrix that undoes `o` on an array of shape
/// `dim`: row `i < 3` holds the sign of axis `i` in column `o[i].0`, and in
/// the last column `dim[i] - 1` where the axis is reversed (the flip is about
/// the centre `(dim[i] - 1) / 2`); the last row is `0 0 0 1`.
pub open spec fn inverse_affine_entry(o: Seq<Orientation>, dim: Seq<i16>, i: int, j: int) -> int {
    if i == 3 {
        if j == 3 {
            1
        } else {
            0
        }
    } else if j == 3 {
        if o[i].1 == Direction::Reversed {
            dim[i] - 1
        } else {
            0
        }
    } else if o[i].0 == j {
        o[i].1.spec_sign()
    } else {
        0
    }
}

/// The affine, in whole numbers and row by row, that takes an array
/// coordinate after the transforms implied by `orientations` back to the
/// coordinate before them, for an array of shape `dim`.
pub fn inverse_orientations_affine(orientations: &Orientations, dim: [i16; 3]) -> (m: [[i32; 4]; 4])
    requires
        axes_in_range(orientations@),
    ensures
        forall|i: int, j: int|
            0 <= i < 4 && 0 <= j < 4 ==> m[i][j] == inverse_affine_entry(
                orientations@,
                dim@,
                i,
                j,
            ),
{
    let mut m: [[i32; 4]; 4] = [[0, 0, 0, 0], [0, 0, 0, 0], [0, 0, 0, 0], [0, 0, 0, 1]];
    let mut i: usize = 0;
    while i < 3
        invariant
            0 <= i <= 3,
            axes_in_range(orientations@),
            forall|j: int|
                0 <= j < 4 ==> m[3][j] == inverse_affine_entry(orientations@, dim@, 3, j),
            forall|k: int, j: int|
                0 <= k < i && 0 <= j < 4 ==> m[k][j] == inverse_affine_entry(
                    orientations@,
                    dim@,
                    k,
                    j,
                ),
        decreases 3 - i,
    {
        let (axis, direction) = orientations[i];
        let mut row: [i32; 4] = [0, 0, 0, 0];
        row[axis] = direction.sign();
        let extent: i32 = dim[i] as i32;
        row[3] = match direction {
            Direction::Normal => 0,
            Direction::Reversed => extent - 1,
        };
        m[i] = row;
        i = i + 1;
    }
    m
}

/// The magnitude of a single-precision value, given and returned as bits.
pub open spec fn magnitude(bits: u32) -> u32 {
    bits & 0x7fff_ffffu32
}

/// The bits stand for a number, which may be infinite, and not for a NaN.
pub open spec fn is_number(bits: u32) -> bool {
    magnitude(bits) <= 0x7f80_0000u32
}

/// The sign bit is set.
pub open spec fn is_negative(bits: u32) -> bool {
    bits & 0x8000_0000u32 != 0
}

/// The strongest entry among the rows below `k` of column `c` that are not
/// in `used`: its row, its magnitude and its sign. A later row wins only
/// with a strictly larger magnitude; with no entry above zero the answer is
/// row 0, unsigned.
pub open spec fn strongest_upto(r: Seq<u32>, used: Seq<bool>, c: int, k: int) -> (int, u32, bool)
    decreases k,
{
    if k <= 0 {
        (0, 0u32, false)
    } else {
        let prev = strongest_upto(r, used, c, k - 1);
        let e = r[3 * c + (k - 1)];
        if !used[k - 1] && is_number(e) && magnitude(e) > prev.1 {
            (k - 1, magnitude(e), is_negative(e))
        } else {
            prev
        }
    }
}

/// The orientations picked for the columns below `c`, and the rows taken
/// out of consideration by those picks.
pub open spec fn picks_upto(r: Seq<u32>, c: int) -> (Seq<Orientation>, Seq<bool>)
    decreases c,
{
    if c <= 0 {
        (Seq::empty(), seq![false, false, false])
    } else {
        let prev = picks_upto(r, c - 1);
        let best = strongest_upto(r, prev.1, c - 1, 3);
        let direction = if best.2 {
            Direction::Reversed
        } else {
            Direction::Normal
        };
        (prev.0.push((best.0 as usize, direction)), prev.1.update(best.0, true))
    }
}

/// Which output axis each input axis of a rotation follows most closely.
///
/// `rotation` holds the bits of the entries of a 3x3 matrix, column after
/// column. For each column in turn, the row with the largest magnitude among
/// the rows not picked before is taken, with the sign of that entry; the
/// first such row wins a tie.
pub fn orientations_from_rotation(rotation: &[u32; 9]) -> (orientations: Orientations)
    ensures
        orientations@ == picks_upto(rotation@, 3).0,
        axes_in_range(orientations@),
{
    let mut orientations: Orientations = [
        (0, Direction::Normal),
        (0, Direction::Normal),
        (0, Direction::Normal),
    ];
    let mut used: [bool; 3] = [false, false, false];
    let mut c: usize = 0;
    while c < 3
        invariant
            0 <= c <= 3,
            used@ == picks_upto(rotation@, c as int).1,
            orientations@.take(c as int) == picks_upto(rotation@, c as int).0,
            axes_in_range(orientations@),
        decreases 3 - c,
    {
        let mut argmax: usize = 0;
        let mut max: u32 = 0;
        let mut negative = false;
        let mut i: usize = 0;
        while i < 3
            invariant
                0 <= i <= 3,
                0 <= c < 3,
                argmax < 3,
                (argmax as int, max, negative) == strongest_upto(
                    rotation@,
                    used@,
                    c as int,
                    i as int,
                ),
            decreases 3 - i,
        {
            let e = rotation[3 * c + i];
            let e_abs = e & 0x7fff_ffffu32;
            if !used[i] && e_abs <= 0x7f80_0000u32 && e_abs > max {
                argmax = i;
                max = e_abs;
                negative = e & 0x8000_0000u32 != 0;
            }
            i = i + 1;
        }
        let direction = if negative {
            Direction::Reversed
        } else {
            Direction::Normal
        };
        orientations[c] = (argmax, direction);
        used[argmax] = true;
        proof {
            assert(orientations@.take(c as int + 1) =~= picks_upto(rotation@, c as int + 1).0);
        }
        c = c + 1;
    }
    proof {
        assert(orientations@.take(3) =~= orientations@);
    }
    orientations
}

/// The three-letter label of a rotation: that of the orientations picked
/// for it.
pub fn axcodes_from_rotation(rotation: &[u32; 9]) -> (axcodes: String)
    ensures
        axcodes@ == seq![
            axis_letter(picks_upto(rotation@, 3).0[0]),
            axis_letter(picks_upto(rotation@, 3).0[1]),
            axis_letter(picks_upto(rotation@, 3).0[2]),
        ],
{
    let orientations = orientations_from_rotation(rotation);
    orientations_to_axcodes(orientations)
}

} // verus!
