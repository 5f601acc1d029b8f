//! The parts of a 4x4 affine.

use vstd::prelude::*;

verus! {

/// The linear part and the translation of a 4x4 affine whose entries are
/// given column after column: the upper left 3x3 block, column after
/// column, and the first three entries of the last column.
pub fn get_affine_and_translation<T: Copy>(affine: &[T; 16]) -> (res: ([T; 9], [T; 3]))
    ensures
        res.0@ == seq![
            affine@[0],
            affine@[1],
            affine@[2],
            affine@[4],
            affine@[5],
            affine@[6],
            affine@[8],
            affine@[9],
            affine@[10],
        ],
        res.1@ == seq![affine@[12], affine@[13], affine@[14]],
{
    let linear = [
        affine[0],
        affine[1],
        affine[2],
        affine[4],
        affine[5],
        affine[6],
        affine[8],
        affine[9],
        affine[10],
    ];
    let translation = [affine[12], affine[13], affine[14]];
    assert(translation@ =~= seq![affine@[12], affine@[13], affine@[14]]);
    assert(linear@ =~= seq![
        affine@[0],
        affine@[1],
        affine@[2],
        affine@[4],
        affine@[5],
        affine@[6],
        affine@[8],
        affine@[9],
        affine@[10],
    ]);
    (linear, translation)
}

} // verus!
