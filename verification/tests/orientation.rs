use trk_io::orientation::{
    axcodes_from_rotation, axcodes_to_orientations, inverse_orientations_affine,
    orientations_from_rotation, orientations_to_axcodes, orientations_transform, Direction,
};

fn bits(values: [f32; 9]) -> [u32; 9] {
    let mut out = [0u32; 9];
    for i in 0..9 {
        out[i] = values[i].to_bits();
    }
    out
}

#[test]
fn test_axcodes_to_orientations() {
    assert_eq!(
        axcodes_to_orientations("RAS"),
        [(0, Direction::Normal), (1, Direction::Normal), (2, Direction::Normal)]
    );
    assert_eq!(
        axcodes_to_orientations("LPI"),
        [(0, Direction::Reversed), (1, Direction::Reversed), (2, Direction::Reversed)]
    );
    assert_eq!(
        axcodes_to_orientations("SAR"),
        [(2, Direction::Normal), (1, Direction::Normal), (0, Direction::Normal)]
    );
    assert_eq!(
        axcodes_to_orientations("AIR"),
        [(1, Direction::Normal), (2, Direction::Reversed), (0, Direction::Normal)]
    );
}

#[test]
fn test_axcodes_edge_cases() {
    let unset = (0, Direction::Normal);
    assert_eq!(axcodes_to_orientations(""), [unset, unset, unset]);
    assert_eq!(axcodes_to_orientations("L"), [(0, Direction::Reversed), unset, unset]);
    assert_eq!(
        axcodes_to_orientations("x?S"),
        [unset, unset, (2, Direction::Normal)]
    );
    assert_eq!(
        axcodes_to_orientations("LAS\0"),
        [(0, Direction::Reversed), (1, Direction::Normal), (2, Direction::Normal)]
    );
    assert_eq!(
        axcodes_to_orientations("RASL"),
        [(0, Direction::Normal), (1, Direction::Normal), (2, Direction::Normal)]
    );
}

#[test]
fn test_orientations_to_axcodes() {
    assert_eq!(
        orientations_to_axcodes([
            (0, Direction::Normal),
            (1, Direction::Normal),
            (2, Direction::Normal)
        ]),
        "RAS"
    );
    assert_eq!(
        orientations_to_axcodes([
            (0, Direction::Reversed),
            (1, Direction::Reversed),
            (2, Direction::Reversed)
        ]),
        "LPI"
    );
    assert_eq!(
        orientations_to_axcodes([
            (2, Direction::Reversed),
            (1, Direction::Reversed),
            (0, Direction::Reversed)
        ]),
        "IPL"
    );
    assert_eq!(
        orientations_to_axcodes([
            (1, Direction::Normal),
            (2, Direction::Reversed),
            (0, Direction::Normal)
        ]),
        "AIR"
    );
}

#[test]
fn test_orientations_transform() {
    assert_eq!(
        orientations_transform(
            &[(0, Direction::Normal), (1, Direction::Normal), (2, Direction::Reversed)],
            &[(1, Direction::Normal), (0, Direction::Normal), (2, Direction::Normal)]
        ),
        [(1, Direction::Normal), (0, Direction::Normal), (2, Direction::Reversed)]
    );
    assert_eq!(
        orientations_transform(
            &[(0, Direction::Normal), (1, Direction::Normal), (2, Direction::Normal)],
            &[(2, Direction::Normal), (0, Direction::Reversed), (1, Direction::Normal)]
        ),
        [(1, Direction::Reversed), (2, Direction::Normal), (0, Direction::Normal)]
    );
}

#[test]
fn test_transform_to_self_is_identity() {
    let identity = [(0, Direction::Normal), (1, Direction::Normal), (2, Direction::Normal)];
    let axes = [[0, 1, 2], [0, 2, 1], [1, 0, 2], [1, 2, 0], [2, 0, 1], [2, 1, 0]];
    let directions = [Direction::Normal, Direction::Reversed];
    for perm in axes.iter() {
        for a in directions.iter() {
            for b in directions.iter() {
                for c in directions.iter() {
                    let o = [(perm[0], *a), (perm[1], *b), (perm[2], *c)];
                    assert_eq!(orientations_transform(&o, &o), identity);
                }
            }
        }
    }
}

#[test]
fn test_axcodes_round_trip() {
    for code in ["RAS", "LPI", "SAR", "AIR", "IPL", "PRS"] {
        assert_eq!(orientations_to_axcodes(axcodes_to_orientations(code)), code);
    }
}

#[test]
fn test_axcodes_from_rotation() {
    // The rotation nearest to the identity is the identity.
    let identity = bits([1.0, 0.0, 0.0, 0.0, 1.0, 0.0, 0.0, 0.0, 1.0]);
    assert_eq!(axcodes_from_rotation(&identity), "RAS".to_string());

    // Rows (0, 1, 0), (-1, 0, 0), (0, 0, 1), given column after column.
    let rotation = bits([0.0, -1.0, 0.0, 1.0, 0.0, 0.0, 0.0, 0.0, 1.0]);
    assert_eq!(axcodes_from_rotation(&rotation), "PRS".to_string());
    assert_eq!(axcodes_from_rotation(&rotation), "PRS".to_string());
}

#[test]
fn test_orientations_from_rotation_picks() {
    // Ties go to the first row, and a row is picked once only.
    let ties = bits([0.5, 0.5, 0.5, 0.5, 0.5, 0.5, 0.5, -0.5, 0.5]);
    assert_eq!(
        orientations_from_rotation(&ties),
        [(0, Direction::Normal), (1, Direction::Normal), (2, Direction::Normal)]
    );
    // A column of zeros picks row 0, unreversed.
    let zeros = bits([0.0; 9]);
    assert_eq!(
        orientations_from_rotation(&zeros),
        [(0, Direction::Normal), (0, Direction::Normal), (0, Direction::Normal)]
    );
    // A NaN is never picked; negative zero is no magnitude.
    let odd = bits([f32::NAN, -2.0, 1.0, -0.0, 0.0, -0.25, f32::INFINITY, 3.0, 0.0]);
    assert_eq!(
        orientations_from_rotation(&odd),
        [(1, Direction::Reversed), (2, Direction::Reversed), (0, Direction::Normal)]
    );
}

#[test]
fn test_inverse_orientations_affine() {
    let identity = [(0, Direction::Normal), (1, Direction::Normal), (2, Direction::Normal)];
    assert_eq!(
        inverse_orientations_affine(&identity, [10, 20, 30]),
        [[1, 0, 0, 0], [0, 1, 0, 0], [0, 0, 1, 0], [0, 0, 0, 1]]
    );
    let flipped = [(1, Direction::Reversed), (0, Direction::Normal), (2, Direction::Reversed)];
    assert_eq!(
        inverse_orientations_affine(&flipped, [10, 20, 30]),
        [[0, -1, 0, 9], [1, 0, 0, 0], [0, 0, -1, 29], [0, 0, 0, 1]]
    );
    let lowest = [(0, Direction::Reversed), (1, Direction::Normal), (2, Direction::Normal)];
    assert_eq!(inverse_orientations_affine(&lowest, [i16::MIN, 0, 0])[0], [-1, 0, 0, -32769]);
}

#[test]
fn test_direction_sign() {
    assert_eq!(Direction::Normal.sign(), 1);
    assert_eq!(Direction::Reversed.sign(), -1);
}
