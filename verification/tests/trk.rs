use trk_io::cheader::{patch_n_count, HEADER_SIZE};
use trk_io::reader::{next_item, next_streamline, read_points, read_tractogram, record_size};
use trk_io::{
    ArraySequence, CHeader, Endianness, Header, ModeConflict, Point, ReadError, Reader,
    Tractogram, WriteError, Writer,
};

fn p(x: f32, y: f32, z: f32) -> Point {
    [x.to_bits(), y.to_bits(), z.to_bits()]
}

fn bits(values: &[f32]) -> Vec<u32> {
    values.iter().map(|v| v.to_bits()).collect()
}

fn floats(values: &[u32]) -> Vec<f32> {
    values.iter().map(|v| f32::from_bits(*v)).collect()
}

fn simple_streamlines() -> Vec<Vec<Point>> {
    vec![
        vec![p(0.0, 1.0, 2.0)],
        vec![p(0.0, 1.0, 2.0), p(3.0, 4.0, 5.0)],
        vec![
            p(0.0, 1.0, 2.0),
            p(3.0, 4.0, 5.0),
            p(6.0, 7.0, 8.0),
            p(9.0, 10.0, 11.0),
            p(12.0, 13.0, 14.0),
        ],
    ]
}

fn simple_file() -> Vec<u8> {
    let mut bytes = Vec::new();
    let mut writer = Writer::new(None, &mut bytes);
    for streamline in simple_streamlines() {
        writer.write_points(&streamline, &mut bytes).unwrap();
    }
    writer.finish(&mut bytes);
    bytes
}

fn complex_header() -> Header {
    let mut raw = CHeader::default();
    raw.scalar_name[..6].clone_from_slice(b"colors");
    raw.scalar_name[7] = b'3';
    raw.scalar_name[20..22].clone_from_slice(b"fa");
    raw.n_scalars = 4;
    raw.property_name[..11].clone_from_slice(b"mean_colors");
    raw.property_name[12] = b'3';
    raw.property_name[20..34].clone_from_slice(b"mean_curvature");
    raw.property_name[40..52].clone_from_slice(b"mean_torsion");
    raw.n_properties = 5;
    let mut affine4 = [0u32; 16];
    for k in 0..4 {
        affine4[5 * k] = 1.0f32.to_bits();
    }
    Header::from_raw(raw, affine4).unwrap()
}

fn complex_scalars() -> Vec<Vec<f32>> {
    vec![
        vec![1.0, 0.0, 0.0, 0.200000003],
        vec![0.0, 1.0, 0.0, 0.300000012, 0.0, 1.0, 0.0, 0.400000006],
        vec![
            0.0, 0.0, 1.0, 0.500000000, 0.0, 0.0, 1.0, 0.600000024, 0.0, 0.0, 1.0, 0.600000024,
            0.0, 0.0, 1.0, 0.699999988, 0.0, 0.0, 1.0, 0.800000012,
        ],
    ]
}

fn complex_properties() -> Vec<Vec<f32>> {
    vec![
        vec![1.0, 0.0, 0.0, 1.11000001, 1.22000003],
        vec![0.0, 1.0, 0.0, 2.11000001, 2.22000003],
        vec![0.0, 0.0, 1.0, 3.11000001, 3.22000003],
    ]
}

fn complex_file() -> Vec<u8> {
    let header = complex_header();
    let mut bytes = Vec::new();
    let mut writer = Writer::new(Some(&header), &mut bytes);
    let streamlines = simple_streamlines();
    for i in 0..3 {
        writer
            .write_item(
                &streamlines[i],
                &bits(&complex_scalars()[i]),
                &bits(&complex_properties()[i]),
                &mut bytes,
            )
            .unwrap();
    }
    writer.finish(&mut bytes);
    bytes
}

fn big_endian_twin(bytes: &[u8]) -> Vec<u8> {
    let mut out = bytes.to_vec();
    let mut swap = |at: usize, width: usize, count: usize| {
        for k in 0..count {
            out[at + k * width..at + (k + 1) * width].reverse();
        }
    };
    swap(6, 2, 3);
    swap(12, 4, 6);
    swap(36, 2, 1);
    swap(238, 2, 1);
    swap(440, 4, 16);
    swap(956, 4, 6);
    swap(988, 4, 3);
    swap(HEADER_SIZE, 4, (bytes.len() - HEADER_SIZE) / 4);
    out
}

fn open(bytes: &[u8]) -> Reader<'_> {
    let (raw, endianness) = CHeader::read(bytes).unwrap();
    let header = Header::from_raw(raw, Header::default().affine4_to_rasmm).unwrap();
    Reader::new(bytes, header, endianness)
}

fn check_complex_scalars_and_properties(
    header: &Header,
    scalars: &ArraySequence<u32>,
    properties: &ArraySequence<u32>,
) {
    assert_eq!(
        header.scalars_name,
        vec![
            String::from("colors"),
            String::from("colors"),
            String::from("colors"),
            String::from("fa")
        ]
    );
    assert_eq!(floats(scalars.index(0)), [1.0, 0.0, 0.0, 0.200000003]);
    assert_eq!(
        floats(scalars.index(1)),
        [0.0, 1.0, 0.0, 0.300000012, 0.0, 1.0, 0.0, 0.400000006]
    );
    assert_eq!(
        floats(scalars.index(2)),
        [
            0.0, 0.0, 1.0, 0.500000000, 0.0, 0.0, 1.0, 0.600000024, 0.0, 0.0, 1.0, 0.600000024,
            0.0, 0.0, 1.0, 0.699999988, 0.0, 0.0, 1.0, 0.800000012
        ]
    );
    assert_eq!(
        header.properties_name,
        vec![
            String::from("mean_colors"),
            String::from("mean_colors"),
            String::from("mean_colors"),
            String::from("mean_curvature"),
            String::from("mean_torsion")
        ]
    );
    assert_eq!(floats(properties.index(0)), [1.0, 0.0, 0.0, 1.11000001, 1.22000003]);
    assert_eq!(floats(properties.index(1)), [0.0, 1.0, 0.0, 2.11000001, 2.22000003]);
    assert_eq!(floats(properties.index(2)), [0.0, 0.0, 1.0, 3.11000001, 3.22000003]);
}

#[test]
fn test_read_empty_in_memory() {
    let mut bytes = Vec::new();
    Header::default().write(&mut bytes);
    assert_eq!(bytes.len(), HEADER_SIZE);

    let mut reader = open(&bytes);
    assert_eq!(reader.get_header().nb_streamlines, 0);
    let tractogram = reader.tractogram().unwrap();
    assert_eq!(tractogram.streamlines.len(), 0);
    assert!(tractogram.scalars.is_empty());
    assert!(tractogram.properties.is_empty());

    // Test generator
    let mut reader = open(&bytes);
    assert!(reader.next().unwrap().is_none());
    assert!(reader.next().unwrap().is_none());
    let mut iter = open(&bytes).into_streamlines_iter();
    assert!(iter.next().unwrap().is_none());
}

#[test]
fn test_read_simple_in_memory() {
    let first = [p(0.0, 1.0, 2.0)];
    let second = [p(0.0, 1.0, 2.0), p(3.0, 4.0, 5.0)];
    let third = [
        p(0.0, 1.0, 2.0),
        p(3.0, 4.0, 5.0),
        p(6.0, 7.0, 8.0),
        p(9.0, 10.0, 11.0),
        p(12.0, 13.0, 14.0),
    ];

    let bytes = simple_file();
    let mut reader = open(&bytes);
    assert_eq!(reader.get_header().nb_streamlines, 3);
    let one = 1.0f32.to_bits();
    assert_eq!(reader.get_header().affine_to_rasmm, [one, 0, 0, 0, one, 0, 0, 0, one]);
    assert_eq!(reader.get_header().translation, [0, 0, 0]);
    let Tractogram { streamlines, scalars, properties } = reader.tractogram().unwrap();
    assert_eq!(streamlines.len(), 3);
    assert_eq!(streamlines.index(0), first);
    assert_eq!(streamlines.index(1), second);
    assert_eq!(streamlines.index(2), third);
    assert!(scalars.is_empty());
    assert!(properties.is_empty());
    assert!(reader.next().unwrap().is_none());

    // Test generator
    let mut reader = open(&bytes);
    let mut i = 0;
    while let Some((streamline, scalars, properties)) = reader.next().unwrap() {
        assert_eq!(scalars.len(), 0);
        assert!(properties.is_empty());
        match i {
            0 => assert_eq!(streamline, first),
            1 => assert_eq!(streamline, second),
            2 => assert_eq!(streamline, third),
            _ => panic!("Failed test."),
        }
        i += 1;
    }
    assert_eq!(i, 3);

    // Points only
    let mut reader = open(&bytes);
    let streamlines = reader.streamlines().unwrap();
    assert_eq!(streamlines.offsets, vec![0, 1, 3, 8]);
    assert_eq!(streamlines.index(2), third);
}

#[test]
fn test_read_complex_in_memory() {
    let bytes = complex_file();
    let mut reader = open(&bytes);
    let Tractogram { streamlines, scalars, properties } = reader.tractogram().unwrap();
    assert_eq!(streamlines.len(), 3);
    assert_eq!(streamlines.index(0), [p(0.0, 1.0, 2.0)]);
    assert_eq!(streamlines.index(1), [p(0.0, 1.0, 2.0), p(3.0, 4.0, 5.0)]);
    assert_eq!(
        streamlines.index(2),
        [
            p(0.0, 1.0, 2.0),
            p(3.0, 4.0, 5.0),
            p(6.0, 7.0, 8.0),
            p(9.0, 10.0, 11.0),
            p(12.0, 13.0, 14.0)
        ]
    );
    check_complex_scalars_and_properties(reader.get_header(), &scalars, &properties);
}

#[test]
fn test_read_complex_big_endian_in_memory() {
    let first = [p(0.0, 1.0, 2.0)];
    let second = [p(0.0, 1.0, 2.0), p(3.0, 4.0, 5.0)];
    let third = [
        p(0.0, 1.0, 2.0),
        p(3.0, 4.0, 5.0),
        p(6.0, 7.0, 8.0),
        p(9.0, 10.0, 11.0),
        p(12.0, 13.0, 14.0),
    ];

    let bytes = big_endian_twin(&complex_file());
    assert_eq!(CHeader::read(&bytes).unwrap().1, Endianness::Big);
    let mut reader = open(&bytes);
    assert_eq!(reader.get_header().nb_streamlines, 3);
    let Tractogram { streamlines, scalars, properties } = reader.tractogram().unwrap();
    assert_eq!(streamlines.len(), 3);
    assert_eq!(streamlines.index(0), first);
    assert_eq!(streamlines.index(1), second);
    assert_eq!(streamlines.index(2), third);
    check_complex_scalars_and_properties(reader.get_header(), &scalars, &properties);

    // Test generator
    let mut iter = open(&bytes).into_streamlines_iter();
    let mut i = 0;
    while let Some(streamline) = iter.next().unwrap() {
        match i {
            0 => assert_eq!(streamline, first),
            1 => assert_eq!(streamline, second),
            2 => assert_eq!(streamline, third),
            _ => panic!("Failed test."),
        }
        i += 1;
    }
    assert_eq!(i, 3);
}

#[test]
fn test_write_empty_in_memory() {
    let mut bytes = Vec::new();
    let mut writer = Writer::new(Some(&Header::default()), &mut bytes);
    let empty: Tractogram<Point, u32> =
        Tractogram::new(ArraySequence::empty(), ArraySequence::empty(), ArraySequence::empty());
    writer.write_tractogram(&empty, &mut bytes).unwrap();
    writer.finish(&mut bytes);
    assert_eq!(bytes.len(), HEADER_SIZE);
    let mut reader = open(&bytes);
    assert_eq!(reader.get_header().nb_streamlines, 0);
    assert_eq!(reader.tractogram().unwrap().streamlines.len(), 0);
}

#[test]
fn test_write_simple_in_memory() {
    let written = simple_file();
    let tractogram = open(&written).tractogram().unwrap();

    let mut bytes = Vec::new();
    let mut writer = Writer::new(Some(open(&written).get_header()), &mut bytes);
    writer.write_tractogram(&tractogram, &mut bytes).unwrap();
    writer.finish(&mut bytes);
    assert_eq!(bytes, written);
}

#[test]
fn test_write_points_in_memory() {
    let written = simple_file();
    let tractogram = open(&written).tractogram().unwrap();

    let mut bytes = Vec::new();
    let mut writer = Writer::new(Some(open(&written).get_header()), &mut bytes);
    let mut iter = tractogram.streamlines.iter();
    while let Some(streamline) = iter.next() {
        writer.write_points(streamline, &mut bytes).unwrap();
    }
    writer.finish(&mut bytes);
    assert_eq!(bytes, written);
}

#[test]
fn test_write_items_in_memory() {
    let written = simple_file();
    let mut bytes = Vec::new();
    let mut writer = Writer::new(Some(open(&written).get_header()), &mut bytes);
    let mut reader = open(&written);
    while let Some((points, scalars, properties)) = reader.next().unwrap() {
        writer.write_item(&points, &scalars.data, &properties, &mut bytes).unwrap();
    }
    writer.finish(&mut bytes);
    assert_eq!(bytes, written);
}

#[test]
fn test_write_borrowed_items_in_memory() {
    let written = simple_file();
    let tractogram = open(&written).tractogram().unwrap();
    let mut bytes = Vec::new();
    let mut writer = Writer::new(Some(open(&written).get_header()), &mut bytes);
    let mut iter = tractogram.iter();
    assert_eq!(iter.len(), 3);
    while let Some((points, scalars, properties)) = iter.next() {
        writer.write_item(points, scalars, properties, &mut bytes).unwrap();
    }
    writer.finish(&mut bytes);
    assert_eq!(bytes, written);
}

#[test]
fn test_write_complex_in_memory() {
    let written = complex_file();
    let mut bytes = Vec::new();
    let mut writer = Writer::new(Some(open(&written).get_header()), &mut bytes);
    assert_eq!(writer.nb_scalars(), 4);
    let mut reader = open(&written);
    while let Some((points, scalars, properties)) = reader.next().unwrap() {
        writer.write_item(&points, &scalars.data, &properties, &mut bytes).unwrap();
    }
    writer.finish(&mut bytes);
    assert_eq!(bytes, written);

    // The whole tractogram at once.
    let tractogram = open(&written).tractogram().unwrap();
    let mut again = Vec::new();
    let mut writer = Writer::new(Some(open(&written).get_header()), &mut again);
    writer.write_tractogram(&tractogram, &mut again).unwrap();
    assert_eq!(writer.n_count(), 3);
    writer.finish(&mut again);
    assert_eq!(again, written);
}

#[test]
fn test_write_one_by_one_in_memory() {
    let written = simple_file();
    let mut bytes = Vec::new();
    let mut writer = Writer::new(Some(open(&written).get_header()), &mut bytes);
    writer.write_points(&[p(0.0, 1.0, 2.0)], &mut bytes).unwrap();

    let v = vec![p(0.0, 1.0, 2.0), p(3.0, 4.0, 5.0)];
    writer.write_points(&v, &mut bytes).unwrap();

    let v: Vec<i32> = (0..15).collect();
    let points: Vec<Point> =
        v.chunks(3).map(|ints| p(ints[0] as f32, ints[1] as f32, ints[2] as f32)).collect();
    writer.write_points(&points, &mut bytes).unwrap();
    writer.finish(&mut bytes);
    assert_eq!(bytes, written);
}

#[test]
fn test_patched_count() {
    for n in [0usize, 1, 5] {
        let mut bytes = Vec::new();
        let mut writer = Writer::new(None, &mut bytes);
        // The header is complete before any streamline is written.
        assert_eq!(bytes.len(), HEADER_SIZE);
        assert_eq!(&bytes[988..992], &[0, 0, 0, 0]);
        for _ in 0..n {
            writer.write_points(&[p(1.0, 2.0, 3.0)], &mut bytes).unwrap();
        }
        assert_eq!(writer.n_count(), n as i32);
        writer.finish(&mut bytes);
        assert_eq!(bytes.len(), HEADER_SIZE + 16 * n);
        assert_eq!(CHeader::read(&bytes).unwrap().0.n_count, n as i32);
        assert_eq!(open(&bytes).get_header().nb_streamlines, n);
    }
}

#[test]
fn test_record_layout() {
    let mut header = Header::default();
    header.add_scalar("a").unwrap();
    header.add_scalar("b").unwrap();
    let mut bytes = Vec::new();
    let mut writer = Writer::new(Some(&header), &mut bytes);
    let points = [[1u32, 2, 3], [4, 5, 6]];
    writer.write_item(&points, &[10, 11, 12, 13], &[0x0102_0304], &mut bytes).unwrap();
    let mut expected = vec![2u8, 0, 0, 0];
    for word in [1u32, 2, 3, 10, 11, 4, 5, 6, 12, 13] {
        expected.extend_from_slice(&[word as u8, 0, 0, 0]);
    }
    expected.extend_from_slice(&[4, 3, 2, 1]);
    assert_eq!(&bytes[HEADER_SIZE..], &expected[..]);
    assert_eq!(record_size(2, 2, 1), Some(44));
    assert_eq!(record_size(0, usize::MAX, 3), Some(12));
    assert_eq!(record_size(1, usize::MAX, 0), None);
    assert_eq!(record_size(usize::MAX / 4, 1, 0), None);
    assert_eq!(record_size(5, 0, 0), Some(60));

    let (item, after) = next_item(&bytes, HEADER_SIZE, Endianness::Little, 2, 1).unwrap().unwrap();
    assert_eq!(after, bytes.len());
    assert_eq!(item.0, points);
    assert_eq!(item.1.data, vec![10, 11, 12, 13]);
    assert_eq!(item.1.offsets, vec![0, 4]);
    assert_eq!(item.2, vec![0x0102_0304]);
    let (only, after) =
        next_streamline(&bytes, HEADER_SIZE, Endianness::Little, 2, 1).unwrap().unwrap();
    assert_eq!(only, points);
    assert_eq!(after, bytes.len());
}

#[test]
fn test_round_trip_bit_for_bit() {
    let mut header = Header::default();
    header.add_scalar("s").unwrap();
    header.add_property("p0").unwrap();
    header.add_property("p1").unwrap();
    let streamlines = ArraySequence::new(
        vec![2, 1, 3],
        vec![
            [0x7fc0_0001, 0x8000_0000, 0],
            p(1.5, -2.5, 3.25),
            [u32::MAX, 1, 2],
            p(0.1, 0.2, 0.3),
            p(f32::INFINITY, f32::MIN, f32::MAX),
            [9, 8, 7],
        ],
    )
    .unwrap();
    let scalars = ArraySequence::new(vec![2, 1, 3], vec![11, 12, 0xffff_ffff, 14, 15, 16]).unwrap();
    let properties = ArraySequence::new(vec![2, 2, 2], vec![21, 22, 23, 24, 25, 26]).unwrap();
    let tractogram = Tractogram::new(streamlines, scalars, properties);

    let mut bytes = Vec::new();
    let mut writer = Writer::new(Some(&header), &mut bytes);
    writer.write_tractogram(&tractogram, &mut bytes).unwrap();
    writer.finish(&mut bytes);

    let (raw, endianness) = CHeader::read(&bytes).unwrap();
    assert_eq!(endianness, Endianness::Little);
    assert_eq!(raw.n_count, 3);
    assert_eq!(raw.n_scalars, 1);
    assert_eq!(raw.n_properties, 2);
    let mut patched = header.raw_header();
    patched.n_count = 3;
    let mut expected = Vec::new();
    patched.write(&mut expected);
    assert_eq!(&bytes[..HEADER_SIZE], &expected[..]);

    let back = read_tractogram(&bytes, HEADER_SIZE, endianness, 1, 2).unwrap();
    assert_eq!(back.streamlines.offsets, tractogram.streamlines.offsets);
    assert_eq!(back.streamlines.data, tractogram.streamlines.data);
    assert_eq!(back.scalars.offsets, tractogram.scalars.offsets);
    assert_eq!(back.scalars.data, tractogram.scalars.data);
    assert_eq!(back.properties.offsets, tractogram.properties.offsets);
    assert_eq!(back.properties.data, tractogram.properties.data);

    let points = read_points(&bytes, HEADER_SIZE, endianness, 1, 2).unwrap();
    assert_eq!(points.data, tractogram.streamlines.data);
    assert_eq!(points.offsets, vec![0, 2, 3, 6]);
}

#[test]
fn test_read_failures() {
    let mut bytes = simple_file();
    // Up to three bytes after the last streamline are passed over.
    bytes.extend_from_slice(&[1, 2, 3]);
    assert_eq!(open(&bytes).tractogram().unwrap().streamlines.len(), 3);
    // A fourth makes a count without its points.
    bytes.push(0);
    assert!(matches!(open(&bytes).tractogram(), Err(ReadError::Truncated)));
    assert!(matches!(open(&bytes).streamlines(), Err(ReadError::Truncated)));

    let mut bytes = simple_file();
    bytes.pop();
    let mut reader = open(&bytes);
    assert_eq!(reader.next().unwrap().unwrap().0.len(), 1);
    assert_eq!(reader.next().unwrap().unwrap().0.len(), 2);
    assert!(matches!(reader.next(), Err(ReadError::Truncated)));
    assert!(matches!(reader.next(), Err(ReadError::Truncated)));

    let mut bytes = simple_file();
    bytes[HEADER_SIZE..HEADER_SIZE + 4].copy_from_slice(&(-1i32).to_le_bytes());
    assert!(matches!(open(&bytes).tractogram(), Err(ReadError::NegativeCount)));
    assert!(matches!(
        next_item(&bytes, HEADER_SIZE, Endianness::Little, 0, 0),
        Err(ReadError::NegativeCount)
    ));
    bytes[HEADER_SIZE..HEADER_SIZE + 4].copy_from_slice(&i32::MAX.to_le_bytes());
    assert!(matches!(open(&bytes).tractogram(), Err(ReadError::Truncated)));
    assert!(matches!(
        next_item(&bytes, HEADER_SIZE, Endianness::Little, usize::MAX, usize::MAX),
        Err(ReadError::Truncated)
    ));

    // A streamline without points is a streamline.
    let mut bytes = Vec::new();
    let mut writer = Writer::new(None, &mut bytes);
    writer.write_points(&[], &mut bytes).unwrap();
    writer.write_points(&[p(1.0, 1.0, 1.0)], &mut bytes).unwrap();
    writer.finish(&mut bytes);
    let tractogram = open(&bytes).tractogram().unwrap();
    assert_eq!(tractogram.streamlines.offsets, vec![0, 0, 1]);
}

#[test]
fn test_write_failures() {
    let mut header = Header::default();
    header.add_scalar("s").unwrap();
    let mut bytes = Vec::new();
    let mut writer = Writer::new(Some(&header), &mut bytes);
    let before = bytes.clone();
    assert_eq!(
        writer.write_item(&[[0, 0, 0], [1, 1, 1]], &[5], &[], &mut bytes),
        Err(WriteError::ScalarMismatch)
    );
    assert_eq!(
        writer.write_item(&[[0, 0, 0]], &[5, 6], &[], &mut bytes),
        Err(WriteError::ScalarMismatch)
    );
    assert_eq!(bytes, before);
    assert_eq!(writer.n_count(), 0);

    let missing = Tractogram::new(
        ArraySequence::new(vec![1, 1], vec![[0u32, 0, 0], [1, 1, 1]]).unwrap(),
        ArraySequence::new(vec![1], vec![7u32]).unwrap(),
        ArraySequence::empty(),
    );
    assert_eq!(writer.write_tractogram(&missing, &mut bytes), Err(WriteError::MissingChannels));
    assert_eq!(bytes, before);
    assert_eq!(writer.n_count(), 0);
    assert!(missing.get(0).is_some());
    assert!(missing.get(1).is_none());
    assert!(missing.get(2).is_none());

    // Without a scalar channel the scalars given are passed over.
    let mut bytes = Vec::new();
    let mut writer = Writer::new(None, &mut bytes);
    writer.write_item(&[[1, 2, 3]], &[9, 9, 9], &[], &mut bytes).unwrap();
    assert_eq!(bytes.len(), HEADER_SIZE + 16);
}

#[test]
fn test_modes() {
    let mut sink = Vec::new();
    let writer = Writer::new(None, &mut sink);
    assert!(writer.transforms_points());
    let writer = writer.raw().unwrap();
    assert!(!writer.transforms_points());
    assert!(matches!(writer.from_voxel_space(), Err(ModeConflict)));
    let writer = Writer::new(None, &mut sink).from_voxel_space().unwrap();
    assert!(writer.transforms_points());
    assert!(matches!(writer.raw(), Err(ModeConflict)));

    let bytes = simple_file();
    let reader = open(&bytes).raw().unwrap();
    assert!(!reader.transforms_points());
    assert!(matches!(reader.to_voxel_space([1, 2, 3]), Err(ModeConflict)));
    let reader = open(&bytes).to_voxel_space([7, 8, 9]).unwrap();
    assert!(reader.transforms_points());
    assert_eq!(reader.get_header().affine_to_rasmm, [7, 0, 0, 0, 8, 0, 0, 0, 9]);
    assert_eq!(reader.get_header().translation, [0, 0, 0]);
    assert!(matches!(reader.raw(), Err(ModeConflict)));
}

#[test]
fn test_tractogram_items() {
    let tractogram = Tractogram::new(
        ArraySequence::new(vec![1, 2], vec!['a', 'b', 'c']).unwrap(),
        ArraySequence::new(vec![2, 4], vec![1u8, 2, 3, 4, 5, 6]).unwrap(),
        ArraySequence::<u8>::empty(),
    );
    let (points, scalars, properties) = tractogram.item(1);
    assert_eq!(points, ['b', 'c']);
    assert_eq!(scalars, [3, 4, 5, 6]);
    assert!(properties.is_empty());
    let mut iter = tractogram.iter();
    assert_eq!(iter.next_back().unwrap().0, ['b', 'c']);
    assert_eq!(iter.len(), 1);
    assert_eq!(iter.next().unwrap().1, [1, 2]);
    assert!(iter.next().is_none());
    assert!(iter.next_back().is_none());
}

#[test]
fn test_patch_keeps_streamlines() {
    let mut bytes = simple_file();
    let body = bytes[HEADER_SIZE..].to_vec();
    patch_n_count(&mut bytes, 77);
    assert_eq!(&bytes[HEADER_SIZE..], &body[..]);
}
