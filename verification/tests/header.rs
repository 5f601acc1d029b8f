use trk_io::cheader::{patch_n_count, read_names, HEADER_SIZE, N_COUNT_OFFSET};
use trk_io::{CHeader, Endianness, Header, HeaderError};

fn big_endian_twin(bytes: &[u8]) -> Vec<u8> {
    // The same header with every number written highest byte first.
    let mut out = bytes.to_vec();
    let mut swap = |at: usize, width: usize, count: usize| {
        for k in 0..count {
            out[at + k * width..at + (k + 1) * width].reverse();
        }
    };
    swap(6, 2, 3);
    swap(12, 4, 6);
    swap(36, 2, 1);
    swap(238, 2, 1);
    swap(440, 4, 16);
    swap(956, 4, 6);
    swap(988, 4, 3);
    out
}

#[test]
fn test_scalars() {
    let mut header = CHeader::default();
    header.add_scalar("color_x").unwrap();
    header.add_scalar("color_y").unwrap();

    let mut gt = [0u8; 200];
    gt[..7].clone_from_slice(b"color_x");
    gt[20..27].clone_from_slice(b"color_y");
    assert_eq!(&header.scalar_name[..], &gt[..]);
    assert_eq!(header.n_scalars, 2);
}

#[test]
fn test_copy_scalars_and_properties() {
    let first_scalar = "s1".to_string();
    let second_scalar = "s2".to_string();
    let first_property = "p1".to_string();
    let second_property = "p2".to_string();

    let mut header1 = Header::default();
    header1.add_scalar(&second_scalar).unwrap();
    header1.add_property(&second_property).unwrap();

    let mut header2 = Header::default();
    header2.add_scalar(&first_scalar).unwrap();
    header2.add_scalar(&second_scalar).unwrap();
    header2.add_property(&first_property).unwrap();
    header2.add_property(&second_property).unwrap();

    header2.copy_scalars_and_properties(&header1).unwrap();
    assert_eq!(header2.scalars_name, vec![second_scalar]);
    assert_eq!(header2.properties_name, vec![second_property]);
    assert_eq!(header2.raw_header().n_scalars, 1);
    assert_eq!(header2.raw_header().n_properties, 1);
    assert_eq!(&header2.raw_header().scalar_name[..3], b"s2\0");
    assert_eq!(&header2.raw_header().scalar_name[20..23], b"\0\0\0");
    assert_eq!(&header2.raw_header().property_name[..3], b"p2\0");
}

#[test]
fn test_copy_refused_changes_nothing() {
    let mut source = Header::default();
    source.scalars_name = vec!["fine".to_string(), "caf\u{e9}".to_string()];
    let mut target = Header::default();
    target.add_scalar("kept").unwrap();
    assert_eq!(target.copy_scalars(&source), Err(HeaderError::NotAscii));
    assert_eq!(target.scalars_name, vec!["kept".to_string()]);
    assert_eq!(target.raw_header().n_scalars, 1);

    source.properties_name = (0..11).map(|i| format!("p{}", i)).collect();
    assert_eq!(target.copy_properties(&source), Err(HeaderError::Full));
    assert_eq!(target.raw_header().n_properties, 0);

    source.scalars_name = vec!["x".repeat(21)];
    assert_eq!(target.copy_scalars_and_properties(&source), Err(HeaderError::NameTooLong));
    assert_eq!(target.scalars_name, vec!["kept".to_string()]);
}

#[test]
fn test_add_scalar() {
    let torsion = "torsion".to_string();

    let mut header = Header::default();
    header.add_scalar(&torsion).unwrap();
    assert_eq!(header.scalars_name, vec![torsion]);
}

#[test]
#[should_panic]
fn test_too_much_scalars() {
    let mut header = Header::default();
    for _ in 0..11 {
        header.add_scalar("test").unwrap();
    }
}

#[test]
#[should_panic]
fn test_scalar_name_too_long() {
    let mut header = Header::default();
    header.add_scalar("01234567890123456789a").unwrap();
}

#[test]
#[should_panic]
fn test_unicode_scalar() {
    let mut header = Header::default();
    header.add_scalar("平仮名, ひらがな").unwrap();
}

#[test]
fn test_add_property() {
    let torsion = "torsion".to_string();

    let mut header = Header::default();
    header.add_property(&torsion).unwrap();
    assert_eq!(header.properties_name, vec![torsion]);
}

#[test]
#[should_panic]
fn test_too_much_properties() {
    let mut header = Header::default();
    for _ in 0..11 {
        header.add_property("test").unwrap();
    }
}

#[test]
#[should_panic]
fn test_property_name_too_long() {
    let mut header = Header::default();
    header.add_property("01234567890123456789a").unwrap();
}

#[test]
#[should_panic]
fn test_unicode_property() {
    let mut header = Header::default();
    header.add_property("平仮名, ひらがな").unwrap();
}

#[test]
fn test_add_name_errors() {
    let mut header = CHeader::default();
    assert_eq!(header.add_scalar("01234567890123456789a"), Err(HeaderError::NameTooLong));
    assert_eq!(header.add_scalar("\u{e9}t\u{e9}"), Err(HeaderError::NotAscii));
    assert_eq!(header.n_scalars, 0);
    assert_eq!(header.scalar_name, [0u8; 200]);
    assert_eq!(header.add_scalar("01234567890123456789"), Ok(()));
    assert_eq!(&header.scalar_name[..20], b"01234567890123456789");
    for _ in 0..9 {
        header.add_scalar("s").unwrap();
    }
    assert_eq!(header.n_scalars, 10);
    assert_eq!(header.add_scalar("s"), Err(HeaderError::Full));
    // A full table is reported before a name that is too long.
    assert_eq!(header.add_scalar("01234567890123456789a"), Err(HeaderError::Full));
    header.n_properties = -1;
    assert_eq!(header.add_property("p"), Err(HeaderError::Full));
}

#[test]
fn test_clear() {
    let mut header = Header::default();
    header.add_scalar("a").unwrap();
    header.add_property("b").unwrap();
    header.clear_scalars();
    assert!(header.scalars_name.is_empty());
    assert_eq!(header.properties_name, vec!["b".to_string()]);
    assert_eq!(header.raw_header().scalar_name, [0u8; 200]);
    assert_eq!(header.raw_header().n_scalars, 0);
    assert_eq!(header.raw_header().n_properties, 1);
    header.add_scalar("c").unwrap();
    header.clear_scalars_and_properties();
    assert!(header.scalars_name.is_empty());
    assert!(header.properties_name.is_empty());
    assert_eq!(header.raw_header().property_name, [0u8; 200]);
}

#[test]
fn test_read_names_repeats() {
    let mut table = [0u8; 200];
    table[..6].clone_from_slice(b"colors");
    table[7] = b'3';
    table[20..22].clone_from_slice(b"fa");
    let names = read_names(&table).unwrap();
    assert_eq!(
        names,
        vec![
            String::from("colors"),
            String::from("colors"),
            String::from("colors"),
            String::from("fa")
        ]
    );
}

#[test]
fn test_read_names_edges() {
    assert_eq!(read_names(&[0u8; 200]).unwrap(), Vec::<String>::new());

    // A slot without a terminator holds a name of twenty bytes.
    let mut table = [0u8; 200];
    table[..20].clone_from_slice(b"abcdefghijklmnopqrst");
    table[20] = b'z';
    assert_eq!(
        read_names(&table).unwrap(),
        vec![String::from("abcdefghijklmnopqrst"), String::from("z")]
    );

    // The first slot that starts with zero ends the table.
    let mut table = [0u8; 200];
    table[..1].clone_from_slice(b"a");
    table[40] = b'c';
    assert_eq!(read_names(&table).unwrap(), vec![String::from("a")]);

    // The last byte of a slot can hold the mark.
    let mut table = [0u8; 200];
    for b in table[..18].iter_mut() {
        *b = b'n';
    }
    table[19] = b'5';
    assert_eq!(read_names(&table).unwrap(), vec!["n".repeat(18); 5]);

    // A terminator in the last byte leaves no room for a mark.
    let mut table = [0u8; 200];
    for b in table[..19].iter_mut() {
        *b = b'n';
    }
    table[20] = b'7';
    assert_eq!(read_names(&table).unwrap(), vec!["n".repeat(19), "7".to_string()]);

    // The mark '0' drops the name, a mark below '0' is refused.
    let mut table = [0u8; 200];
    table[0] = b'a';
    table[2] = b'0';
    table[20] = b'b';
    assert_eq!(read_names(&table).unwrap(), vec![String::from("b")]);
    table[2] = 3;
    assert_eq!(read_names(&table), Err(HeaderError::InvalidName));

    // A name must be text.
    let mut table = [0u8; 200];
    table[0] = 0xff;
    assert_eq!(read_names(&table), Err(HeaderError::InvalidName));

    // All ten slots in use.
    let mut table = [0u8; 200];
    for k in 0..10 {
        table[20 * k] = b'a' + k as u8;
    }
    assert_eq!(read_names(&table).unwrap().len(), 10);
}

#[test]
fn test_default_header_bytes() {
    let header = CHeader::default();
    let mut bytes = Vec::new();
    header.write(&mut bytes);
    assert_eq!(bytes.len(), HEADER_SIZE);
    assert_eq!(&bytes[..6], b"TRACK\0");
    assert_eq!(&bytes[12..16], &1.0f32.to_le_bytes());
    assert_eq!(&bytes[440..444], &[0x00, 0x00, 0x80, 0x3f]);
    assert_eq!(&bytes[444..448], &[0, 0, 0, 0]);
    assert_eq!(&bytes[948..952], b"RAS\0");
    assert_eq!(&bytes[988..992], &[0, 0, 0, 0]);
    assert_eq!(&bytes[992..996], &[2, 0, 0, 0]);
    assert_eq!(&bytes[996..1000], &[0xe8, 0x03, 0, 0]);
}

fn sample_header() -> CHeader {
    let mut header = CHeader::default();
    header.dim = [-3, 256, 32767];
    header.voxel_size = [2.5f32.to_bits(), 0.5f32.to_bits(), f32::NAN.to_bits()];
    header.origin = [(-1.0f32).to_bits(), 0, 7];
    header.vox_to_ras[3] = 91.0f32.to_bits();
    header.reserved[443] = 9;
    header.voxel_order = *b"LPS\0";
    header.pad2 = [1, 2, 3, 4];
    header.image_orientation_patient[5] = 0xdead_beef;
    header.pad1 = [5, 6];
    header.invert_x = 1;
    header.swap_z = 2;
    header.n_count = -7;
    header.version = 1;
    header.hdr_size = 1000;
    header.add_scalar("fa").unwrap();
    header.add_property("length").unwrap();
    header
}

fn same(a: &CHeader, b: &CHeader) -> bool {
    let mut x = Vec::new();
    let mut y = Vec::new();
    a.write(&mut x);
    b.write(&mut y);
    x == y
}

#[test]
fn test_header_round_trip() {
    let header = sample_header();
    let mut bytes = vec![0xaa, 0xbb];
    header.write(&mut bytes);
    assert_eq!(bytes.len(), 2 + HEADER_SIZE);
    assert_eq!(&bytes[..2], &[0xaa, 0xbb]);
    let (back, endianness) = CHeader::read(&bytes[2..]).unwrap();
    assert_eq!(endianness, Endianness::Little);
    assert!(same(&back, &header));
    assert_eq!(back.dim, [-3, 256, 32767]);
    assert_eq!(back.n_count, -7);
    assert_eq!(back.voxel_size[2], f32::NAN.to_bits());
    assert_eq!(back.image_orientation_patient[5], 0xdead_beef);
    assert_eq!(back.scalar_name[..3], *b"fa\0");
}

#[test]
fn test_endianness_detection() {
    let mut header = CHeader::default();
    header.version = 2;
    header.dim = [1, 258, -2];
    header.n_count = 66051;
    let mut little = Vec::new();
    header.write(&mut little);
    assert_eq!(&little[992..996], &[2, 0, 0, 0]);
    let (back, endianness) = CHeader::read(&little).unwrap();
    assert_eq!(endianness, Endianness::Little);
    assert_eq!(back.version, 2);

    // Read the other way round, the bytes of version 2 are those of 33554432.
    let big = big_endian_twin(&little);
    assert_eq!(&big[992..996], &[0, 0, 0, 2]);
    let (back, endianness) = CHeader::read(&big).unwrap();
    assert_eq!(endianness, Endianness::Big);
    assert_eq!(back.version, 2);
    assert_eq!(back.dim, [1, 258, -2]);
    assert_eq!(back.n_count, 66051);
    assert_eq!(back.hdr_size, 1000);
    assert_eq!(back.voxel_size, [1.0f32.to_bits(); 3]);
    assert!(same(&back, &header));

    // A version field that reads 512 lowest byte first is big-endian too.
    let mut odd = little.clone();
    odd[992..996].copy_from_slice(&[0, 2, 0, 0]);
    assert_eq!(CHeader::read(&odd).unwrap().1, Endianness::Big);
    // 255 is the last little-endian version, and a negative one is little-endian.
    odd[992..996].copy_from_slice(&[255, 0, 0, 0]);
    assert_eq!(CHeader::read(&odd).unwrap().1, Endianness::Little);
    odd[992..996].copy_from_slice(&[0, 1, 0, 0]);
    assert_eq!(CHeader::read(&odd).unwrap().1, Endianness::Big);
    odd[992..996].copy_from_slice(&[0, 0, 0, 0x80]);
    assert_eq!(CHeader::read(&odd).unwrap().1, Endianness::Little);
}

#[test]
fn test_truncated_header() {
    assert!(matches!(CHeader::read(&[]), Err(HeaderError::Truncated)));
    assert!(matches!(CHeader::read(&[0u8; 999]), Err(HeaderError::Truncated)));
    assert!(CHeader::read(&[0u8; 1000]).is_ok());
    assert!(CHeader::read(&[0u8; 1001]).is_ok());
}

#[test]
fn test_patch_n_count() {
    let mut bytes = Vec::new();
    CHeader::default().write(&mut bytes);
    bytes.extend_from_slice(&[9, 9, 9]);
    let before = bytes.clone();
    patch_n_count(&mut bytes, 0x0102_0304);
    assert_eq!(N_COUNT_OFFSET, 988);
    assert_eq!(&bytes[988..992], &[4, 3, 2, 1]);
    assert_eq!(&bytes[..988], &before[..988]);
    assert_eq!(&bytes[992..], &before[992..]);
    assert_eq!(CHeader::read(&bytes).unwrap().0.n_count, 0x0102_0304);
    patch_n_count(&mut bytes, -2);
    assert_eq!(&bytes[988..992], &[0xfe, 0xff, 0xff, 0xff]);
}

#[test]
fn test_from_raw() {
    let mut raw = sample_header();
    raw.n_count = 12;
    raw.scalar_name[3] = b'2';
    let mut affine4 = [0u32; 16];
    for (i, v) in affine4.iter_mut().enumerate() {
        *v = 100 + i as u32;
    }
    let header = Header::from_raw(raw, affine4).unwrap();
    assert_eq!(header.nb_streamlines, 12);
    assert_eq!(header.scalars_name, vec!["fa".to_string(), "fa".to_string()]);
    assert_eq!(header.properties_name, vec!["length".to_string()]);
    assert_eq!(header.affine4_to_rasmm, affine4);
    assert_eq!(header.affine_to_rasmm, [100, 101, 102, 104, 105, 106, 108, 109, 110]);
    assert_eq!(header.translation, [112, 113, 114]);
    assert!(same(&header.raw_header(), &raw));

    raw.n_count = -1;
    assert_eq!(Header::from_raw(raw, affine4).unwrap().nb_streamlines, usize::MAX);

    raw.property_name[0] = 0xc0;
    assert!(matches!(Header::from_raw(raw, affine4), Err(HeaderError::InvalidName)));
}

#[test]
fn test_default_header() {
    let header = Header::default();
    let one = 1.0f32.to_bits();
    assert_eq!(header.affine_to_rasmm, [one, 0, 0, 0, one, 0, 0, 0, one]);
    assert_eq!(header.translation, [0, 0, 0]);
    assert_eq!(header.affine4_to_rasmm[15], one);
    assert_eq!(header.nb_streamlines, 0);
    assert!(header.scalars_name.is_empty());
    let mut bytes = Vec::new();
    header.write(&mut bytes);
    let mut raw = Vec::new();
    CHeader::default().write(&mut raw);
    assert_eq!(bytes, raw);
}

#[test]
fn test_from_nifti() {
    let f = |v: f32| v.to_bits();
    let rotation = [f(-1.0), 0, 0, 0, f(1.0), 0, 0, 0, f(1.0)];
    let header = CHeader::from_nifti(
        [3, 10, 11, 12, 1, 1, 1, 1],
        [f(-1.0), f(2.0), f(3.0), f(4.0), 0, 0, 0, 0],
        [f(-2.0), 0, 0, f(90.0)],
        [0, f(3.0), 0, f(-126.0)],
        [0, 0, f(4.0), f(-72.0)],
        &rotation,
    );
    assert_eq!(header.dim, [10, 11, 12]);
    assert_eq!(header.voxel_size, [f(2.0), f(3.0), f(4.0)]);
    assert_eq!(&header.voxel_order, b"LAS\0");
    assert_eq!(header.vox_to_ras[..4], [f(-2.0), 0, 0, f(90.0)]);
    assert_eq!(header.vox_to_ras[12..], [0, 0, 0, f(1.0)]);
    assert_eq!(header.version, 2);
    assert_eq!(&header.id_string, b"TRACK\0");
    let wrapped = CHeader::from_nifti([0, 40000, 0, 0, 0, 0, 0, 0], [0; 8], [0; 4], [0; 4], [0; 4], &rotation);
    assert_eq!(wrapped.dim[0], -25536);
}

#[test]
fn test_orientation_correction() {
    let f = |v: f32| v.to_bits();
    let identity = [f(1.0), 0, 0, 0, f(1.0), 0, 0, 0, f(1.0)];
    let mut header = CHeader::default();
    header.dim = [10, 20, 30];
    assert_eq!(
        header.get_orientation_correction(&identity).unwrap(),
        [[1, 0, 0, 0], [0, 1, 0, 0], [0, 0, 1, 0], [0, 0, 0, 1]]
    );
    header.voxel_order = *b"LPS\0";
    assert_eq!(
        header.get_orientation_correction(&identity).unwrap(),
        [[-1, 0, 0, 9], [0, -1, 0, 19], [0, 0, 1, 0], [0, 0, 0, 1]]
    );
    header.voxel_order = [0xff, b'A', b'S', 0];
    assert_eq!(
        header.get_orientation_correction(&identity),
        Err(HeaderError::InvalidVoxelOrder)
    );
}

#[test]
fn test_endianness_in_words() {
    assert_eq!(Endianness::Little.describe(), "< (Little)");
    assert_eq!(Endianness::Big.describe(), "> (Big)");
}

#[test]
fn test_simple_header_from_nifti() {
    let f = |v: f32| v.to_bits();
    let floats = |bits: &[u32]| bits.iter().map(|b| f32::from_bits(*b)).collect::<Vec<f32>>();
    // The rotation nearest to a positive scaling is the identity.
    let rotation = [f(1.0), 0, 0, 0, f(1.0), 0, 0, 0, f(1.0)];
    let c_header = CHeader::from_nifti(
        [3, 100, 100, 100, 0, 0, 0, 0],
        [f(3.0), f(1.1), f(1.2), f(1.3), f(0.0), f(0.0), f(0.0), f(0.0)],
        [f(1.1), f(0.0), f(0.0), f(10.0)],
        [f(0.0), f(1.2), f(0.0), f(11.0)],
        [f(0.0), f(0.0), f(1.3), f(12.0)],
        &rotation,
    );
    assert_eq!(c_header.dim, [100, 100, 100]);
    assert_eq!(floats(&c_header.voxel_size), [1.1, 1.2, 1.3]);
    assert_eq!(
        floats(&c_header.vox_to_ras),
        [
            1.1, 0.0, 0.0, 10.0,
            0.0, 1.2, 0.0, 11.0,
            0.0, 0.0, 1.3, 12.0,
            0.0, 0.0, 0.0, 1.0,
        ]
    );
    assert_eq!(c_header.voxel_order, *b"RAS\0");
}
