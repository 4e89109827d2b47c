use nse::error::NseError;
use nse::format::{
    encode_nse_file, view_file, MicroExpertMeta, NSEFileHeader, NseFileView, HEADER_SIZE, NSE_MAGIC,
    NSE_VERSION,
};

fn bits(v: &[f32]) -> Vec<u32> {
    v.iter().map(|x| x.to_bits()).collect()
}

#[test]
fn header_roundtrip() {
    let h = NSEFileHeader::new(123_456_789, 32);
    let enc = h.encode();
    assert_eq!(enc.len() as u64, HEADER_SIZE);
    let dec = NSEFileHeader::decode(&enc).unwrap();
    assert_eq!(h, dec);
}

#[test]
fn bad_magic_rejected() {
    let mut h = NSEFileHeader::new(0, 0);
    h.magic = *b"NSE2";
    let enc = h.encode();
    assert!(matches!(
        NSEFileHeader::decode(&enc),
        Err(NseError::BadMagic { .. })
    ));
}

#[test]
fn micro_expert_roundtrip() {
    let meta = MicroExpertMeta {
        expert_id: 7,
        num_channels: 64,
        data_offset: 0x1000,
    };
    let centroid = bits(&[0.1, -0.2, 0.3, 0.0]);
    let enc = meta.encode(&centroid);
    let (dec, used) = MicroExpertMeta::decode(&enc, 4).unwrap();
    assert_eq!(used, enc.len());
    assert_eq!(meta, dec);
}

#[test]
fn full_file_roundtrip() {
    let header = NSEFileHeader::new(1_000_000, 4);
    let header = NSEFileHeader { centroid_dim: 2, ..header };
    let dense_core = vec![0xAAu8; 32];
    let codebook = vec![0u8; 0];
    let me1 = (
        MicroExpertMeta { expert_id: 0, num_channels: 8, data_offset: 0 },
        bits(&[0.5, -0.5]),
    );
    let me2 = (
        MicroExpertMeta { expert_id: 1, num_channels: 8, data_offset: 16 },
        bits(&[0.25, 0.75]),
    );
    let me_data = vec![0b01_10_00_01u8; 16];
    let index_tree = vec![0xCCu8; 8];

    let buf = encode_nse_file(
        &header,
        &dense_core,
        &codebook,
        &[me1.clone(), me2.clone()],
        &me_data,
        &index_tree,
    )
    .unwrap();

    let decoded = NSEFileHeader::decode(&buf).unwrap();
    assert!(NseFileView::can_slice(buf.len(), &decoded));
    let view = NseFileView::from_bytes(&buf, decoded).unwrap();
    assert_eq!(view.header.num_micro_experts, 2);
    assert_eq!(view.header.centroid_dim, 2);
    assert_eq!(view.dense_core, &dense_core[..]);
    assert_eq!(view.micro_expert_data, &me_data[..]);
    assert_eq!(view.index_tree, &index_tree[..]);

    let experts = view.micro_experts().unwrap();
    assert_eq!(experts.len(), 2);
    assert_eq!(experts[0].0, me1.0);
    assert_eq!(experts[0].1, me1.1);
    assert_eq!(experts[1].0, me2.0);
    assert_eq!(experts[1].1, me2.1);
}

#[test]
fn new_header_is_empty() {
    let h = NSEFileHeader::new(5, 2);
    assert_eq!(h.magic, NSE_MAGIC);
    assert_eq!(h.version, NSE_VERSION);
    assert_eq!(h.dense_core_offset, 0);
    assert_eq!(h.index_tree_offset, 0);
    assert_eq!(h.dense_core_size, 0);
}

#[test]
fn header_starts_with_magic_and_version() {
    let enc = NSEFileHeader::new(0x0102030405060708, 9).encode();
    assert_eq!(&enc[0..4], b"NSE1");
    assert_eq!(&enc[4..8], &NSE_VERSION.to_le_bytes());
    assert_eq!(&enc[8..16], &[8, 7, 6, 5, 4, 3, 2, 1]);
    assert_eq!(&enc[16..20], &[9, 0, 0, 0]);
}

#[test]
fn short_header_rejected() {
    let enc = NSEFileHeader::new(1, 1).encode();
    assert!(matches!(
        NSEFileHeader::decode(&enc[..enc.len() - 1]),
        Err(NseError::InvalidFile(_))
    ));
}

#[test]
fn other_version_rejected() {
    let mut h = NSEFileHeader::new(1, 1);
    h.version = NSE_VERSION + 1;
    let got = NSEFileHeader::decode(&h.encode());
    assert!(matches!(got, Err(NseError::UnsupportedVersion(v)) if v == NSE_VERSION + 1));
}

#[test]
fn short_expert_rejected() {
    let meta = MicroExpertMeta { expert_id: 1, num_channels: 2, data_offset: 3 };
    let enc = meta.encode(&bits(&[1.0, 2.0]));
    assert_eq!(enc.len() as u64, MicroExpertMeta::on_disk_size(2));
    assert!(MicroExpertMeta::decode(&enc[..enc.len() - 1], 2).is_err());
}

#[test]
fn truncated_file_rejected() {
    let header = NSEFileHeader::new(1, 1);
    let buf = encode_nse_file(&header, &[1, 2, 3], &[], &[], &[4, 5], &[6]).unwrap();
    let decoded = NSEFileHeader::decode(&buf).unwrap();
    let cut = &buf[..HEADER_SIZE as usize + 1];
    if NseFileView::can_slice(cut.len(), &decoded) {
        assert!(NseFileView::from_bytes(cut, decoded).is_err());
    }
}

#[test]
fn whole_files_are_cut() {
    let header = NSEFileHeader::new(1, 1);
    let buf = encode_nse_file(&header, &[1, 2, 3], &[9], &[], &[4, 5], &[6]).unwrap();
    let view = view_file(&buf).unwrap();
    assert_eq!(view.dense_core, &[1, 2, 3]);
    assert_eq!(view.codebook, &[9]);
    assert_eq!(view.micro_expert_data, &[4, 5]);
    assert_eq!(view.index_tree, &[6]);
    assert!(matches!(view_file(&buf[..50]), Err(NseError::InvalidFile(_))));
    let mut other = buf.clone();
    other[0] = b'X';
    assert!(matches!(view_file(&other), Err(NseError::BadMagic { .. })));
    let mut tangled = NSEFileHeader::decode(&buf).unwrap();
    tangled.micro_expert_meta_offset = tangled.micro_expert_data_offset + 1;
    let mut bytes = tangled.encode();
    bytes.extend_from_slice(&buf[HEADER_SIZE as usize..]);
    assert!(matches!(
        view_file(&bytes),
        Err(NseError::InvalidFile(m)) if m == "section offsets out of order"
    ));
}

#[test]
fn error_messages() {
    assert_eq!(NseError::UnsupportedVersion(7).message(), "unsupported NSE version: 7");
    assert_eq!(
        NseError::IndexOutOfBounds { index: 10, len: 3 }.message(),
        "index out of bounds: 10 (len 3)"
    );
    assert_eq!(NseError::InvalidFile(String::from("x")).message(), "invalid NSE file: x");
    assert_eq!(
        NseError::BadMagic { expected: *b"NSE1", got: *b"ABCD" }.message(),
        "invalid magic: expected [78, 83, 69, 49], got [65, 66, 67, 68]"
    );
    assert_eq!(
        NseError::ShapeMismatch { expected: vec![2, 3], got: vec![5] }.message(),
        "shape mismatch: expected [2, 3], got [5]"
    );
}
