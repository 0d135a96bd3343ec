use isopatch::apply::{absolute_offset, apply_patch_set};
use isopatch::container::{build_container, parse_patch_set, payload_region_start, read_u32_le};
use isopatch::record::{PatchRecord, PatchSet};
use isopatch::variant::{resolve_variant, Variant, HD_BASE_ADDRESS, NORMAL_BASE_ADDRESS};

/// Little-endian u32 encoding helper for hand-built containers.
fn le(x: u32) -> [u8; 4] {
    [
        (x & 0xFF) as u8,
        ((x >> 8) & 0xFF) as u8,
        ((x >> 16) & 0xFF) as u8,
        ((x >> 24) & 0xFF) as u8,
    ]
}

/// Builds a container by hand from (offset, payload) pairs, per the format:
/// count, header table, zero padding to the next multiple of 16, payloads.
fn make_container(records: &[(u32, &[u8])]) -> Vec<u8> {
    let mut out = Vec::new();
    out.extend_from_slice(&le(records.len() as u32));
    for (offset, data) in records {
        out.extend_from_slice(&le(*offset));
        out.extend_from_slice(&le(data.len() as u32));
    }
    let start = payload_region_start(records.len() as u64) as usize;
    while out.len() < start {
        out.push(0);
    }
    for (_, data) in records {
        out.extend_from_slice(data);
    }
    out
}

#[test]
fn read_u32_le_exact_value() {
    let bytes = vec![0x78, 0x56, 0x34, 0x12, 0xFF];
    assert_eq!(read_u32_le(&bytes, 0), 0x12345678);
    assert_eq!(read_u32_le(&bytes, 1), 0xFF123456);
}

#[test]
fn payload_start_alignment_scenarios() {
    // For zero records the header region is 4 bytes; payloads start at 16.
    assert_eq!(payload_region_start(0), 16);
    // One record: header ends at byte 12, payloads start at 16.
    assert_eq!(payload_region_start(1), 16);
    // Two records: header ends at byte 20, payloads start at 32.
    assert_eq!(payload_region_start(2), 32);
    assert_eq!(payload_region_start(3), 32);
    assert_eq!(payload_region_start(4), 48);
}

#[test]
fn parse_empty_container() {
    let bytes = vec![0, 0, 0, 0];
    let ps = parse_patch_set(&bytes).unwrap();
    assert_eq!(ps.len(), 0);
}

#[test]
fn parse_single_record() {
    let bytes = make_container(&[(0x10, &[0xAA, 0xBB, 0xCC, 0xDD])]);
    assert_eq!(bytes.len(), 20);
    let ps = parse_patch_set(&bytes).unwrap();
    assert_eq!(ps.len(), 1);
    assert_eq!(ps.records[0].offset, 0x10);
    assert_eq!(ps.records[0].data, vec![0xAA, 0xBB, 0xCC, 0xDD]);
}

#[test]
fn parse_packs_payloads_contiguously() {
    // Three payloads of different lengths: each must be read exactly where
    // the previous one ends, with no gap.
    let bytes = make_container(&[(0, &[1, 2, 3]), (10, &[4]), (20, &[5, 6, 7, 8, 9])]);
    let ps = parse_patch_set(&bytes).unwrap();
    assert_eq!(ps.len(), 3);
    assert_eq!(ps.records[0].data, vec![1, 2, 3]);
    assert_eq!(ps.records[1].data, vec![4]);
    assert_eq!(ps.records[2].data, vec![5, 6, 7, 8, 9]);
    // The blobs sit back to back right after the padded header region.
    let start = payload_region_start(3) as usize;
    assert_eq!(&bytes[start..start + 3], &[1, 2, 3]);
    assert_eq!(&bytes[start + 3..start + 4], &[4]);
    assert_eq!(&bytes[start + 4..start + 9], &[5, 6, 7, 8, 9]);
}

#[test]
fn parse_zero_length_payload() {
    let bytes = make_container(&[(7, &[]), (9, &[0x42])]);
    let ps = parse_patch_set(&bytes).unwrap();
    assert_eq!(ps.len(), 2);
    assert_eq!(ps.records[0].offset, 7);
    assert_eq!(ps.records[0].data, Vec::<u8>::new());
    assert_eq!(ps.records[1].data, vec![0x42]);
}

#[test]
fn parse_rejects_short_input() {
    assert!(parse_patch_set(&vec![]).is_err());
    assert!(parse_patch_set(&vec![1, 0]).is_err());
    assert!(parse_patch_set(&vec![1, 0, 0]).is_err());
}

#[test]
fn parse_rejects_truncated_header() {
    // Two records declared, but the table for the second is cut off.
    let mut bytes = vec![0u8; 0];
    bytes.extend_from_slice(&le(2));
    bytes.extend_from_slice(&le(0));
    bytes.extend_from_slice(&le(4));
    assert!(parse_patch_set(&bytes).is_err());
}

#[test]
fn parse_rejects_truncated_payload() {
    // One record declaring a 4-byte payload, but the container ends before
    // it: fewer than 4 + 8 + 4 total bytes. The patch set is never built.
    let mut bytes = vec![0u8; 0];
    bytes.extend_from_slice(&le(1));
    bytes.extend_from_slice(&le(0x10));
    bytes.extend_from_slice(&le(4));
    assert_eq!(bytes.len(), 12);
    assert!(parse_patch_set(&bytes).is_err());
    // Even with the padding present, a payload shorter than declared fails.
    let mut padded = bytes.clone();
    padded.resize(16, 0);
    padded.extend_from_slice(&[0xAA, 0xBB]);
    assert!(parse_patch_set(&padded).is_err());
}

#[test]
fn build_then_parse_round_trip() {
    let ps = PatchSet {
        records: vec![
            PatchRecord { offset: 0, data: vec![9, 8, 7] },
            PatchRecord { offset: 0x123, data: vec![] },
            PatchRecord { offset: 0xFFFF_FFFF, data: vec![1; 40] },
        ],
    };
    let bytes = build_container(&ps).unwrap();
    let parsed = parse_patch_set(&bytes).unwrap();
    assert_eq!(parsed.len(), 3);
    for i in 0..3 {
        assert_eq!(parsed.records[i].offset, ps.records[i].offset);
        assert_eq!(parsed.records[i].data, ps.records[i].data);
    }
}

#[test]
fn build_matches_hand_layout() {
    let ps = PatchSet {
        records: vec![PatchRecord { offset: 0x10, data: vec![0xAA, 0xBB, 0xCC, 0xDD] }],
    };
    let bytes = build_container(&ps).unwrap();
    let expected = make_container(&[(0x10, &[0xAA, 0xBB, 0xCC, 0xDD])]);
    assert_eq!(bytes, expected);
}

#[test]
fn build_rejects_oversized_offset() {
    let ps = PatchSet {
        records: vec![PatchRecord { offset: 0x1_0000_0000, data: vec![1] }],
    };
    assert!(build_container(&ps).is_err());
}

#[test]
fn resolve_variant_selection() {
    // Both cases of the selector resolve to the HD base address.
    assert_eq!(resolve_variant("h").unwrap(), Variant::Hd);
    assert_eq!(resolve_variant("H").unwrap(), Variant::Hd);
    assert_eq!(resolve_variant("h").unwrap().base_address(), 0x6D60000);
    assert_eq!(resolve_variant("H").unwrap().base_address(), 0x6D60000);
    assert_eq!(resolve_variant("n").unwrap(), Variant::Normal);
    assert_eq!(resolve_variant("N").unwrap(), Variant::Normal);
    assert_eq!(resolve_variant("n").unwrap().base_address(), 0x6D50000);
    // Anything else is a configuration error.
    assert!(resolve_variant("").is_err());
    assert!(resolve_variant("x").is_err());
    assert!(resolve_variant("hd").is_err());
    assert!(resolve_variant("hh").is_err());
    assert!(resolve_variant(" n").is_err());
}

#[test]
fn base_address_constants() {
    assert_eq!(Variant::Normal.base_address(), NORMAL_BASE_ADDRESS);
    assert_eq!(Variant::Hd.base_address(), HD_BASE_ADDRESS);
    assert_eq!(NORMAL_BASE_ADDRESS, 0x6D50000);
    assert_eq!(HD_BASE_ADDRESS, 0x6D60000);
}

#[test]
fn absolute_offset_addition() {
    assert_eq!(absolute_offset(0x10, 0x6D50000), Some(0x6D50010));
    assert_eq!(absolute_offset(4, u64::MAX - 4), Some(u64::MAX));
    assert_eq!(absolute_offset(5, u64::MAX - 4), None);
}

#[test]
fn apply_writes_each_record() {
    let mut image = vec![0u8; 64];
    let ps = PatchSet {
        records: vec![
            PatchRecord { offset: 0, data: vec![1, 2] },
            PatchRecord { offset: 30, data: vec![3] },
        ],
    };
    apply_patch_set(&mut image, &ps, 16).unwrap();
    assert_eq!(&image[16..18], &[1, 2]);
    assert_eq!(image[46], 3);
    assert_eq!(image[15], 0);
    assert_eq!(image[18], 0);
    assert_eq!(image[45], 0);
    assert_eq!(image[47], 0);
}

#[test]
fn apply_last_write_wins_on_overlap() {
    let mut image = vec![0u8; 32];
    let ps = PatchSet {
        records: vec![
            PatchRecord { offset: 4, data: vec![0x11, 0x11, 0x11, 0x11] },
            PatchRecord { offset: 6, data: vec![0x22, 0x22] },
        ],
    };
    apply_patch_set(&mut image, &ps, 0).unwrap();
    // The overlapping span holds the later record's bytes.
    assert_eq!(&image[4..8], &[0x11, 0x11, 0x22, 0x22]);
}

#[test]
fn apply_twice_is_idempotent() {
    let mut once = (0u8..=255).collect::<Vec<u8>>();
    let ps = PatchSet {
        records: vec![
            PatchRecord { offset: 10, data: vec![0xAA; 20] },
            PatchRecord { offset: 15, data: vec![0xBB; 5] },
            PatchRecord { offset: 200, data: vec![0xCC] },
        ],
    };
    apply_patch_set(&mut once, &ps, 3).unwrap();
    let mut twice = once.clone();
    apply_patch_set(&mut twice, &ps, 3).unwrap();
    assert_eq!(twice, once);
}

#[test]
fn apply_rejects_out_of_range_and_leaves_image_untouched() {
    let mut image = vec![7u8; 16];
    let ps = PatchSet {
        records: vec![
            PatchRecord { offset: 0, data: vec![1] },
            PatchRecord { offset: 14, data: vec![2, 3, 4] },
        ],
    };
    assert!(apply_patch_set(&mut image, &ps, 0).is_err());
    assert_eq!(image, vec![7u8; 16]);
    // An offset that overflows the address space is rejected the same way.
    let ps = PatchSet {
        records: vec![PatchRecord { offset: u64::MAX, data: vec![1] }],
    };
    assert!(apply_patch_set(&mut image, &ps, 16).is_err());
    assert_eq!(image, vec![7u8; 16]);
}

#[test]
fn end_to_end_normal_variant() {
    // A container with one record {offset 0x10, length 4}, payload
    // AA BB CC DD, applied for the normal variant: the image bytes at
    // [0x6D50010, 0x6D50014) change and every other byte is untouched.
    let bytes = make_container(&[(0x10, &[0xAA, 0xBB, 0xCC, 0xDD])]);
    let ps = parse_patch_set(&bytes).unwrap();
    let variant = resolve_variant("n").unwrap();
    assert_eq!(variant, Variant::Normal);
    let base = variant.base_address();

    let len = 0x6D50020usize;
    let mut image = vec![0x55u8; len];
    let mut expected = image.clone();
    expected[0x6D50010] = 0xAA;
    expected[0x6D50011] = 0xBB;
    expected[0x6D50012] = 0xCC;
    expected[0x6D50013] = 0xDD;

    apply_patch_set(&mut image, &ps, base).unwrap();
    assert_eq!(&image[0x6D50010..0x6D50014], &[0xAA, 0xBB, 0xCC, 0xDD]);
    assert!(image == expected);
}
