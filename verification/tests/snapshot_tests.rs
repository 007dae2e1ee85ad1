use exchange_core::snapshot::{ReplaySnapshot, SnapshotError, SNAPSHOT_HEADER_LEN};

#[test]
fn framed_snapshot_passes_its_checks() {
    let payload = vec![1u8, 2, 3, 4, 5, 6, 7];
    let bytes = ReplaySnapshot::frame(42, &payload);
    assert_eq!(bytes.len(), SNAPSHOT_HEADER_LEN + payload.len());
    assert_eq!(&bytes[0..4], b"SES1");
    assert_eq!(&bytes[4..6], &1u16.to_le_bytes());
    assert_eq!(&bytes[6..8], &[0u8, 0]);
    assert_eq!(&bytes[8..16], &42u64.to_le_bytes());
    assert_eq!(&bytes[16..24], &7u64.to_le_bytes());
    assert_eq!(&bytes[28..], &payload[..]);
    assert!(matches!(ReplaySnapshot::unframe(&bytes), Ok(42)));
}

#[test]
fn empty_payload_snapshot_checksum_is_crc_of_nothing() {
    let bytes = ReplaySnapshot::frame(0, &[]);
    assert_eq!(bytes.len(), SNAPSHOT_HEADER_LEN);
    assert_eq!(&bytes[24..28], &0u32.to_le_bytes());
    assert!(matches!(ReplaySnapshot::unframe(&bytes), Ok(0)));
}

#[test]
fn short_snapshot_is_truncated() {
    let bytes = ReplaySnapshot::frame(9, &[1, 2, 3]);
    assert!(matches!(ReplaySnapshot::unframe(&bytes[..20]), Err(SnapshotError::Truncated)));
    assert!(matches!(ReplaySnapshot::unframe(&bytes[..bytes.len() - 1]), Err(SnapshotError::Truncated)));
}

#[test]
fn snapshot_with_wrong_magic_is_refused() {
    let mut bytes = ReplaySnapshot::frame(9, &[1, 2, 3]);
    bytes[0] = b'X';
    assert!(matches!(ReplaySnapshot::unframe(&bytes), Err(SnapshotError::InvalidHeader("bad magic"))));
}

#[test]
fn snapshot_of_another_version_is_refused() {
    let mut bytes = ReplaySnapshot::frame(9, &[1, 2, 3]);
    bytes[4] = 2;
    assert!(matches!(ReplaySnapshot::unframe(&bytes), Err(SnapshotError::UnsupportedVersion(2))));
}

#[test]
fn corrupted_snapshot_payload_fails_its_checksum() {
    let mut bytes = ReplaySnapshot::frame(9, &[1, 2, 3]);
    let good = u32::from_le_bytes([bytes[24], bytes[25], bytes[26], bytes[27]]);
    bytes[29] ^= 0x10;
    match ReplaySnapshot::unframe(&bytes) {
        Err(SnapshotError::ChecksumMismatch { expected, actual }) => {
            assert_eq!(expected, good);
            assert_ne!(actual, good);
        }
        _ => panic!("corruption went unnoticed"),
    }
}
