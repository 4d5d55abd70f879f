use unix_1972_bits::tap::{Epoch, Header, Mode, Time};

fn record(path: &[u8], mode: u8, size: u16, block: u16, mtime: [u8; 4]) -> [u8; 64] {
    let mut raw = [0u8; 64];
    raw[..path.len()].copy_from_slice(path);
    raw[32] = mode;
    raw[33] = 3;
    raw[34..36].copy_from_slice(&size.to_le_bytes());
    raw[36..40].copy_from_slice(&mtime);
    raw[40..42].copy_from_slice(&block.to_le_bytes());
    let mut sum = 0u16;
    for w in raw.chunks_exact(2) {
        sum = sum.wrapping_add(u16::from_le_bytes([w[0], w[1]]));
    }
    raw[62..64].copy_from_slice(&0u16.wrapping_sub(sum).to_le_bytes());
    raw
}

#[test]
fn header_fields() {
    let raw = record(b"/usr/src/a.c", 0o16, 700, 3, [0x01, 0x00, 0x10, 0x00]);
    let h = Header::parse(&raw).unwrap();
    assert!(h.valid());
    assert_eq!(h.path(), b"/usr/src/a.c");
    assert_eq!(h.size(), 700);
    assert_eq!(h.block(), 3);
    assert_eq!(h.offset(), 1536);
    assert_eq!(h.range(), 1536..2236);
    assert_eq!(h.mtime().0, 0x0001_0010);
    assert_eq!(h.mode().0, 0o16);
    assert_eq!(h.to_bytes(), raw.to_vec());
    assert_eq!(h.cksum(), u16::from_le_bytes([raw[62], raw[63]]));
}

#[test]
fn header_rejects_zero_and_bad_checksum() {
    assert!(Header::parse(&[0u8; 64]).is_none());
    let mut raw = record(b"/x", 0o17, 1, 1, [0; 4]);
    raw[5] ^= 1;
    assert!(Header::parse(&raw).is_none());
    assert!(!Header::from_bytes(&raw).valid());
}

#[test]
fn mode_conversion() {
    assert_eq!(Mode(0o77).to_posix(), 0o4777);
    assert_eq!(Mode(0o14).to_posix(), 0o600);
    assert_eq!(Mode(0o36).to_posix(), 0o755);
    assert_eq!(Mode::from_posix(0o644).0, 0o16);
    assert_eq!(Mode::from_posix(0o4755).0, 0o76);
    assert_eq!(Mode::from_posix(0o002).0, 0o01);
}

#[test]
fn time_seconds_range() {
    let min = Time(0).timestamp(Epoch::Y1970).as_second();
    assert_eq!(min, 0);
    let max = Time(u32::MAX).timestamp(Epoch::Y1973).as_second();
    assert!(max < u32::MAX as i64);
}

#[test]
fn epoch_seconds_since_1970() {
    assert_eq!(Epoch::Y1971.timestamp().as_second(), 31536000);
    assert_eq!(Epoch::Y1972.timestamp().as_second(), 63072000);
}

#[test]
fn time_in_seconds() {
    assert_eq!(Time(125).seconds(Epoch::Y1970), 2);
    assert_eq!(Time(125).subseconds(), 5);
    assert_eq!(Time(600).seconds(Epoch::Y1973), 94694400 + 10);
    assert_eq!(Time(61).timestamp_seconds(Epoch::Y1971).as_second(), 31536001);
    assert_eq!(Epoch::Y1972.year(), 1972);
}

#[test]
fn time_format() {
    assert_eq!(Time(0).text(Epoch::Y1972), "1972-01-01 00:00:00:00 (0)");
    assert_eq!(Time(11).text(Epoch::Y1970), "1970-01-01 00:00:00:11 (11)");
    assert_eq!(Time(22).text(Epoch::Y1971), "1971-01-01 00:00:00:22 (22)");
    assert_eq!(Time(33).text(Epoch::Y1972), "1972-01-01 00:00:00:33 (33)");
    assert_eq!(Time(44).text(Epoch::Y1973), "1973-01-01 00:00:00:44 (44)");
}

#[test]
fn time_text_counts_whole_seconds() {
    assert_eq!(
        Time(60 * 86400 + 60 * 3661 + 7).text(Epoch::Y1970),
        "1970-01-02 01:01:01:07 (5403667)"
    );
}
