use card_o_matic::link::{Link, LinkEvent};
use card_o_matic::sd::{capacity_from_csd, SdCardError};
use card_o_matic::wire::{push_dword_le, read_dword_le, Command, Status};

#[test]
fn dword_le_decodes() {
    let b = [0x01, 0x02, 0x03, 0x04, 0x05, 0x06, 0x07, 0x08, 0xAA];
    assert_eq!(read_dword_le(&b), 0x0807060504030201);
}

#[test]
fn dword_le_round_trip() {
    for &w in &[0u64, 1, 0x1122334455667788, u64::MAX] {
        let mut out = vec![0xEEu8];
        push_dword_le(&mut out, w);
        assert_eq!(out.len(), 9);
        assert_eq!(&out[1..], &w.to_le_bytes());
        assert_eq!(read_dword_le(&out[1..]), w);
    }
}

#[test]
fn command_frames_parse() {
    assert_eq!(Command::try_from(&[0x02, 0x01]), Ok(Command::Status(1)));
    let mut read = vec![0x03];
    read.extend(42u64.to_le_bytes());
    assert_eq!(Command::try_from(&read), Ok(Command::Read(42)));
    let mut write = vec![0x04];
    write.extend(0x0102030405060708u64.to_le_bytes());
    assert_eq!(Command::try_from(&write), Ok(Command::Write(0x0102030405060708)));
}

#[test]
fn malformed_frames_are_refused() {
    assert_eq!(Command::try_from(&[]), Err(()));
    assert_eq!(Command::try_from(&[0x02]), Err(()));
    assert_eq!(Command::try_from(&[0x03, 0x00]), Err(()));
    assert_eq!(Command::try_from(&[0x07, 0x00]), Err(()));
}

#[test]
fn status_codes() {
    assert_eq!(Status::Success.code(), 0x01);
    assert_eq!(Status::SerialFault.code(), 0x80);
    assert_eq!(Status::SdFault.code(), 0x81);
    assert_eq!(Status::SdTimeout.code(), 0x82);
    assert_eq!(Status::SdNotReady.code(), 0x83);
    assert_eq!(Status::SdTransportFault.code(), 0x84);
    assert_eq!(Status::from(SdCardError::SpiError), Status::SdTransportFault);
    assert_eq!(Status::from(SdCardError::Timeout), Status::SdTimeout);
    assert_eq!(Status::from(SdCardError::InvalidResponse), Status::SdFault);
}

#[test]
fn capacity_formula() {
    let mut csd = [0u8; 16];
    csd[0] = 0x40;
    csd[8] = 0x1D;
    csd[9] = 0xA3;
    assert_eq!(capacity_from_csd(&csd), Ok((0x1DA3u64 + 1) * 524288));
    csd[0] = 0x00;
    assert_eq!(capacity_from_csd(&csd), Err(SdCardError::InvalidResponse));
    csd[0] = 0x80;
    assert_eq!(capacity_from_csd(&csd), Err(SdCardError::InvalidResponse));
}

#[test]
fn link_overflow_then_terminator_dispatches_nothing() {
    let mut link = Link::new();
    for _ in 0..40 {
        assert!(matches!(link.feed(0x02), LinkEvent::Nothing));
    }
    assert!(matches!(link.feed(0xF3), LinkEvent::Nothing));
    link.feed(0x02);
    link.feed(0x00);
    assert!(matches!(link.feed(0xF3), LinkEvent::Dispatch(Command::Status(0))));
}

#[test]
fn link_payload_commit_carries_sector() {
    let mut link = Link::new();
    link.begin_write(9);
    for i in 0..511u32 {
        assert!(matches!(link.feed(if i % 2 == 0 { 0xF3 } else { 0x02 }), LinkEvent::Nothing));
    }
    match link.feed(0x77) {
        LinkEvent::Commit(lba, data) => {
            assert_eq!(lba, 9);
            assert_eq!(data.len(), 512);
            assert_eq!(data[0], 0xF3);
            assert_eq!(data[511], 0x77);
        }
        _ => panic!("expected a commit"),
    }
    assert!(!link.in_payload());
}
