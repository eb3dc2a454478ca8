use std::collections::HashMap;
use std::collections::VecDeque;

use card_o_matic::driver::Driver;
use card_o_matic::sd::{Retries, SdBus, SdCardError, SdCardStatus, SpiSdCard};

enum Phase {
    Command,
    AwaitToken(u32),
    Data(u32, Vec<u8>),
    Crc(u32, Vec<u8>, usize),
}

struct SimCard {
    size_field: u16,
    v2_layout: bool,
    ready_on_attempt: u32,
    attempts: u32,
    sectors: HashMap<u32, Vec<u8>>,
    broken: bool,
    reject_writes: bool,
    queue: VecDeque<u8>,
    frame: Vec<u8>,
    phase: Phase,
}

impl SimCard {
    fn new(size_field: u16) -> SimCard {
        SimCard {
            size_field,
            v2_layout: true,
            ready_on_attempt: 1,
            attempts: 0,
            sectors: HashMap::new(),
            broken: false,
            reject_writes: false,
            queue: VecDeque::new(),
            frame: Vec::new(),
            phase: Phase::Command,
        }
    }

    fn sector_count(&self) -> u64 {
        (self.size_field as u64 + 1) * 1024
    }

    fn csd(&self) -> Vec<u8> {
        let mut c = vec![0u8; 16];
        c[0] = if self.v2_layout { 0x40 } else { 0x00 };
        c[8] = (self.size_field >> 8) as u8;
        c[9] = self.size_field as u8;
        c
    }

    fn command(&mut self, f: &[u8]) {
        let arg = u32::from_be_bytes([f[1], f[2], f[3], f[4]]);
        self.queue.push_back(0xFF);
        match f[0] {
            0x40 | 0x48 | 0x77 => {
                self.queue.push_back(0x01);
                if f[0] == 0x48 {
                    self.queue.extend([0x00, 0x00, 0x01, 0xAA]);
                }
            }
            0x69 => {
                self.attempts += 1;
                let r1 = if self.attempts >= self.ready_on_attempt { 0x00 } else { 0x01 };
                self.queue.push_back(r1);
            }
            0x49 => {
                self.queue.extend([0x00, 0xFE]);
                let csd = self.csd();
                self.queue.extend(csd);
                self.queue.extend([0x12, 0x34]);
            }
            0x51 => {
                if arg as u64 >= self.sector_count() {
                    self.queue.push_back(0x40);
                } else {
                    self.queue.extend([0x00, 0xFF, 0xFE]);
                    let data = self.sectors.get(&arg).cloned().unwrap_or(vec![0u8; 512]);
                    self.queue.extend(data);
                    self.queue.extend([0x56, 0x78]);
                }
            }
            0x58 => {
                if arg as u64 >= self.sector_count() {
                    self.queue.push_back(0x40);
                } else {
                    self.queue.push_back(0x00);
                    self.phase = Phase::AwaitToken(arg);
                }
            }
            _ => self.queue.push_back(0x04),
        }
    }
}

impl SdBus for SimCard {
    fn transfer(&mut self, w: u8) -> Result<u8, ()> {
        if self.broken {
            return Err(());
        }
        let out = self.queue.pop_front().unwrap_or(0xFF);
        let phase = std::mem::replace(&mut self.phase, Phase::Command);
        self.phase = match phase {
            Phase::Command => {
                if !self.frame.is_empty() || (w & 0xC0) == 0x40 {
                    self.frame.push(w);
                    if self.frame.len() == 6 {
                        let f = std::mem::take(&mut self.frame);
                        self.command(&f);
                    }
                }
                std::mem::replace(&mut self.phase, Phase::Command)
            }
            Phase::AwaitToken(a) => {
                if w == 0xFE {
                    Phase::Data(a, Vec::new())
                } else {
                    Phase::AwaitToken(a)
                }
            }
            Phase::Data(a, mut d) => {
                d.push(w);
                if d.len() == 512 {
                    Phase::Crc(a, d, 0)
                } else {
                    Phase::Data(a, d)
                }
            }
            Phase::Crc(a, d, n) => {
                if n == 1 {
                    if self.reject_writes {
                        self.queue.extend([0xEB, 0x05, 0x00, 0xFF]);
                    } else {
                        self.sectors.insert(a, d);
                        self.queue.extend([0xE5, 0x00, 0x00, 0xFF]);
                    }
                    Phase::Command
                } else {
                    Phase::Crc(a, d, n + 1)
                }
            }
        };
        Ok(out)
    }

    fn select(&mut self) {}

    fn deselect(&mut self) {}

    fn delay(&mut self, _cycles: u32) {}
}

struct Idle;

impl SdBus for Idle {
    fn transfer(&mut self, _w: u8) -> Result<u8, ()> {
        Ok(0xFF)
    }

    fn select(&mut self) {}

    fn deselect(&mut self) {}

    fn delay(&mut self, _cycles: u32) {}
}

fn pattern(seed: u8) -> Vec<u8> {
    (0..512u32).map(|i| (i as u8).wrapping_mul(7).wrapping_add(seed)).collect()
}

fn ready_card(size_field: u16) -> SpiSdCard<SimCard> {
    let mut card = SpiSdCard::new(SimCard::new(size_field));
    card.init().unwrap();
    card
}

fn frame(op: u8, lba: u64) -> Vec<u8> {
    let mut f = vec![op];
    f.extend(lba.to_le_bytes());
    f.push(0xF3);
    f
}

#[test]
fn init_reports_v2_capacity() {
    let mut card = SpiSdCard::new(SimCard::new(0x1234));
    assert!(matches!(card.status(), SdCardStatus::Init));
    let cap = card.init().unwrap();
    assert_eq!(cap, (0x1234u64 + 1) * 524288);
    assert_eq!(card.status(), SdCardStatus::Ready((0x1234u64 + 1) * 524288));
}

#[test]
fn init_smallest_size_field() {
    let card = ready_card(0);
    assert_eq!(card.status(), SdCardStatus::Ready(524288));
}

#[test]
fn init_largest_size_field() {
    let card = ready_card(0xFFFF);
    assert_eq!(card.status(), SdCardStatus::Ready(65536 * 524288));
}

#[test]
fn init_legacy_layout_is_invalid_response() {
    let mut sim = SimCard::new(10);
    sim.v2_layout = false;
    let mut card = SpiSdCard::new(sim);
    assert_eq!(card.init(), Err(SdCardError::InvalidResponse));
    assert_eq!(card.status(), SdCardStatus::Failed);
}

#[test]
fn init_bus_fault_is_spi_error() {
    let mut sim = SimCard::new(10);
    sim.broken = true;
    let mut card = SpiSdCard::new(sim);
    assert_eq!(card.init(), Err(SdCardError::SpiError));
    assert_eq!(card.status(), SdCardStatus::Failed);
}

#[test]
fn init_ready_on_last_attempt_of_budget() {
    let mut sim = SimCard::new(3);
    sim.ready_on_attempt = 4;
    let mut retries = Retries::standard();
    retries.init_attempts = 4;
    let mut card = SpiSdCard::with_retries(sim, retries);
    assert_eq!(card.init(), Ok(4 * 524288));
}

#[test]
fn init_budget_one_short_times_out() {
    let mut sim = SimCard::new(3);
    sim.ready_on_attempt = 4;
    let mut retries = Retries::standard();
    retries.init_attempts = 3;
    let mut card = SpiSdCard::with_retries(sim, retries);
    assert_eq!(card.init(), Err(SdCardError::Timeout));
    assert_eq!(card.status(), SdCardStatus::Failed);
}

#[test]
fn write_then_read_round_trip() {
    let mut card = ready_card(1);
    for &addr in &[0u32, 1, 77, 2047] {
        let buf = pattern(addr as u8);
        card.write_sector(addr, &buf).unwrap();
        assert_eq!(card.read_sector(addr).unwrap(), buf);
    }
}

#[test]
fn read_beyond_capacity_is_invalid_response() {
    let mut card = ready_card(1);
    assert_eq!(card.read_sector(2048), Err(SdCardError::InvalidResponse));
    assert_eq!(card.read_sector(u32::MAX), Err(SdCardError::InvalidResponse));
}

#[test]
fn write_beyond_capacity_is_invalid_response() {
    let mut card = ready_card(1);
    let buf = pattern(9);
    assert_eq!(card.write_sector(2048, &buf), Err(SdCardError::InvalidResponse));
}

#[test]
fn read_beyond_card_before_init_is_invalid_response() {
    let mut card = SpiSdCard::new(SimCard::new(1));
    assert_eq!(card.read_sector(5000), Err(SdCardError::InvalidResponse));
}

#[test]
fn read_on_broken_bus_is_spi_error() {
    let mut sim = SimCard::new(1);
    sim.broken = true;
    let mut card = SpiSdCard::new(sim);
    assert_eq!(card.read_sector(0), Err(SdCardError::SpiError));
}

#[test]
fn status_general_before_init_is_not_ready() {
    let mut d = Driver::new(SpiSdCard::new(SimCard::new(7)));
    let r = d.poll(&[0x02, 0x00, 0xF3]);
    assert_eq!(r, vec![vec![10, 0x83, 0x00, 0xFF, 0xFF, 0xFF, 0xFF, 0xFF, 0xFF, 0xFF, 0xFF]]);
}

#[test]
fn status_init_then_general() {
    let mut d = Driver::new(SpiSdCard::new(SimCard::new(7)));
    assert_eq!(d.poll(&[0x02, 0x01, 0xF3]), vec![vec![1, 0x01]]);
    let cap: u64 = 8 * 524288;
    let mut expected = vec![10, 0x01, 0x00];
    expected.extend(cap.to_le_bytes());
    assert_eq!(d.poll(&[0x02, 0x00, 0xF3]), vec![expected]);
}

#[test]
fn status_init_on_broken_bus_is_transport_fault() {
    let mut sim = SimCard::new(7);
    sim.broken = true;
    let mut d = Driver::new(SpiSdCard::new(sim));
    assert_eq!(d.poll(&[0x02, 0x01, 0xF3]), vec![vec![1, 0x84]]);
    let r = d.poll(&[0x02, 0x00, 0xF3]);
    assert_eq!(r[0][1], 0x81);
}

#[test]
fn unknown_status_mode_gets_no_response() {
    let mut d = Driver::new(ready_card(7));
    assert!(d.poll(&[0x02, 0x07, 0xF3]).is_empty());
}

#[test]
fn write_before_init_is_not_ready() {
    let mut d = Driver::new(SpiSdCard::new(SimCard::new(7)));
    assert_eq!(d.poll(&frame(0x04, 3)), vec![vec![1, 0x83]]);
}

#[test]
fn payload_mode_takes_over_the_link() {
    let mut d = Driver::new(ready_card(7));
    assert_eq!(d.poll(&frame(0x04, 12)), vec![vec![1, 0x01]]);
    let mut payload = vec![0x55u8; 100];
    payload.extend([0x02, 0x00, 0xF3, 0x02, 0x01, 0xF3]);
    payload.extend(frame(0x03, 12));
    let n = payload.len();
    assert!(d.poll(&payload).is_empty());
    let rest: Vec<u8> = (n..512).map(|i| i as u8).collect();
    assert_eq!(d.poll(&rest), vec![vec![1, 0x01]]);
    let mut expected_sector = payload.clone();
    expected_sector.extend(rest);
    let r = d.poll(&frame(0x03, 12));
    assert_eq!(r.len(), 1);
    assert_eq!(&r[0][0..2], &[1, 0x01]);
    assert_eq!(&r[0][2..], &expected_sector[..]);
}

#[test]
fn oversized_frame_is_dropped() {
    let mut d = Driver::new(SpiSdCard::new(SimCard::new(7)));
    let mut bytes = vec![0x11u8; 30];
    bytes.extend([0x02, 0x00, 0x02, 0x00]);
    bytes.push(0xF3);
    assert!(d.poll(&bytes).is_empty());
    assert_eq!(d.poll(&[0x02, 0x00, 0xF3]).len(), 1);
}

#[test]
fn empty_and_unknown_frames_are_ignored() {
    let mut d = Driver::new(ready_card(7));
    assert!(d.poll(&[0xF3, 0xF3]).is_empty());
    assert!(d.poll(&[0x09, 0x01, 0xF3]).is_empty());
    assert!(d.poll(&[0x03, 0x01, 0xF3]).is_empty());
    assert_eq!(d.poll(&[0x02, 0x00, 0xF3]).len(), 1);
}

#[test]
fn read_through_link_beyond_capacity_is_sd_fault() {
    let mut d = Driver::new(ready_card(0));
    assert_eq!(d.poll(&frame(0x03, 1024)), vec![vec![1, 0x81]]);
    assert_eq!(d.poll(&frame(0x03, 1u64 << 40)), vec![vec![1, 0x81]]);
    assert_eq!(d.poll(&frame(0x04, 1024)), vec![vec![1, 0x81]]);
}

#[test]
fn read_through_link_returns_sector() {
    let mut card = ready_card(0);
    let buf = pattern(3);
    card.write_sector(1023, &buf).unwrap();
    let mut d = Driver::new(card);
    let r = d.poll(&frame(0x03, 1023));
    assert_eq!(r.len(), 1);
    assert_eq!(r[0].len(), 514);
    assert_eq!(&r[0][2..], &buf[..]);
}

#[test]
fn read_before_init_is_not_ready() {
    let mut d = Driver::new(SpiSdCard::new(SimCard::new(7)));
    assert_eq!(d.poll(&frame(0x03, 0)), vec![vec![1, 0x83]]);
}

#[test]
fn silent_card_times_out() {
    // A bus whose card never drives a response: every poll reads idle.
    let mut idle = SpiSdCard::new(Idle);
    assert_eq!(idle.init(), Err(SdCardError::Timeout));
    assert_eq!(idle.read_sector(0), Err(SdCardError::Timeout));
}

#[test]
fn rejected_data_response_is_invalid_response() {
    let mut card = ready_card(1);
    let buf = pattern(4);
    card.write_sector(3, &buf).unwrap();
    let mut sim = SimCard::new(1);
    sim.reject_writes = true;
    let mut card = SpiSdCard::new(sim);
    card.init().unwrap();
    assert_eq!(card.write_sector(3, &buf), Err(SdCardError::InvalidResponse));
}
