use std::cell::RefCell;
use std::convert::Infallible;
use std::rc::Rc;

use embedded_hal::spi::{ErrorType, Operation, SpiDevice};
use mfrc522::comm::blocking::spi::SpiInterface;
use mfrc522::{AtqA, GenericUid, Mfrc522, MifareKey};

use rfid_thingy::chip::{ChipCommands, ChipHistory};
use rfid_thingy::helpers::{read_block, read_card, read_sector, write_block, write_card, write_sector};
use rfid_thingy::rfid::{Error, Reader};

/// A register file just rich enough for the driver to answer a REQA with an ATQA.
struct RegisterFile;

impl ErrorType for RegisterFile {
    type Error = Infallible;
}

impl SpiDevice for RegisterFile {
    fn transaction(&mut self, operations: &mut [Operation<'_, u8>]) -> Result<(), Infallible> {
        let mut address: Option<u8> = None;
        for op in operations.iter_mut() {
            match op {
                Operation::Write(bytes) => {
                    if address.is_none() {
                        address = Some(bytes[0]);
                    }
                }
                Operation::TransferInPlace(buf) => match address {
                    // A read of many bytes from the FIFO.
                    Some(_) => {
                        for (i, b) in buf.iter_mut().enumerate() {
                            *b = if i == 0 { 0x04 } else { 0x00 };
                        }
                    }
                    // A read of one register: address byte, then the value.
                    None => {
                        let reg = (buf[0] & 0x7E) >> 1;
                        buf[1] = match reg {
                            0x04 => 0x30, // ComIrqReg: RX and idle
                            0x0A => 2,    // FIFOLevelReg: two bytes
                            _ => 0,
                        };
                    }
                },
                _ => {}
            }
        }
        Ok(())
    }
}

/// An ATQA as the real driver produces it.
fn atqa() -> AtqA {
    let chip = Mfrc522::new(SpiInterface::new(RegisterFile)).init().ok().unwrap();
    let mut chip = chip;
    chip.new_card_present().ok().unwrap()
}

#[derive(Debug, Clone, PartialEq)]
enum Cmd {
    Present,
    Select,
    Auth(u8, MifareKey),
    Read(u8),
    Write(u8, [u8; 16]),
    Stop,
}

struct CardState {
    blocks: [[u8; 16]; 64],
    keys: [MifareKey; 16],
    authed: Option<u8>,
    fail_read: Option<u8>,
    fail_write: Option<u8>,
    fail_select: bool,
    presence: Vec<Result<AtqA, mfrc522::Error<()>>>,
    commands: Vec<Cmd>,
}

#[derive(Clone)]
struct FakeChip(Rc<RefCell<CardState>>);

fn key_of(sector: usize) -> MifareKey {
    [sector as u8, 0xA0, 0xA1, 0xA2, 0xA3, 0xA4]
}

fn block_content(block: usize) -> [u8; 16] {
    let mut b = [0u8; 16];
    for (j, x) in b.iter_mut().enumerate() {
        *x = (block * 16 + j) as u8;
    }
    b
}

impl FakeChip {
    fn new() -> FakeChip {
        let mut blocks = [[0u8; 16]; 64];
        for (i, b) in blocks.iter_mut().enumerate() {
            *b = block_content(i);
        }
        let mut keys = [[0u8; 6]; 16];
        for (i, k) in keys.iter_mut().enumerate() {
            *k = key_of(i);
        }
        FakeChip(Rc::new(RefCell::new(CardState {
            blocks,
            keys,
            authed: None,
            fail_read: None,
            fail_write: None,
            fail_select: false,
            presence: Vec::new(),
            commands: Vec::new(),
        })))
    }

    fn commands(&self) -> Vec<Cmd> {
        self.0.borrow().commands.clone()
    }

    fn block(&self, b: usize) -> [u8; 16] {
        self.0.borrow().blocks[b]
    }
}

impl ChipCommands<()> for FakeChip {
    fn history(&self) -> ChipHistory<()> {
        unreachable!("the history of exchanges exists in specifications only")
    }

    fn new_card_present(&mut self) -> Result<AtqA, mfrc522::Error<()>> {
        let mut s = self.0.borrow_mut();
        s.commands.push(Cmd::Present);
        if s.presence.is_empty() {
            Err(mfrc522::Error::Timeout)
        } else {
            s.presence.remove(0)
        }
    }

    fn select(&mut self, _atqa: &AtqA) -> Result<mfrc522::Uid, mfrc522::Error<()>> {
        let mut s = self.0.borrow_mut();
        s.commands.push(Cmd::Select);
        if s.fail_select {
            Err(mfrc522::Error::Collision)
        } else {
            Ok(mfrc522::Uid::Single(GenericUid::new([0xDE, 0xAD, 0xBE, 0xEF], 0x08)))
        }
    }

    fn mf_authenticate(
        &mut self,
        _uid: &mfrc522::Uid,
        block: u8,
        key: &MifareKey,
    ) -> Result<(), mfrc522::Error<()>> {
        let mut s = self.0.borrow_mut();
        s.commands.push(Cmd::Auth(block, *key));
        if s.keys[(block / 4) as usize] == *key {
            s.authed = Some(block / 4);
            Ok(())
        } else {
            s.authed = None;
            Err(mfrc522::Error::Protocol)
        }
    }

    fn mf_read(&mut self, block: u8) -> Result<[u8; 16], mfrc522::Error<()>> {
        let mut s = self.0.borrow_mut();
        s.commands.push(Cmd::Read(block));
        if s.authed != Some(block / 4) {
            return Err(mfrc522::Error::Nak);
        }
        if s.fail_read == Some(block) {
            return Err(mfrc522::Error::Crc);
        }
        Ok(s.blocks[block as usize])
    }

    fn mf_write(&mut self, block: u8, data: [u8; 16]) -> Result<(), mfrc522::Error<()>> {
        let mut s = self.0.borrow_mut();
        s.commands.push(Cmd::Write(block, data));
        if s.authed != Some(block / 4) {
            return Err(mfrc522::Error::Nak);
        }
        if s.fail_write == Some(block) {
            return Err(mfrc522::Error::Nak);
        }
        s.blocks[block as usize] = data;
        Ok(())
    }

    fn stop_crypto1(&mut self) -> Result<(), mfrc522::Error<()>> {
        let mut s = self.0.borrow_mut();
        s.commands.push(Cmd::Stop);
        s.authed = None;
        Ok(())
    }
}

/// A reader with a card in its field, the card's chip and the reader.
fn reader_with_card() -> (FakeChip, Reader<(), FakeChip>) {
    let chip = FakeChip::new();
    chip.0.borrow_mut().presence.push(Ok(atqa()));
    let reader = Reader::new(chip.clone());
    (chip, reader)
}

fn clear(chip: &FakeChip) {
    chip.0.borrow_mut().commands.clear();
}

#[test]
fn check_for_card_waits_on_timeout_and_reports_other_errors() {
    let chip = FakeChip::new();
    chip.0.borrow_mut().presence.push(Err(mfrc522::Error::Timeout));
    chip.0.borrow_mut().presence.push(Err(mfrc522::Error::Crc));
    chip.0.borrow_mut().presence.push(Ok(atqa()));
    let mut reader = Reader::new(chip.clone());
    assert!(reader.check_for_card().is_none());
    assert!(matches!(reader.check_for_card(), Some(Err(mfrc522::Error::Crc))));
    assert!(matches!(reader.check_for_card(), Some(Ok(_))));
    assert_eq!(chip.commands(), vec![Cmd::Present, Cmd::Present, Cmd::Present]);
}

#[test]
fn select_reports_the_chip_error() {
    let (chip, mut reader) = reader_with_card();
    chip.0.borrow_mut().fail_select = true;
    let atqa = reader.check_for_card().unwrap().unwrap();
    let mut card = reader.interaction(atqa);
    assert!(matches!(card.select(), Err(Error::ReaderError(mfrc522::Error::Collision))));
}

#[test]
fn selected_card_keeps_the_uid() {
    let (_chip, mut reader) = reader_with_card();
    let atqa = reader.check_for_card().unwrap().unwrap();
    let mut card = reader.interaction(atqa);
    let selected = card.select().ok().unwrap();
    assert_eq!(selected.uid().as_bytes(), &[0xDE, 0xAD, 0xBE, 0xEF]);
    let uid = rfid_thingy::Uid::from_chip(selected.uid());
    assert_eq!(uid.as_bytes(), &[0xDE, 0xAD, 0xBE, 0xEF]);
}

#[test]
fn read_block_authenticates_its_sector_and_closes() {
    let (chip, mut reader) = reader_with_card();
    let atqa = reader.check_for_card().unwrap().unwrap();
    let mut card = reader.interaction(atqa);
    let mut selected = card.select().ok().unwrap();
    clear(&chip);
    let data = read_block(&mut selected, 9, &key_of(2)).ok().unwrap();
    assert_eq!(data, block_content(9));
    assert_eq!(chip.commands(), vec![Cmd::Auth(8, key_of(2)), Cmd::Read(9), Cmd::Stop]);
}

#[test]
fn read_block_with_wrong_key_fails_without_a_session() {
    let (chip, mut reader) = reader_with_card();
    let atqa = reader.check_for_card().unwrap().unwrap();
    let mut card = reader.interaction(atqa);
    let mut selected = card.select().ok().unwrap();
    clear(&chip);
    let r = read_block(&mut selected, 9, &key_of(5));
    assert!(matches!(r, Err(Error::ReaderError(mfrc522::Error::Protocol))));
    assert_eq!(chip.commands(), vec![Cmd::Auth(8, key_of(5))]);
}

#[test]
fn read_block_failure_still_closes_the_session() {
    let (chip, mut reader) = reader_with_card();
    chip.0.borrow_mut().fail_read = Some(9);
    let atqa = reader.check_for_card().unwrap().unwrap();
    let mut card = reader.interaction(atqa);
    let mut selected = card.select().ok().unwrap();
    clear(&chip);
    let r = read_block(&mut selected, 9, &key_of(2));
    assert!(matches!(r, Err(Error::ReaderError(mfrc522::Error::Crc))));
    assert_eq!(chip.commands(), vec![Cmd::Auth(8, key_of(2)), Cmd::Read(9), Cmd::Stop]);
}

#[test]
fn sector_block_indices_are_bounded() {
    let (chip, mut reader) = reader_with_card();
    let atqa = reader.check_for_card().unwrap().unwrap();
    let mut card = reader.interaction(atqa);
    let mut selected = card.select().ok().unwrap();
    let mut auth = selected.auth_sector(3, &key_of(3)).ok().unwrap();
    clear(&chip);
    assert!(matches!(auth.read_block(4), Err(Error::OutOfBounds)));
    assert!(matches!(auth.write_block(4, [1; 16]), Err(Error::OutOfBounds)));
    assert!(matches!(auth.write_block(3, [1; 16]), Err(Error::SectorTrailerLock)));
    assert_eq!(chip.commands(), vec![]);
    assert_eq!(auth.read_block(3).ok().unwrap(), block_content(15));
    auth.close();
    assert_eq!(chip.commands(), vec![Cmd::Read(15), Cmd::Stop]);
    assert_eq!(chip.block(15), block_content(15));
}

#[test]
fn read_sector_joins_the_four_blocks() {
    let (chip, mut reader) = reader_with_card();
    let atqa = reader.check_for_card().unwrap().unwrap();
    let mut card = reader.interaction(atqa);
    let mut selected = card.select().ok().unwrap();
    clear(&chip);
    let data = read_sector(&mut selected, 5, &key_of(5)).ok().unwrap();
    for b in 0..4 {
        assert_eq!(&data[16 * b..16 * b + 16], &block_content(20 + b));
    }
    assert_eq!(
        chip.commands(),
        vec![
            Cmd::Auth(20, key_of(5)),
            Cmd::Read(20),
            Cmd::Read(21),
            Cmd::Read(22),
            Cmd::Read(23),
            Cmd::Stop
        ]
    );
}

#[test]
fn read_sector_stops_at_the_first_failed_read() {
    let (chip, mut reader) = reader_with_card();
    chip.0.borrow_mut().fail_read = Some(21);
    let atqa = reader.check_for_card().unwrap().unwrap();
    let mut card = reader.interaction(atqa);
    let mut selected = card.select().ok().unwrap();
    clear(&chip);
    let r = read_sector(&mut selected, 5, &key_of(5));
    assert!(matches!(r, Err(Error::ReaderError(mfrc522::Error::Crc))));
    assert_eq!(
        chip.commands(),
        vec![Cmd::Auth(20, key_of(5)), Cmd::Read(20), Cmd::Read(21), Cmd::Stop]
    );
}

#[test]
fn write_block_writes_the_addressed_block() {
    let (chip, mut reader) = reader_with_card();
    let atqa = reader.check_for_card().unwrap().unwrap();
    let mut card = reader.interaction(atqa);
    let mut selected = card.select().ok().unwrap();
    clear(&chip);
    assert!(write_block(&mut selected, 13, &key_of(3), [7; 16]).is_ok());
    assert_eq!(chip.block(13), [7; 16]);
    assert_eq!(chip.commands(), vec![Cmd::Auth(12, key_of(3)), Cmd::Write(13, [7; 16]), Cmd::Stop]);
}

#[test]
fn write_block_refuses_a_sector_trailer() {
    let (chip, mut reader) = reader_with_card();
    let atqa = reader.check_for_card().unwrap().unwrap();
    let mut card = reader.interaction(atqa);
    let mut selected = card.select().ok().unwrap();
    clear(&chip);
    let r = write_block(&mut selected, 15, &key_of(3), [7; 16]);
    assert!(matches!(r, Err(Error::SectorTrailerLock)));
    assert_eq!(chip.block(15), block_content(15));
    assert_eq!(chip.commands(), vec![Cmd::Auth(12, key_of(3)), Cmd::Stop]);
}

#[test]
fn write_block_reports_a_failed_write() {
    let (chip, mut reader) = reader_with_card();
    chip.0.borrow_mut().fail_write = Some(13);
    let atqa = reader.check_for_card().unwrap().unwrap();
    let mut card = reader.interaction(atqa);
    let mut selected = card.select().ok().unwrap();
    let r = write_block(&mut selected, 13, &key_of(3), [7; 16]);
    assert!(matches!(r, Err(Error::ReaderError(mfrc522::Error::Nak))));
}

fn sector_payload() -> [u8; 48] {
    let mut data = [0u8; 48];
    for (i, x) in data.iter_mut().enumerate() {
        *x = 200 - i as u8;
    }
    data
}

#[test]
fn write_sector_writes_the_three_data_blocks_only() {
    let (chip, mut reader) = reader_with_card();
    let atqa = reader.check_for_card().unwrap().unwrap();
    let mut card = reader.interaction(atqa);
    let mut selected = card.select().ok().unwrap();
    clear(&chip);
    let data = sector_payload();
    assert!(write_sector(&mut selected, 17, &key_of(4), data).is_ok());
    for b in 0..3 {
        assert_eq!(&chip.block(16 + b)[..], &data[16 * b..16 * b + 16]);
    }
    assert_eq!(chip.block(19), block_content(19));
    let cmds = chip.commands();
    assert_eq!(cmds.len(), 5);
    assert_eq!(cmds[0], Cmd::Auth(16, key_of(4)));
    assert!(matches!(cmds[1], Cmd::Write(16, _)));
    assert!(matches!(cmds[2], Cmd::Write(17, _)));
    assert!(matches!(cmds[3], Cmd::Write(18, _)));
    assert_eq!(cmds[4], Cmd::Stop);
}

#[test]
fn write_sector_stops_at_the_first_failed_write() {
    let (chip, mut reader) = reader_with_card();
    chip.0.borrow_mut().fail_write = Some(16);
    let atqa = reader.check_for_card().unwrap().unwrap();
    let mut card = reader.interaction(atqa);
    let mut selected = card.select().ok().unwrap();
    clear(&chip);
    let r = write_sector(&mut selected, 16, &key_of(4), sector_payload());
    assert!(matches!(r, Err(Error::ReaderError(mfrc522::Error::Nak))));
    assert_eq!(chip.commands().len(), 3);
    assert_eq!(chip.block(17), block_content(17));
}

#[test]
fn read_card_places_sector_i_at_offset_64_i() {
    let (chip, mut reader) = reader_with_card();
    let atqa = reader.check_for_card().unwrap().unwrap();
    let mut card = reader.interaction(atqa);
    let mut selected = card.select().ok().unwrap();
    clear(&chip);
    let mut keys = [[0u8; 6]; 16];
    for (i, k) in keys.iter_mut().enumerate() {
        *k = key_of(i);
    }
    let data = read_card(&mut selected, &keys).ok().unwrap();
    for b in 0..64 {
        assert_eq!(&data[16 * b..16 * b + 16], &block_content(b));
    }
    // sixteen sessions of authentication, four reads, stop
    assert_eq!(chip.commands().len(), 16 * 6);
}

#[test]
fn read_card_stops_at_the_first_sector_that_fails() {
    let (chip, mut reader) = reader_with_card();
    let atqa = reader.check_for_card().unwrap().unwrap();
    let mut card = reader.interaction(atqa);
    let mut selected = card.select().ok().unwrap();
    clear(&chip);
    let mut keys = [[0u8; 6]; 16];
    for (i, k) in keys.iter_mut().enumerate() {
        *k = key_of(i);
    }
    keys[2] = [0xFF; 6];
    let r = read_card(&mut selected, &keys);
    assert!(matches!(r, Err(Error::ReaderError(mfrc522::Error::Protocol))));
    let cmds = chip.commands();
    assert_eq!(cmds.len(), 6 + 6 + 1);
    assert_eq!(cmds[12], Cmd::Auth(8, [0xFF; 6]));
}

fn all_keys() -> [MifareKey; 16] {
    let mut keys = [[0u8; 6]; 16];
    for (i, k) in keys.iter_mut().enumerate() {
        *k = key_of(i);
    }
    keys
}

#[test]
fn write_card_writes_piece_s_to_the_data_blocks_of_sector_s() {
    let (chip, mut reader) = reader_with_card();
    let atqa = reader.check_for_card().unwrap().unwrap();
    let mut card = reader.interaction(atqa);
    let mut selected = card.select().ok().unwrap();
    clear(&chip);
    let mut data = [0u8; 768];
    for (i, x) in data.iter_mut().enumerate() {
        *x = (i % 251) as u8;
    }
    assert!(write_card(&mut selected, &all_keys(), data).is_ok());
    let cmds = chip.commands();
    assert_eq!(cmds.len(), 16 * 5);
    for s in 0..16 {
        assert_eq!(cmds[5 * s], Cmd::Auth(4 * s as u8, key_of(s)));
        assert_eq!(cmds[5 * s + 4], Cmd::Stop);
        for j in 0..3 {
            let at = 48 * s + 16 * j;
            assert_eq!(&chip.block(4 * s + j)[..], &data[at..at + 16]);
        }
        // the trailer is untouched
        assert_eq!(chip.block(4 * s + 3), block_content(4 * s + 3));
    }
    assert!(cmds.iter().all(|c| !matches!(c, Cmd::Write(b, _) if b % 4 == 3)));
}

#[test]
fn write_card_stops_at_the_first_failed_session() {
    let (chip, mut reader) = reader_with_card();
    let atqa = reader.check_for_card().unwrap().unwrap();
    let mut card = reader.interaction(atqa);
    let mut selected = card.select().ok().unwrap();
    clear(&chip);
    let mut keys = all_keys();
    keys[1] = [0xFF; 6];
    let r = write_card(&mut selected, &keys, [1; 768]);
    assert!(matches!(r, Err(Error::ReaderError(mfrc522::Error::Protocol))));
    let cmds = chip.commands();
    assert_eq!(cmds.len(), 5 + 1);
    assert_eq!(cmds[5], Cmd::Auth(4, [0xFF; 6]));
    assert_eq!(chip.block(0), [1; 16]);
    assert_eq!(chip.block(4), block_content(4));
}
