//! An RFID reader station: an MFRC522 reader of MIFARE Classic cards, the
//! shared state that says what the reader does with the next card, and the
//! events it records.
use vstd::prelude::*;

use mfrc522::MifareKey;
use mfrc522::Uid as ChipUid;

use crate::rfid::{BLOCK_USIZE, CARD_USIZE};

pub mod chip;
pub mod helpers;
pub mod light;
pub mod rfid;

verus! {

/// Stores main reader state which is used across tasks
#[derive(Clone)]
pub struct State {
    pub reader_active: bool,
    pub reader_operation: ReaderOperation,
    pub history: Vec<HistoryItem>,
}

impl State {
    /// The state at boot: the reader inactive, doing nothing with cards, no
    /// history yet.
    pub fn new() -> (s: State)
        ensures
            !s.reader_active,
            s.reader_operation is Nothing,
            s.history@.len() == 0,
    {
        State { reader_active: false, reader_operation: ReaderOperation::Nothing, history: Vec::new() }
    }

    /// Turn the reader on.
    pub fn activate(&mut self)
        ensures
            final(self).reader_active,
            final(self).reader_operation == old(self).reader_operation,
            final(self).history@ == old(self).history@,
    {
        self.reader_active = true;
    }

    /// Turn the reader off.
    pub fn deactivate(&mut self)
        ensures
            !final(self).reader_active,
            final(self).reader_operation == old(self).reader_operation,
            final(self).history@ == old(self).history@,
    {
        self.reader_active = false;
    }

    /// Choose what the reader does with the next card.
    pub fn set_operation(&mut self, operation: ReaderOperation)
        ensures
            final(self).reader_operation == operation,
            final(self).reader_active == old(self).reader_active,
            final(self).history@ == old(self).history@,
    {
        self.reader_operation = operation;
    }
}

/// Stores a [ReaderEvent] and the point in time at which it occured, in ticks
/// of the time base since boot.
#[derive(Clone)]
pub struct HistoryItem {
    pub event: ReaderEvent,
    pub timestamp: u64,
}

/// Defines what different operations a reader can do when it detects a card
#[derive(Clone)]
pub enum ReaderOperation {
    /// Do nothing (other than recording the interaction as a [ReaderEvent::Found])
    Nothing,
    /// Read the data from a specific block on the detected card
    ReadBlock { block: u8, key: MifareKey },
    /// Read the data from a specific sector on the detected card
    ReadSector { sector: u8, key: MifareKey },
    /// Read all the data from the detected card
    ReadCard { keys: [MifareKey; CARD_USIZE] },
    /// Write some data to a specific block on the detected card
    WriteBlock { block: u8, key: MifareKey, data: [u8; BLOCK_USIZE] },
    /// Write some data to a specific sector on the detected card (can only write to the 3 blocks in the sectors, for safety reasons)
    WriteSector { sector: u8, key: MifareKey, data: [u8; 48] },
    /// Write some data to the detected card (can only write to the 3 first blocks in a sector, for safety reasons)
    WriteCard { key: [MifareKey; CARD_USIZE], data: [u8; 768] },
}

/// The UID of a card, as its bytes.
#[derive(Debug, Clone)]
pub struct Uid(Vec<u8>);

impl Uid {
    pub closed spec fn bytes(&self) -> Seq<u8> {
        self.0@
    }

    /// The UID made of `bytes`.
    pub fn from_bytes(bytes: Vec<u8>) -> (u: Uid)
        ensures
            u.bytes() == bytes@,
    {
        Uid(bytes)
    }

    /// The bytes of the UID.
    pub fn as_bytes(&self) -> (b: &[u8])
        ensures
            b@ == self.bytes(),
    {
        self.0.as_slice()
    }
}

/// The bytes, in order, that `mfrc522::Uid::as_bytes` gives for `uid`.
pub uninterp spec fn chip_uid_bytes_of(uid: ChipUid) -> Seq<u8>;

/// Calls `mfrc522::Uid::as_bytes` and copies the bytes out, in order. The
/// driver makes a UID of 4, 7 or 10 bytes.
#[verifier::external_body]
fn chip_uid_bytes(uid: &ChipUid) -> (bytes: Vec<u8>)
    ensures
        bytes@ == chip_uid_bytes_of(*uid),
        bytes@.len() == 4 || bytes@.len() == 7 || bytes@.len() == 10,
{
    uid.as_bytes().to_vec()
}

impl Uid {
    /// The UID that the driver returned when it selected a card.
    pub fn from_chip(value: &ChipUid) -> (u: Uid)
        ensures
            u.bytes() == chip_uid_bytes_of(*value),
            u.bytes().len() == 4 || u.bytes().len() == 7 || u.bytes().len() == 10,
    {
        Uid(chip_uid_bytes(value))
    }
}

/// Event recorded by the main reader task
#[derive(Debug, Clone)]
pub enum ReaderEvent {
    /// Setup is complete, and the main reader task has begun
    Boot,
    Found { uid: Uid },
    ReadBlock { uid: Uid, block: u8, data: [u8; BLOCK_USIZE] },
    ReadSector { uid: Uid, sector: u8, data: [u8; 64] },
    ReadCard { uid: Uid, data: [u8; 1024] },
    WroteBlock { uid: Uid, block: u8 },
    WroteSector { uid: Uid, sector: u8 },
    WroteCard { uid: Uid },
}

/// A change of the reader's activity, as the main loop logs it.
#[derive(Clone, Copy, Debug, PartialEq, Eq, Structural)]
pub enum ActivityChange {
    Activated,
    Deactivated,
}

/// The change the main loop logs when the reader was `last_active` and now is
/// `active`: none when nothing changed.
pub open spec fn spec_activity_change(last_active: bool, active: bool) -> Option<ActivityChange> {
    if active && !last_active {
        Some(ActivityChange::Activated)
    } else if !active && last_active {
        Some(ActivityChange::Deactivated)
    } else {
        None
    }
}

pub fn activity_change(last_active: bool, active: bool) -> (r: Option<ActivityChange>)
    ensures
        r == spec_activity_change(last_active, active),
{
    if active && !last_active {
        Some(ActivityChange::Activated)
    } else if !active && last_active {
        Some(ActivityChange::Deactivated)
    } else {
        None
    }
}

/// What the panic handler writes to the log, at error level, before it halts:
/// the panic's own description.
pub fn panic(description: &str) -> (line: String)
    ensures
        line@ == description@,
{
    description.to_owned()
}

} // verus!
