//! A MIFARE Classic card seen through an MFRC522 reader: detecting a card,
//! selecting it, authenticating one of its sectors, and reading or writing the
//! blocks of that sector.
use vstd::prelude::*;

use mfrc522::{AtqA, MifareKey};

use mfrc522::Error as DriverError;
use mfrc522::Uid as ChipUid;

use crate::chip::{
    block_of_sector, chunks_of, extends, failure, is_read_run, is_write_run, lemma_extends_append,
    lemma_extends_trans, lemma_run_data_blocks, lemma_run_data_push, reads, recorded_since, run_data, succeeded, writes,
    authenticates, ChipCommands, Exchange,
};

verus! {

/// Bytes in a block.
pub const BLOCK_SIZE: u8 = 16;

/// Blocks in a sector.
pub const SECTOR_SIZE: u8 = 4;

/// Sectors on a card.
pub const CARD_SIZE: u8 = 16;

pub const BLOCK_USIZE: usize = 16;

pub const SECTOR_USIZE: usize = 4;

/// Blocks of a sector that may be written: all but the trailer.
pub const SAFE_SECTOR_USIZE: usize = 3;

pub const CARD_USIZE: usize = 16;

#[derive(Debug)]
#[verifier::reject_recursive_types(E)]
pub enum Error<E> {
    ReaderError(DriverError<E>),
    NotSelected,
    OutOfBounds,
    /// You are trying to access a sector trailer (last block in each sector) mutably. Do not do that.
    SectorTrailerLock,
}

/// The error that a failed exchange is reported as.
pub open spec fn reader_error<E>(x: Exchange<E>) -> Error<E> {
    Error::ReaderError(failure(x))
}

/// Copy `src` into `dst` from index `at` on.
pub fn place<const N: usize, const M: usize>(dst: &mut [u8; N], at: usize, src: &[u8; M])
    requires
        at + M <= N,
    ensures
        final(dst)@ == old(dst)@.subrange(0, at as int) + src@ + old(dst)@.subrange(
            at + M,
            N as int,
        ),
{
    let mut j: usize = 0;
    while j < M
        invariant
            j <= M,
            at + M <= N,
            dst@.len() == N,
            forall|k: int| 0 <= k < at ==> dst@[k] == old(dst)@[k],
            forall|k: int| at + M <= k < N ==> dst@[k] == old(dst)@[k],
            forall|k: int| 0 <= k < j ==> dst@[at + k] == src@[k],
        decreases M - j,
    {
        dst[at + j] = src[j];
        j += 1;
    }
    assert(dst@ =~= old(dst)@.subrange(0, at as int) + src@ + old(dst)@.subrange(
        at + M,
        N as int,
    ));
}

/// The `M` bytes of `src` from index `at` on.
pub fn piece<const N: usize, const M: usize>(src: &[u8; N], at: usize) -> (r: [u8; M])
    requires
        at + M <= N,
    ensures
        r@ == src@.subrange(at as int, at + M),
{
    let mut r = [0u8; M];
    let mut j: usize = 0;
    while j < M
        invariant
            j <= M,
            at + M <= N,
            r@.len() == M,
            forall|k: int| 0 <= k < j ==> r@[k] == src@[at + k],
        decreases M - j,
    {
        r[j] = src[at + j];
        j += 1;
    }
    assert(r@ =~= src@.subrange(at as int, at + M));
    r
}

/// Wrapper around a Mfrc522 reader, with any supported interface
#[verifier::reject_recursive_types(E)]
pub struct Reader<E, C> {
    chip: C,
    error: core::marker::PhantomData<E>,
}

impl<E, C: ChipCommands<E>> Reader<E, C> {
    /// The history of the chip: every exchange it has had, in order.
    pub closed spec fn log(&self) -> Seq<Exchange<E>> {
        self.chip.history()
    }

    /// Take over an initialized chip.
    pub fn new(chip: C) -> (r: Self)
        ensures
            r.log() == chip.history(),
    {
        Reader { chip, error: core::marker::PhantomData }
    }

    /// Ask once whether a card is in the field. `None` when the chip timed out
    /// (no card yet: ask again); otherwise the chip's answer.
    pub fn check_for_card(&mut self) -> (r: Option<Result<AtqA, DriverError<E>>>)
        ensures
            final(self).log().len() == old(self).log().len() + 1,
            final(self).log().drop_last() == old(self).log(),
            final(self).log().last() matches Exchange::CardPresent { outcome } && r == (
            if outcome matches Err(DriverError::Timeout) {
                None
            } else {
                Some(outcome)
            }),
    {
        let outcome = self.chip.new_card_present();
        proof {
            assert(self.log().drop_last() =~= old(self).log());
        }
        match outcome {
            Err(DriverError::Timeout) => None,
            other => Some(other),
        }
    }

    /// Start the interaction with the card that answered with `atqa`.
    pub fn interaction(&mut self, atqa: AtqA) -> (r: CardInteraction<'_, E, C>)
        ensures
            r.atqa() == atqa,
            *r.reader() == *old(self),
            *final(self) == *final(r.reader()),
    {
        CardInteraction { reader: self, atqa }
    }
}

/// Represents the interaction with a Mifare Rfid Card, and is used to interact with a card that has been detected by the reader
#[verifier::reject_recursive_types(E)]
pub struct CardInteraction<'r, E, C> {
    reader: &'r mut Reader<E, C>,
    atqa: AtqA,
}

impl<'r, E, C: ChipCommands<E>> CardInteraction<'r, E, C> {
    pub closed spec fn reader(&self) -> &'r mut Reader<E, C> {
        self.reader
    }

    pub closed spec fn atqa(&self) -> AtqA {
        self.atqa
    }

    pub open spec fn log(&self) -> Seq<Exchange<E>> {
        self.reader().log()
    }

    /// Select this card
    pub fn select(&mut self) -> (r: Result<SelectedCard<'_, E, C>, Error<E>>)
        ensures
            final(self).atqa() == old(self).atqa(),
            *final(final(self).reader()) == *final(old(self).reader()),
            match r {
                Ok(card) => {
                    &&& card.log() == old(self).log().push(
                        Exchange::Select { outcome: Ok(card.selected_uid()) },
                    )
                    &&& *final(self).reader() == *final(card.reader())
                },
                Err(e) => {
                    &&& final(self).log().len() == old(self).log().len() + 1
                    &&& final(self).log().drop_last() == old(self).log()
                    &&& final(self).log().last() matches Exchange::Select { outcome: Err(x) }
                    &&& e == Error::<E>::ReaderError(x)
                },
            },
    {
        let outcome = self.reader.chip.select(&self.atqa);
        proof {
            assert(self.reader.log().drop_last() =~= old(self).reader.log());
        }
        match outcome {
            Ok(uid) => Ok(SelectedCard { reader: &mut *self.reader, uid }),
            Err(err) => Err(Error::ReaderError(err)),
        }
    }
}

/// Represents a card that has been selected by a [CardInteraction]
#[verifier::reject_recursive_types(E)]
pub struct SelectedCard<'r, E, C> {
    reader: &'r mut Reader<E, C>,
    uid: ChipUid,
}

impl<'r, E, C: ChipCommands<E>> SelectedCard<'r, E, C> {
    pub closed spec fn reader(&self) -> &'r mut Reader<E, C> {
        self.reader
    }

    /// The UID the card answered with when it was selected.
    pub closed spec fn selected_uid(&self) -> ChipUid {
        self.uid
    }

    pub open spec fn log(&self) -> Seq<Exchange<E>> {
        self.reader().log()
    }

    /// Authenticate `sector` with key A `key`; on success the sector's blocks
    /// can be read and written until the session is closed.
    pub fn auth_sector(&mut self, sector: u8, key: &MifareKey) -> (r: Result<
        AuthenticatedSector<'_, 'r, E, C>,
        Error<E>,
    >)
        requires
            sector < 64,
        ensures
            match r {
                Ok(auth) => {
                    &&& auth.sector() == sector
                    &&& auth.log().len() == old(self).log().len() + 1
                    &&& auth.log().drop_last() == old(self).log()
                    &&& authenticates(auth.log().last(), old(self).selected_uid(), 4 * sector, *key)
                    &&& succeeded(auth.log().last())
                    &&& auth.card().selected_uid() == old(self).selected_uid()
                    &&& *final(self) == *final(auth.card())
                },
                Err(e) => {
                    &&& final(self).selected_uid() == old(self).selected_uid()
                    &&& *final(final(self).reader()) == *final(old(self).reader())
                    &&& final(self).log().len() == old(self).log().len() + 1
                    &&& final(self).log().drop_last() == old(self).log()
                    &&& authenticates(final(self).log().last(), old(self).selected_uid(), 4 * sector, *key)
                    &&& !succeeded(final(self).log().last())
                    &&& e == reader_error(final(self).log().last())
                },
            },
    {
        let block = sector * 4;
        let outcome = self.reader.chip.mf_authenticate(&self.uid, block, key);
        proof {
            assert(self.reader.log().drop_last() =~= old(self).reader.log());
        }
        match outcome {
            Ok(()) => Ok(AuthenticatedSector { card: self, sector }),
            Err(err) => Err(Error::ReaderError(err)),
        }
    }

    pub fn uid(&self) -> (r: &ChipUid)
        ensures
            *r == self.selected_uid(),
    {
        &self.uid
    }
}

/// A sector of a selected card, authenticated. The session lasts until
/// [AuthenticatedSector::close] switches the chip's crypto unit off; a sector
/// that is dropped without being closed leaves the crypto unit on (every
/// operation in [crate::helpers] closes its sessions, on every path).
#[verifier::reject_recursive_types(E)]
pub struct AuthenticatedSector<'a, 'r, E, C> {
    card: &'a mut SelectedCard<'r, E, C>,
    sector: u8,
}

impl<'a, 'r, E, C: ChipCommands<E>> AuthenticatedSector<'a, 'r, E, C> {
    pub closed spec fn card(&self) -> &'a mut SelectedCard<'r, E, C> {
        self.card
    }

    pub closed spec fn sector(&self) -> u8 {
        self.sector
    }

    pub open spec fn log(&self) -> Seq<Exchange<E>> {
        self.card().log()
    }

    /// Read one of the blocks in the currently authenticated card sector
    pub fn read_block(&mut self, block: u8) -> (r: Result<[u8; 16], Error<E>>)
        requires
            old(self).sector() < 64,
        ensures
            final(self).sector() == old(self).sector(),
            final(self).card().selected_uid() == old(self).card().selected_uid(),
            *final(final(self).card()) == *final(old(self).card()),
            block >= 4 ==> r == Err::<[u8; 16], Error<E>>(Error::OutOfBounds) && final(self).log()
                == old(self).log(),
            block < 4 ==> {
                &&& final(self).log().len() == old(self).log().len() + 1
                &&& final(self).log().drop_last() == old(self).log()
                &&& final(self).log().last() matches Exchange::Read { block: b, outcome }
                &&& b == block_of_sector(old(self).sector() as int, block as int)
                &&& r == match outcome {
                    Ok(data) => Ok(data),
                    Err(x) => Err(Error::<E>::ReaderError(x)),
                }
            },
    {
        if block >= 4 {
            return Err(Error::OutOfBounds);
        }
        let block = self.sector * 4 + block;
        let outcome = self.card.reader.chip.mf_read(block);
        proof {
            assert(self.card.reader.log().drop_last() =~= old(self).card.reader.log());
        }
        match outcome {
            Ok(data) => Ok(data),
            Err(err) => Err(Error::ReaderError(err)),
        }
    }

    /// Read all blocks in the currently authenticated card sector
    pub fn read_sector(&mut self) -> (r: Result<[u8; 64], Error<E>>)
        requires
            old(self).sector() < 64,
        ensures
            final(self).sector() == old(self).sector(),
            final(self).card().selected_uid() == old(self).card().selected_uid(),
            *final(final(self).card()) == *final(old(self).card()),
            extends(final(self).log(), old(self).log()),
            is_read_run(
                recorded_since(final(self).log(), old(self).log()),
                block_of_sector(old(self).sector() as int, 0),
                4,
            ),
            match r {
                Ok(data) => succeeded(recorded_since(final(self).log(), old(self).log()).last())
                    && data@ == run_data(recorded_since(final(self).log(), old(self).log())),
                Err(e) => !succeeded(recorded_since(final(self).log(), old(self).log()).last())
                    && e == reader_error(recorded_since(final(self).log(), old(self).log()).last()),
            },
            r matches Ok(d) ==> recorded_since(final(self).log(), old(self).log()).len() == 4 && forall|
                k: int,
            |
                0 <= k < 4 ==> (#[trigger] recorded_since(final(self).log(), old(self).log())[k] matches Exchange::Read {
                    block: b,
                    outcome: Ok(x),
                } && b == 4 * old(self).sector() + k && d@.subrange(16 * k, 16 * k + 16) == x@),
    {
        let ghost start = self.log();
        let mut sector = [0u8; 64];
        let mut i: usize = 0;
        assert(self.log().take(start.len() as int) =~= start);
        while i < SECTOR_USIZE
            invariant
                i <= 4,
                old(self).sector() < 64,
                self.sector() == old(self).sector(),
                self.card().selected_uid() == old(self).card().selected_uid(),
                *final(self.card()) == *final(old(self).card()),
                start == old(self).log(),
                extends(self.log(), start),
                recorded_since(self.log(), start).len() == i,
                forall|k: int|
                    0 <= k < i ==> reads(
                        #[trigger] recorded_since(self.log(), start)[k],
                        block_of_sector(old(self).sector() as int, k),
                    ) && succeeded(recorded_since(self.log(), start)[k]),
                sector@.len() == 64,
                sector@.subrange(0, 16 * i as int) == run_data(recorded_since(self.log(), start)),
            decreases SECTOR_USIZE - i,
        {
            let ghost before = self.log();
            let res = self.read_block(i as u8);
            proof {
                let x = self.log().last();
                assert(self.log() == before.push(x));
                lemma_extends_append(before, seq![x]);
                lemma_extends_trans(start, before, self.log());
                assert(recorded_since(self.log(), start) =~= recorded_since(before, start).push(x));
                lemma_run_data_push(recorded_since(before, start), x);
            }
            match res {
                Ok(block) => {
                    let ghost old_sector = sector@;
                    place(&mut sector, i * BLOCK_USIZE, &block);
                    assert(sector@.subrange(0, 16 * (i + 1)) =~= old_sector.subrange(
                        0,
                        16 * i as int,
                    ) + block@);
                },
                Err(e) => {
                    return Err(e);
                },
            }
            i += 1;
        }
        assert(sector@ =~= sector@.subrange(0, 64));
        proof {
            let t = recorded_since(self.log(), start);
            assert forall|k: int| 0 <= k < t.len() implies (#[trigger] t[k]) matches Exchange::Read {
                outcome: Ok(_),
                ..
            } by {
                assert(reads(t[k], block_of_sector(old(self).sector() as int, k)));
            }
            lemma_run_data_blocks(t);
        }
        Ok(sector)
    }

    /// Write to one of the blocks in the currently authenticated sector. Does not allow a write to the last block in the sector
    pub fn write_block(&mut self, block: u8, data: [u8; 16]) -> (r: Result<(), Error<E>>)
        requires
            old(self).sector() < 64,
        ensures
            final(self).sector() == old(self).sector(),
            final(self).card().selected_uid() == old(self).card().selected_uid(),
            *final(final(self).card()) == *final(old(self).card()),
            block >= 4 ==> r == Err::<(), Error<E>>(Error::OutOfBounds) && final(self).log()
                == old(self).log(),
            block == 3 ==> r == Err::<(), Error<E>>(Error::SectorTrailerLock) && final(self).log()
                == old(self).log(),
            block < 3 ==> {
                &&& final(self).log().len() == old(self).log().len() + 1
                &&& final(self).log().drop_last() == old(self).log()
                &&& writes(
                    final(self).log().last(),
                    block_of_sector(old(self).sector() as int, block as int),
                    data@,
                )
                &&& r == match final(self).log().last() {
                    Exchange::Write { outcome: Err(x), .. } => Err(Error::<E>::ReaderError(x)),
                    _ => Ok(()),
                }
            },
    {
        if block >= SECTOR_SIZE {
            return Err(Error::OutOfBounds);
        }
        if block == SECTOR_SIZE - 1 {
            return Err(Error::SectorTrailerLock);
        }
        let block = self.sector * SECTOR_SIZE + block;
        let outcome = self.card.reader.chip.mf_write(block, data);
        proof {
            assert(self.card.reader.log().drop_last() =~= old(self).card.reader.log());
        }
        match outcome {
            Ok(()) => Ok(()),
            Err(err) => Err(Error::ReaderError(err)),
        }
    }

    /// Write to all blocks except the last one in the currently authenticated card sector
    pub fn write_sector(&mut self, data: [u8; 48]) -> (r: Result<(), Error<E>>)
        requires
            old(self).sector() < 64,
        ensures
            final(self).sector() == old(self).sector(),
            final(self).card().selected_uid() == old(self).card().selected_uid(),
            *final(final(self).card()) == *final(old(self).card()),
            extends(final(self).log(), old(self).log()),
            is_write_run(
                recorded_since(final(self).log(), old(self).log()),
                block_of_sector(old(self).sector() as int, 0),
                chunks_of(data@, 16, 3),
            ),
            match r {
                Ok(()) => succeeded(recorded_since(final(self).log(), old(self).log()).last()),
                Err(e) => !succeeded(recorded_since(final(self).log(), old(self).log()).last())
                    && e == reader_error(recorded_since(final(self).log(), old(self).log()).last()),
            },
            r is Ok ==> recorded_since(final(self).log(), old(self).log()).len() == 3 && forall|
                k: int,
            |
                0 <= k < 3 ==> (#[trigger] recorded_since(final(self).log(), old(self).log())[k] matches Exchange::Write {
                    block: b,
                    data: d,
                    outcome: Ok(_),
                } && b == 4 * old(self).sector() + k && d@ == data@.subrange(16 * k, 16 * k + 16)),
    {
        let ghost start = self.log();
        let ghost chunks = chunks_of(data@, 16, 3);
        let mut i: usize = 0;
        assert(self.log().take(start.len() as int) =~= start);
        while i < SAFE_SECTOR_USIZE
            invariant
                i <= 3,
                old(self).sector() < 64,
                self.sector() == old(self).sector(),
                self.card().selected_uid() == old(self).card().selected_uid(),
                *final(self.card()) == *final(old(self).card()),
                start == old(self).log(),
                chunks == chunks_of(data@, 16, 3),
                extends(self.log(), start),
                recorded_since(self.log(), start).len() == i,
                forall|k: int|
                    0 <= k < i ==> writes(
                        #[trigger] recorded_since(self.log(), start)[k],
                        block_of_sector(old(self).sector() as int, k),
                        chunks[k],
                    ) && succeeded(recorded_since(self.log(), start)[k]),
            decreases SAFE_SECTOR_USIZE - i,
        {
            let chunk: [u8; 16] = piece(&data, i * BLOCK_USIZE);
            let ghost before = self.log();
            let res = self.write_block(i as u8, chunk);
            proof {
                let x = self.log().last();
                assert(self.log() == before.push(x));
                lemma_extends_append(before, seq![x]);
                lemma_extends_trans(start, before, self.log());
                assert(recorded_since(self.log(), start) =~= recorded_since(before, start).push(x));
                assert(chunk@ == chunks[i as int]);
            }
            if let Err(e) = res {
                return Err(e);
            }
            i += 1;
        }
        proof {
            let t = recorded_since(self.log(), start);
            assert forall|k: int| 0 <= k < 3 implies (#[trigger] t[k] matches Exchange::Write {
                block: b,
                data: d,
                outcome: Ok(_),
            } && b == 4 * old(self).sector() + k && d@ == data@.subrange(16 * k, 16 * k + 16)) by {
                assert(writes(t[k], block_of_sector(old(self).sector() as int, k), chunks[k]));
                assert(succeeded(t[k]));
            }
        }
        Ok(())
    }

    /// End the session: switch the chip's crypto unit off. (Whether the chip
    /// confirmed it is not reported, as nothing could be done about it.)
    pub fn close(self)
        ensures
            (*final(self.card())).log() == (*old(self.card())).log().push(Exchange::StopCrypto),
            (*final(self.card())).selected_uid() == (*old(self.card())).selected_uid(),
    {
        let _ = self.card.reader.chip.stop_crypto1();
    }
}

} // verus!
