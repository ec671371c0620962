//! The MFRC522 chip as the card logic sees it: the commands it issues, and the
//! record of every exchange with the chip, which the contracts speak of.
use vstd::prelude::*;

use mfrc522::{AtqA, MifareKey};
use mfrc522::Error as DriverError;
use mfrc522::Uid as ChipUid;

verus! {

/// The driver's error type. Verus reads its variants, so the logic can tell a
/// timeout apart from the other failures.
#[verifier::external_type_specification]
#[verifier::reject_recursive_types(E)]
pub struct ExChipError<E>(DriverError<E>);

/// The UID that the driver returns when it selects a card; opaque here.
#[verifier::external_type_specification]
#[verifier::external_body]
pub struct ExChipUid(ChipUid);

/// The answer to a REQA; opaque here.
#[verifier::external_type_specification]
#[verifier::external_body]
pub struct ExAtqA(AtqA);

/// The exchanges a chip has had, in order.
pub type ChipHistory<E> = Seq<Exchange<E>>;

/// The commands of an initialized MFRC522 that the card logic issues, in the
/// driver's own words. Nothing is assumed of what the chip answers; what each
/// command promises is only that it is recorded, with the answer as it came
/// back, in the chip's history, which any implementation can keep.
pub trait ChipCommands<E> {
    /// Every exchange this chip has had, in order. A value of specifications
    /// only: it is never computed when the program runs.
    spec fn history(&self) -> ChipHistory<E>;

    /// Is a card in the field? (REQA)
    fn new_card_present(&mut self) -> (r: Result<AtqA, DriverError<E>>)
        ensures
            final(self).history() == old(self).history().push(Exchange::CardPresent { outcome: r }),
    ;

    /// Run the anticollision loop and select the card that answered.
    fn select(&mut self, atqa: &AtqA) -> (r: Result<ChipUid, DriverError<E>>)
        ensures
            final(self).history() == old(self).history().push(Exchange::Select { outcome: r }),
    ;

    /// MIFARE authentication with key A for the sector that holds `block`.
    fn mf_authenticate(&mut self, uid: &ChipUid, block: u8, key: &MifareKey) -> (r: Result<
        (),
        DriverError<E>,
    >)
        ensures
            final(self).history() == old(self).history().push(
                Exchange::Authenticate { uid: *uid, block, key: *key, outcome: r },
            ),
    ;

    /// MIFARE read of one block.
    fn mf_read(&mut self, block: u8) -> (r: Result<[u8; 16], DriverError<E>>)
        ensures
            final(self).history() == old(self).history().push(Exchange::Read { block, outcome: r }),
    ;

    /// MIFARE write of one block.
    fn mf_write(&mut self, block: u8, data: [u8; 16]) -> (r: Result<(), DriverError<E>>)
        ensures
            final(self).history() == old(self).history().push(
                Exchange::Write { block, data, outcome: r },
            ),
    ;

    /// Switch the MIFARE Crypto1 unit off, ending an authenticated session.
    /// (Its answer is recorded only as the fact of the command.)
    fn stop_crypto1(&mut self) -> (r: Result<(), DriverError<E>>)
        ensures
            final(self).history() == old(self).history().push(Exchange::StopCrypto),
    ;
}

/// One exchange with the chip: the command that was sent, with what came back.
#[verifier::reject_recursive_types(E)]
#[allow(inconsistent_fields)]
pub enum Exchange<E> {
    CardPresent { outcome: Result<AtqA, DriverError<E>> },
    Select { outcome: Result<ChipUid, DriverError<E>> },
    Authenticate {
        uid: ChipUid,
        block: u8,
        key: MifareKey,
        outcome: Result<(), DriverError<E>>,
    },
    Read { block: u8, outcome: Result<[u8; 16], DriverError<E>> },
    Write { block: u8, data: [u8; 16], outcome: Result<(), DriverError<E>> },
    StopCrypto,
}

/// Did the chip accept the command of this exchange?
pub open spec fn succeeded<E>(x: Exchange<E>) -> bool {
    match x {
        Exchange::CardPresent { outcome } => outcome is Ok,
        Exchange::Select { outcome } => outcome is Ok,
        Exchange::Authenticate { outcome, .. } => outcome is Ok,
        Exchange::Read { outcome, .. } => outcome is Ok,
        Exchange::Write { outcome, .. } => outcome is Ok,
        Exchange::StopCrypto => true,
    }
}

/// The driver's error of a failed exchange.
pub open spec fn failure<E>(x: Exchange<E>) -> DriverError<E>
    recommends
        !succeeded(x),
{
    match x {
        Exchange::CardPresent { outcome } => outcome->Err_0,
        Exchange::Select { outcome } => outcome->Err_0,
        Exchange::Authenticate { outcome, .. } => outcome->Err_0,
        Exchange::Read { outcome, .. } => outcome->Err_0,
        Exchange::Write { outcome, .. } => outcome->Err_0,
        Exchange::StopCrypto => arbitrary(),
    }
}

/// The bytes a successful read brought back (nothing for any other exchange).
pub open spec fn block_data<E>(x: Exchange<E>) -> Seq<u8> {
    match x {
        Exchange::Read { outcome: Ok(data), .. } => data@,
        _ => Seq::empty(),
    }
}

/// `x` authenticates `uid` with `key` for the sector of `block`.
pub open spec fn authenticates<E>(x: Exchange<E>, uid: ChipUid, block: int, key: MifareKey) -> bool {
    x matches Exchange::Authenticate { uid: u, block: b, key: k, .. } && u == uid && b == block
        && k == key
}

/// `x` reads `block`.
pub open spec fn reads<E>(x: Exchange<E>, block: int) -> bool {
    x matches Exchange::Read { block: b, .. } && b == block
}

/// `x` writes `data` to `block`.
pub open spec fn writes<E>(x: Exchange<E>, block: int, data: Seq<u8>) -> bool {
    x matches Exchange::Write { block: b, data: d, .. } && b == block && d@ == data
}

/// `log` starts with `earlier`: nothing recorded before is lost or changed.
pub open spec fn extends<A>(log: Seq<A>, earlier: Seq<A>) -> bool {
    earlier.len() <= log.len() && log.take(earlier.len() as int) == earlier
}

/// What was recorded in `log` after `earlier`.
pub open spec fn recorded_since<A>(log: Seq<A>, earlier: Seq<A>) -> Seq<A> {
    log.skip(earlier.len() as int)
}

/// Block `offset` of `sector` (four blocks to a sector).
pub open spec fn block_of_sector(sector: int, offset: int) -> int {
    4 * sector + offset
}

/// No exchange of `t` writes the last block of a sector (its trailer, which
/// holds the sector's keys and access bits).
pub open spec fn spares_trailers<E>(t: Seq<Exchange<E>>) -> bool {
    forall|i: int|
        0 <= i < t.len() ==> (#[trigger] t[i] matches Exchange::Write { block, .. } ==> block % 4
            != 3)
}

/// `t` reads `n` consecutive blocks from `first` on, and stops after the first
/// read that fails.
pub open spec fn is_read_run<E>(t: Seq<Exchange<E>>, first: int, n: int) -> bool {
    &&& 0 < t.len() <= n
    &&& forall|i: int| 0 <= i < t.len() ==> reads(#[trigger] t[i], first + i)
    &&& forall|i: int| 0 <= i < t.len() - 1 ==> succeeded(#[trigger] t[i])
    &&& t.len() < n ==> !succeeded(t.last())
}

/// The bytes that the reads of `t` brought back, in order.
pub open spec fn run_data<E>(t: Seq<Exchange<E>>) -> Seq<u8>
    decreases t.len(),
{
    if t.len() == 0 {
        Seq::empty()
    } else {
        run_data(t.drop_last()) + block_data(t.last())
    }
}

/// `t` writes the `chunks` to consecutive blocks from `first` on, and stops
/// after the first write that fails.
pub open spec fn is_write_run<E>(t: Seq<Exchange<E>>, first: int, chunks: Seq<Seq<u8>>) -> bool {
    &&& 0 < t.len() <= chunks.len()
    &&& forall|i: int| 0 <= i < t.len() ==> writes(#[trigger] t[i], first + i, chunks[i])
    &&& forall|i: int| 0 <= i < t.len() - 1 ==> succeeded(#[trigger] t[i])
    &&& t.len() < chunks.len() ==> !succeeded(t.last())
}

/// `data` cut into `n` pieces of `size` bytes.
pub open spec fn chunks_of(data: Seq<u8>, size: int, n: int) -> Seq<Seq<u8>> {
    Seq::new(n as nat, |i: int| data.subrange(size * i, size * i + size))
}

/// The parts of `parts` one after another.
pub open spec fn joined<A>(parts: Seq<Seq<A>>) -> Seq<A>
    decreases parts.len(),
{
    if parts.len() == 0 {
        Seq::empty()
    } else {
        joined(parts.drop_last()) + parts.last()
    }
}

pub proof fn lemma_joined_push<A>(parts: Seq<Seq<A>>, part: Seq<A>)
    ensures
        joined(parts.push(part)) == joined(parts) + part,
{
    assert(parts.push(part).drop_last() =~= parts);
}

pub proof fn lemma_run_data_push<E>(t: Seq<Exchange<E>>, x: Exchange<E>)
    ensures
        run_data(t.push(x)) == run_data(t) + block_data(x),
{
    assert(t.push(x).drop_last() =~= t);
}

/// Reads that all succeeded brought back 16 bytes each, the bytes of read `k`
/// standing at offset `16 * k`.
pub proof fn lemma_run_data_blocks<E>(t: Seq<Exchange<E>>)
    requires
        forall|i: int| 0 <= i < t.len() ==> (#[trigger] t[i]) matches Exchange::Read { outcome: Ok(_), .. },
    ensures
        run_data(t).len() == 16 * t.len(),
        forall|k: int|
            0 <= k < t.len() ==> run_data(t).subrange(16 * k, 16 * k + 16) == block_data(#[trigger] t[k]),
    decreases t.len(),
{
    if t.len() > 0 {
        let init = t.drop_last();
        assert forall|i: int| 0 <= i < init.len() implies (#[trigger] init[i]) matches Exchange::Read {
            outcome: Ok(_),
            ..
        } by {
            assert(init[i] == t[i]);
        }
        lemma_run_data_blocks(init);
        let whole = run_data(t);
        assert(t[t.len() - 1] matches Exchange::Read { outcome: Ok(_), .. });
        assert(whole == run_data(init) + block_data(t.last()));
        assert forall|k: int| 0 <= k < t.len() implies whole.subrange(16 * k, 16 * k + 16)
            == block_data(#[trigger] t[k]) by {
            if k < init.len() {
                assert(init[k] == t[k]);
                assert(whole.subrange(16 * k, 16 * k + 16) =~= run_data(init).subrange(
                    16 * k,
                    16 * k + 16,
                ));
            } else {
                assert(whole.subrange(16 * k, 16 * k + 16) =~= block_data(t.last()));
            }
        }
    }
}

/// A log that grows by `t` keeps what it held, and what it recorded since is `t`.
pub proof fn lemma_extends_append<A>(log: Seq<A>, t: Seq<A>)
    ensures
        extends(log + t, log),
        recorded_since(log + t, log) == t,
{
    assert((log + t).take(log.len() as int) =~= log);
    assert((log + t).skip(log.len() as int) =~= t);
}

/// Extending is transitive, and what was recorded adds up.
pub proof fn lemma_extends_trans<A>(a: Seq<A>, b: Seq<A>, c: Seq<A>)
    requires
        extends(b, a),
        extends(c, b),
    ensures
        extends(c, a),
        recorded_since(c, a) == recorded_since(b, a) + recorded_since(c, b),
{
    assert(c.take(a.len() as int) =~= b.take(a.len() as int));
    assert(recorded_since(c, a) =~= recorded_since(b, a) + recorded_since(c, b)) by {
        assert(b =~= a + recorded_since(b, a));
        assert(c =~= b + recorded_since(c, b));
    }
}

} // verus!
