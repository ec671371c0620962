//! Whole operations on a selected card: each authenticates the sector it
//! needs, does its reads or writes, and closes the session again.
use vstd::prelude::*;

use mfrc522::MifareKey;
use mfrc522::Uid as ChipUid;

use crate::chip::{
    authenticates, block_data, block_of_sector, chunks_of, extends, is_read_run, is_write_run,
    joined, lemma_extends_append, lemma_run_data_blocks, lemma_extends_trans, lemma_joined_push, reads, recorded_since,
    run_data, spares_trailers, succeeded, writes, ChipCommands, Exchange,
};
use crate::rfid::{reader_error, place, Error, SelectedCard, CARD_USIZE, SECTOR_SIZE};

verus! {

/// An authenticated session with the card `uid`: the authentication of `sector`
/// with `key`, then, if the chip accepted it, the exchanges of the session and
/// the switching off of the crypto unit.
pub open spec fn is_session<E>(t: Seq<Exchange<E>>, uid: ChipUid, sector: int, key: MifareKey) -> bool {
    &&& t.len() >= 1
    &&& authenticates(t[0], uid, block_of_sector(sector, 0), key)
    &&& if succeeded(t[0]) {
        t.len() >= 2 && t.last() is StopCrypto
    } else {
        t.len() == 1
    }
}

/// The exchanges of a session between its authentication and its end.
pub open spec fn session_body<E>(t: Seq<Exchange<E>>) -> Seq<Exchange<E>> {
    t.subrange(1, t.len() - 1)
}

/// A byte-array result seen as a sequence.
pub open spec fn bytes_result<E, const N: usize>(r: Result<[u8; N], Error<E>>) -> Result<Seq<u8>, Error<E>> {
    match r {
        Ok(data) => Ok(data@),
        Err(e) => Err(e),
    }
}

/// A unit result seen as the error it carries, if any.
pub open spec fn failure_of<E>(r: Result<(), Error<E>>) -> Option<Error<E>> {
    match r {
        Ok(_) => None,
        Err(e) => Some(e),
    }
}

/// The session of [read_block]: one read of `block`.
pub open spec fn is_block_read<E>(t: Seq<Exchange<E>>, uid: ChipUid, block: u8, key: MifareKey) -> bool {
    &&& is_session(t, uid, block as int / 4, key)
    &&& succeeded(t[0]) ==> session_body(t).len() == 1 && reads(session_body(t)[0], block as int)
}

/// What [read_block] returns after the session `t`.
pub open spec fn block_read_result<E>(t: Seq<Exchange<E>>) -> Result<Seq<u8>, Error<E>> {
    if !succeeded(t[0]) {
        Err(reader_error(t[0]))
    } else if succeeded(session_body(t)[0]) {
        Ok(block_data(session_body(t)[0]))
    } else {
        Err(reader_error(session_body(t)[0]))
    }
}

/// The session of [read_sector]: the reads of the sector's four blocks, up to
/// the first that fails.
pub open spec fn is_sector_read<E>(t: Seq<Exchange<E>>, uid: ChipUid, sector: int, key: MifareKey) -> bool {
    &&& is_session(t, uid, sector, key)
    &&& succeeded(t[0]) ==> is_read_run(session_body(t), block_of_sector(sector, 0), 4)
}

/// What [read_sector] returns after the session `t`.
pub open spec fn sector_read_result<E>(t: Seq<Exchange<E>>) -> Result<Seq<u8>, Error<E>> {
    if !succeeded(t[0]) {
        Err(reader_error(t[0]))
    } else if succeeded(session_body(t).last()) {
        Ok(run_data(session_body(t)))
    } else {
        Err(reader_error(session_body(t).last()))
    }
}

/// [read_card] as the sessions `parts`: sectors 0, 1, ... read in order with
/// their keys, up to the first session that fails.
pub open spec fn is_card_read<E>(
    t: Seq<Exchange<E>>,
    uid: ChipUid,
    keys: Seq<MifareKey>,
    parts: Seq<Seq<Exchange<E>>>,
) -> bool {
    &&& keys.len() == 16
    &&& 1 <= parts.len() <= 16
    &&& t == joined(parts)
    &&& forall|i: int| 0 <= i < parts.len() ==> is_sector_read(#[trigger] parts[i], uid, i, keys[i])
    &&& forall|i: int| 0 <= i < parts.len() - 1 ==> (#[trigger] sector_read_result(parts[i])) is Ok
    &&& parts.len() < 16 ==> sector_read_result(parts.last()) is Err
}

/// What [read_card] returns after the sessions `parts`: the first error, or
/// the data of all sectors one after the other.
pub open spec fn card_read_result<E>(parts: Seq<Seq<Exchange<E>>>) -> Result<Seq<u8>, Error<E>> {
    if sector_read_result(parts.last()) is Err {
        sector_read_result(parts.last())
    } else {
        Ok(joined(Seq::new(parts.len(), |i: int| sector_read_result(parts[i])->Ok_0)))
    }
}

/// The session of [write_block]: one write of `data` to `block`, unless
/// `block` is a sector trailer, which is not written at all.
pub open spec fn is_block_write<E>(
    t: Seq<Exchange<E>>,
    uid: ChipUid,
    block: u8,
    key: MifareKey,
    data: Seq<u8>,
) -> bool {
    &&& is_session(t, uid, block as int / 4, key)
    &&& succeeded(t[0]) && block % 4 == 3 ==> session_body(t).len() == 0
    &&& succeeded(t[0]) && block % 4 != 3 ==> session_body(t).len() == 1 && writes(
        session_body(t)[0],
        block as int,
        data,
    )
}

/// The error [write_block] reports after the session `t`, if any.
pub open spec fn block_write_failure<E>(t: Seq<Exchange<E>>, block: u8) -> Option<Error<E>> {
    if !succeeded(t[0]) {
        Some(reader_error(t[0]))
    } else if block % 4 == 3 {
        Some(Error::SectorTrailerLock)
    } else if succeeded(session_body(t)[0]) {
        None
    } else {
        Some(reader_error(session_body(t)[0]))
    }
}

/// The session of [write_sector]: the `data` written in three blocks to the
/// first three blocks of `sector`, up to the first write that fails.
pub open spec fn is_sector_write<E>(
    t: Seq<Exchange<E>>,
    uid: ChipUid,
    sector: int,
    key: MifareKey,
    data: Seq<u8>,
) -> bool {
    &&& is_session(t, uid, sector, key)
    &&& succeeded(t[0]) ==> is_write_run(
        session_body(t),
        block_of_sector(sector, 0),
        chunks_of(data, 16, 3),
    )
}

/// The error [write_sector] reports after the session `t`, if any.
pub open spec fn sector_write_failure<E>(t: Seq<Exchange<E>>) -> Option<Error<E>> {
    if !succeeded(t[0]) {
        Some(reader_error(t[0]))
    } else if succeeded(session_body(t).last()) {
        None
    } else {
        Some(reader_error(session_body(t).last()))
    }
}

/// [write_card] as the sessions `parts`: piece `i` of 48 bytes of `data`
/// written as by [write_sector] to the three data blocks of sector `i`, with
/// that sector's key, sectors 0, 1, ... in order, up to the first session that
/// fails.
pub open spec fn is_card_write<E>(
    t: Seq<Exchange<E>>,
    uid: ChipUid,
    keys: Seq<MifareKey>,
    data: Seq<u8>,
    parts: Seq<Seq<Exchange<E>>>,
) -> bool {
    &&& keys.len() == 16
    &&& 1 <= parts.len() <= 16
    &&& t == joined(parts)
    &&& forall|i: int|
        0 <= i < parts.len() ==> is_sector_write(
            #[trigger] parts[i],
            uid,
            i,
            keys[i],
            data.subrange(48 * i, 48 * i + 48),
        )
    &&& forall|i: int| 0 <= i < parts.len() - 1 ==> (#[trigger] sector_write_failure(parts[i])) is None
    &&& parts.len() < 16 ==> sector_write_failure(parts.last()) is Some
}

/// Law: whatever the chip answers, [write_block] never writes a sector trailer.
pub proof fn law_block_write_spares_trailers<E>(
    t: Seq<Exchange<E>>,
    uid: ChipUid,
    block: u8,
    key: MifareKey,
    data: Seq<u8>,
)
    requires
        is_block_write(t, uid, block, key, data),
    ensures
        spares_trailers(t),
{
    if succeeded(t[0]) && block % 4 != 3 {
        assert(t[1] == session_body(t)[0]);
    }
    assert forall|i: int| 0 <= i < t.len() implies (#[trigger] t[i] matches Exchange::Write {
        block, ..
    } ==> block % 4 != 3) by {
        if 0 < i < t.len() - 1 {
            assert(t[i] == session_body(t)[i - 1]);
        }
    }
}

/// Law: whatever the chip answers, [write_sector] never writes a sector trailer.
pub proof fn law_sector_write_spares_trailers<E>(
    t: Seq<Exchange<E>>,
    uid: ChipUid,
    sector: int,
    key: MifareKey,
    data: Seq<u8>,
)
    requires
        is_sector_write(t, uid, sector, key, data),
    ensures
        spares_trailers(t),
{
    assert forall|i: int| 0 <= i < t.len() implies (#[trigger] t[i] matches Exchange::Write {
        block, ..
    } ==> block % 4 != 3) by {
        if 0 < i < t.len() - 1 {
            let body = session_body(t);
            assert(t[i] == body[i - 1]);
            assert(writes(body[i - 1], block_of_sector(sector, 0) + (i - 1), chunks_of(data, 16, 3)[i - 1]));
        }
    }
}

/// A log made of parts that each spare the trailers spares them too.
pub proof fn lemma_joined_spares_trailers<E>(parts: Seq<Seq<Exchange<E>>>)
    requires
        forall|i: int| 0 <= i < parts.len() ==> spares_trailers(#[trigger] parts[i]),
    ensures
        spares_trailers(joined(parts)),
    decreases parts.len(),
{
    if parts.len() > 0 {
        let init = parts.drop_last();
        assert forall|i: int| 0 <= i < init.len() implies spares_trailers(#[trigger] init[i]) by {
            assert(init[i] == parts[i]);
        }
        lemma_joined_spares_trailers(init);
        let whole = joined(parts);
        assert(whole == joined(init) + parts.last());
        assert(spares_trailers(parts[parts.len() - 1]));
        assert forall|i: int| 0 <= i < whole.len() implies (#[trigger] whole[i] matches Exchange::Write {
            block, ..
        } ==> block % 4 != 3) by {
            if i < joined(init).len() {
                assert(whole[i] == joined(init)[i]);
            } else {
                assert(whole[i] == parts.last()[i - joined(init).len()]);
            }
        }
    }
}

/// Law: whatever the chip answers, [write_card] never writes a sector trailer.
pub proof fn law_card_write_spares_trailers<E>(
    t: Seq<Exchange<E>>,
    uid: ChipUid,
    keys: Seq<MifareKey>,
    data: Seq<u8>,
    parts: Seq<Seq<Exchange<E>>>,
)
    requires
        is_card_write(t, uid, keys, data, parts),
    ensures
        spares_trailers(t),
{
    assert forall|i: int| 0 <= i < parts.len() implies spares_trailers(#[trigger] parts[i]) by {
        law_sector_write_spares_trailers(parts[i], uid, i, keys[i], data.subrange(48 * i, 48 * i + 48));
    }
    lemma_joined_spares_trailers(parts);
}

/// Law: when [write_card] succeeds, every sector `s` of the card got its
/// piece of the data: block `4 * s + j` (for `j` below 3) was written with the
/// 16 bytes at offset `48 * s + 16 * j`, and the chip accepted the write.
pub proof fn law_card_write_layout<E>(
    t: Seq<Exchange<E>>,
    uid: ChipUid,
    keys: Seq<MifareKey>,
    data: Seq<u8>,
    parts: Seq<Seq<Exchange<E>>>,
)
    requires
        data.len() == 768,
        is_card_write(t, uid, keys, data, parts),
        sector_write_failure(parts.last()) is None,
    ensures
        parts.len() == 16,
        forall|s: int, j: int|
            0 <= s < 16 && 0 <= j < 3 ==> writes(
                #[trigger] session_body(parts[s])[j],
                4 * s + j,
                data.subrange(48 * s + 16 * j, 48 * s + 16 * j + 16),
            ) && succeeded(session_body(parts[s])[j]),
        forall|s: int| 0 <= s < 16 ==> ((#[trigger] parts[s])[0] matches Exchange::Authenticate {
            block: b,
            key: kk,
            ..
        } && b == 4 * s && kk == keys[s]),
        forall|s: int, j: int|
            0 <= s < 16 && 0 <= j < 3 ==> (#[trigger] session_body(parts[s])[j] matches Exchange::Write {
                block: b,
                data: d,
                outcome: Ok(_),
            } && b == 4 * s + j && d@ == data.subrange(48 * s + 16 * j, 48 * s + 16 * j + 16)),
{
    assert(parts.len() == 16);
    assert forall|s: int, j: int| 0 <= s < 16 && 0 <= j < 3 implies writes(
        #[trigger] session_body(parts[s])[j],
        4 * s + j,
        data.subrange(48 * s + 16 * j, 48 * s + 16 * j + 16),
    ) && succeeded(session_body(parts[s])[j]) by {
        let p = parts[s];
        let piece = data.subrange(48 * s, 48 * s + 48);
        assert(is_sector_write(p, uid, s, keys[s], piece));
        assert(sector_write_failure(p) is None) by {
            if s == parts.len() - 1 {
                assert(p == parts.last());
            }
        }
        let body = session_body(p);
        assert(succeeded(p[0]));
        assert(succeeded(body.last()));
        assert(body.len() == 3);
        assert(chunks_of(piece, 16, 3)[j] =~= data.subrange(48 * s + 16 * j, 48 * s + 16 * j + 16));
        if j < 2 {
        } else {
            assert(body[j] == body.last());
        }
    }
    assert forall|s: int| 0 <= s < 16 implies ((#[trigger] parts[s])[0] matches Exchange::Authenticate {
        block: b,
        key: kk,
        ..
    } && b == 4 * s && kk == keys[s]) by {
        assert(is_sector_write(parts[s], uid, s, keys[s], data.subrange(48 * s, 48 * s + 48)));
    }
    assert forall|s: int, j: int| 0 <= s < 16 && 0 <= j < 3 implies (#[trigger] session_body(
        parts[s],
    )[j] matches Exchange::Write { block: b, data: d, outcome: Ok(_) } && b == 4 * s + j && d@
        == data.subrange(48 * s + 16 * j, 48 * s + 16 * j + 16)) by {
        assert(writes(
            session_body(parts[s])[j],
            4 * s + j,
            data.subrange(48 * s + 16 * j, 48 * s + 16 * j + 16),
        ) && succeeded(session_body(parts[s])[j]));
    }
}

/// Every read and every write of the session `t` addresses a block of
/// `sector`, and comes after the chip accepted the authentication.
pub open spec fn accesses_within<E>(t: Seq<Exchange<E>>, sector: int) -> bool {
    forall|i: int|
        0 <= i < t.len() ==> match #[trigger] t[i] {
            Exchange::Read { block, .. } => block / 4 == sector && 0 < i && succeeded(t[0]),
            Exchange::Write { block, .. } => block / 4 == sector && 0 < i && succeeded(t[0]),
            _ => true,
        }
}

/// Law: [read_block] reads only after the chip accepted the authentication,
/// and only the sector it authenticated.
pub proof fn law_block_read_stays_in_sector<E>(
    t: Seq<Exchange<E>>,
    uid: ChipUid,
    block: u8,
    key: MifareKey,
)
    requires
        is_block_read(t, uid, block, key),
    ensures
        accesses_within(t, block as int / 4),
{
    assert forall|i: int| 0 <= i < t.len() implies match #[trigger] t[i] {
        Exchange::Read { block: b, .. } => b / 4 == block as int / 4 && 0 < i && succeeded(t[0]),
        Exchange::Write { block: b, .. } => b / 4 == block as int / 4 && 0 < i && succeeded(t[0]),
        _ => true,
    } by {
        if 0 < i < t.len() - 1 {
            assert(t[i] == session_body(t)[i - 1]);
        }
    }
}

/// Law: [read_sector] reads only after the chip accepted the authentication,
/// and only the sector it authenticated.
pub proof fn law_sector_read_stays_in_sector<E>(
    t: Seq<Exchange<E>>,
    uid: ChipUid,
    sector: int,
    key: MifareKey,
)
    requires
        is_sector_read(t, uid, sector, key),
    ensures
        accesses_within(t, sector),
{
    assert forall|i: int| 0 <= i < t.len() implies match #[trigger] t[i] {
        Exchange::Read { block, .. } => block / 4 == sector && 0 < i && succeeded(t[0]),
        Exchange::Write { block, .. } => block / 4 == sector && 0 < i && succeeded(t[0]),
        _ => true,
    } by {
        if 0 < i < t.len() - 1 {
            let body = session_body(t);
            assert(t[i] == body[i - 1]);
            assert(reads(body[i - 1], block_of_sector(sector, 0) + (i - 1)));
        }
    }
}

/// Law: [write_block] writes only after the chip accepted the authentication,
/// and only the sector it authenticated.
pub proof fn law_block_write_stays_in_sector<E>(
    t: Seq<Exchange<E>>,
    uid: ChipUid,
    block: u8,
    key: MifareKey,
    data: Seq<u8>,
)
    requires
        is_block_write(t, uid, block, key, data),
    ensures
        accesses_within(t, block as int / 4),
{
    assert forall|i: int| 0 <= i < t.len() implies match #[trigger] t[i] {
        Exchange::Read { block: b, .. } => b / 4 == block as int / 4 && 0 < i && succeeded(t[0]),
        Exchange::Write { block: b, .. } => b / 4 == block as int / 4 && 0 < i && succeeded(t[0]),
        _ => true,
    } by {
        if 0 < i < t.len() - 1 {
            assert(t[i] == session_body(t)[i - 1]);
        }
    }
}

/// Law: [write_sector] writes only after the chip accepted the authentication,
/// and only the sector it authenticated.
pub proof fn law_sector_write_stays_in_sector<E>(
    t: Seq<Exchange<E>>,
    uid: ChipUid,
    sector: int,
    key: MifareKey,
    data: Seq<u8>,
)
    requires
        is_sector_write(t, uid, sector, key, data),
    ensures
        accesses_within(t, sector),
{
    assert forall|i: int| 0 <= i < t.len() implies match #[trigger] t[i] {
        Exchange::Read { block, .. } => block / 4 == sector && 0 < i && succeeded(t[0]),
        Exchange::Write { block, .. } => block / 4 == sector && 0 < i && succeeded(t[0]),
        _ => true,
    } by {
        if 0 < i < t.len() - 1 {
            let body = session_body(t);
            assert(t[i] == body[i - 1]);
            assert(writes(body[i - 1], block_of_sector(sector, 0) + (i - 1), chunks_of(data, 16, 3)[i - 1]));
        }
    }
}

/// Pieces of 64 items each, joined, put piece `i` at offset `64 * i`.
pub proof fn lemma_joined_pieces_of_64<A>(ps: Seq<Seq<A>>)
    requires
        forall|i: int| 0 <= i < ps.len() ==> (#[trigger] ps[i]).len() == 64,
    ensures
        joined(ps).len() == 64 * ps.len(),
        forall|i: int|
            0 <= i < ps.len() ==> joined(ps).subrange(64 * i, 64 * i + 64) == #[trigger] ps[i],
    decreases ps.len(),
{
    if ps.len() > 0 {
        let init = ps.drop_last();
        assert forall|i: int| 0 <= i < init.len() implies (#[trigger] init[i]).len() == 64 by {
            assert(init[i] == ps[i]);
        }
        lemma_joined_pieces_of_64(init);
        let whole = joined(ps);
        assert(whole == joined(init) + ps.last());
        assert forall|i: int| 0 <= i < ps.len() implies whole.subrange(64 * i, 64 * i + 64)
            == #[trigger] ps[i] by {
            if i < init.len() {
                assert(init[i] == ps[i]);
                assert(whole.subrange(64 * i, 64 * i + 64) =~= joined(init).subrange(
                    64 * i,
                    64 * i + 64,
                ));
            } else {
                assert(whole.subrange(64 * i, 64 * i + 64) =~= ps.last());
            }
        }
    }
}

/// Reads that all succeeded brought back 16 bytes each.
pub proof fn lemma_run_data_len<E>(t: Seq<Exchange<E>>)
    requires
        forall|i: int| 0 <= i < t.len() ==> (#[trigger] t[i]) is Read && succeeded(t[i]),
    ensures
        run_data(t).len() == 16 * t.len(),
    decreases t.len(),
{
    if t.len() > 0 {
        let init = t.drop_last();
        assert forall|i: int| 0 <= i < init.len() implies (#[trigger] init[i]) is Read && succeeded(
            init[i],
        ) by {
            assert(init[i] == t[i]);
        }
        lemma_run_data_len(init);
        assert(t[t.len() - 1] is Read);
    }
}

/// Law: in the data that [read_card] returns, the 64 bytes at offset `64 * i`
/// are what the chip returned for the reads of the blocks `4 * i` to
/// `4 * i + 3`, which the session of sector `i` read in that order.
pub proof fn law_card_read_layout<E>(
    t: Seq<Exchange<E>>,
    uid: ChipUid,
    keys: Seq<MifareKey>,
    parts: Seq<Seq<Exchange<E>>>,
    data: Seq<u8>,
)
    requires
        is_card_read(t, uid, keys, parts),
        card_read_result(parts) == Ok::<Seq<u8>, Error<E>>(data),
    ensures
        parts.len() == 16,
        data.len() == 1024,
        forall|i: int|
            0 <= i < 16 ==> data.subrange(64 * i, 64 * i + 64) == run_data(
                session_body(#[trigger] parts[i]),
            ),
        forall|i: int, k: int|
            0 <= i < 16 && 0 <= k < 4 ==> reads(#[trigger] session_body(parts[i])[k], 4 * i + k),
        forall|i: int|
            0 <= i < 16 ==> ((#[trigger] parts[i])[0] matches Exchange::Authenticate {
                block: b,
                key: kk,
                ..
            } && b == 4 * i && kk == keys[i]),
        forall|i: int, k: int|
            0 <= i < 16 && 0 <= k < 4 ==> (#[trigger] session_body(parts[i])[k] matches Exchange::Read {
                block: b,
                outcome: Ok(x),
            } && b == 4 * i + k && data.subrange(64 * i + 16 * k, 64 * i + 16 * k + 16) == x@),
{
    let n = parts.len();
    assert(sector_read_result(parts.last()) is Ok);
    assert forall|i: int| 0 <= i < n implies (#[trigger] sector_read_result(parts[i])) is Ok by {
        if i < n - 1 {
        } else {
            assert(parts[i] == parts.last());
        }
    }
    assert(n == 16);
    let pieces = Seq::new(n, |i: int| sector_read_result(parts[i])->Ok_0);
    assert forall|i: int| 0 <= i < n implies (#[trigger] pieces[i]).len() == 64
        && pieces[i] == run_data(session_body(parts[i])) by {
        let p = parts[i];
        assert(is_sector_read(p, uid, i, keys[i]));
        let body = session_body(p);
        assert(sector_read_result(p) is Ok);
        assert(succeeded(p[0]));
        assert(succeeded(body.last()));
        assert(body.len() == 4);
        assert forall|k: int| 0 <= k < body.len() implies (#[trigger] body[k]) is Read && succeeded(
            body[k],
        ) by {
            assert(reads(body[k], block_of_sector(i, 0) + k));
            if k < body.len() - 1 {
            } else {
                assert(body[k] == body.last());
            }
        }
        lemma_run_data_len(body);
    }
    lemma_joined_pieces_of_64(pieces);
    assert(data == joined(pieces));
    assert forall|i: int| 0 <= i < 16 implies data.subrange(64 * i, 64 * i + 64) == run_data(
        session_body(#[trigger] parts[i]),
    ) by {
        assert(pieces[i] == run_data(session_body(parts[i])));
    }
    assert forall|i: int, k: int| 0 <= i < 16 && 0 <= k < 4 implies reads(
        #[trigger] session_body(parts[i])[k],
        4 * i + k,
    ) by {
        let p = parts[i];
        assert(is_sector_read(p, uid, i, keys[i]));
        assert(sector_read_result(p) is Ok);
        let body = session_body(p);
        assert(succeeded(body.last()));
        assert(body.len() == 4);
    }
    assert forall|i: int| 0 <= i < 16 implies ((#[trigger] parts[i])[0] matches Exchange::Authenticate {
        block: b,
        key: kk,
        ..
    } && b == 4 * i && kk == keys[i]) by {
        law_read_sector_reads_its_four_blocks(parts[i], uid, i, keys[i]);
    }
    assert forall|i: int, k: int| 0 <= i < 16 && 0 <= k < 4 implies (#[trigger] session_body(
        parts[i],
    )[k] matches Exchange::Read { block: b, outcome: Ok(x) } && b == 4 * i + k && data.subrange(
        64 * i + 16 * k,
        64 * i + 16 * k + 16,
    ) == x@) by {
        let p = parts[i];
        law_read_sector_reads_its_four_blocks(p, uid, i, keys[i]);
        let d = sector_read_result(p)->Ok_0;
        assert(pieces[i] == d);
        assert(data.subrange(64 * i, 64 * i + 64) == d);
        assert(data.subrange(64 * i + 16 * k, 64 * i + 16 * k + 16) =~= d.subrange(16 * k, 16 * k + 16));
    }
}

/// The log after an authentication that the chip refused: the log before,
/// and that authentication.
pub proof fn lemma_refused_authentication<E>(start: Seq<Exchange<E>>, end: Seq<Exchange<E>>)
    requires
        end.len() == start.len() + 1,
        end.drop_last() == start,
    ensures
        extends(end, start),
        recorded_since(end, start) == seq![end.last()],
{
    assert(end =~= start + seq![end.last()]);
    lemma_extends_append(start, seq![end.last()]);
}

/// The log after an authenticated session: the log before, the accepted
/// authentication, what the session recorded, and the crypto unit switched off.
pub proof fn lemma_session_recorded<E>(
    start: Seq<Exchange<E>>,
    opened: Seq<Exchange<E>>,
    mid: Seq<Exchange<E>>,
    end: Seq<Exchange<E>>,
)
    requires
        opened.len() == start.len() + 1,
        opened.drop_last() == start,
        mid == opened + recorded_since(mid, opened),
        end == mid.push(Exchange::StopCrypto),
    ensures
        extends(end, start),
        recorded_since(end, start) == seq![opened.last()] + recorded_since(mid, opened) + seq![
            Exchange::<E>::StopCrypto,
        ],
        recorded_since(end, start)[0] == opened.last(),
        session_body(recorded_since(end, start)) == recorded_since(mid, opened),
{
    let body = recorded_since(mid, opened);
    let t = seq![opened.last()] + body + seq![Exchange::<E>::StopCrypto];
    assert(opened =~= start.push(opened.last()));
    assert(end =~= start + t);
    lemma_extends_append(start, t);
    assert(session_body(t) =~= body);
}

/// Law: a session of [read_block] authenticates the sector that holds
/// `block` (its first block, `4 * (block / 4)`) with `key`; if the chip accepts,
/// it reads `block` itself, once, and switches the crypto unit off. What
/// [read_block] returns on success is exactly what the chip answered to that
/// read of `block`.
pub proof fn law_read_block_reads_the_requested_block<E>(
    t: Seq<Exchange<E>>,
    uid: ChipUid,
    block: u8,
    key: MifareKey,
)
    requires
        is_block_read(t, uid, block, key),
    ensures
        t[0] matches Exchange::Authenticate { uid: u, block: b, key: k, .. } && u == uid && b == 4
            * (block as int / 4) && k == key,
        !succeeded(t[0]) ==> t.len() == 1,
        succeeded(t[0]) ==> t.len() == 3 && (t[1] matches Exchange::Read { block: b, .. } && b
            == block) && t[2] is StopCrypto,
        block_read_result(t) matches Ok(d) ==> (t[1] matches Exchange::Read {
            block: b,
            outcome: Ok(x),
        } && b == block && x@ == d),
{
    if succeeded(t[0]) {
        assert(t[1] == session_body(t)[0]);
    }
}

/// Law: a session of [write_block] authenticates the sector that holds
/// `block` with `key`; if the chip accepts and `block` is not a sector
/// trailer, it writes the caller's `data`, unchanged, to `block` itself, once,
/// and switches the crypto unit off; a trailer is not written at all. It
/// succeeds exactly when the chip accepted that authentication and that write.
pub proof fn law_write_block_writes_the_requested_block<E>(
    t: Seq<Exchange<E>>,
    uid: ChipUid,
    block: u8,
    key: MifareKey,
    data: Seq<u8>,
)
    requires
        is_block_write(t, uid, block, key, data),
    ensures
        t[0] matches Exchange::Authenticate { uid: u, block: b, key: k, .. } && u == uid && b == 4
            * (block as int / 4) && k == key,
        !succeeded(t[0]) ==> t.len() == 1,
        succeeded(t[0]) && block % 4 == 3 ==> t.len() == 2 && t[1] is StopCrypto,
        succeeded(t[0]) && block % 4 != 3 ==> t.len() == 3 && (t[1] matches Exchange::Write {
            block: b,
            data: d,
            ..
        } && b == block && d@ == data) && t[2] is StopCrypto,
        block_write_failure(t, block) is None <==> succeeded(t[0]) && block % 4 != 3 && succeeded(t[1]),
{
    if succeeded(t[0]) && t.len() > 2 {
        assert(t[1] == session_body(t)[0]);
    }
}

/// Law: a session of [read_sector] authenticates `sector` with `key`; if the
/// chip accepts, it reads the sector's blocks `4 * sector`, `4 * sector + 1`,
/// ... in that order and switches the crypto unit off. On success all four
/// were read, and the 16 bytes at offset `16 * k` of the result are what the
/// chip answered to the read of block `4 * sector + k`.
pub proof fn law_read_sector_reads_its_four_blocks<E>(
    t: Seq<Exchange<E>>,
    uid: ChipUid,
    sector: int,
    key: MifareKey,
)
    requires
        is_sector_read(t, uid, sector, key),
    ensures
        t[0] matches Exchange::Authenticate { uid: u, block: b, key: k, .. } && u == uid && b == 4
            * sector && k == key,
        !succeeded(t[0]) ==> t.len() == 1,
        succeeded(t[0]) ==> t.last() is StopCrypto && forall|k: int|
            0 <= k < t.len() - 2 ==> (#[trigger] session_body(t)[k] matches Exchange::Read {
                block: b,
                ..
            } && b == 4 * sector + k),
        sector_read_result(t) matches Ok(d) ==> t.len() == 6 && d.len() == 64 && forall|k: int|
            0 <= k < 4 ==> (#[trigger] session_body(t)[k] matches Exchange::Read {
                block: b,
                outcome: Ok(x),
            } && b == 4 * sector + k && d.subrange(16 * k, 16 * k + 16) == x@),
{
    if succeeded(t[0]) {
        let body = session_body(t);
        assert forall|k: int| 0 <= k < t.len() - 2 implies (#[trigger] session_body(t)[k] matches Exchange::Read {
            block: b,
            ..
        } && b == 4 * sector + k) by {
            assert(reads(body[k], block_of_sector(sector, 0) + k));
        }
        if sector_read_result(t) is Ok {
            assert(succeeded(body.last()));
            assert(body.len() == 4);
            assert forall|i: int| 0 <= i < body.len() implies (#[trigger] body[i]) matches Exchange::Read {
                outcome: Ok(_),
                ..
            } by {
                assert(reads(body[i], block_of_sector(sector, 0) + i));
                if i == body.len() - 1 {
                    assert(body[i] == body.last());
                }
            }
            lemma_run_data_blocks(body);
        }
    }
}

/// Law: a session of [write_sector] authenticates `sector` with `key`; if the
/// chip accepts, it writes the three 16-byte pieces of the caller's `data`, in
/// order and unchanged, to blocks `4 * sector`, `4 * sector + 1` and
/// `4 * sector + 2`, and switches the crypto unit off. It succeeds exactly when
/// the chip accepted the authentication and all three writes.
pub proof fn law_write_sector_writes_its_three_data_blocks<E>(
    t: Seq<Exchange<E>>,
    uid: ChipUid,
    sector: int,
    key: MifareKey,
    data: Seq<u8>,
)
    requires
        is_sector_write(t, uid, sector, key, data),
        data.len() == 48,
    ensures
        t[0] matches Exchange::Authenticate { uid: u, block: b, key: k, .. } && u == uid && b == 4
            * sector && k == key,
        !succeeded(t[0]) ==> t.len() == 1,
        succeeded(t[0]) ==> t.last() is StopCrypto && forall|k: int|
            0 <= k < t.len() - 2 ==> (#[trigger] session_body(t)[k] matches Exchange::Write {
                block: b,
                data: d,
                ..
            } && b == 4 * sector + k && d@ == data.subrange(16 * k, 16 * k + 16)),
        sector_write_failure(t) is None <==> succeeded(t[0]) && t.len() == 5 && forall|k: int|
            0 <= k < 3 ==> succeeded(#[trigger] session_body(t)[k]),
{
    if succeeded(t[0]) {
        let body = session_body(t);
        assert forall|k: int| 0 <= k < t.len() - 2 implies (#[trigger] session_body(t)[k] matches Exchange::Write {
            block: b,
            data: d,
            ..
        } && b == 4 * sector + k && d@ == data.subrange(16 * k, 16 * k + 16)) by {
            assert(writes(body[k], block_of_sector(sector, 0) + k, chunks_of(data, 16, 3)[k]));
        }
        if sector_write_failure(t) is None {
            assert(succeeded(body.last()));
            assert(body.len() == 3);
            assert forall|k: int| 0 <= k < 3 implies succeeded(#[trigger] session_body(t)[k]) by {
                if k == 2 {
                    assert(body[k] == body.last());
                }
            }
        }
        if t.len() == 5 && forall|k: int| 0 <= k < 3 ==> succeeded(#[trigger] session_body(t)[k]) {
            assert(body.len() == 3);
            assert(body.last() == body[2]);
        }
    }
}

pub fn read_block<'r, E, C: ChipCommands<E>>(
    selected: &mut SelectedCard<'r, E, C>,
    block: u8,
    key: &MifareKey,
) -> (r: Result<[u8; 16], Error<E>>)
    ensures
        final(selected).selected_uid() == old(selected).selected_uid(),
        extends(final(selected).log(), old(selected).log()),
        is_block_read(
            recorded_since(final(selected).log(), old(selected).log()),
            old(selected).selected_uid(),
            block,
            *key,
        ),
        bytes_result(r) == block_read_result(recorded_since(final(selected).log(), old(selected).log())),
        r matches Ok(d) ==> (recorded_since(final(selected).log(), old(selected).log())[1] matches Exchange::Read {
            block: b,
            outcome: Ok(x),
        } && b == block && x == d),
{
    let ghost start = selected.log();
    let mut auth = match selected.auth_sector(block / SECTOR_SIZE, key) {
        Ok(auth) => auth,
        Err(e) => {
            proof {
                lemma_refused_authentication(start, selected.log());
            }
            return Err(e);
        },
    };
    let ghost opened = auth.log();
    let data = auth.read_block(block % 4);
    let ghost mid = auth.log();
    auth.close();
    proof {
        assert(mid =~= opened + recorded_since(mid, opened));
        lemma_session_recorded(start, opened, mid, selected.log());
        let t = recorded_since(selected.log(), start);
        law_read_block_reads_the_requested_block(t, old(selected).selected_uid(), block, *key);
        if data is Ok {
            assert(data->Ok_0@ =~= t[1]->Read_outcome->Ok_0@);
        }
    }
    data
}

pub fn read_sector<'r, E, C: ChipCommands<E>>(
    selected: &mut SelectedCard<'r, E, C>,
    sector: u8,
    key: &MifareKey,
) -> (r: Result<[u8; 64], Error<E>>)
    requires
        sector < 64,
    ensures
        final(selected).selected_uid() == old(selected).selected_uid(),
        extends(final(selected).log(), old(selected).log()),
        is_sector_read(
            recorded_since(final(selected).log(), old(selected).log()),
            old(selected).selected_uid(),
            sector as int,
            *key,
        ),
        bytes_result(r) == sector_read_result(
            recorded_since(final(selected).log(), old(selected).log()),
        ),
        r matches Ok(d) ==> recorded_since(final(selected).log(), old(selected).log()).len() == 6
            && forall|k: int|
            0 <= k < 4 ==> (#[trigger] session_body(
                recorded_since(final(selected).log(), old(selected).log()),
            )[k] matches Exchange::Read { block: b, outcome: Ok(x) } && b == 4 * sector + k && d@.subrange(
                16 * k,
                16 * k + 16,
            ) == x@),
{
    let ghost start = selected.log();
    let mut auth = match selected.auth_sector(sector, key) {
        Ok(auth) => auth,
        Err(e) => {
            proof {
                lemma_refused_authentication(start, selected.log());
            }
            return Err(e);
        },
    };
    let ghost opened = auth.log();
    let data = auth.read_sector();
    let ghost mid = auth.log();
    auth.close();
    proof {
        assert(mid =~= opened + recorded_since(mid, opened));
        lemma_session_recorded(start, opened, mid, selected.log());
        law_read_sector_reads_its_four_blocks(
            recorded_since(selected.log(), start),
            old(selected).selected_uid(),
            sector as int,
            *key,
        );
    }
    data
}

pub fn write_block<'r, E, C: ChipCommands<E>>(
    selected: &mut SelectedCard<'r, E, C>,
    block: u8,
    key: &MifareKey,
    data: [u8; 16],
) -> (r: Result<(), Error<E>>)
    ensures
        final(selected).selected_uid() == old(selected).selected_uid(),
        extends(final(selected).log(), old(selected).log()),
        is_block_write(
            recorded_since(final(selected).log(), old(selected).log()),
            old(selected).selected_uid(),
            block,
            *key,
            data@,
        ),
        spares_trailers(recorded_since(final(selected).log(), old(selected).log())),
        failure_of(r) == block_write_failure(
            recorded_since(final(selected).log(), old(selected).log()),
            block,
        ),
        r is Ok ==> (recorded_since(final(selected).log(), old(selected).log())[1] matches Exchange::Write {
            block: b,
            data: d,
            outcome: Ok(_),
        } && b == block && d == data),
{
    let ghost start = selected.log();
    let mut auth = match selected.auth_sector(block / SECTOR_SIZE, key) {
        Ok(auth) => auth,
        Err(e) => {
            proof {
                lemma_refused_authentication(start, selected.log());
                law_block_write_spares_trailers(
                    recorded_since(selected.log(), start),
                    old(selected).selected_uid(),
                    block,
                    *key,
                    data@,
                );
            }
            return Err(e);
        },
    };
    let ghost opened = auth.log();
    let res = auth.write_block(block % 4, data);
    let ghost mid = auth.log();
    auth.close();
    proof {
        assert(mid =~= opened + recorded_since(mid, opened));
        lemma_session_recorded(start, opened, mid, selected.log());
        let t = recorded_since(selected.log(), start);
        assert(block_of_sector(block as int / 4, block as int % 4) == block as int);
        law_block_write_spares_trailers(t, old(selected).selected_uid(), block, *key, data@);
        law_write_block_writes_the_requested_block(t, old(selected).selected_uid(), block, *key, data@);
        if res is Ok {
            assert(t[1]->Write_data =~= data);
        }
    }
    res
}

pub fn write_sector<'r, E, C: ChipCommands<E>>(
    selected: &mut SelectedCard<'r, E, C>,
    block: u8,
    key: &MifareKey,
    data: [u8; 48],
) -> (r: Result<(), Error<E>>)
    ensures
        final(selected).selected_uid() == old(selected).selected_uid(),
        extends(final(selected).log(), old(selected).log()),
        is_sector_write(
            recorded_since(final(selected).log(), old(selected).log()),
            old(selected).selected_uid(),
            block as int / 4,
            *key,
            data@,
        ),
        spares_trailers(recorded_since(final(selected).log(), old(selected).log())),
        failure_of(r) == sector_write_failure(
            recorded_since(final(selected).log(), old(selected).log()),
        ),
        r is Ok ==> recorded_since(final(selected).log(), old(selected).log()).len() == 5 && forall|
            k: int,
        |
            0 <= k < 3 ==> (#[trigger] session_body(
                recorded_since(final(selected).log(), old(selected).log()),
            )[k] matches Exchange::Write { block: b, data: d, outcome: Ok(_) } && b == 4 * (block
                as int / 4) + k && d@ == data@.subrange(16 * k, 16 * k + 16)),
{
    let ghost start = selected.log();
    let mut auth = match selected.auth_sector(block / SECTOR_SIZE, key) {
        Ok(auth) => auth,
        Err(e) => {
            proof {
                lemma_refused_authentication(start, selected.log());
                law_sector_write_spares_trailers(
                    recorded_since(selected.log(), start),
                    old(selected).selected_uid(),
                    block as int / 4,
                    *key,
                    data@,
                );
            }
            return Err(e);
        },
    };
    let ghost opened = auth.log();
    let res = auth.write_sector(data);
    let ghost mid = auth.log();
    auth.close();
    proof {
        assert(mid =~= opened + recorded_since(mid, opened));
        lemma_session_recorded(start, opened, mid, selected.log());
        let t = recorded_since(selected.log(), start);
        law_sector_write_spares_trailers(
            t,
            old(selected).selected_uid(),
            block as int / 4,
            *key,
            data@,
        );
        law_write_sector_writes_its_three_data_blocks(
            t,
            old(selected).selected_uid(),
            block as int / 4,
            *key,
            data@,
        );
        if res is Ok {
            assert forall|k: int| 0 <= k < 3 implies (#[trigger] session_body(t)[k] matches Exchange::Write {
                block: b,
                data: d,
                outcome: Ok(_),
            } && b == 4 * (block as int / 4) + k && d@ == data@.subrange(16 * k, 16 * k + 16)) by {
                assert(succeeded(session_body(t)[k]));
            }
        }
    }
    res
}

/// The data of the sessions `parts` that succeeded, one after the other.
pub open spec fn sectors_data<E>(parts: Seq<Seq<Exchange<E>>>) -> Seq<u8> {
    joined(Seq::new(parts.len(), |i: int| sector_read_result(parts[i])->Ok_0))
}

pub fn read_card<'r, E, C: ChipCommands<E>>(
    selected: &mut SelectedCard<'r, E, C>,
    keys: &[MifareKey; 16],
) -> (r: Result<[u8; 1024], Error<E>>)
    ensures
        final(selected).selected_uid() == old(selected).selected_uid(),
        extends(final(selected).log(), old(selected).log()),
        exists|parts: Seq<Seq<Exchange<E>>>|
            #[trigger] is_card_read(
                recorded_since(final(selected).log(), old(selected).log()),
                old(selected).selected_uid(),
                keys@,
                parts,
            ) && bytes_result(r) == card_read_result(parts),
{
    let mut data = [0u8; 1024];
    let ghost start = selected.log();
    let ghost uid = selected.selected_uid();
    let ghost mut parts: Seq<Seq<Exchange<E>>> = Seq::empty();
    let mut i: usize = 0;
    assert(selected.log().take(start.len() as int) =~= start);
    assert(recorded_since(selected.log(), start) =~= joined(parts));
    while i < CARD_USIZE
        invariant
            i <= 16,
            start == old(selected).log(),
            uid == old(selected).selected_uid(),
            selected.selected_uid() == uid,
            extends(selected.log(), start),
            recorded_since(selected.log(), start) == joined(parts),
            parts.len() == i,
            forall|k: int|
                0 <= k < i ==> is_sector_read(#[trigger] parts[k], uid, k, keys@[k])
                    && sector_read_result(parts[k]) is Ok && sector_read_result(parts[k])->Ok_0.len()
                    == 64,
            data@.len() == 1024,
            data@.subrange(0, 64 * i as int) == sectors_data(parts),
        decreases CARD_USIZE - i,
    {
        let ghost before = selected.log();
        let res = read_sector(selected, i as u8, &keys[i]);
        let ghost part = recorded_since(selected.log(), before);
        proof {
            lemma_extends_trans(start, before, selected.log());
            lemma_joined_push(parts, part);
            let old_parts = parts;
            parts = parts.push(part);
            assert(parts.drop_last() =~= old_parts);
        }
        match res {
            Ok(sector_data) => {
                let ghost old_data = data@;
                place(&mut data, i * 64, &sector_data);
                proof {
                    let f = |k: int| sector_read_result(parts[k])->Ok_0;
                    assert(Seq::new((i + 1) as nat, f) =~= Seq::new(i as nat, f).push(
                        sector_data@,
                    ));
                    let g = |k: int| sector_read_result(parts.drop_last()[k])->Ok_0;
                    assert(Seq::new(i as nat, f) =~= Seq::new(i as nat, g));
                    lemma_joined_push(Seq::new(i as nat, f), sector_data@);
                    assert(data@.subrange(0, 64 * (i + 1)) =~= old_data.subrange(0, 64 * i as int)
                        + sector_data@);
                }
            },
            Err(e) => {
                proof {
                    assert(is_card_read(recorded_since(selected.log(), start), uid, keys@, parts));
                }
                return Err(e);
            },
        }
        i += 1;
    }
    proof {
        assert(data@ =~= data@.subrange(0, 1024));
        assert(is_card_read(recorded_since(selected.log(), start), uid, keys@, parts));
    }
    Ok(data)
}

/// Calls `bytemuck::cast`, which reinterprets the bytes of one value as
/// another type of the same size: here the 768 bytes as 16 arrays of 48 bytes,
/// array `i` holding bytes `48 * i` to `48 * i + 47`. The sizes are equal, so
/// the cast does not panic.
#[verifier::external_body]
fn cast_to_sector_chunks(data: [u8; 768]) -> (chunks: [[u8; 48]; 16])
    ensures
        forall|i: int| 0 <= i < 16 ==> (#[trigger] chunks@[i])@ == data@.subrange(48 * i, 48 * i + 48),
{
    bytemuck::cast(data)
}

pub fn write_card<'r, E, C: ChipCommands<E>>(
    selected: &mut SelectedCard<'r, E, C>,
    keys: &[MifareKey; 16],
    data: [u8; 768],
) -> (r: Result<(), Error<E>>)
    ensures
        final(selected).selected_uid() == old(selected).selected_uid(),
        extends(final(selected).log(), old(selected).log()),
        spares_trailers(recorded_since(final(selected).log(), old(selected).log())),
        exists|parts: Seq<Seq<Exchange<E>>>|
            #[trigger] is_card_write(
                recorded_since(final(selected).log(), old(selected).log()),
                old(selected).selected_uid(),
                keys@,
                data@,
                parts,
            ) && failure_of(r) == sector_write_failure(parts.last()),
{
    let chunks = cast_to_sector_chunks(data);
    let ghost start = selected.log();
    let ghost uid = selected.selected_uid();
    let ghost mut parts: Seq<Seq<Exchange<E>>> = Seq::empty();
    let mut i: usize = 0;
    assert(selected.log().take(start.len() as int) =~= start);
    assert(recorded_since(selected.log(), start) =~= joined(parts));
    while i < CARD_USIZE
        invariant
            i <= 16,
            start == old(selected).log(),
            uid == old(selected).selected_uid(),
            selected.selected_uid() == uid,
            extends(selected.log(), start),
            recorded_since(selected.log(), start) == joined(parts),
            parts.len() == i,
            forall|k: int| 0 <= k < 16 ==> (#[trigger] chunks@[k])@ == data@.subrange(48 * k, 48 * k + 48),
            forall|k: int|
                0 <= k < i ==> is_sector_write(
                    #[trigger] parts[k],
                    uid,
                    k,
                    keys@[k],
                    data@.subrange(48 * k, 48 * k + 48),
                ) && sector_write_failure(parts[k]) is None,
        decreases CARD_USIZE - i,
    {
        let ghost before = selected.log();
        let first_block = (i as u8) * SECTOR_SIZE;
        let res = write_sector(selected, first_block, &keys[i], chunks[i]);
        let ghost part = recorded_since(selected.log(), before);
        proof {
            lemma_extends_trans(start, before, selected.log());
            lemma_joined_push(parts, part);
            let old_parts = parts;
            parts = parts.push(part);
            assert(parts.drop_last() =~= old_parts);
            assert(chunks@[i as int]@ == data@.subrange(48 * i, 48 * i + 48));
            assert(first_block as int / 4 == i);
        }
        if let Err(e) = res {
            proof {
                assert(is_card_write(recorded_since(selected.log(), start), uid, keys@, data@, parts));
                law_card_write_spares_trailers(recorded_since(selected.log(), start), uid, keys@, data@, parts);
            }
            return Err(e);
        }
        i += 1;
    }
    proof {
        assert(is_card_write(recorded_since(selected.log(), start), uid, keys@, data@, parts));
        law_card_write_spares_trailers(recorded_since(selected.log(), start), uid, keys@, data@, parts);
    }
    Ok(())
}

} // verus!
