//! Cross-strategy laws of the acquisition engine.
//!
//! The chunked and byte-at-a-time strategies buffer, decode and stop in
//! very different ways; these laws pin down how their observable results
//! nevertheless agree.  The interactive strategy delegates its input
//! handling to the external line editor, so its result is fixed directly
//! by the contract of `read_interactive`: with no character limit it
//! returns the editor's line unchanged.

use vstd::prelude::*;

use crate::acquire::{bat_run, chunk_run, lemma_find_byte_at, lemma_find_byte_none};
use crate::decode::{
    decode_text, feed_emit, feed_partial, flush_chars, lemma_step_ascii,
    lemma_step_no_ascii, partial_wf, step_emit, step_partial,
};
use crate::stream::READ_CHUNK_SIZE;
use crate::AcquireResult;

verus! {

/// The delimiter as a character is the delimiter byte, which is ASCII.
proof fn lemma_delim_char_byte(split_null: bool)
    ensures
        crate::acquire::delim_char(split_null) == (crate::acquire::delim_byte(split_null) as char),
        crate::acquire::delim_byte(split_null) < 0x80,
{
}

/// Byte-at-a-time reading of a delimiter-terminated stream, generalized
/// over the decoder state: with no character limit and the budget
/// disabled, it consumes exactly through the delimiter and decodes
/// everything before it.
proof fn lemma_bat_to_delim(
    data: Seq<u8>,
    pos: int,
    dd: int,
    buff: Seq<char>,
    q: Seq<u8>,
    nbytes: nat,
    d8: u8,
)
    requires
        0 <= pos <= dd < data.len(),
        partial_wf(q),
        d8 < 0x80,
        data[dd] == d8,
        forall|j: int| pos <= j < dd ==> data[j] != d8,
    ensures
        bat_run(data, pos, buff, q, nbytes, 0, (d8 as char), 0) == (
            buff + feed_emit(q, data.subrange(pos, dd)) + flush_chars(
                feed_partial(q, data.subrange(pos, dd)),
            ),
            dd + 1,
            AcquireResult::Success,
        ),
    decreases dd - pos,
{
    if pos == dd {
        lemma_step_ascii(q, d8);
        let em = step_emit(q, d8);
        let buff2 = buff + em;
        assert(buff2.len() > 0);
        assert(buff2.last() == (d8 as char));
        assert(data.subrange(pos, dd) =~= Seq::<u8>::empty());
        assert(feed_emit(q, Seq::<u8>::empty()) == Seq::<char>::empty());
        assert(feed_partial(q, Seq::<u8>::empty()) == q);
        assert(buff2.drop_last() =~= buff + Seq::<char>::empty() + flush_chars(q));
    } else {
        let b = data[pos];
        let em = step_emit(q, b);
        let q2 = step_partial(q, b);
        let seg = data.subrange(pos, dd);
        let seg2 = data.subrange(pos + 1, dd);
        assert(seg[0] == b);
        assert(seg.drop_first() =~= seg2);
        crate::decode::lemma_step_partial_wf(q, b);
        lemma_bat_to_delim(data, pos + 1, dd, buff + em, q2, nbytes + 1, d8);
        assert(feed_emit(q, seg) == em + feed_emit(q2, seg2));
        assert(feed_partial(q, seg) == feed_partial(q2, seg2));
        if em.len() == 0 {
            assert(buff + em =~= buff);
            assert(buff + feed_emit(q, seg) =~= buff + em + feed_emit(q2, seg2));
        } else {
            let buff2 = buff + em;
            lemma_step_no_ascii(q, b, d8);
            assert(buff2.last() == em[em.len() - 1]);
            assert(buff2.last() != (d8 as char));
            assert(buff2 + feed_emit(q2, seg2) =~= buff + feed_emit(q, seg));
        }
    }
}

/// Chunked reading of a delimiter-terminated stream, generalized over the
/// accumulator: with the budget disabled it accumulates exactly the bytes
/// before the delimiter, and with rollback on it leaves the cursor just
/// past the delimiter.
proof fn lemma_chunks_to_delim(data: Seq<u8>, pos: int, dd: int, acc: Seq<u8>, d8: u8, do_seek: bool)
    requires
        0 <= pos <= dd < data.len(),
        data[dd] == d8,
        forall|j: int| pos <= j < dd ==> data[j] != d8,
    ensures
        ({
            let o = chunk_run(data, pos, acc, d8, do_seek, 0);
            &&& o.0 == acc + data.subrange(pos, dd)
            &&& o.2 == false
            &&& o.3 == false
            &&& (do_seek ==> o.1 == dd + 1)
        }),
    decreases data.len() - pos,
{
    let m = if data.len() - pos < READ_CHUNK_SIZE as int {
        data.len() - pos
    } else {
        READ_CHUNK_SIZE as int
    };
    let chunk = data.subrange(pos, pos + m);
    if dd < pos + m {
        assert(chunk[dd - pos] == d8);
        assert forall|j: int| 0 <= j < dd - pos implies chunk[j] != d8 by {
            assert(chunk[j] == data[pos + j]);
        }
        lemma_find_byte_at(chunk, d8, dd - pos);
        assert(chunk.subrange(0, dd - pos) =~= data.subrange(pos, dd));
    } else {
        assert forall|j: int| 0 <= j < chunk.len() implies chunk[j] != d8 by {
            assert(chunk[j] == data[pos + j]);
        }
        lemma_find_byte_none(chunk, d8);
        lemma_chunks_to_delim(data, pos + m, dd, acc + chunk, d8, do_seek);
        assert(acc + chunk + data.subrange(pos + m, dd) =~= acc + data.subrange(pos, dd));
    }
}

/// Strategy transparency: fed the same delimiter-terminated byte stream,
/// with no character limit and the byte budget disabled, the chunked and
/// the byte-at-a-time strategies consume the same bytes and decode them
/// to the same text, and both succeed.  The interactive strategy receives
/// its text from the external line editor; `read_interactive` then
/// returns that line unchanged, by its own contract.
pub proof fn lemma_strategy_transparency(data: Seq<u8>, pos: int, split_null: bool, dd: int)
    requires
        0 <= pos <= dd < data.len(),
        data[dd] == crate::acquire::delim_byte(split_null),
        forall|j: int| pos <= j < dd ==> data[j] != crate::acquire::delim_byte(split_null),
    ensures
        ({
            let d8 = crate::acquire::delim_byte(split_null);
            let co = chunk_run(data, pos, Seq::<u8>::empty(), d8, true, 0);
            let bo = bat_run(
                data,
                pos,
                Seq::<char>::empty(),
                Seq::<u8>::empty(),
                0,
                0,
                crate::acquire::delim_char(split_null),
                0,
            );
            &&& co.0 == data.subrange(pos, dd)
            &&& decode_text(co.0) == bo.0
            &&& bo.0 == decode_text(data.subrange(pos, dd))
            &&& co.1 == dd + 1 && bo.1 == dd + 1
            &&& co.2 == false && co.3 == false
            &&& bo.2 == AcquireResult::Success
        }),
{
    let d8 = crate::acquire::delim_byte(split_null);
    lemma_delim_char_byte(split_null);
    lemma_chunks_to_delim(data, pos, dd, Seq::<u8>::empty(), d8, true);
    lemma_bat_to_delim(
        data,
        pos,
        dd,
        Seq::<char>::empty(),
        Seq::<u8>::empty(),
        0,
        d8,
    );
    let seg = data.subrange(pos, dd);
    assert(Seq::<u8>::empty() + seg =~= seg);
    assert(Seq::<char>::empty() + feed_emit(Seq::<u8>::empty(), seg) + flush_chars(
        feed_partial(Seq::<u8>::empty(), seg),
    ) =~= decode_text(seg));
}

/// Byte-at-a-time reading with the ceiling set and no delimiter in the
/// stream, generalized over the running state: the result is the
/// over-budget error, and the unit keeps only characters completed within
/// the budget, never the one whose bytes pushed the count over.
proof fn lemma_bat_over_budget(
    data: Seq<u8>,
    pos: int,
    buff: Seq<char>,
    q: Seq<u8>,
    nbytes: nat,
    d8: u8,
    limit: nat,
)
    requires
        0 <= pos <= data.len(),
        partial_wf(q),
        d8 < 0x80,
        limit > 0,
        data.len() - pos > limit - nbytes,
        forall|j: int| pos <= j < data.len() ==> data[j] != d8,
    ensures
        ({
            let o = bat_run(data, pos, buff, q, nbytes, 0, (d8 as char), limit);
            &&& o.2 == AcquireResult::ReadTooMuch
            &&& (nbytes > limit ==> o.0 == buff)
            &&& (nbytes <= limit ==> exists|k: int|
                pos <= k <= data.len() && nbytes + (k - pos) <= limit && o.0 == buff + feed_emit(
                    q,
                    #[trigger] data.subrange(pos, k),
                ))
        }),
    decreases data.len() - pos,
{
    let o = bat_run(data, pos, buff, q, nbytes, 0, (d8 as char), limit);
    if pos == data.len() {
        assert(nbytes > limit);
    } else {
        let b = data[pos];
        let em = step_emit(q, b);
        let q2 = step_partial(q, b);
        let nb = nbytes + 1;
        crate::decode::lemma_step_partial_wf(q, b);
        if em.len() == 0 {
            lemma_bat_over_budget(data, pos + 1, buff, q2, nb, d8, limit);
            if nbytes <= limit {
                if nb <= limit {
                    let k = choose|k: int|
                        pos + 1 <= k <= data.len() && nb + (k - pos - 1) <= limit && o.0 == buff
                            + feed_emit(q2, #[trigger] data.subrange(pos + 1, k));
                    assert(data.subrange(pos, k)[0] == b);
                    assert(data.subrange(pos, k).drop_first() =~= data.subrange(pos + 1, k));
                    assert(feed_emit(q, data.subrange(pos, k)) == em + feed_emit(
                        q2,
                        data.subrange(pos + 1, k),
                    ));
                    assert(buff + feed_emit(q, data.subrange(pos, k)) =~= buff + feed_emit(
                        q2,
                        data.subrange(pos + 1, k),
                    ));
                    assert(nbytes + (k - pos) <= limit && o.0 == buff + feed_emit(
                        q,
                        data.subrange(pos, k),
                    ));
                } else {
                    assert(data.subrange(pos, pos) =~= Seq::<u8>::empty());
                    assert(feed_emit(q, data.subrange(pos, pos)) == Seq::<char>::empty());
                    assert(buff + feed_emit(q, data.subrange(pos, pos)) =~= buff);
                    assert(nbytes + (pos - pos) <= limit && o.0 == buff + feed_emit(
                        q,
                        data.subrange(pos, pos),
                    ));
                }
            }
        } else if nb > limit {
            if nbytes <= limit {
                assert(data.subrange(pos, pos) =~= Seq::<u8>::empty());
                assert(feed_emit(q, data.subrange(pos, pos)) == Seq::<char>::empty());
                assert(buff + feed_emit(q, data.subrange(pos, pos)) =~= buff);
                assert(nbytes + (pos - pos) <= limit && o.0 == buff + feed_emit(
                    q,
                    data.subrange(pos, pos),
                ));
            }
        } else {
            let buff2 = buff + em;
            lemma_step_no_ascii(q, b, d8);
            assert(buff2.last() == em[em.len() - 1]);
            assert(buff2.last() != (d8 as char));
            lemma_bat_over_budget(data, pos + 1, buff2, q2, nb, d8, limit);
            let k = choose|k: int|
                pos + 1 <= k <= data.len() && nb + (k - pos - 1) <= limit && o.0 == buff2
                    + feed_emit(q2, #[trigger] data.subrange(pos + 1, k));
            assert(data.subrange(pos, k)[0] == b);
            assert(data.subrange(pos, k).drop_first() =~= data.subrange(pos + 1, k));
            assert(feed_emit(q, data.subrange(pos, k)) == em + feed_emit(
                q2,
                data.subrange(pos + 1, k),
            ));
            assert(buff2 + feed_emit(q2, data.subrange(pos + 1, k)) =~= buff + feed_emit(
                q,
                data.subrange(pos, k),
            ));
            assert(nbytes + (k - pos) <= limit && o.0 == buff + feed_emit(
                q,
                data.subrange(pos, k),
            ));
        }
    }
}

/// Chunked reading with the ceiling set and no delimiter in the stream,
/// generalized over the accumulator: the result is the over-budget error,
/// and the whole over-budget accumulation is kept (this strategy never
/// truncates).
proof fn lemma_chunks_over_budget(
    data: Seq<u8>,
    pos: int,
    acc: Seq<u8>,
    d8: u8,
    do_seek: bool,
    limit: nat,
)
    requires
        0 <= pos <= data.len(),
        limit > 0,
        acc.len() <= limit,
        data.len() - pos + acc.len() > limit,
        forall|j: int| pos <= j < data.len() ==> data[j] != d8,
    ensures
        ({
            let o = chunk_run(data, pos, acc, d8, do_seek, limit);
            &&& o.3 == true
            &&& exists|k: int|
                pos < k <= data.len() && acc.len() + (k - pos) > limit && o.0 == acc
                    + #[trigger] data.subrange(pos, k)
        }),
    decreases data.len() - pos,
{
    let o = chunk_run(data, pos, acc, d8, do_seek, limit);
    let m = if data.len() - pos < READ_CHUNK_SIZE as int {
        data.len() - pos
    } else {
        READ_CHUNK_SIZE as int
    };
    let chunk = data.subrange(pos, pos + m);
    assert forall|j: int| 0 <= j < chunk.len() implies chunk[j] != d8 by {
        assert(chunk[j] == data[pos + j]);
    }
    lemma_find_byte_none(chunk, d8);
    let acc2 = acc + chunk;
    if acc2.len() > limit {
        assert(o.0 == acc + data.subrange(pos, pos + m));
        assert(pos < pos + m <= data.len() && acc.len() + m > limit && o.0 == acc + data.subrange(
            pos,
            pos + m,
        ));
    } else {
        lemma_chunks_over_budget(data, pos + m, acc2, d8, do_seek, limit);
        let k = choose|k: int|
            pos + m < k <= data.len() && acc2.len() + (k - pos - m) > limit && o.0 == acc2
                + #[trigger] data.subrange(pos + m, k);
        assert(acc2 + data.subrange(pos + m, k) =~= acc + data.subrange(pos, k));
        assert(pos < k <= data.len() && acc.len() + (k - pos) > limit && o.0 == acc
            + data.subrange(pos, k));
    }
}

/// Exceeding the byte ceiling with no delimiter ever observed yields the
/// over-budget result under both byte strategies; the byte-at-a-time unit
/// excludes every character whose bytes pushed the count over the
/// ceiling, while the chunked unit keeps its whole over-budget
/// accumulation.
pub proof fn lemma_byte_ceiling(data: Seq<u8>, pos: int, split_null: bool, limit: nat)
    requires
        0 <= pos <= data.len(),
        limit > 0,
        data.len() - pos > limit,
        forall|j: int| pos <= j < data.len() ==> data[j] != crate::acquire::delim_byte(split_null),
    ensures
        ({
            let d8 = crate::acquire::delim_byte(split_null);
            let co = chunk_run(data, pos, Seq::<u8>::empty(), d8, true, limit);
            let bo = bat_run(
                data,
                pos,
                Seq::<char>::empty(),
                Seq::<u8>::empty(),
                0,
                0,
                crate::acquire::delim_char(split_null),
                limit,
            );
            &&& co.3 == true
            &&& bo.2 == AcquireResult::ReadTooMuch
            &&& exists|k: int|
                pos <= k <= data.len() && k - pos <= limit && bo.0 == decode_text(
                    #[trigger] data.subrange(pos, k),
                ).take(bo.0.len() as int) && bo.0 == feed_emit(
                    Seq::<u8>::empty(),
                    data.subrange(pos, k),
                )
        }),
{
    let d8 = crate::acquire::delim_byte(split_null);
    lemma_delim_char_byte(split_null);
    lemma_chunks_over_budget(data, pos, Seq::<u8>::empty(), d8, true, limit);
    lemma_bat_over_budget(
        data,
        pos,
        Seq::<char>::empty(),
        Seq::<u8>::empty(),
        0,
        d8,
        limit,
    );
    let bo = bat_run(
        data,
        pos,
        Seq::<char>::empty(),
        Seq::<u8>::empty(),
        0,
        0,
        (d8 as char),
        limit,
    );
    let k = choose|k: int|
        pos <= k <= data.len() && 0 + (k - pos) <= limit && bo.0 == Seq::<char>::empty()
            + feed_emit(Seq::<u8>::empty(), #[trigger] data.subrange(pos, k));
    assert(Seq::<char>::empty() + feed_emit(Seq::<u8>::empty(), data.subrange(pos, k)) =~= feed_emit(
        Seq::<u8>::empty(),
        data.subrange(pos, k),
    ));
    assert(decode_text(data.subrange(pos, k)).take(bo.0.len() as int) =~= bo.0);
}

} // verus!
