//! The input acquisitor: three strategies that each produce one decoded
//! unit of text from the descriptor.
//!
//! Exactly one strategy runs per call.  The interactive strategy delegates
//! to the external line editor and only post-processes its result; the
//! chunked strategy reads fixed-size chunks from a seekable or exclusively
//! owned descriptor and rolls back past the delimiter when required; the
//! byte-at-a-time strategy reads single bytes and decodes them
//! incrementally.  The byte budget is enforced by all non-interactive
//! strategies, with the truncation semantics each strategy specifies.

use vstd::prelude::*;

use crate::decode::{decode_bytes, decode_text, step_emit, step_partial, Decoder};
use crate::stream::{budget_exceeded, over_budget, ByteStream, READ_CHUNK_SIZE};
use crate::AcquireResult;

verus! {

/// The delimiter byte that terminates one record: NUL in null-split mode,
/// newline otherwise.
pub open spec fn delim_byte(split_null: bool) -> u8 {
    if split_null {
        0
    } else {
        10
    }
}

/// The delimiter as a character.
pub open spec fn delim_char(split_null: bool) -> char {
    if split_null {
        '\0'
    } else {
        '\n'
    }
}

/// Index of the first occurrence of `b` in `s`.
pub open spec fn find_byte(s: Seq<u8>, b: u8) -> Option<int>
    decreases s.len(),
{
    if s.len() == 0 {
        None
    } else if s[0] == b {
        Some(0)
    } else {
        match find_byte(s.drop_first(), b) {
            Some(i) => Some(i + 1),
            None => None,
        }
    }
}

/// What `find_byte` returns is the first occurrence.
pub proof fn lemma_find_byte_char(s: Seq<u8>, b: u8)
    ensures
        match find_byte(s, b) {
            Some(k) => 0 <= k < s.len() && s[k] == b && (forall|j: int| 0 <= j < k ==> s[j] != b),
            None => forall|j: int| 0 <= j < s.len() ==> s[j] != b,
        },
    decreases s.len(),
{
    if s.len() > 0 && s[0] != b {
        lemma_find_byte_char(s.drop_first(), b);
        assert forall|j: int| 1 <= j < s.len() implies s.drop_first()[j - 1] == s[j] by {}
    }
}

/// A first occurrence determines `find_byte`.
pub proof fn lemma_find_byte_at(s: Seq<u8>, b: u8, i: int)
    requires
        0 <= i < s.len(),
        s[i] == b,
        forall|j: int| 0 <= j < i ==> s[j] != b,
    ensures
        find_byte(s, b) == Some(i),
{
    lemma_find_byte_char(s, b);
    match find_byte(s, b) {
        Some(k) => {
            if k < i {
                assert(s[k] != b);
            } else if k > i {
                assert(s[i] != b);
            }
        },
        None => {
            assert(s[i] != b);
        },
    }
}

/// Absence everywhere determines `find_byte`.
pub proof fn lemma_find_byte_none(s: Seq<u8>, b: u8)
    requires
        forall|j: int| 0 <= j < s.len() ==> s[j] != b,
    ensures
        find_byte(s, b) is None,
{
    lemma_find_byte_char(s, b);
    match find_byte(s, b) {
        Some(k) => {
            assert(s[k] != b);
        },
        None => {},
    }
}

/// Scan a chunk for the delimiter byte.
pub fn scan_byte(s: &Vec<u8>, b: u8) -> (r: Option<usize>)
    ensures
        match r {
            Some(k) => find_byte(s@, b) == Some(k as int),
            None => find_byte(s@, b) is None,
        },
{
    let mut i: usize = 0;
    while i < s.len()
        invariant
            i <= s.len(),
            forall|j: int| 0 <= j < i ==> s@[j] != b,
        decreases s.len() - i,
    {
        if s[i] == b {
            proof {
                lemma_find_byte_at(s@, b, i as int);
            }
            return Some(i);
        }
        i = i + 1;
    }
    proof {
        lemma_find_byte_none(s@, b);
    }
    None
}

/// Outcome of the chunked strategy's reading loop, before decoding: the
/// accumulated raw bytes, the final cursor, whether end of input was
/// reached, and whether the byte ceiling was exceeded.  One recursive
/// unfolding is one chunk: if the delimiter appears at offset `k` of the
/// chunk, bytes before it are kept and, when rollback is on, the cursor is
/// repositioned just past the delimiter; otherwise the whole chunk is kept
/// and the budget is consulted.
pub open spec fn chunk_run(
    data: Seq<u8>,
    pos: int,
    acc: Seq<u8>,
    delim: u8,
    do_seek: bool,
    limit: nat,
) -> (Seq<u8>, int, bool, bool)
    recommends
        0 <= pos <= data.len(),
    decreases data.len() - pos,
    when 0 <= pos <= data.len()
{
    if pos == data.len() {
        (acc, pos, true, false)
    } else {
        let m = if data.len() - pos < READ_CHUNK_SIZE as int {
            data.len() - pos
        } else {
            READ_CHUNK_SIZE as int
        };
        let chunk = data.subrange(pos, pos + m);
        match find_byte(chunk, delim) {
            Some(k) => {
                let acc2 = acc + chunk.subrange(0, k);
                let cur = if do_seek {
                    pos + k + 1
                } else {
                    pos + m
                };
                (acc2, cur, false, false)
            },
            None => {
                let acc2 = acc + chunk;
                if budget_exceeded(acc2.len(), limit) {
                    (acc2, pos + m, false, true)
                } else {
                    chunk_run(data, pos + m, acc2, delim, do_seek, limit)
                }
            },
        }
    }
}

/// Append the first `k` bytes of `src` to `dst`.
fn push_prefix(dst: &mut Vec<u8>, src: &Vec<u8>, k: usize)
    requires
        k <= src.len(),
    ensures
        final(dst)@ == old(dst)@ + src@.subrange(0, k as int),
{
    let mut i: usize = 0;
    while i < k
        invariant
            i <= k <= src.len(),
            dst@ == old(dst)@ + src@.subrange(0, i as int),
        decreases k - i,
    {
        let b = src[i];
        dst.push(b);
        proof {
            assert(src@.subrange(0, i + 1 as int) =~= src@.subrange(0, i as int).push(
                src@[i as int],
            ));
            assert(old(dst)@ + src@.subrange(0, i + 1 as int) =~= (old(dst)@ + src@.subrange(
                0,
                i as int,
            )).push(src@[i as int]));
        }
        i = i + 1;
    }
}

/// Chunked acquisition: read fixed-size chunks until the delimiter, end of
/// input, or the byte ceiling.  Everything accumulated is decoded at the
/// end, even when over budget (this strategy never truncates).  With
/// rollback on, the cursor is left just past the consumed delimiter so
/// later readers of the descriptor see the rest.
pub fn read_in_chunks(stream: &mut ByteStream, split_null: bool, do_seek: bool, limit: usize) -> (r:
    (Vec<char>, AcquireResult))
    requires
        old(stream).wf(),
    ensures
        final(stream).wf(),
        final(stream).data_seq() == old(stream).data_seq(),
        ({
            let o = chunk_run(
                old(stream).data_seq(),
                old(stream).cursor(),
                Seq::<u8>::empty(),
                delim_byte(split_null),
                do_seek,
                limit as nat,
            );
            &&& r.0@ == decode_text(o.0)
            &&& final(stream).cursor() == o.1
            &&& r.1 == (if o.3 {
                AcquireResult::ReadTooMuch
            } else if o.2 && o.0.len() == 0 {
                AcquireResult::CmdFailure
            } else {
                AcquireResult::Success
            })
        }),
{
    let ghost data = stream.data_seq();
    let ghost pos0 = stream.cursor();
    let delim: u8 = if split_null {
        0
    } else {
        10
    };
    let mut raw: Vec<u8> = Vec::new();
    let mut eof: bool = false;
    let mut too_much: bool = false;
    loop
        invariant_except_break
            stream.wf(),
            stream.data_seq() == data,
            data == old(stream).data_seq(),
            0 <= pos0 <= stream.cursor(),
            !eof && !too_much,
            chunk_run(data, pos0, Seq::<u8>::empty(), delim, do_seek, limit as nat) == chunk_run(
                data,
                stream.cursor(),
                raw@,
                delim,
                do_seek,
                limit as nat,
            ),
        ensures
            stream.wf(),
            stream.data_seq() == data,
            data == old(stream).data_seq(),
            chunk_run(data, pos0, Seq::<u8>::empty(), delim, do_seek, limit as nat) == (
                raw@,
                stream.cursor(),
                eof,
                too_much,
            ),
        decreases data.len() - stream.cursor(),
    {
        let ghost cur = stream.cursor();
        let ghost raw_old = raw@;
        if stream.at_end() {
            eof = true;
            proof {
                assert(chunk_run(data, cur, raw_old, delim, do_seek, limit as nat) == (
                    raw_old,
                    cur,
                    true,
                    false,
                ));
            }
            break ;
        }
        let chunk = stream.read_chunk(READ_CHUNK_SIZE);
        let ghost m = chunk@.len() as int;
        proof {
            assert(m == if data.len() - cur < READ_CHUNK_SIZE as int {
                data.len() - cur
            } else {
                READ_CHUNK_SIZE as int
            });
            assert(chunk@ == data.subrange(cur, cur + m));
            assert(m >= 1);
        }
        match scan_byte(&chunk, delim) {
            Some(k) => {
                proof {
                    lemma_find_byte_char(chunk@, delim);
                }
                push_prefix(&mut raw, &chunk, k);
                if do_seek {
                    stream.seek_back(chunk.len() - k - 1);
                }
                proof {
                    assert(chunk_run(data, cur, raw_old, delim, do_seek, limit as nat) == (
                        raw_old + chunk@.subrange(0, k as int),
                        if do_seek {
                            cur + k + 1
                        } else {
                            cur + m
                        },
                        false,
                        false,
                    ));
                    assert(stream.cursor() == if do_seek {
                        cur + k + 1
                    } else {
                        cur + m
                    });
                }
                break ;
            },
            None => {
                let len = chunk.len();
                push_prefix(&mut raw, &chunk, len);
                proof {
                    assert(chunk@.subrange(0, m) =~= chunk@);
                    assert(raw@ == raw_old + chunk@);
                }
                if over_budget(raw.len(), limit) {
                    too_much = true;
                    proof {
                        assert(chunk_run(data, cur, raw_old, delim, do_seek, limit as nat) == (
                            raw@,
                            cur + m,
                            false,
                            true,
                        ));
                    }
                    break ;
                }
                proof {
                    assert(chunk_run(data, cur, raw_old, delim, do_seek, limit as nat)
                        == chunk_run(data, cur + m, raw@, delim, do_seek, limit as nat));
                }
            },
        }
    }
    let text = decode_bytes(&raw);
    proof {
        crate::decode::lemma_decode_text_len(raw@);
    }
    let status = if too_much {
        AcquireResult::ReadTooMuch
    } else if eof && text.len() == 0 {
        AcquireResult::CmdFailure
    } else {
        AcquireResult::Success
    };
    (text, status)
}

/// Outcome of the byte-at-a-time strategy: the decoded unit, the final
/// cursor, and the result.  One recursive unfolding is one raw byte.  The
/// budget is consulted whenever a character completes and at end of input;
/// on exceedance the just-decoded characters are discarded.  A decoded
/// delimiter is consumed but not stored; a positive character limit stops
/// the loop once reached.
pub open spec fn bat_run(
    data: Seq<u8>,
    pos: int,
    buff: Seq<char>,
    q: Seq<u8>,
    nbytes: nat,
    nchars: nat,
    delim: char,
    limit: nat,
) -> (Seq<char>, int, AcquireResult)
    recommends
        0 <= pos <= data.len(),
    decreases data.len() - pos,
    when 0 <= pos <= data.len()
{
    if pos == data.len() {
        if budget_exceeded(nbytes, limit) {
            (buff, pos, AcquireResult::ReadTooMuch)
        } else if buff.len() == 0 {
            (buff, pos, AcquireResult::CmdFailure)
        } else {
            (buff, pos, AcquireResult::Success)
        }
    } else {
        let b = data[pos];
        let emitted = step_emit(q, b);
        let q2 = step_partial(q, b);
        let nb = (nbytes + 1) as nat;
        if emitted.len() == 0 {
            bat_run(data, pos + 1, buff, q2, nb, nchars, delim, limit)
        } else if budget_exceeded(nb, limit) {
            (buff, pos + 1, AcquireResult::ReadTooMuch)
        } else {
            let buff2 = buff + emitted;
            if buff2.last() == delim {
                (buff2.drop_last(), pos + 1, AcquireResult::Success)
            } else if nchars > 0 && nchars <= buff2.len() {
                (buff2, pos + 1, AcquireResult::Success)
            } else {
                bat_run(data, pos + 1, buff2, q2, nb, nchars, delim, limit)
            }
        }
    }
}

/// Byte-at-a-time acquisition: read one byte per call, feed it to the
/// decoder, and stop at the delimiter, the character limit, end of input,
/// or the byte ceiling.  On exceeding the ceiling the unit excludes the
/// characters whose bytes pushed the count over the limit.
pub fn read_one_char_at_a_time(
    stream: &mut ByteStream,
    nchars: usize,
    split_null: bool,
    limit: usize,
) -> (r: (Vec<char>, AcquireResult))
    requires
        old(stream).wf(),
    ensures
        final(stream).wf(),
        final(stream).data_seq() == old(stream).data_seq(),
        ({
            let o = bat_run(
                old(stream).data_seq(),
                old(stream).cursor(),
                Seq::<char>::empty(),
                Seq::<u8>::empty(),
                0,
                nchars as nat,
                delim_char(split_null),
                limit as nat,
            );
            &&& r.0@ == o.0
            &&& final(stream).cursor() == o.1
            &&& r.1 == o.2
        }),
{
    let ghost data = stream.data_seq();
    let ghost pos0 = stream.cursor();
    let delim: char = if split_null {
        '\0'
    } else {
        '\n'
    };
    let mut dec = Decoder::new();
    let mut buff: Vec<char> = Vec::new();
    let mut nbytes: usize = 0;
    loop
        invariant
            stream.wf(),
            stream.data_seq() == data,
            data == old(stream).data_seq(),
            pos0 == old(stream).cursor(),
            0 <= pos0 <= stream.cursor(),
            delim == delim_char(split_null),
            dec.wf(),
            nbytes == stream.cursor() - pos0,
            bat_run(
                data,
                pos0,
                Seq::<char>::empty(),
                Seq::<u8>::empty(),
                0,
                nchars as nat,
                delim,
                limit as nat,
            ) == bat_run(
                data,
                stream.cursor(),
                buff@,
                dec@,
                nbytes as nat,
                nchars as nat,
                delim,
                limit as nat,
            ),
        decreases data.len() - stream.cursor(),
    {
        let ghost cur = stream.cursor();
        let ghost q = dec@;
        let ghost buff_old = buff@;
        let ghost nb_old = nbytes as nat;
        match stream.read_byte() {
            None => {
                proof {
                    assert(cur == data.len());
                    assert(bat_run(data, cur, buff@, dec@, nbytes as nat, nchars as nat, delim, limit as nat)
                        == (
                        buff@,
                        cur,
                        if budget_exceeded(nbytes as nat, limit as nat) {
                            AcquireResult::ReadTooMuch
                        } else if buff@.len() == 0 {
                            AcquireResult::CmdFailure
                        } else {
                            AcquireResult::Success
                        },
                    ));
                }
                if over_budget(nbytes, limit) {
                    return (buff, AcquireResult::ReadTooMuch);
                }
                if buff.len() == 0 {
                    return (buff, AcquireResult::CmdFailure);
                }
                return (buff, AcquireResult::Success);
            },
            Some(b) => {
                proof {
                    stream.lemma_len_bound();
                    assert(data[cur] == b);
                }
                nbytes = nbytes + 1;
                let mut emitted: Vec<char> = Vec::new();
                dec.feed(b, &mut emitted);
                proof {
                    assert(emitted@ == step_emit(q, b));
                    assert(dec@ == step_partial(q, b));
                }
                if emitted.len() == 0 {
                    proof {
                        assert(bat_run(data, cur, buff_old, q, nb_old, nchars as nat, delim, limit as nat)
                            == bat_run(data, cur + 1, buff_old, dec@, nb_old + 1, nchars as nat, delim, limit as nat));
                    }
                } else if over_budget(nbytes, limit) {
                    proof {
                        assert(bat_run(data, cur, buff_old, q, nb_old, nchars as nat, delim, limit as nat)
                            == (buff_old, cur + 1, AcquireResult::ReadTooMuch));
                    }
                    return (buff, AcquireResult::ReadTooMuch);
                } else {
                    buff.append(&mut emitted);
                    let ghost buff2 = buff_old + step_emit(q, b);
                    proof {
                        assert(buff@ == buff2);
                        assert(buff@.len() > 0);
                    }
                    let last = buff[buff.len() - 1];
                    if last == delim {
                        buff.pop();
                        proof {
                            assert(buff@ =~= buff2.drop_last());
                            assert(bat_run(data, cur, buff_old, q, nb_old, nchars as nat, delim, limit as nat)
                                == (buff2.drop_last(), cur + 1, AcquireResult::Success));
                        }
                        return (buff, AcquireResult::Success);
                    }
                    if nchars > 0 && nchars <= buff.len() {
                        proof {
                            assert(bat_run(data, cur, buff_old, q, nb_old, nchars as nat, delim, limit as nat)
                                == (buff2, cur + 1, AcquireResult::Success));
                        }
                        return (buff, AcquireResult::Success);
                    }
                    proof {
                        assert(bat_run(data, cur, buff_old, q, nb_old, nchars as nat, delim, limit as nat)
                            == bat_run(data, cur + 1, buff2, dec@, nb_old + 1, nchars as nat, delim, limit as nat));
                    }
                }
            },
        }
    }
}

/// Interactive acquisition: the external line editor has produced `line`
/// (or nothing, on cancellation).  A produced line is truncated to the
/// character limit, since an editing command may have injected extra text;
/// the excess is discarded, not re-queued.  No line at all is a command
/// failure.
pub fn read_interactive(line: Option<Vec<char>>, nchars: usize) -> (r: (Vec<char>, AcquireResult))
    ensures
        line is None ==> r.0@ == Seq::<char>::empty() && r.1 == AcquireResult::CmdFailure,
        line matches Some(l) ==> r.1 == AcquireResult::Success && r.0@ == (if nchars > 0 && (
        nchars as int) < l@.len() {
            l@.subrange(0, nchars as int)
        } else {
            l@
        }),
{
    match line {
        None => (Vec::new(), AcquireResult::CmdFailure),
        Some(mut l) => {
            if nchars > 0 && nchars < l.len() {
                l.truncate(nchars);
            }
            (l, AcquireResult::Success)
        },
    }
}

/// The acquisition strategies.
#[derive(Clone, Copy, Debug, PartialEq, Eq, Structural)]
pub enum Strategy {
    /// Delegate to the external line editor.
    Interactive,
    /// Fixed-size chunks with optional rollback.
    Chunked,
    /// Single-byte reads through the incremental decoder.
    CharAtATime,
}

/// Which strategy one acquisition call runs: a terminal without NUL
/// splitting is read interactively; a seekable or exclusively owned
/// descriptor without a character limit and outside per-record mode is
/// read in chunks; everything else is read byte by byte.
pub open spec fn strategy_for(
    is_tty: bool,
    split_null: bool,
    nchars: nat,
    one_line: bool,
    directly_redirected: bool,
    seekable: bool,
) -> Strategy {
    if is_tty && !split_null {
        Strategy::Interactive
    } else if nchars == 0 && !is_tty && !one_line && (directly_redirected || seekable) {
        Strategy::Chunked
    } else {
        Strategy::CharAtATime
    }
}

/// Select the strategy for one call from the descriptor's properties and
/// the configuration.
pub fn choose_strategy(
    is_tty: bool,
    split_null: bool,
    nchars: usize,
    one_line: bool,
    directly_redirected: bool,
    seekable: bool,
) -> (s: Strategy)
    ensures
        s == strategy_for(is_tty, split_null, nchars as nat, one_line, directly_redirected, seekable),
{
    if is_tty && !split_null {
        Strategy::Interactive
    } else if nchars == 0 && !is_tty && !one_line && (directly_redirected || seekable) {
        Strategy::Chunked
    } else {
        Strategy::CharAtATime
    }
}

} // verus!
