//! Incremental bytes-to-text decoding.
//!
//! The decoder is fed one raw byte at a time and retains, across calls, any
//! buffered incomplete multi-byte sequence.  Feeding a byte either completes
//! one or more characters or buffers the byte while more input is awaited.
//! Malformed input never fails the acquisition: under the permissive
//! passthrough policy every byte that cannot take part in a well-formed
//! sequence is emitted as a private-use character that stands for exactly
//! that byte, so no byte is ever silently dropped.

use vstd::prelude::*;
use vstd::utf8::{
    codepoint_width_2, codepoint_width_3, codepoint_width_4, decode_first_codepoint, decode_utf8,
    is_continuation_byte, is_leading_byte_width_1, is_leading_byte_width_2, is_leading_byte_width_3,
    is_leading_byte_width_4, length_of_first_scalar, pop_first_scalar, take_first_scalar,
    valid_first_scalar, valid_utf8,
};

verus! {

/// Base of the private-use code point range that carries raw bytes through
/// the passthrough policy: byte `b` (0x80..=0xFF) becomes the character
/// `PASSTHROUGH_BASE + b`.
pub const PASSTHROUGH_BASE: u32 = 0xF600;

/// True when `b` has the shape of a UTF-8 continuation byte.
pub open spec fn is_cont_byte(b: u8) -> bool {
    0x80 <= b && b <= 0xBF
}

/// True when `b` can begin a two-byte sequence (0xC0 and 0xC1 would always
/// be overlong and are rejected outright).
pub open spec fn is_lead2(b: u8) -> bool {
    0xC2 <= b && b <= 0xDF
}

/// True when `b` can begin a three-byte sequence.
pub open spec fn is_lead3(b: u8) -> bool {
    0xE0 <= b && b <= 0xEF
}

/// True when `b` can begin a four-byte sequence (0xF5..=0xF7 would encode
/// values above 0x10FFFF and are rejected outright).
pub open spec fn is_lead4(b: u8) -> bool {
    0xF0 <= b && b <= 0xF4
}

/// True when `b` can begin a multi-byte sequence.
pub open spec fn is_lead(b: u8) -> bool {
    0xC2 <= b && b <= 0xF4
}

/// Allowed range of the first continuation byte after lead `l`.  The
/// narrowed ranges for 0xE0, 0xED, 0xF0 and 0xF4 rule out overlong
/// encodings, surrogates and values above 0x10FFFF as early as possible.
pub open spec fn first_cont_ok(l: u8, b: u8) -> bool {
    if l == 0xE0 {
        0xA0 <= b && b <= 0xBF
    } else if l == 0xED {
        0x80 <= b && b <= 0x9F
    } else if l == 0xF0 {
        0x90 <= b && b <= 0xBF
    } else if l == 0xF4 {
        0x80 <= b && b <= 0x8F
    } else {
        is_cont_byte(b)
    }
}

/// Well-formedness of the retained partial sequence: it is a proper prefix
/// of some valid encoding, so at most three bytes long.
pub open spec fn partial_wf(q: Seq<u8>) -> bool {
    ||| q.len() == 0
    ||| (q.len() == 1 && is_lead(q[0]))
    ||| (q.len() == 2 && (is_lead3(q[0]) || is_lead4(q[0])) && first_cont_ok(q[0], q[1]))
    ||| (q.len() == 3 && is_lead4(q[0]) && first_cont_ok(q[0], q[1]) && is_cont_byte(q[2]))
}

/// True when byte `b` completes the buffered partial sequence `q`.
pub open spec fn completes(q: Seq<u8>, b: u8) -> bool
    recommends
        partial_wf(q),
        q.len() >= 1,
{
    if q.len() == 1 {
        is_lead2(q[0]) && is_cont_byte(b)
    } else if q.len() == 2 {
        is_lead3(q[0]) && is_cont_byte(b)
    } else {
        is_cont_byte(b)
    }
}

/// True when byte `b` extends the buffered partial sequence `q` without
/// completing it.
pub open spec fn extends(q: Seq<u8>, b: u8) -> bool
    recommends
        partial_wf(q),
        q.len() >= 1,
{
    if q.len() == 1 {
        (is_lead3(q[0]) || is_lead4(q[0])) && first_cont_ok(q[0], b)
    } else if q.len() == 2 {
        is_lead4(q[0]) && is_cont_byte(b)
    } else {
        false
    }
}

/// The character decoded when `b` completes the partial sequence `q`.
pub open spec fn completed_char(q: Seq<u8>, b: u8) -> char
    recommends
        partial_wf(q),
        completes(q, b),
{
    if q.len() == 1 {
        codepoint_width_2(q[0], b) as char
    } else if q.len() == 2 {
        codepoint_width_3(q[0], q[1], b) as char
    } else {
        codepoint_width_4(q[0], q[1], q[2], b) as char
    }
}

/// The character that stands for one raw byte under the passthrough policy:
/// bytes below 0x80 stand for themselves, all others are carried in the
/// private-use range.
pub open spec fn pt_char(b: u8) -> char {
    if b < 0x80 {
        b as char
    } else {
        (((PASSTHROUGH_BASE + b) as u32)) as char
    }
}

/// Characters emitted when byte `b` arrives with nothing buffered.
pub open spec fn start_emit(b: u8) -> Seq<char> {
    if b < 0x80 {
        seq![b as char]
    } else if is_lead(b) {
        seq![]
    } else {
        seq![pt_char(b)]
    }
}

/// New partial buffer when byte `b` arrives with nothing buffered.
pub open spec fn start_partial(b: u8) -> Seq<u8> {
    if b < 0x80 {
        seq![]
    } else if is_lead(b) {
        seq![b]
    } else {
        seq![]
    }
}

/// The passthrough characters standing for each byte of `q`.
pub open spec fn flush_chars(q: Seq<u8>) -> Seq<char> {
    q.map_values(|x: u8| pt_char(x))
}

/// Characters emitted when byte `b` is fed to a decoder whose partial
/// buffer holds `q`.  On malformed input the buffered bytes are flushed as
/// passthrough characters and `b` is reconsidered on its own.
pub open spec fn step_emit(q: Seq<u8>, b: u8) -> Seq<char>
    recommends
        partial_wf(q),
{
    if q.len() == 0 {
        start_emit(b)
    } else if completes(q, b) {
        seq![completed_char(q, b)]
    } else if extends(q, b) {
        seq![]
    } else {
        flush_chars(q) + start_emit(b)
    }
}

/// Partial buffer left when byte `b` is fed to a decoder whose partial
/// buffer holds `q`.
pub open spec fn step_partial(q: Seq<u8>, b: u8) -> Seq<u8>
    recommends
        partial_wf(q),
{
    if q.len() == 0 {
        start_partial(b)
    } else if completes(q, b) {
        seq![]
    } else if extends(q, b) {
        q.push(b)
    } else {
        start_partial(b)
    }
}

/// All characters emitted when the bytes `bs` are fed, one at a time, to a
/// decoder whose partial buffer holds `q`.
pub open spec fn feed_emit(q: Seq<u8>, bs: Seq<u8>) -> Seq<char>
    decreases bs.len(),
{
    if bs.len() == 0 {
        seq![]
    } else {
        step_emit(q, bs[0]) + feed_emit(step_partial(q, bs[0]), bs.drop_first())
    }
}

/// The partial buffer left when the bytes `bs` are fed, one at a time, to a
/// decoder whose partial buffer holds `q`.
pub open spec fn feed_partial(q: Seq<u8>, bs: Seq<u8>) -> Seq<u8>
    decreases bs.len(),
{
    if bs.len() == 0 {
        q
    } else {
        feed_partial(step_partial(q, bs[0]), bs.drop_first())
    }
}

/// The decoding of a whole byte sequence: everything an incremental feed
/// emits, followed by passthrough characters for a trailing incomplete
/// sequence.  This is the text the chunked strategy produces from its
/// accumulated raw bytes.
pub open spec fn decode_text(bs: Seq<u8>) -> Seq<char> {
    feed_emit(seq![], bs) + flush_chars(feed_partial(seq![], bs))
}

/// Feeding one byte leaves the partial buffer well formed.
pub proof fn lemma_step_partial_wf(q: Seq<u8>, b: u8)
    requires
        partial_wf(q),
    ensures
        partial_wf(step_partial(q, b)),
{
}

/// Unfolds one more byte at the end of a feed.
pub proof fn lemma_feed_snoc(q: Seq<u8>, bs: Seq<u8>, b: u8)
    ensures
        feed_emit(q, bs.push(b)) == feed_emit(q, bs) + step_emit(feed_partial(q, bs), b),
        feed_partial(q, bs.push(b)) == step_partial(feed_partial(q, bs), b),
    decreases bs.len(),
{
    let s = bs.push(b);
    if bs.len() == 0 {
        assert(s[0] == b);
        assert(s.drop_first() =~= Seq::<u8>::empty());
        assert(feed_emit(step_partial(q, b), s.drop_first()) == Seq::<char>::empty());
        assert(feed_partial(step_partial(q, b), s.drop_first()) == step_partial(q, b));
        assert(feed_emit(q, s) == step_emit(q, b) + Seq::<char>::empty());
        assert(step_emit(q, b) + Seq::<char>::empty() =~= step_emit(q, b));
        assert(feed_emit(q, bs) == Seq::<char>::empty());
        assert(Seq::<char>::empty() + step_emit(feed_partial(q, bs), b) =~= step_emit(q, b));
    } else {
        let q2 = step_partial(q, bs[0]);
        assert(s[0] == bs[0]);
        assert(s.drop_first() =~= bs.drop_first().push(b));
        lemma_feed_snoc(q2, bs.drop_first(), b);
        assert(feed_emit(q, s) == step_emit(q, bs[0]) + feed_emit(q2, s.drop_first()));
        assert(feed_emit(q2, s.drop_first()) == feed_emit(q2, bs.drop_first()) + step_emit(
            feed_partial(q2, bs.drop_first()),
            b,
        ));
        assert(feed_partial(q, bs) == feed_partial(q2, bs.drop_first()));
        assert(feed_emit(q, bs) == step_emit(q, bs[0]) + feed_emit(q2, bs.drop_first()));
        assert(feed_emit(q, s) =~= feed_emit(q, bs) + step_emit(feed_partial(q, bs), b));
        assert(feed_partial(q, s) == feed_partial(q2, s.drop_first()));
    }
}

/// Splits a feed at any point: the partial buffer threads through.
pub proof fn lemma_feed_append(q: Seq<u8>, bs1: Seq<u8>, bs2: Seq<u8>)
    ensures
        feed_emit(q, bs1 + bs2) == feed_emit(q, bs1) + feed_emit(feed_partial(q, bs1), bs2),
        feed_partial(q, bs1 + bs2) == feed_partial(feed_partial(q, bs1), bs2),
    decreases bs1.len(),
{
    if bs1.len() == 0 {
        assert(bs1 + bs2 =~= bs2);
        assert(feed_emit(q, bs1) + feed_emit(q, bs2) =~= feed_emit(q, bs2));
    } else {
        let b = bs1[0];
        let q2 = step_partial(q, b);
        assert((bs1 + bs2)[0] == b);
        assert((bs1 + bs2).drop_first() =~= bs1.drop_first() + bs2);
        lemma_feed_append(q2, bs1.drop_first(), bs2);
        assert(feed_emit(q, bs1 + bs2) == step_emit(q, b) + feed_emit(
            q2,
            bs1.drop_first() + bs2,
        ));
        assert(step_emit(q, b) + (feed_emit(q2, bs1.drop_first()) + feed_emit(
            feed_partial(q2, bs1.drop_first()),
            bs2,
        )) =~= feed_emit(q, bs1) + feed_emit(feed_partial(q, bs1), bs2));
    }
}

/// Well-formed two-byte leads start at 0xC2: anything lower would be an
/// overlong encoding.
proof fn lemma_scalar2_ranges(b0: u8, b1: u8)
    by (bit_vector)
    requires
        0xC0 <= b0 && b0 <= 0xDF,
        0x80 <= b1 && b1 <= 0xBF,
        codepoint_width_2(b0, b1) >= 0x80,
    ensures
        0xC2 <= b0,
{
}

/// The first continuation byte of a well-formed three-byte encoding obeys
/// the narrowed ranges that rule out overlong forms and surrogates.
proof fn lemma_scalar3_ranges(b0: u8, b1: u8, b2: u8)
    by (bit_vector)
    requires
        0xE0 <= b0 && b0 <= 0xEF,
        0x80 <= b1 && b1 <= 0xBF,
        0x80 <= b2 && b2 <= 0xBF,
        codepoint_width_3(b0, b1, b2) >= 0x800,
        !(0xD800 <= codepoint_width_3(b0, b1, b2) && codepoint_width_3(b0, b1, b2) <= 0xDFFF),
    ensures
        b0 == 0xE0 ==> 0xA0 <= b1,
        b0 == 0xED ==> b1 <= 0x9F,
{
}

/// The lead and first continuation byte of a well-formed four-byte
/// encoding obey the narrowed ranges that keep the value in the Unicode
/// range.
proof fn lemma_scalar4_ranges(b0: u8, b1: u8, b2: u8, b3: u8)
    by (bit_vector)
    requires
        0xF0 <= b0 && b0 <= 0xF7,
        0x80 <= b1 && b1 <= 0xBF,
        0x80 <= b2 && b2 <= 0xBF,
        0x80 <= b3 && b3 <= 0xBF,
        0x10000 <= codepoint_width_4(b0, b1, b2, b3),
        codepoint_width_4(b0, b1, b2, b3) <= 0x10FFFF,
    ensures
        b0 <= 0xF4,
        b0 == 0xF0 ==> 0x90 <= b1,
        b0 == 0xF4 ==> b1 <= 0x8F,
{
}

/// One unfolding of a feed.
proof fn lemma_feed_cons(q: Seq<u8>, bs: Seq<u8>)
    requires
        bs.len() > 0,
    ensures
        feed_emit(q, bs) == step_emit(q, bs[0]) + feed_emit(
            step_partial(q, bs[0]),
            bs.drop_first(),
        ),
        feed_partial(q, bs) == feed_partial(step_partial(q, bs[0]), bs.drop_first()),
{
}

/// Feeding the well-formed encoding of one scalar, from an empty buffer,
/// emits exactly that scalar's character and leaves the buffer empty.
proof fn lemma_feed_one_scalar(bs: Seq<u8>)
    requires
        valid_first_scalar(bs),
    ensures
        feed_emit(Seq::<u8>::empty(), take_first_scalar(bs)) == seq![
            decode_first_codepoint(bs) as char,
        ],
        feed_partial(Seq::<u8>::empty(), take_first_scalar(bs)) == Seq::<u8>::empty(),
{
    let e = Seq::<u8>::empty();
    let h = take_first_scalar(bs);
    let b0 = bs[0];
    let cp = decode_first_codepoint(bs);
    if is_leading_byte_width_1(b0) {
        assert(h =~= seq![b0]);
        assert(h.drop_first() =~= e);
        assert(b0 & 0x7F == b0) by (bit_vector)
            requires
                b0 <= 0x7F,
        ;
        assert(step_emit(e, b0) =~= seq![b0 as char]);
        assert((b0 as char) as u32 == b0 as u32);
        assert(cp == b0 as u32);
        vstd::utf8::char_u32_cast(b0 as char, cp);
        assert(cp as char == b0 as char);
        lemma_feed_cons(e, h);
        assert(feed_emit(e, e) == Seq::<char>::empty());
        assert(feed_partial(e, e) == e);
        assert(feed_emit(e, h) =~= seq![cp as char]);
    } else if is_leading_byte_width_2(b0) {
        let b1 = bs[1];
        lemma_scalar2_ranges(b0, b1);
        assert(h =~= seq![b0, b1]);
        assert(h.drop_first() =~= seq![b1]);
        assert(seq![b1].drop_first() =~= e);
        assert(step_emit(e, b0) =~= Seq::<char>::empty());
        assert(step_partial(e, b0) =~= seq![b0]);
        assert(completes(seq![b0], b1));
        assert(step_emit(seq![b0], b1) =~= seq![codepoint_width_2(b0, b1) as char]);
        assert(step_partial(seq![b0], b1) =~= e);
        lemma_feed_cons(e, h);
        lemma_feed_cons(seq![b0], seq![b1]);
        assert(feed_emit(e, e) == Seq::<char>::empty());
        assert(feed_partial(e, e) == e);
        assert(feed_emit(e, h) =~= seq![cp as char]);
        assert(feed_partial(e, h) =~= e);
    } else if is_leading_byte_width_3(b0) {
        let b1 = bs[1];
        let b2 = bs[2];
        lemma_scalar3_ranges(b0, b1, b2);
        assert(first_cont_ok(b0, b1));
        assert(h =~= seq![b0, b1, b2]);
        assert(h.drop_first() =~= seq![b1, b2]);
        assert(seq![b1, b2].drop_first() =~= seq![b2]);
        assert(seq![b2].drop_first() =~= e);
        assert(step_emit(e, b0) =~= Seq::<char>::empty());
        assert(step_partial(e, b0) =~= seq![b0]);
        assert(!completes(seq![b0], b1) && extends(seq![b0], b1));
        assert(step_emit(seq![b0], b1) =~= Seq::<char>::empty());
        assert(step_partial(seq![b0], b1) =~= seq![b0, b1]);
        assert(completes(seq![b0, b1], b2));
        assert(step_emit(seq![b0, b1], b2) =~= seq![codepoint_width_3(b0, b1, b2) as char]);
        assert(step_partial(seq![b0, b1], b2) =~= e);
        lemma_feed_cons(e, h);
        lemma_feed_cons(seq![b0], seq![b1, b2]);
        lemma_feed_cons(seq![b0, b1], seq![b2]);
        assert(feed_emit(e, e) == Seq::<char>::empty());
        assert(feed_partial(e, e) == e);
        assert(feed_emit(e, h) =~= seq![cp as char]);
        assert(feed_partial(e, h) =~= e);
    } else {
        let b1 = bs[1];
        let b2 = bs[2];
        let b3 = bs[3];
        lemma_scalar4_ranges(b0, b1, b2, b3);
        assert(first_cont_ok(b0, b1));
        assert(h =~= seq![b0, b1, b2, b3]);
        assert(h.drop_first() =~= seq![b1, b2, b3]);
        assert(seq![b1, b2, b3].drop_first() =~= seq![b2, b3]);
        assert(seq![b2, b3].drop_first() =~= seq![b3]);
        assert(seq![b3].drop_first() =~= e);
        assert(step_emit(e, b0) =~= Seq::<char>::empty());
        assert(step_partial(e, b0) =~= seq![b0]);
        assert(!completes(seq![b0], b1) && extends(seq![b0], b1));
        assert(step_emit(seq![b0], b1) =~= Seq::<char>::empty());
        assert(step_partial(seq![b0], b1) =~= seq![b0, b1]);
        assert(!completes(seq![b0, b1], b2) && extends(seq![b0, b1], b2));
        assert(step_emit(seq![b0, b1], b2) =~= Seq::<char>::empty());
        assert(step_partial(seq![b0, b1], b2) =~= seq![b0, b1, b2]);
        assert(completes(seq![b0, b1, b2], b3));
        assert(step_emit(seq![b0, b1, b2], b3) =~= seq![
            codepoint_width_4(b0, b1, b2, b3) as char,
        ]);
        assert(step_partial(seq![b0, b1, b2], b3) =~= e);
        lemma_feed_cons(e, h);
        lemma_feed_cons(seq![b0], seq![b1, b2, b3]);
        lemma_feed_cons(seq![b0, b1], seq![b2, b3]);
        lemma_feed_cons(seq![b0, b1, b2], seq![b3]);
        assert(feed_emit(e, e) == Seq::<char>::empty());
        assert(feed_partial(e, e) == e);
        assert(feed_emit(e, h) =~= seq![cp as char]);
        assert(feed_partial(e, h) =~= e);
    }
}

/// On well-formed input the permissive decoder agrees exactly with
/// standard UTF-8 decoding: passthrough never fires and every scalar
/// comes out as its character.
pub proof fn lemma_decode_text_utf8(bs: Seq<u8>)
    requires
        valid_utf8(bs),
    ensures
        decode_text(bs) == decode_utf8(bs),
    decreases bs.len(),
{
    let e = Seq::<u8>::empty();
    if bs.len() == 0 {
        assert(decode_text(bs) =~= decode_utf8(bs));
    } else {
        let h = take_first_scalar(bs);
        let rest = pop_first_scalar(bs);
        let l = length_of_first_scalar(bs);
        assert(1 <= l <= bs.len());
        assert(h + rest =~= bs);
        lemma_feed_one_scalar(bs);
        lemma_feed_append(e, h, rest);
        lemma_decode_text_utf8(rest);
        let c = decode_first_codepoint(bs) as char;
        assert(feed_emit(e, bs) == seq![c] + feed_emit(e, rest));
        assert(feed_partial(e, bs) == feed_partial(e, rest));
        assert(decode_text(bs) =~= seq![c] + decode_text(rest));
        assert(decode_utf8(bs) == seq![c] + decode_utf8(rest));
    }
}

/// If a feed emits nothing, every byte was buffered.
pub proof fn lemma_feed_silent(q: Seq<u8>, bs: Seq<u8>)
    requires
        feed_emit(q, bs).len() == 0,
    ensures
        feed_partial(q, bs) == q + bs,
    decreases bs.len(),
{
    if bs.len() == 0 {
        assert(q + bs =~= q);
    } else {
        let b = bs[0];
        assert(step_emit(q, b).len() == 0);
        assert(step_partial(q, b) =~= q.push(b));
        lemma_feed_silent(q.push(b), bs.drop_first());
        assert(q.push(b) + bs.drop_first() =~= q + bs);
    }
}

/// Decoding a non-empty byte sequence yields at least one character.
pub proof fn lemma_decode_text_len(bs: Seq<u8>)
    ensures
        decode_text(bs).len() == 0 <==> bs.len() == 0,
{
    if bs.len() > 0 && decode_text(bs).len() == 0 {
        lemma_feed_silent(Seq::<u8>::empty(), bs);
        assert(feed_partial(seq![], bs).len() == bs.len());
        assert(flush_chars(feed_partial(seq![], bs)).len() == bs.len());
    }
}

/// An ASCII byte always completes: it flushes whatever was buffered as
/// passthrough characters and stands for itself.
pub proof fn lemma_step_ascii(q: Seq<u8>, b: u8)
    requires
        partial_wf(q),
        b < 0x80,
    ensures
        step_emit(q, b) == flush_chars(q).push(b as char),
        step_partial(q, b) == Seq::<u8>::empty(),
{
    if q.len() == 0 {
        assert(step_emit(q, b) =~= flush_chars(q).push(b as char));
    } else {
        assert(!completes(q, b));
        assert(!extends(q, b));
        assert(step_emit(q, b) =~= flush_chars(q).push(b as char));
        assert(step_partial(q, b) =~= Seq::<u8>::empty());
    }
}

/// Characters of value `a` below 0x80 are emitted only for the byte `a`
/// itself: no multi-byte completion and no passthrough character ever
/// collides with an ASCII delimiter.
pub proof fn lemma_step_no_ascii(q: Seq<u8>, b: u8, a: u8)
    requires
        partial_wf(q),
        a < 0x80,
        b != a,
    ensures
        forall|t: int|
            0 <= t < step_emit(q, b).len() ==> #[trigger] step_emit(q, b)[t] != (a as char),
{
    let em = step_emit(q, b);
    assert forall|t: int| 0 <= t < em.len() implies #[trigger] em[t] != (a as char) by {
        if q.len() >= 1 && completes(q, b) {
            let c = completed_char(q, b);
            if q.len() == 1 {
                lemma_cp2_scalar(q[0], b);
                assert((codepoint_width_2(q[0], b) as char) as u32 == codepoint_width_2(q[0], b));
            } else if q.len() == 2 {
                lemma_cp3_scalar(q[0], q[1], b);
                assert((codepoint_width_3(q[0], q[1], b) as char) as u32 == codepoint_width_3(
                    q[0],
                    q[1],
                    b,
                ));
            } else {
                lemma_cp4_scalar(q[0], q[1], q[2], b);
                assert((codepoint_width_4(q[0], q[1], q[2], b) as char) as u32 == codepoint_width_4(
                    q[0],
                    q[1],
                    q[2],
                    b,
                ));
            }
            assert(c as u32 >= 0x80);
            assert((a as char) as u32 == a as u32);
        } else {
            // Everything emitted is a passthrough character for some byte,
            // or the byte itself when it is ASCII.
            if t < flush_chars(q).len() && q.len() >= 1 && !extends(q, b) {
                let x = q[t];
                assert(em[t] == pt_char(x));
                assert(x >= 0x80);
                assert(pt_char(x) as u32 == 0xF600 + x);
            } else {
                if b < 0x80 {
                    assert((b as char) as u32 == b as u32);
                    assert((a as char) as u32 == a as u32);
                } else if !is_lead(b) {
                    assert(pt_char(b) as u32 == 0xF600 + b);
                }
            }
        }
        assert((a as char) as u32 == a as u32);
    }
}

/// Outcome of feeding one byte, as seen by the acquisition strategies.
#[derive(Clone, Copy, Debug, PartialEq, Eq, Structural)]
pub enum DecodeState {
    /// More bytes are needed; the byte was buffered and nothing was emitted.
    Incomplete,
    /// At least one character was emitted.
    Complete,
    /// Unreachable under the passthrough policy; present because the
    /// decoding interface distinguishes it.
    Error,
}

/// Incremental decoder holding the retained partial multi-byte sequence.
/// One decoder value is owned by a single acquisition call and carries no
/// state across independent read invocations.
pub struct Decoder {
    partial: Vec<u8>,
}

impl View for Decoder {
    type V = Seq<u8>;

    closed spec fn view(&self) -> Seq<u8> {
        self.partial@
    }
}

/// Relies on char::from_u32: `Some` exactly on Unicode scalar values, and
/// the returned character casts back to the argument.
pub assume_specification[ char::from_u32 ](i: u32) -> (r: Option<char>)
    ensures
        r matches Some(c) ==> c as u32 == i,
        (i < 0xD800 || (0xE000 <= i && i <= 0x10FFFF)) ==> r is Some,
;

/// Every code point assembled from a well-formed two-byte sequence is a
/// Unicode scalar value.
pub proof fn lemma_cp2_scalar(b0: u8, b1: u8)
    by (bit_vector)
    requires
        0xC2 <= b0 && b0 <= 0xDF,
        0x80 <= b1 && b1 <= 0xBF,
    ensures
        0x80 <= codepoint_width_2(b0, b1) && codepoint_width_2(b0, b1) <= 0x7FF,
{
}

/// Every code point assembled from a well-formed three-byte sequence is a
/// Unicode scalar value (no overlong form, no surrogate).
pub proof fn lemma_cp3_scalar(b0: u8, b1: u8, b2: u8)
    by (bit_vector)
    requires
        0xE0 <= b0 && b0 <= 0xEF,
        b0 == 0xE0 ==> 0xA0 <= b1 && b1 <= 0xBF,
        b0 == 0xED ==> 0x80 <= b1 && b1 <= 0x9F,
        b0 != 0xE0 && b0 != 0xED ==> 0x80 <= b1 && b1 <= 0xBF,
        0x80 <= b2 && b2 <= 0xBF,
    ensures
        0x800 <= codepoint_width_3(b0, b1, b2) && codepoint_width_3(b0, b1, b2) <= 0xFFFF,
        !(0xD800 <= codepoint_width_3(b0, b1, b2) && codepoint_width_3(b0, b1, b2) <= 0xDFFF),
{
}

/// Every code point assembled from a well-formed four-byte sequence is a
/// Unicode scalar value.
pub proof fn lemma_cp4_scalar(b0: u8, b1: u8, b2: u8, b3: u8)
    by (bit_vector)
    requires
        0xF0 <= b0 && b0 <= 0xF4,
        b0 == 0xF0 ==> 0x90 <= b1 && b1 <= 0xBF,
        b0 == 0xF4 ==> 0x80 <= b1 && b1 <= 0x8F,
        b0 != 0xF0 && b0 != 0xF4 ==> 0x80 <= b1 && b1 <= 0xBF,
        0x80 <= b2 && b2 <= 0xBF,
        0x80 <= b3 && b3 <= 0xBF,
    ensures
        0x10000 <= codepoint_width_4(b0, b1, b2, b3) && codepoint_width_4(b0, b1, b2, b3)
            <= 0x10FFFF,
{
}

/// Turns a scalar value into the character it denotes.
fn char_of_scalar(cp: u32) -> (c: char)
    requires
        cp < 0xD800 || (0xE000 <= cp && cp <= 0x10FFFF),
    ensures
        c as u32 == cp,
{
    match char::from_u32(cp) {
        Some(c) => c,
        None => {
            proof {
                assert(false);
            }
            ' '
        },
    }
}

/// The passthrough character standing for byte `b`.
fn passthrough_char(b: u8) -> (c: char)
    ensures
        c == pt_char(b),
{
    if b < 0x80 {
        let c = b as char;
        c
    } else {
        let cp: u32 = PASSTHROUGH_BASE + b as u32;
        let c = char_of_scalar(cp);
        proof {
            vstd::utf8::char_u32_cast(c, cp);
        }
        c
    }
}

impl Decoder {
    /// A fresh decoder with nothing buffered.
    pub fn new() -> (d: Decoder)
        ensures
            d@ == Seq::<u8>::empty(),
    {
        Decoder { partial: Vec::new() }
    }

    /// True while the buffered bytes form a proper prefix of some valid
    /// encoding; established by the constructor and preserved by `feed`.
    pub open spec fn wf(&self) -> bool {
        partial_wf(self@)
    }

    /// Feed one raw byte.  Characters completed by the byte are appended to
    /// `out`; under the passthrough policy the only reachable outcomes are
    /// `Incomplete` and `Complete`.
    pub fn feed(&mut self, b: u8, out: &mut Vec<char>) -> (st: DecodeState)
        requires
            old(self).wf(),
        ensures
            final(self).wf(),
            final(out)@ == old(out)@ + step_emit(old(self)@, b),
            final(self)@ == step_partial(old(self)@, b),
            st == DecodeState::Complete <==> step_emit(old(self)@, b).len() > 0,
            st != DecodeState::Error,
    {
        let ghost q = self@;
        let n = self.partial.len();
        if n == 0 {
            self.start(b, out)
        } else {
            let b0 = self.partial[0];
            let complete: bool = if n == 1 {
                0xC2 <= b0 && b0 <= 0xDF && 0x80 <= b && b <= 0xBF
            } else if n == 2 {
                0xE0 <= b0 && b0 <= 0xEF && 0x80 <= b && b <= 0xBF
            } else {
                0x80 <= b && b <= 0xBF
            };
            if complete {
                let cp: u32 = if n == 1 {
                    (((b0 & 0x1F) as u32) << 6) | ((b & 0x3F) as u32)
                } else if n == 2 {
                    let b1 = self.partial[1];
                    (((b0 & 0x0F) as u32) << 12) | (((b1 & 0x3F) as u32) << 6) | ((b
                        & 0x3F) as u32)
                } else {
                    let b1 = self.partial[1];
                    let b2 = self.partial[2];
                    (((b0 & 0x07) as u32) << 18) | (((b1 & 0x3F) as u32) << 12) | (((b2
                        & 0x3F) as u32) << 6) | ((b & 0x3F) as u32)
                };
                proof {
                    if q.len() == 1 {
                        lemma_cp2_scalar(q[0], b);
                    } else if q.len() == 2 {
                        lemma_cp3_scalar(q[0], q[1], b);
                    } else {
                        lemma_cp4_scalar(q[0], q[1], q[2], b);
                    }
                }
                let c = char_of_scalar(cp);
                proof {
                    vstd::utf8::char_u32_cast(c, cp);
                }
                out.push(c);
                self.partial.clear();
                assert(out@ =~= old(out)@ + step_emit(q, b));
                DecodeState::Complete
            } else {
                let extend: bool = if n == 1 {
                    0xE0 <= b0 && b0 <= 0xF4 && self.first_cont_fits(b)
                } else if n == 2 {
                    0xF0 <= b0 && b0 <= 0xF4 && 0x80 <= b && b <= 0xBF
                } else {
                    false
                };
                if extend {
                    self.partial.push(b);
                    assert(out@ =~= old(out)@ + step_emit(q, b));
                    DecodeState::Incomplete
                } else {
                    // Malformed: flush the buffered bytes as passthrough
                    // characters, then reconsider the new byte on its own.
                    let mut i: usize = 0;
                    while i < self.partial.len()
                        invariant
                            i <= self.partial.len(),
                            self.partial@ == q,
                            out@ == old(out)@ + flush_chars(q.subrange(0, i as int)),
                        decreases self.partial.len() - i,
                    {
                        let c = passthrough_char(self.partial[i]);
                        out.push(c);
                        proof {
                            assert(q.subrange(0, i + 1 as int) =~= q.subrange(0, i as int).push(
                                q[i as int],
                            ));
                            assert(flush_chars(q.subrange(0, i + 1 as int)) =~= flush_chars(
                                q.subrange(0, i as int),
                            ).push(pt_char(q[i as int])));
                        }
                        i = i + 1;
                    }
                    assert(q.subrange(0, q.len() as int) =~= q);
                    self.partial.clear();
                    let st = self.start(b, out);
                    assert(out@ =~= old(out)@ + step_emit(q, b));
                    DecodeState::Complete
                }
            }
        }
    }

    /// True when `b` may follow the single buffered lead byte.
    fn first_cont_fits(&self, b: u8) -> (r: bool)
        requires
            self@.len() == 1,
        ensures
            r == first_cont_ok(self@[0], b),
    {
        let l = self.partial[0];
        if l == 0xE0 {
            0xA0 <= b && b <= 0xBF
        } else if l == 0xED {
            0x80 <= b && b <= 0x9F
        } else if l == 0xF0 {
            0x90 <= b && b <= 0xBF
        } else if l == 0xF4 {
            0x80 <= b && b <= 0x8F
        } else {
            0x80 <= b && b <= 0xBF
        }
    }

    /// Feed byte `b` with nothing buffered.
    fn start(&mut self, b: u8, out: &mut Vec<char>) -> (st: DecodeState)
        requires
            old(self)@.len() == 0,
        ensures
            final(self).wf(),
            final(out)@ == old(out)@ + start_emit(b),
            final(self)@ == start_partial(b),
            st == DecodeState::Complete <==> start_emit(b).len() > 0,
            st != DecodeState::Error,
    {
        if b < 0x80 {
            let c = b as char;
            out.push(c);
            assert(out@ =~= old(out)@ + start_emit(b));
            DecodeState::Complete
        } else if 0xC2 <= b && b <= 0xF4 {
            self.partial.push(b);
            assert(out@ =~= old(out)@ + start_emit(b));
            DecodeState::Incomplete
        } else {
            let c = passthrough_char(b);
            out.push(c);
            assert(out@ =~= old(out)@ + start_emit(b));
            DecodeState::Complete
        }
    }

    /// Emit passthrough characters for any trailing incomplete sequence and
    /// reset the decoder.
    pub fn flush(&mut self, out: &mut Vec<char>)
        ensures
            final(self)@ == Seq::<u8>::empty(),
            final(out)@ == old(out)@ + flush_chars(old(self)@),
    {
        let ghost q = self@;
        let mut i: usize = 0;
        while i < self.partial.len()
            invariant
                i <= self.partial.len(),
                self.partial@ == q,
                out@ == old(out)@ + flush_chars(q.subrange(0, i as int)),
            decreases self.partial.len() - i,
        {
            let c = passthrough_char(self.partial[i]);
            out.push(c);
            proof {
                assert(q.subrange(0, i + 1 as int) =~= q.subrange(0, i as int).push(q[i as int]));
                assert(flush_chars(q.subrange(0, i + 1 as int)) =~= flush_chars(
                    q.subrange(0, i as int),
                ).push(pt_char(q[i as int])));
            }
            i = i + 1;
        }
        assert(q.subrange(0, q.len() as int) =~= q);
        self.partial.clear();
    }
}

/// Decode a whole byte buffer at once, as the chunked strategy does with
/// its accumulated raw bytes.
pub fn decode_bytes(bytes: &Vec<u8>) -> (r: Vec<char>)
    ensures
        r@ == decode_text(bytes@),
{
    let mut out: Vec<char> = Vec::new();
    let mut dec = Decoder::new();
    let mut i: usize = 0;
    while i < bytes.len()
        invariant
            i <= bytes.len(),
            dec.wf(),
            out@ == feed_emit(Seq::<u8>::empty(), bytes@.subrange(0, i as int)),
            dec@ == feed_partial(Seq::<u8>::empty(), bytes@.subrange(0, i as int)),
        decreases bytes.len() - i,
    {
        let ghost pre = bytes@.subrange(0, i as int);
        let b = bytes[i];
        dec.feed(b, &mut out);
        proof {
            assert(bytes@.subrange(0, i + 1 as int) =~= pre.push(b));
            lemma_feed_snoc(Seq::<u8>::empty(), pre, b);
        }
        i = i + 1;
    }
    assert(bytes@.subrange(0, bytes@.len() as int) =~= bytes@);
    dec.flush(&mut out);
    out
}

} // verus!
