//! Framing of JSON-RPC messages on a raw byte stream.
//!
//! A frame is one complete JSON value delimited by balanced brackets. The
//! scan keeps a bracket depth, whether it is inside a string, whether the
//! previous byte was an escaping backslash, whether an opening bracket has
//! been seen and how many whitespace bytes it passed.

use bytes::BytesMut;
use vstd::prelude::*;
use vstd::utf8::{decode_utf8, encode_utf8, valid_utf8};

verus! {

#[verifier::external_type_specification]
#[verifier::external_body]
pub struct ExBytesMut(BytesMut);

/// The bytes that a `BytesMut` holds.
pub uninterp spec fn buffer_contents(b: BytesMut) -> Seq<u8>;

/// Relies on `<BytesMut as AsRef<[u8]>>::as_ref`: a view of the bytes held.
#[verifier::external_body]
fn buffer_bytes(b: &BytesMut) -> (r: &[u8])
    ensures
        r@ == buffer_contents(*b),
{
    b.as_ref()
}

/// Relies on `BytesMut::split_to`: the first `at` bytes move to the result,
/// the rest stay. It panics where `at` is past the end.
#[verifier::external_body]
fn buffer_split_to(b: &mut BytesMut, at: usize) -> (r: BytesMut)
    requires
        at <= buffer_contents(*old(b)).len(),
    ensures
        buffer_contents(r) == buffer_contents(*old(b)).take(at as int),
        buffer_contents(*final(b)) == buffer_contents(*old(b)).skip(at as int),
{
    b.split_to(at)
}

/// Relies on `BytesMut::extend_from_slice`: appends the slice.
#[verifier::external_body]
fn buffer_extend(b: &mut BytesMut, s: &[u8])
    ensures
        buffer_contents(*final(b)) == buffer_contents(*old(b)) + s@,
{
    b.extend_from_slice(s)
}

/// Relies on `impl From<BytesMut> for Vec<u8>`: the same bytes in a vector.
#[verifier::external_body]
fn buffer_into_vec(b: BytesMut) -> (r: Vec<u8>)
    ensures
        r@ == buffer_contents(b),
{
    Vec::from(b)
}

/// Relies on `String::from_utf8`: succeeds exactly on valid UTF-8 and then
/// holds the decoded characters.
#[verifier::external_body]
fn string_from_utf8(v: Vec<u8>) -> (r: Option<String>)
    ensures
        r.is_some() == valid_utf8(v@),
        r matches Some(s) ==> s@ == decode_utf8(v@),
{
    String::from_utf8(v).ok()
}

/// The state of the framing scan after some bytes.
pub struct ScanState {
    pub depth: int,
    pub in_str: bool,
    pub escaped: bool,
    pub opened: bool,
    pub whitespace: nat,
}

pub open spec fn is_whitespace(b: u8) -> bool {
    b == 0x0D || b == 0x0A || b == 0x20 || b == 0x09
}

pub open spec fn is_open(b: u8) -> bool {
    b == 0x7B || b == 0x5B
}

pub open spec fn is_close(b: u8) -> bool {
    b == 0x7D || b == 0x5D
}

pub open spec fn scan_start() -> ScanState {
    ScanState { depth: 0, in_str: false, escaped: false, opened: false, whitespace: 0 }
}

/// One byte of the scan.
pub open spec fn scan_step(s: ScanState, b: u8) -> ScanState {
    let opens = is_open(b) && !s.in_str;
    let closes = !opens && is_close(b) && !s.in_str;
    let quote = !opens && !closes && b == 0x22 && !s.escaped;
    let space = !opens && !closes && !quote && is_whitespace(b);
    ScanState {
        depth: if opens {
            s.depth + 1
        } else if closes {
            s.depth - 1
        } else {
            s.depth
        },
        in_str: if quote {
            !s.in_str
        } else {
            s.in_str
        },
        escaped: b == 0x5C && !s.escaped && s.in_str,
        opened: s.opened || opens,
        whitespace: if space {
            s.whitespace + 1
        } else {
            s.whitespace
        },
    }
}

/// The scan state after all of `b`.
pub open spec fn scan(b: Seq<u8>) -> ScanState
    decreases b.len(),
{
    if b.len() == 0 {
        scan_start()
    } else {
        scan_step(scan(b.drop_last()), b.last())
    }
}

/// A frame ends with the last byte of `b`: depth is back to zero, an opening
/// bracket has been seen, and the frame holds more than whitespace.
pub open spec fn ends_frame(b: Seq<u8>) -> bool {
    let s = scan(b);
    b.len() > 0 && s.depth == 0 && s.opened && b.len() > s.whitespace
}

/// The length of the first frame in `b`, if `b` holds one.
pub open spec fn frame_length(b: Seq<u8>) -> Option<nat>
    decreases b.len(),
{
    if b.len() == 0 {
        None
    } else {
        match frame_length(b.drop_last()) {
            Some(n) => Some(n),
            None => if ends_frame(b) {
                Some(b.len())
            } else {
                None
            },
        }
    }
}

/// The frames that repeated decoding takes from the front of `b`.
pub open spec fn frames(b: Seq<u8>) -> Seq<Seq<u8>>
    decreases b.len(),
{
    match frame_length(b) {
        Some(n) => if 0 < n && n <= b.len() {
            seq![b.take(n as int)] + frames(b.skip(n as int))
        } else {
            seq![]
        },
        None => seq![],
    }
}

/// `v` is exactly one frame: its first frame ends at its last byte.
pub open spec fn is_frame(v: Seq<u8>) -> bool {
    frame_length(v) == Some(v.len())
}

/// How many of `values`, laid end to end, lie wholly within the first `k` bytes.
pub open spec fn complete_count(values: Seq<Seq<u8>>, k: nat) -> nat
    decreases values.len(),
{
    if values.len() == 0 {
        0
    } else if values[0].len() <= k {
        1 + complete_count(values.drop_first(), (k - values[0].len()) as nat)
    } else {
        0
    }
}

proof fn lemma_complete_count_bound(values: Seq<Seq<u8>>, k: nat)
    ensures
        complete_count(values, k) <= values.len(),
    decreases values.len(),
{
    if values.len() > 0 && values[0].len() <= k {
        lemma_complete_count_bound(values.drop_first(), (k - values[0].len()) as nat);
    }
}

pub proof fn lemma_frame_length_bounds(b: Seq<u8>)
    ensures
        frame_length(b) matches Some(n) ==> 0 < n <= b.len(),
    decreases b.len(),
{
    if b.len() > 0 {
        lemma_frame_length_bounds(b.drop_last());
    }
}

/// Once a frame has been seen, more bytes behind it do not change it.
pub proof fn lemma_frame_length_prefix(b: Seq<u8>, k: int)
    requires
        0 <= k <= b.len(),
        frame_length(b.take(k)) is Some,
    ensures
        frame_length(b) == frame_length(b.take(k)),
    decreases b.len() - k,
{
    if k < b.len() {
        assert(b.drop_last().take(k) =~= b.take(k));
        lemma_frame_length_prefix(b.drop_last(), k);
    } else {
        assert(b.take(k) =~= b);
    }
}

/// A strict prefix of a frame holds no frame.
pub proof fn lemma_frame_no_early_end(v: Seq<u8>, k: int)
    requires
        is_frame(v),
        0 <= k < v.len(),
    ensures
        frame_length(v.take(k)) is None,
{
    if frame_length(v.take(k)) is Some {
        lemma_frame_length_prefix(v, k);
        lemma_frame_length_bounds(v.take(k));
    }
}

/// The frames of a prefix of a stream are a prefix of the frames of the stream:
/// the codec never reports a frame that more bytes would take back.
pub proof fn lemma_frames_of_prefix(b: Seq<u8>, k: int)
    requires
        0 <= k <= b.len(),
    ensures
        frames(b.take(k)).len() <= frames(b).len(),
        frames(b.take(k)) =~= frames(b).take(frames(b.take(k)).len() as int),
    decreases b.len(),
{
    let p = b.take(k);
    lemma_frame_length_bounds(p);
    lemma_frame_length_bounds(b);
    match frame_length(p) {
        Some(n) => {
            lemma_frame_length_prefix(b, k);
            assert(p.take(n as int) =~= b.take(n as int));
            assert(p.skip(n as int) =~= b.skip(n as int).take(k - n));
            lemma_frames_of_prefix(b.skip(n as int), k - n);
        },
        None => {},
    }
}

/// Completeness of the codec: on any prefix of `k` bytes of values laid end to
/// end, repeated decoding yields exactly the values whose last byte lies within
/// the prefix, in order, and nothing else.
pub proof fn lemma_codec_completeness(values: Seq<Seq<u8>>, k: nat)
    requires
        forall|i: int| 0 <= i < values.len() ==> is_frame(#[trigger] values[i]),
        k <= values.flatten().len(),
    ensures
        frames(values.flatten().take(k as int)) =~= values.take(
            complete_count(values, k) as int,
        ),
    decreases values.len(),
{
    if values.len() == 0 {
        assert(values.flatten().take(k as int) =~= Seq::<u8>::empty());
        assert(frames(Seq::<u8>::empty()) =~= Seq::<Seq<u8>>::empty());
    } else {
        let v = values[0];
        let rest = values.drop_first();
        assert(values.flatten() =~= v + rest.flatten());
        assert(is_frame(v));
        let p = values.flatten().take(k as int);
        if v.len() <= k {
            assert(p.take(v.len() as int) =~= v);
            lemma_frame_length_prefix(p, v.len() as int);
            assert(p.skip(v.len() as int) =~= rest.flatten().take(k - v.len()));
            assert forall|i: int| 0 <= i < rest.len() implies is_frame(#[trigger] rest[i]) by {
                assert(rest[i] == values[i + 1]);
            }
            lemma_codec_completeness(rest, (k - v.len()) as nat);
            let c = complete_count(rest, (k - v.len()) as nat);
            lemma_complete_count_bound(rest, (k - v.len()) as nat);
            assert(complete_count(values, k) == 1 + c);
            assert(values.take(complete_count(values, k) as int) =~= seq![v] + rest.take(
                complete_count(rest, (k - v.len()) as nat) as int,
            ));
        } else {
            assert(p =~= v.take(k as int));
            lemma_frame_no_early_end(v, k as int);
        }
    }
}

/// Brackets inside a quoted string leave the depth and the string as they
/// were, so they do not affect framing.
pub proof fn lemma_brackets_in_strings(s: ScanState, b: u8)
    requires
        s.in_str,
        is_open(b) || is_close(b),
    ensures
        scan_step(s, b).depth == s.depth,
        scan_step(s, b).in_str,
        scan_step(s, b).opened == s.opened,
{
}

/// Byte `i` of `b` lies inside a string and is neither its closing quote nor
/// an escaping backslash: changing it changes no framing.
pub open spec fn inside_string(b: Seq<u8>, i: int) -> bool {
    let s = scan(b.take(i));
    s.in_str && (s.escaped || (b[i] != 0x22 && b[i] != 0x5C))
}

/// `b1` and `b2` differ only inside string literals.
pub open spec fn differ_inside_strings(b1: Seq<u8>, b2: Seq<u8>) -> bool {
    &&& b1.len() == b2.len()
    &&& forall|i: int|
        0 <= i < b1.len() ==> b1[i] == b2[i] || (inside_string(b1, i) && inside_string(b2, i))
}

proof fn lemma_whitespace_bound(b: Seq<u8>)
    ensures
        scan(b).whitespace <= b.len(),
        scan(b).opened ==> scan(b).whitespace < b.len(),
    decreases b.len(),
{
    if b.len() > 0 {
        lemma_whitespace_bound(b.drop_last());
    }
}

proof fn lemma_scans_agree(b1: Seq<u8>, b2: Seq<u8>, k: int)
    requires
        differ_inside_strings(b1, b2),
        0 <= k <= b1.len(),
    ensures
        scan(b1.take(k)).depth == scan(b2.take(k)).depth,
        scan(b1.take(k)).in_str == scan(b2.take(k)).in_str,
        scan(b1.take(k)).escaped == scan(b2.take(k)).escaped,
        scan(b1.take(k)).opened == scan(b2.take(k)).opened,
        frame_length(b1.take(k)) == frame_length(b2.take(k)),
    decreases k,
{
    if k > 0 {
        lemma_scans_agree(b1, b2, k - 1);
        let t1 = b1.take(k);
        let t2 = b2.take(k);
        assert(t1.drop_last() =~= b1.take(k - 1));
        assert(t2.drop_last() =~= b2.take(k - 1));
        assert(t1.last() == b1[k - 1] && t2.last() == b2[k - 1]);
        lemma_whitespace_bound(t1);
        lemma_whitespace_bound(t2);
    } else {
        assert(b1.take(0) =~= Seq::<u8>::empty());
        assert(b2.take(0) =~= Seq::<u8>::empty());
    }
}

/// Brackets, quotes and escapes inside string literals do not affect
/// framing: two buffers that differ only inside strings have their first
/// frame end at the same byte.
pub proof fn lemma_strings_do_not_frame(b1: Seq<u8>, b2: Seq<u8>)
    requires
        differ_inside_strings(b1, b2),
    ensures
        frame_length(b1) == frame_length(b2),
{
    lemma_scans_agree(b1, b2, b1.len() as int);
    assert(b1.take(b1.len() as int) =~= b1);
    assert(b2.take(b2.len() as int) =~= b2);
}

/// Repeated decoding yields `frames`: if each step takes the first frame off
/// the buffer, as `decode` does, and the last buffer holds no frame, the
/// frames taken are `frames` of the first buffer.
pub proof fn lemma_repeated_decode(bufs: Seq<Seq<u8>>, outs: Seq<Seq<u8>>)
    requires
        bufs.len() == outs.len() + 1,
        forall|i: int|
            0 <= i < outs.len() ==> (#[trigger] frame_length(bufs[i])) is Some && outs[i]
                == bufs[i].take(frame_length(bufs[i]).unwrap() as int) && bufs[i + 1] == bufs[i].skip(
                frame_length(bufs[i]).unwrap() as int,
            ),
        frame_length(bufs.last()) is None,
    ensures
        outs == frames(bufs[0]),
    decreases outs.len(),
{
    if outs.len() == 0 {
        assert(bufs.last() == bufs[0]);
        assert(frames(bufs[0]) =~= Seq::<Seq<u8>>::empty());
        assert(outs =~= Seq::<Seq<u8>>::empty());
    } else {
        assert(frame_length(bufs[0]) is Some);
        lemma_frame_length_bounds(bufs[0]);
        let rb = bufs.drop_first();
        let ro = outs.drop_first();
        assert forall|i: int|
            0 <= i < ro.len() implies (#[trigger] frame_length(rb[i])) is Some && ro[i] == rb[i].take(
            frame_length(rb[i]).unwrap() as int,
        ) && rb[i + 1] == rb[i].skip(frame_length(rb[i]).unwrap() as int) by {
            assert(rb[i] == bufs[i + 1] && ro[i] == outs[i + 1] && rb[i + 1] == bufs[i + 2]);
            assert(frame_length(bufs[i + 1]) is Some);
        }
        assert(rb.last() == bufs.last());
        lemma_repeated_decode(rb, ro);
        assert(outs =~= seq![outs[0]] + ro);
    }
}

/// The length of the first frame in `bytes`, scanning left to right.
pub fn frame_len(bytes: &[u8]) -> (r: Option<usize>)
    ensures
        match r {
            Some(n) => frame_length(bytes@) == Some(n as nat),
            None => frame_length(bytes@) is None,
        },
{
    let mut depth: i128 = 0;
    let mut in_str = false;
    let mut escaped = false;
    let mut opened = false;
    let mut whitespace: usize = 0;
    let mut idx: usize = 0;
    while idx < bytes.len()
        invariant
            idx <= bytes@.len(),
            -(idx as int) <= depth <= idx as int,
            whitespace <= idx,
            scan(bytes@.take(idx as int)) == (ScanState {
                depth: depth as int,
                in_str,
                escaped,
                opened,
                whitespace: whitespace as nat,
            }),
            frame_length(bytes@.take(idx as int)) is None,
        decreases bytes@.len() - idx,
    {
        let byte = bytes[idx];
        let opens = (byte == 0x7B || byte == 0x5B) && !in_str;
        let closes = !opens && (byte == 0x7D || byte == 0x5D) && !in_str;
        let quote = !opens && !closes && byte == 0x22 && !escaped;
        let space = !opens && !closes && !quote && (byte == 0x0D || byte == 0x0A || byte == 0x20
            || byte == 0x09);
        if opens {
            depth = depth + 1;
            opened = true;
        } else if closes {
            depth = depth - 1;
        } else if quote {
            in_str = !in_str;
        } else if space {
            whitespace = whitespace + 1;
        }
        escaped = byte == 0x5C && !escaped && in_str;
        let ghost prefix = bytes@.take(idx + 1);
        assert(prefix.drop_last() =~= bytes@.take(idx as int));
        idx = idx + 1;
        if depth == 0 && opened && idx > whitespace {
            proof {
                assert(ends_frame(prefix));
                lemma_frame_length_prefix(bytes@, idx as int);
            }
            return Some(idx);
        }
    }
    assert(bytes@.take(idx as int) =~= bytes@);
    None
}

/// Why a frame could not be decoded.
#[derive(Debug, PartialEq, Eq, Clone, Copy)]
pub enum CodecError {
    /// The frame's bytes are not valid UTF-8; the connection is closed.
    InvalidUtf8,
}

/// Extracts one JSON value per frame from a byte stream and writes frames back.
#[derive(Debug, Clone, Copy)]
pub struct JsonRpcCodec;

impl JsonRpcCodec {
    /// Takes the first complete frame off the front of `buf`. On partial input
    /// it returns `Ok(None)` and leaves the buffer as it was.
    pub fn decode(&mut self, buf: &mut BytesMut) -> (r: Result<Option<String>, CodecError>)
        ensures
            match frame_length(buffer_contents(*old(buf))) {
                None => r == Ok::<Option<String>, CodecError>(None) && *final(buf) == *old(buf),
                Some(n) => {
                    let frame = buffer_contents(*old(buf)).take(n as int);
                    &&& buffer_contents(*final(buf)) == buffer_contents(*old(buf)).skip(n as int)
                    &&& valid_utf8(frame) ==> (r matches Ok(Some(s)) && s@ == decode_utf8(frame))
                    &&& !valid_utf8(frame) ==> r == Err::<Option<String>, CodecError>(
                        CodecError::InvalidUtf8,
                    )
                },
            },
    {
        let n = match frame_len(buffer_bytes(buf)) {
            Some(n) => n,
            None => return Ok(None),
        };
        proof {
            lemma_frame_length_bounds(buffer_contents(*buf));
        }
        let frame = buffer_split_to(buf, n);
        match string_from_utf8(buffer_into_vec(frame)) {
            Some(s) => Ok(Some(s)),
            None => Err(CodecError::InvalidUtf8),
        }
    }

    /// Appends the message's bytes to `buf` verbatim.
    pub fn encode(&mut self, msg: String, buf: &mut BytesMut)
        ensures
            buffer_contents(*final(buf)) == buffer_contents(*old(buf)) + encode_utf8(msg@),
    {
        buffer_extend(buf, msg.as_str().as_bytes());
    }
}

} // verus!
