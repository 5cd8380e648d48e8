//! Frames: a 32-bit little-endian length and that many bytes of JSON. The desktop
//! app speaks them over its socket and through the native-messaging proxy alike.

use crate::crypto::bytes_result;
use crate::error::{Error, ErrorView, Failure};
use crate::json::{json_of_bytes, json_text, max_levels, parse, within, writable, Json, JsonView};
use vstd::prelude::*;
use vstd::utf8::encode_utf8;

verus! {

/// How the desktop app is reached.
#[derive(Debug, Clone, Copy, PartialEq, Eq, Structural)]
pub enum TransportKind {
    DirectSocket,
    NativeMessaging,
}

/// How the desktop app is tried to be reached first: over its socket.
pub fn first_transport() -> (r: TransportKind)
    ensures
        r == TransportKind::DirectSocket,
{
    TransportKind::DirectSocket
}

/// What is tried when the desktop app cannot be reached in one way: the socket
/// comes first, the native-messaging proxy after it, and nothing after that.
pub fn fallback(kind: TransportKind) -> (r: Option<TransportKind>)
    ensures
        r == (match kind {
            TransportKind::DirectSocket => Some(TransportKind::NativeMessaging),
            TransportKind::NativeMessaging => None,
        }),
{
    match kind {
        TransportKind::DirectSocket => Some(TransportKind::NativeMessaging),
        TransportKind::NativeMessaging => None,
    }
}

/// The longest body that is read, in bytes.
pub const MAX_FRAME: usize = 67108864;

/// A 32-bit number as four bytes, the least significant first.
pub open spec fn length_bytes(n: nat) -> Seq<u8> {
    seq![
        (n % 256) as u8,
        (n / 0x100 % 256) as u8,
        (n / 0x1_0000 % 256) as u8,
        (n / 0x100_0000 % 256) as u8,
    ]
}

/// The number that four bytes stand for, the least significant first.
pub open spec fn length_of(header: Seq<u8>) -> nat {
    (header[0] + header[1] * 0x100 + header[2] * 0x1_0000 + header[3] * 0x100_0000) as nat
}

/// The frame of a body.
pub open spec fn frame(body: Seq<u8>) -> Seq<u8> {
    length_bytes(body.len()) + body
}

/// What framing a body comes to: a body whose length 32 bits cannot hold is refused.
pub open spec fn framed(body: Seq<u8>) -> Result<Seq<u8>, ErrorView> {
    if body.len() <= u32::MAX {
        Ok(frame(body))
    } else {
        Err(Failure::MessageTooLarge)
    }
}

/// Puts the length in front of a body.
pub fn encode_frame(body: &[u8]) -> (r: Result<Vec<u8>, Error>)
    ensures
        bytes_result(r) == framed(body@),
        body@.len() <= u32::MAX ==> r is Ok && r->Ok_0@ == frame(body@),
        body@.len() > u32::MAX ==> r is Err && r->Err_0@ == Failure::<Seq<char>>::MessageTooLarge,
{
    let n: usize = body.len();
    if n > u32::MAX as usize {
        return Err(Failure::MessageTooLarge);
    }
    let mut out: Vec<u8> = vec![
        (n % 256) as u8,
        (n / 0x100 % 256) as u8,
        (n / 0x1_0000 % 256) as u8,
        (n / 0x100_0000 % 256) as u8,
    ];
    assert(out@ =~= length_bytes(n as nat));
    out.extend_from_slice(body);
    assert(out@ =~= frame(body@));
    Ok(out)
}

/// The error for a length that no frame has.
pub open spec fn frame_length_error(kind: TransportKind, n: nat) -> ErrorView {
    match kind {
        TransportKind::DirectSocket => Failure::FrameLength(n as usize),
        TransportKind::NativeMessaging => Failure::NativeFrameLength(n as usize),
    }
}

/// The length of a body that the four bytes in front of it announce. A length of zero
/// or above the limit is refused.
pub open spec fn announced_length(kind: TransportKind, header: Seq<u8>) -> Result<nat, ErrorView> {
    if 0 < length_of(header) <= MAX_FRAME {
        Ok(length_of(header))
    } else {
        Err(frame_length_error(kind, length_of(header)))
    }
}

/// The view of a length or of an error.
pub open spec fn length_result(r: Result<usize, Error>) -> Result<nat, ErrorView> {
    match r {
        Ok(n) => Ok(n as nat),
        Err(e) => Err(e@),
    }
}

/// Reads the length of a body from the four bytes in front of it. A length of zero
/// or above the limit is refused.
pub fn frame_length(kind: TransportKind, header: &[u8; 4]) -> (r: Result<usize, Error>)
    ensures
        length_result(r) == announced_length(kind, header@),
        0 < length_of(header@) <= MAX_FRAME ==> r is Ok && r->Ok_0 == length_of(header@),
        length_of(header@) == 0 || length_of(header@) > MAX_FRAME ==> r is Err && r->Err_0@
            == frame_length_error(kind, length_of(header@)),
{
    let n: usize = header[0] as usize + header[1] as usize * 0x100 + header[2] as usize * 0x1_0000
        + header[3] as usize * 0x100_0000;
    if n == 0 || n > MAX_FRAME {
        match kind {
            TransportKind::DirectSocket => Err(Failure::FrameLength(n)),
            TransportKind::NativeMessaging => Err(Failure::NativeFrameLength(n)),
        }
    } else {
        Ok(n)
    }
}

/// The bytes that send a document.
pub open spec fn message_frame(value: JsonView) -> Seq<u8> {
    frame(encode_utf8(json_text(value)))
}

/// Whether a frame announces the length of its body, and the body holds a document.
pub open spec fn carries(bytes: Seq<u8>, value: JsonView) -> bool {
    &&& bytes.len() >= 4
    &&& length_of(bytes.take(4)) == bytes.len() - 4
    &&& body_document(bytes.skip(4)) == Ok::<JsonView, ErrorView>(value)
}

/// The frame that sends a document. Whoever reads it gets the document back, unless it
/// is nested too deep for any reader.
pub fn write_json(value: &Json) -> (r: Result<Vec<u8>, Error>)
    requires
        writable(value@),
    ensures
        r matches Ok(bytes) ==> within(value@, max_levels()) ==> carries(bytes@, value@),
        encode_utf8(json_text(value@)).len() <= u32::MAX ==> r is Ok && r->Ok_0@ == message_frame(
            value@,
        ),
        encode_utf8(json_text(value@)).len() > u32::MAX ==> r is Err && r->Err_0@ == Failure::<
            Seq<char>,
        >::MessageTooLarge,
{
    let text: String = value.to_text();
    proof {
        let body = encode_utf8(text@);
        if body.len() <= u32::MAX {
            lemma_frame_round_trip(body);
        }
    }
    encode_frame(text.as_str().as_bytes())
}

/// The document that the body of a frame holds.
pub open spec fn body_document(body: Seq<u8>) -> Result<JsonView, ErrorView> {
    match json_of_bytes(body) {
        Ok(j) => Ok(j),
        Err(t) => Err(Failure::Json(t)),
    }
}

/// The view of a document or of an error.
pub open spec fn json_result(r: Result<Json, Error>) -> Result<JsonView, ErrorView> {
    match r {
        Ok(j) => Ok(j@),
        Err(e) => Err(e@),
    }
}

/// Reads the body of a frame.
pub fn read_json(body: &[u8]) -> (r: Result<Json, Error>)
    ensures
        json_result(r) == body_document(body@),
{
    match parse(body) {
        Ok(j) => Ok(j),
        Err(t) => Err(Failure::Json(t)),
    }
}

/// The length in front of a body is the length of the body.
pub proof fn lemma_frame_round_trip(body: Seq<u8>)
    requires
        body.len() <= u32::MAX,
    ensures
        frame(body).len() == 4 + body.len(),
        length_of(frame(body).take(4)) == body.len(),
        frame(body).skip(4) == body,
{
    let n = body.len();
    assert(frame(body).take(4) =~= length_bytes(n));
    assert(frame(body).skip(4) =~= body);
    assert(n % 256 + n / 0x100 % 256 * 0x100 + n / 0x1_0000 % 256 * 0x1_0000 + n / 0x100_0000 % 256
        * 0x100_0000 == n);
}

/// The milliseconds to wait, as far as 31 bits can hold them.
pub open spec fn poll_limit(millis: int) -> int {
    if millis <= i32::MAX {
        millis
    } else {
        i32::MAX as int
    }
}

/// The milliseconds to wait, as far as `poll` can be told.
pub fn poll_timeout(millis: u128) -> (r: i32)
    ensures
        r == poll_limit(millis as int),
{
    if millis <= i32::MAX as u128 {
        millis as i32
    } else {
        i32::MAX
    }
}

/// Whether a reply can be read, from what `poll` returned: a negative result is a
/// failure, zero means that the time ran out, and a set bit of `trouble` that the
/// other side is gone.
pub open spec fn poll_verdict(
    result: i32,
    events: i16,
    trouble: i16,
    os_error: Seq<char>,
) -> Option<ErrorView> {
    if result < 0 {
        Some(Failure::Context("poll"@, Box::new(Failure::Other(os_error))))
    } else if result == 0 {
        Some(Failure::TimedOut)
    } else if events & trouble != 0 {
        Some(Failure::Closed)
    } else {
        None
    }
}

/// The view of the error of a check, if it has one.
pub open spec fn fault(r: Result<(), Error>) -> Option<ErrorView> {
    match r {
        Ok(_) => None,
        Err(e) => Some(e@),
    }
}

/// An error with the circumstance in which it came.
pub fn in_context(circumstance: &str, e: Error) -> (r: Error)
    ensures
        r@ == Failure::Context(circumstance@, Box::new(e@)),
{
    Failure::Context(circumstance.to_owned(), Box::new(e))
}

/// Judges the result of waiting for a reply.
pub fn poll_readable(result: i32, events: i16, trouble: i16, os_error: &str) -> (r: Result<(), Error>)
    ensures
        fault(r) == poll_verdict(result, events, trouble, os_error@),
{
    if result < 0 {
        Err(in_context("poll", Failure::Other(os_error.to_owned())))
    } else if result == 0 {
        Err(Failure::TimedOut)
    } else if events & trouble != 0 {
        Err(Failure::Closed)
    } else {
        Ok(())
    }
}

/// Whether a connection came about, from what `poll` returned.
pub open spec fn connect_verdict(
    result: i32,
    events: i16,
    trouble: i16,
    seconds: usize,
    os_error: Seq<char>,
    socket_error: Seq<char>,
) -> Option<ErrorView> {
    if result < 0 {
        Some(
            Failure::Context(
                "poll during socket connect"@,
                Box::new(Failure::Other(os_error)),
            ),
        )
    } else if result == 0 {
        Some(Failure::ConnectTimedOut(seconds))
    } else if events & trouble != 0 {
        Some(
            Failure::Context("IPC socket connect failed"@, Box::new(Failure::Other(socket_error))),
        )
    } else {
        None
    }
}

/// Judges the result of waiting for a connection.
pub fn connect_with_timeout(
    result: i32,
    events: i16,
    trouble: i16,
    seconds: usize,
    os_error: &str,
    socket_error: &str,
) -> (r: Result<(), Error>)
    ensures
        fault(r) == connect_verdict(result, events, trouble, seconds, os_error@, socket_error@),
{
    if result < 0 {
        Err(in_context("poll during socket connect", Failure::Other(os_error.to_owned())))
    } else if result == 0 {
        Err(Failure::ConnectTimedOut(seconds))
    } else if events & trouble != 0 {
        Err(in_context("IPC socket connect failed", Failure::Other(socket_error.to_owned())))
    } else {
        Ok(())
    }
}

/// The view of an optional error.
pub open spec fn opt_error(last: Option<Error>) -> Option<ErrorView> {
    match last {
        Some(e) => Some(e@),
        None => None,
    }
}

/// Why no socket could be connected: the failure of the last candidate, if there
/// was one.
pub open spec fn unconnected(last: Option<ErrorView>) -> ErrorView {
    match last {
        Some(e) => e,
        None => Failure::NoSocketCandidates,
    }
}

/// Why no socket could be connected: the failure of the last candidate, if there
/// was one.
pub fn socket_failure(last: Option<Error>) -> (r: Error)
    ensures
        r@ == unconnected(opt_error(last)),
{
    match last {
        Some(e) => e,
        None => Failure::NoSocketCandidates,
    }
}

/// A reader takes from the bytes of a frame the length that the writer put there, for
/// every body that is not empty and not above 64 MiB; a longer body is refused by its
/// length, and so is an empty one.
pub proof fn lemma_written_length_read(kind: TransportKind, body: Seq<u8>)
    requires
        body.len() <= u32::MAX,
    ensures
        1 <= body.len() <= 64 * 1024 * 1024 ==> announced_length(kind, frame(body).take(4)) == Ok::<
            nat,
            ErrorView,
        >(body.len()),
        body.len() == 0 || body.len() > 64 * 1024 * 1024 ==> announced_length(
            kind,
            frame(body).take(4),
        ) == Err::<nat, ErrorView>(
            match kind {
                TransportKind::DirectSocket => Failure::FrameLength(body.len() as usize),
                TransportKind::NativeMessaging => Failure::NativeFrameLength(body.len() as usize),
            },
        ),
{
    lemma_frame_round_trip(body);
}

/// The header of a frame has the length's least significant byte first.
pub proof fn lemma_length_bytes(a: u8, b: u8, c: u8, d: u8)
    ensures
        length_of(seq![a, b, c, d]) == a + 256 * (b + 256 * (c + 256 * d)),
        length_bytes((a + 256 * (b + 256 * (c + 256 * d))) as nat) == seq![a, b, c, d],
{
    let n = (a + 256 * (b + 256 * (c + 256 * d))) as nat;
    assert(n / 256 == b + 256 * (c + 256 * d));
    assert(n / 0x1_0000 == c + 256 * d);
    assert(n / 0x100_0000 == d);
    assert(length_bytes(n) =~= seq![a, b, c, d]);
}

/// Waiting times are told as they are while they fit in 31 bits, and a longer one is
/// as long as they can say.
pub proof fn lemma_poll_limit(millis: int)
    ensures
        millis < 0x8000_0000 ==> poll_limit(millis) == millis,
        millis >= 0x8000_0000 ==> poll_limit(millis) == 0x7fff_ffff,
{
}

/// A reply can be read if and only if something happened and none of it is trouble;
/// else the failure says whether the call failed, the time ran out or the other side is
/// gone.
pub proof fn lemma_poll_verdict(result: i32, events: i16, trouble: i16, os_error: Seq<char>)
    ensures
        poll_verdict(result, events, trouble, os_error) is None <==> result > 0 && events & trouble
            == 0,
        poll_verdict(result, events, trouble, os_error) == Some::<ErrorView>(Failure::TimedOut)
            <==> result == 0,
        poll_verdict(result, events, trouble, os_error) == Some::<ErrorView>(Failure::Closed)
            <==> result > 0 && events & trouble != 0,
        result < 0 ==> poll_verdict(result, events, trouble, os_error) == Some::<ErrorView>(
            Failure::Context("poll"@, Box::new(Failure::Other(os_error))),
        ),
{
}

/// A connection came about if and only if something happened and none of it is trouble.
pub proof fn lemma_connect_verdict(
    result: i32,
    events: i16,
    trouble: i16,
    seconds: usize,
    os_error: Seq<char>,
    socket_error: Seq<char>,
)
    ensures
        connect_verdict(result, events, trouble, seconds, os_error, socket_error) is None
            <==> result > 0 && events & trouble == 0,
        result == 0 ==> connect_verdict(result, events, trouble, seconds, os_error, socket_error)
            == Some::<ErrorView>(Failure::ConnectTimedOut(seconds)),
        result > 0 && events & trouble != 0 ==> connect_verdict(
            result,
            events,
            trouble,
            seconds,
            os_error,
            socket_error,
        ) == Some::<ErrorView>(
            Failure::Context("IPC socket connect failed"@, Box::new(Failure::Other(socket_error))),
        ),
        result < 0 ==> connect_verdict(result, events, trouble, seconds, os_error, socket_error)
            == Some::<ErrorView>(
            Failure::Context("poll during socket connect"@, Box::new(Failure::Other(os_error))),
        ),
{
}

/// The body of a frame holds the document that its bytes are read as, or else the
/// failure carries the parser's complaint.
pub proof fn lemma_body_document(body: Seq<u8>, j: JsonView, t: Seq<char>)
    ensures
        json_of_bytes(body) == Ok::<JsonView, Seq<char>>(j) <==> body_document(body) == Ok::<
            JsonView,
            ErrorView,
        >(j),
        json_of_bytes(body) == Err::<JsonView, Seq<char>>(t) ==> body_document(body) == Err::<
            JsonView,
            ErrorView,
        >(Failure::Json(t)),
{
}

/// Every body of less than four gigabytes can be framed: four bytes of length, then the
/// body as it is. A longer one is refused.
pub proof fn lemma_framed(body: Seq<u8>)
    ensures
        body.len() < 0x1_0000_0000 ==> (framed(body) matches Ok(bytes) && bytes.len() == 4
            + body.len() && bytes.skip(4) == body && length_of(bytes.take(4)) == body.len()),
        body.len() >= 0x1_0000_0000 ==> framed(body) == Err::<Seq<u8>, ErrorView>(
            Failure::MessageTooLarge,
        ),
{
    if body.len() < 0x1_0000_0000 {
        lemma_frame_round_trip(body);
    }
}

/// The failure of the last socket that was tried is the one that is told; where none was
/// tried, that is told.
pub proof fn lemma_unconnected(e: ErrorView)
    ensures
        unconnected(Some(e)) == e,
        unconnected(None) == Failure::<Seq<char>>::NoSocketCandidates,
{
}

} // verus!
