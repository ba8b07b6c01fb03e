//! The wire format of STOMP 1.2 frames, as mathematics: escape rules,
//! command tokens, header lines, bodies, and the decimal fields.
//!
//! `frame_bytes` is the canonical serialization; the serializer produces it
//! and the parser is proved to invert it on well-formed frames.

use vstd::prelude::*;

use crate::protocol::{ascii_of, hcontains, hkeys_unique, hlookup, Command, FrameView,
    HeadersModel, ItemView};

verus! {

pub const NUL: u8 = 0;
pub const LF: u8 = 10;
pub const CR: u8 = 13;
pub const COLON: u8 = 58;
pub const BACKSLASH: u8 = 92;

/// The escape letter written after a backslash for a colon: `c`.
pub const ESC_COLON: u8 = 99;

/// The escape letter written after a backslash for a line feed: `n`.
pub const ESC_LF: u8 = 110;

/// The escape letter written after a backslash for a carriage return: `r`.
pub const ESC_CR: u8 = 114;

/// How one byte of a header name or value is written on the wire: the four
/// reserved bytes become two-byte escape sequences, all others stand as
/// they are.
pub open spec fn escape_byte(b: u8) -> Seq<u8> {
    if b == CR {
        seq![BACKSLASH, ESC_CR]
    } else if b == LF {
        seq![BACKSLASH, ESC_LF]
    } else if b == COLON {
        seq![BACKSLASH, ESC_COLON]
    } else if b == BACKSLASH {
        seq![BACKSLASH, BACKSLASH]
    } else {
        seq![b]
    }
}

/// A whole header name or value on the wire.
pub open spec fn escape(s: Seq<u8>) -> Seq<u8>
    decreases s.len(),
{
    if s.len() == 0 {
        Seq::empty()
    } else {
        escape_byte(s[0]) + escape(s.drop_first())
    }
}

/// The command token of the command line, without its line feed.
pub open spec fn cmd_token(c: Command) -> Seq<u8> {
    match c {
        Command::Connect => ascii_of("CONNECT"@),
        Command::Send => ascii_of("SEND"@),
        Command::Subscribe => ascii_of("SUBSCRIBE"@),
        Command::Unsubscribe => ascii_of("UNSUBSCRIBE"@),
        Command::Disconnect => ascii_of("DISCONNECT"@),
        Command::Ack => ascii_of("ACK"@),
        Command::Connected => ascii_of("CONNECTED"@),
        Command::Message => ascii_of("MESSAGE"@),
        Command::Receipt => ascii_of("RECEIPT"@),
        Command::Error => ascii_of("ERROR"@),
    }
}

/// One header line: escaped name, colon, escaped value, line feed.
pub open spec fn header_line_bytes(k: Seq<u8>, v: Seq<u8>) -> Seq<u8> {
    escape(k) + seq![COLON] + escape(v) + seq![LF]
}

/// The header block: each entry as one line, in stored order.
pub open spec fn headers_bytes(hs: HeadersModel) -> Seq<u8>
    decreases hs.len(),
{
    if hs.len() == 0 {
        Seq::empty()
    } else {
        header_line_bytes(hs[0].0, hs[0].1) + headers_bytes(hs.drop_first())
    }
}

/// A whole frame on the wire: command line, header block, blank line, body,
/// terminating NUL.
pub open spec fn frame_bytes(f: FrameView) -> Seq<u8> {
    cmd_token(f.command) + seq![LF] + headers_bytes(f.headers) + seq![LF] + f.body + seq![NUL]
}

/// A wire item: a frame, or the single line feed of a keep-alive.
pub open spec fn item_bytes(it: ItemView) -> Seq<u8> {
    match it {
        ItemView::Frame(f) => frame_bytes(f),
        ItemView::KeepAlive => seq![LF],
    }
}

/// An ASCII decimal digit.
pub open spec fn is_digit(b: u8) -> bool {
    48 <= b <= 57
}

pub open spec fn all_digits(s: Seq<u8>) -> bool {
    forall|i: int| 0 <= i < s.len() ==> is_digit(#[trigger] s[i])
}

/// The number written by a digit string (most significant digit first).
pub open spec fn dec_value(s: Seq<u8>) -> int
    decreases s.len(),
{
    if s.len() == 0 {
        0
    } else {
        dec_value(s.drop_last()) * 10 + (s.last() - 48)
    }
}

/// A decimal protocol field: non-empty, digits only, and within `usize`.
/// Anything else does not denote a number.
pub open spec fn parse_dec(s: Seq<u8>) -> Option<int> {
    if s.len() > 0 && all_digits(s) && dec_value(s) <= usize::MAX {
        Some(dec_value(s))
    } else {
        None
    }
}

/// The canonical decimal rendering of a non-negative number.
pub open spec fn dec_bytes(n: int) -> Seq<u8>
    decreases n,
{
    if n < 10 {
        seq![(48 + if n >= 0 { n } else { 0 }) as u8]
    } else {
        dec_bytes(n / 10).push((48 + n % 10) as u8)
    }
}

/// The name of the header that fixes the body length.
pub open spec fn content_length_key() -> Seq<u8> {
    ascii_of("content-length"@)
}

/// The body length announced by the headers, when one is announced and
/// denotes a number.
pub open spec fn content_length_of(hs: HeadersModel) -> Option<int> {
    match hlookup(hs, content_length_key()) {
        Some(v) => parse_dec(v),
        None => None,
    }
}

/// A frame the codec round-trips byte-exactly: keys are unique and
/// non-empty, a body holding NUL announces its length, and an announced
/// length is the body's.
pub open spec fn frame_wf(f: FrameView) -> bool {
    &&& hkeys_unique(f.headers)
    &&& forall|i: int| 0 <= i < f.headers.len() ==> (#[trigger] f.headers[i].0).len() > 0
    &&& f.body.contains(NUL) ==> hcontains(f.headers, content_length_key())
    &&& hcontains(f.headers, content_length_key()) ==> content_length_of(f.headers) == Some(
        f.body.len() as int,
    )
}

/// Escaping distributes over concatenation.
proof fn lemma_escape_append(a: Seq<u8>, b: Seq<u8>)
    ensures
        escape(a + b) == escape(a) + escape(b),
    decreases a.len(),
{
    if a.len() == 0 {
        assert(a + b =~= b);
        assert(escape(a) =~= Seq::<u8>::empty());
        assert(escape(a + b) =~= escape(a) + escape(b));
    } else {
        assert((a + b).drop_first() =~= a.drop_first() + b);
        assert((a + b)[0] == a[0]);
        assert((a + b).len() != 0);
        lemma_escape_append(a.drop_first(), b);
        assert(escape(a + b) == escape_byte(a[0]) + escape((a + b).drop_first()));
        assert(escape(a) == escape_byte(a[0]) + escape(a.drop_first()));
        assert(escape(a + b) =~= escape(a) + escape(b));
    }
}

/// Escaping distributes over appending one byte.
pub proof fn lemma_escape_snoc(s: Seq<u8>, b: u8)
    ensures
        escape(s.push(b)) == escape(s) + escape_byte(b),
{
    assert(s.push(b) =~= s + seq![b]);
    lemma_escape_append(s, seq![b]);
    assert(seq![b].drop_first() =~= Seq::<u8>::empty());
    assert(escape(seq![b].drop_first()) =~= Seq::<u8>::empty());
    assert(escape(seq![b]) =~= escape_byte(b));
    assert(escape(s.push(b)) =~= escape(s) + escape_byte(b));
}

/// The header block grows by one line per appended entry.
pub proof fn lemma_headers_bytes_snoc(hs: HeadersModel, k: Seq<u8>, v: Seq<u8>)
    ensures
        headers_bytes(hs.push((k, v))) == headers_bytes(hs) + header_line_bytes(k, v),
    decreases hs.len(),
{
    let out = hs.push((k, v));
    if hs.len() == 0 {
        assert(out.drop_first() =~= HeadersModel::empty());
        assert(headers_bytes(out.drop_first()) =~= Seq::<u8>::empty());
        assert(out[0] == (k, v));
        assert(headers_bytes(out) == header_line_bytes(k, v) + headers_bytes(out.drop_first()));
        assert(headers_bytes(hs) =~= Seq::<u8>::empty());
        assert(headers_bytes(out) =~= headers_bytes(hs) + header_line_bytes(k, v));
    } else {
        assert(out.drop_first() =~= hs.drop_first().push((k, v)));
        assert(out[0] == hs[0]);
        lemma_headers_bytes_snoc(hs.drop_first(), k, v);
        assert(headers_bytes(out) == header_line_bytes(out[0].0, out[0].1) + headers_bytes(
            out.drop_first(),
        ));
        assert(headers_bytes(out) =~= headers_bytes(hs) + header_line_bytes(k, v));
    }
}

} // verus!
