//! The frame serializer: writes a frame or keep-alive into a byte buffer,
//! producing exactly `item_bytes` of the item.

use vstd::prelude::*;

use crate::errors::StompError;
use crate::protocol::{ascii_of, hcontains, Command, FrameOrKeepAlive, ItemView};
use crate::wire::{cmd_token, content_length_key, escape, frame_bytes, headers_bytes,
    item_bytes, lemma_escape_snoc, lemma_headers_bytes_snoc, BACKSLASH, COLON, CR, ESC_COLON,
    ESC_CR, ESC_LF, LF, NUL};

verus! {

/// Append the bytes of an ASCII string.
fn push_ascii_str(buf: &mut Vec<u8>, s: &str)
    requires
        vstd::string::is_ascii(s),
    ensures
        final(buf)@ == old(buf)@ + ascii_of(s@),
{
    proof {
        broadcast use vstd::string::is_ascii_spec_bytes;
    }
    let b = s.as_bytes();
    proof {
        assert(b@ =~= ascii_of(s@));
    }
    buf.extend_from_slice(b);
}

/// Append the command token of `c`.
pub(crate) fn push_cmd_token(buf: &mut Vec<u8>, c: &Command)
    ensures
        final(buf)@ == old(buf)@ + cmd_token(*c),
{
    match c {
        Command::Connect => {
            proof {
                reveal_strlit("CONNECT");
            }
            push_ascii_str(buf, "CONNECT");
        },
        Command::Send => {
            proof {
                reveal_strlit("SEND");
            }
            push_ascii_str(buf, "SEND");
        },
        Command::Subscribe => {
            proof {
                reveal_strlit("SUBSCRIBE");
            }
            push_ascii_str(buf, "SUBSCRIBE");
        },
        Command::Unsubscribe => {
            proof {
                reveal_strlit("UNSUBSCRIBE");
            }
            push_ascii_str(buf, "UNSUBSCRIBE");
        },
        Command::Disconnect => {
            proof {
                reveal_strlit("DISCONNECT");
            }
            push_ascii_str(buf, "DISCONNECT");
        },
        Command::Ack => {
            proof {
                reveal_strlit("ACK");
            }
            push_ascii_str(buf, "ACK");
        },
        Command::Connected => {
            proof {
                reveal_strlit("CONNECTED");
            }
            push_ascii_str(buf, "CONNECTED");
        },
        Command::Message => {
            proof {
                reveal_strlit("MESSAGE");
            }
            push_ascii_str(buf, "MESSAGE");
        },
        Command::Receipt => {
            proof {
                reveal_strlit("RECEIPT");
            }
            push_ascii_str(buf, "RECEIPT");
        },
        Command::Error => {
            proof {
                reveal_strlit("ERROR");
            }
            push_ascii_str(buf, "ERROR");
        },
    }
}

/// Append `s` with the four reserved bytes escaped.
fn push_escaped(buf: &mut Vec<u8>, s: &[u8])
    ensures
        final(buf)@ == old(buf)@ + escape(s@),
{
    let n = s.len();
    let mut i: usize = 0;
    proof {
        assert(s@.take(0) =~= Seq::<u8>::empty());
        assert(escape(s@.take(0)) =~= Seq::<u8>::empty());
        assert(buf@ =~= old(buf)@ + escape(s@.take(0)));
    }
    while i < n
        invariant
            n == s@.len(),
            0 <= i <= n,
            buf@ == old(buf)@ + escape(s@.take(i as int)),
        decreases n - i,
    {
        let b = s[i];
        if b == CR {
            buf.push(BACKSLASH);
            buf.push(ESC_CR);
        } else if b == LF {
            buf.push(BACKSLASH);
            buf.push(ESC_LF);
        } else if b == COLON {
            buf.push(BACKSLASH);
            buf.push(ESC_COLON);
        } else if b == BACKSLASH {
            buf.push(BACKSLASH);
            buf.push(BACKSLASH);
        } else {
            buf.push(b);
        }
        proof {
            lemma_escape_snoc(s@.take(i as int), b);
            assert(s@.take(i as int).push(b) =~= s@.take(i as int + 1));
            assert(buf@ =~= old(buf)@ + escape(s@.take(i as int + 1)));
        }
        i = i + 1;
    }
    proof {
        assert(s@.take(n as int) =~= s@);
    }
}

/// Whether the body holds a NUL byte.
fn contains_nul(s: &[u8]) -> (r: bool)
    ensures
        r == s@.contains(NUL),
{
    let n = s.len();
    let mut i: usize = 0;
    while i < n
        invariant
            n == s@.len(),
            0 <= i <= n,
            forall|j: int| 0 <= j < i ==> s@[j] != NUL,
        decreases n - i,
    {
        if s[i] == 0u8 {
            return true;
        }
        i = i + 1;
    }
    false
}

/// Write one wire item at the end of `buf`.
///
/// A keep-alive is a single line feed.  A frame is written as
/// `frame_bytes(f)` and is refused — with the buffer untouched — exactly
/// when its body holds a NUL byte but its headers do not announce a
/// `content-length`.
pub fn encode_frame(buf: &mut Vec<u8>, item: &FrameOrKeepAlive) -> (r: Result<(), StompError>)
    ensures
        r is Ok ==> final(buf)@ == old(buf)@ + item_bytes(item@),
        r is Err ==> final(buf)@ == old(buf)@ && r == Err::<(), StompError>(
            StompError::ProtocolError,
        ),
        match item@ {
            ItemView::Frame(f) => r is Err <==> (f.body.contains(NUL) && !hcontains(
                f.headers,
                content_length_key(),
            )),
            ItemView::KeepAlive => r is Ok,
        },
{
    match item {
        FrameOrKeepAlive::KeepAlive => {
            buf.push(LF);
            proof {
                assert(buf@ =~= old(buf)@ + item_bytes(item@));
            }
            Ok(())
        },
        FrameOrKeepAlive::Frame(f) => {
            let has_nul = contains_nul(f.body.as_slice());
            let cl_key = content_length_key_vec();
            let has_cl = f.headers.contains_key(cl_key.as_slice());
            if has_nul && !has_cl {
                return Err(StompError::ProtocolError);
            }
            let ghost buf0 = buf@;
            push_cmd_token(buf, &f.command);
            buf.push(LF);
            let n = f.headers.entries.len();
            let mut i: usize = 0;
            proof {
                assert(f.headers@.take(0) =~= crate::protocol::HeadersModel::empty());
                assert(buf@ =~= buf0 + cmd_token(f.command) + seq![LF] + headers_bytes(
                    f.headers@.take(0),
                ));
            }
            while i < n
                invariant
                    n == f.headers@.len(),
                    n == f.headers.entries@.len(),
                    0 <= i <= n,
                    buf@ == buf0 + cmd_token(f.command) + seq![LF] + headers_bytes(
                        f.headers@.take(i as int),
                    ),
                    forall|j: int|
                        0 <= j < n ==> #[trigger] f.headers@[j] == (
                            f.headers.entries@[j].0@,
                            f.headers.entries@[j].1@,
                        ),
                decreases n - i,
            {
                push_escaped(buf, f.headers.entries[i].0.as_slice());
                buf.push(COLON);
                push_escaped(buf, f.headers.entries[i].1.as_slice());
                buf.push(LF);
                proof {
                    lemma_headers_bytes_snoc(
                        f.headers@.take(i as int),
                        f.headers@[i as int].0,
                        f.headers@[i as int].1,
                    );
                    assert(f.headers@.take(i as int).push(f.headers@[i as int]) =~= f.headers@.take(
                        i as int + 1,
                    ));
                    assert(buf@ =~= buf0 + cmd_token(f.command) + seq![LF] + headers_bytes(
                        f.headers@.take(i as int + 1),
                    ));
                }
                i = i + 1;
            }
            proof {
                assert(f.headers@.take(n as int) =~= f.headers@);
            }
            buf.push(LF);
            buf.extend_from_slice(f.body.as_slice());
            buf.push(NUL);
            proof {
                assert(buf@ =~= buf0 + frame_bytes(f@));
            }
            Ok(())
        },
    }
}

/// The `content-length` key as an owned byte string.
pub fn content_length_key_vec() -> (r: Vec<u8>)
    ensures
        r@ == content_length_key(),
{
    let mut v: Vec<u8> = Vec::new();
    proof {
        reveal_strlit("content-length");
    }
    push_ascii_str(&mut v, "content-length");
    proof {
        assert(v@ =~= content_length_key());
    }
    v
}

} // verus!
