//! The round-trip laws of the codec.
//!
//! `lemma_codec_round_trip` states that parsing the serialization of any
//! well-formed wire item yields that item back, consuming exactly its
//! bytes; `lemma_header_escape_round_trip` states the same for one header
//! line over arbitrary key and value bytes.

use vstd::prelude::*;

use crate::parser::{cmd_line, cmd_line_cr, first_nul_from, headers_model_of, spec_chars, spec_command,
    spec_frame, spec_header, spec_headers, spec_parse, spec_tag, Step};
use crate::protocol::{hkeys_unique, lemma_hinsert_missing, Command, FrameView, HeadersModel,
    ItemView};
use crate::wire::{cmd_token, content_length_of, escape, escape_byte, frame_bytes, frame_wf,
    header_line_bytes, headers_bytes, item_bytes, COLON, LF, NUL};

verus! {

/// The ten command tokens, as concrete bytes.
proof fn lemma_token_bytes()
    ensures
        cmd_token(Command::Connect) =~= seq![67u8, 79, 78, 78, 69, 67, 84],
        cmd_token(Command::Send) =~= seq![83u8, 69, 78, 68],
        cmd_token(Command::Subscribe) =~= seq![83u8, 85, 66, 83, 67, 82, 73, 66, 69],
        cmd_token(Command::Unsubscribe) =~= seq![85u8, 78, 83, 85, 66, 83, 67, 82, 73, 66, 69],
        cmd_token(Command::Disconnect) =~= seq![68u8, 73, 83, 67, 79, 78, 78, 69, 67, 84],
        cmd_token(Command::Ack) =~= seq![65u8, 67, 75],
        cmd_token(Command::Connected) =~= seq![67u8, 79, 78, 78, 69, 67, 84, 69, 68],
        cmd_token(Command::Message) =~= seq![77u8, 69, 83, 83, 65, 71, 69],
        cmd_token(Command::Receipt) =~= seq![82u8, 69, 67, 69, 73, 80, 84],
        cmd_token(Command::Error) =~= seq![69u8, 82, 82, 79, 82],
{
    reveal_strlit("CONNECT");
    reveal_strlit("SEND");
    reveal_strlit("SUBSCRIBE");
    reveal_strlit("UNSUBSCRIBE");
    reveal_strlit("DISCONNECT");
    reveal_strlit("ACK");
    reveal_strlit("CONNECTED");
    reveal_strlit("MESSAGE");
    reveal_strlit("RECEIPT");
    reveal_strlit("ERROR");
}

/// A tag misses when the input differs from it inside both.
proof fn lemma_tag_mismatch(s: Seq<u8>, t: Seq<u8>, d: int)
    requires
        0 <= d < t.len(),
        d < s.len(),
        s[d] != t[d],
    ensures
        spec_tag(s, t) is Fail,
{
    if s.len() >= t.len() {
        assert(s.take(t.len() as int)[d] == s[d]);
    } else {
        assert(t.take(s.len() as int)[d] == t[d]);
    }
}

/// The command line of `c`, followed by anything, parses as `c` and
/// consumes exactly the command line.
proof fn lemma_command_parse(c: Command, rest: Seq<u8>)
    ensures
        spec_command(cmd_line(c) + rest) == Step::<Command>::Found(
            c,
            cmd_token(c).len() + 1 as int,
        ),
{
    lemma_token_bytes();
    let s = cmd_line(c) + rest;
    assert(s.take(cmd_line(c).len() as int) =~= cmd_line(c));
    match c {
        Command::Connect => {},
        Command::Send => {
            lemma_tag_mismatch(s, cmd_line(Command::Connect), 0);
    lemma_tag_mismatch(s, cmd_line_cr(Command::Connect), 0);
            lemma_tag_mismatch(s, cmd_line_cr(Command::Connect), 0);
        },
        Command::Subscribe => {
            lemma_tag_mismatch(s, cmd_line(Command::Connect), 0);
    lemma_tag_mismatch(s, cmd_line_cr(Command::Connect), 0);
            lemma_tag_mismatch(s, cmd_line_cr(Command::Connect), 0);
            lemma_tag_mismatch(s, cmd_line(Command::Send), 1);
            lemma_tag_mismatch(s, cmd_line_cr(Command::Send), 1);
        },
        Command::Unsubscribe => {
            lemma_tag_mismatch(s, cmd_line(Command::Connect), 0);
    lemma_tag_mismatch(s, cmd_line_cr(Command::Connect), 0);
            lemma_tag_mismatch(s, cmd_line_cr(Command::Connect), 0);
            lemma_tag_mismatch(s, cmd_line(Command::Send), 0);
    lemma_tag_mismatch(s, cmd_line_cr(Command::Send), 0);
            lemma_tag_mismatch(s, cmd_line_cr(Command::Send), 0);
            lemma_tag_mismatch(s, cmd_line(Command::Subscribe), 0);
    lemma_tag_mismatch(s, cmd_line_cr(Command::Subscribe), 0);
            lemma_tag_mismatch(s, cmd_line_cr(Command::Subscribe), 0);
        },
        Command::Disconnect => {
            lemma_tag_mismatch(s, cmd_line(Command::Connect), 0);
    lemma_tag_mismatch(s, cmd_line_cr(Command::Connect), 0);
            lemma_tag_mismatch(s, cmd_line_cr(Command::Connect), 0);
            lemma_tag_mismatch(s, cmd_line(Command::Send), 0);
    lemma_tag_mismatch(s, cmd_line_cr(Command::Send), 0);
            lemma_tag_mismatch(s, cmd_line_cr(Command::Send), 0);
            lemma_tag_mismatch(s, cmd_line(Command::Subscribe), 0);
    lemma_tag_mismatch(s, cmd_line_cr(Command::Subscribe), 0);
            lemma_tag_mismatch(s, cmd_line_cr(Command::Subscribe), 0);
            lemma_tag_mismatch(s, cmd_line(Command::Unsubscribe), 0);
    lemma_tag_mismatch(s, cmd_line_cr(Command::Unsubscribe), 0);
            lemma_tag_mismatch(s, cmd_line_cr(Command::Unsubscribe), 0);
        },
        Command::Ack => {
            lemma_tag_mismatch(s, cmd_line(Command::Connect), 0);
    lemma_tag_mismatch(s, cmd_line_cr(Command::Connect), 0);
            lemma_tag_mismatch(s, cmd_line_cr(Command::Connect), 0);
            lemma_tag_mismatch(s, cmd_line(Command::Send), 0);
    lemma_tag_mismatch(s, cmd_line_cr(Command::Send), 0);
            lemma_tag_mismatch(s, cmd_line_cr(Command::Send), 0);
            lemma_tag_mismatch(s, cmd_line(Command::Subscribe), 0);
    lemma_tag_mismatch(s, cmd_line_cr(Command::Subscribe), 0);
            lemma_tag_mismatch(s, cmd_line_cr(Command::Subscribe), 0);
            lemma_tag_mismatch(s, cmd_line(Command::Unsubscribe), 0);
    lemma_tag_mismatch(s, cmd_line_cr(Command::Unsubscribe), 0);
            lemma_tag_mismatch(s, cmd_line_cr(Command::Unsubscribe), 0);
            lemma_tag_mismatch(s, cmd_line(Command::Disconnect), 0);
    lemma_tag_mismatch(s, cmd_line_cr(Command::Disconnect), 0);
            lemma_tag_mismatch(s, cmd_line_cr(Command::Disconnect), 0);
        },
        Command::Connected => {
            lemma_tag_mismatch(s, cmd_line(Command::Connect), 7);
            lemma_tag_mismatch(s, cmd_line_cr(Command::Connect), 7);
            lemma_tag_mismatch(s, cmd_line(Command::Send), 0);
    lemma_tag_mismatch(s, cmd_line_cr(Command::Send), 0);
            lemma_tag_mismatch(s, cmd_line_cr(Command::Send), 0);
            lemma_tag_mismatch(s, cmd_line(Command::Subscribe), 0);
    lemma_tag_mismatch(s, cmd_line_cr(Command::Subscribe), 0);
            lemma_tag_mismatch(s, cmd_line_cr(Command::Subscribe), 0);
            lemma_tag_mismatch(s, cmd_line(Command::Unsubscribe), 0);
    lemma_tag_mismatch(s, cmd_line_cr(Command::Unsubscribe), 0);
            lemma_tag_mismatch(s, cmd_line_cr(Command::Unsubscribe), 0);
            lemma_tag_mismatch(s, cmd_line(Command::Disconnect), 0);
    lemma_tag_mismatch(s, cmd_line_cr(Command::Disconnect), 0);
            lemma_tag_mismatch(s, cmd_line_cr(Command::Disconnect), 0);
            lemma_tag_mismatch(s, cmd_line(Command::Ack), 0);
    lemma_tag_mismatch(s, cmd_line_cr(Command::Ack), 0);
            lemma_tag_mismatch(s, cmd_line_cr(Command::Ack), 0);
        },
        Command::Message => {
            lemma_tag_mismatch(s, cmd_line(Command::Connect), 0);
    lemma_tag_mismatch(s, cmd_line_cr(Command::Connect), 0);
            lemma_tag_mismatch(s, cmd_line_cr(Command::Connect), 0);
            lemma_tag_mismatch(s, cmd_line(Command::Send), 0);
    lemma_tag_mismatch(s, cmd_line_cr(Command::Send), 0);
            lemma_tag_mismatch(s, cmd_line_cr(Command::Send), 0);
            lemma_tag_mismatch(s, cmd_line(Command::Subscribe), 0);
    lemma_tag_mismatch(s, cmd_line_cr(Command::Subscribe), 0);
            lemma_tag_mismatch(s, cmd_line_cr(Command::Subscribe), 0);
            lemma_tag_mismatch(s, cmd_line(Command::Unsubscribe), 0);
    lemma_tag_mismatch(s, cmd_line_cr(Command::Unsubscribe), 0);
            lemma_tag_mismatch(s, cmd_line_cr(Command::Unsubscribe), 0);
            lemma_tag_mismatch(s, cmd_line(Command::Disconnect), 0);
    lemma_tag_mismatch(s, cmd_line_cr(Command::Disconnect), 0);
            lemma_tag_mismatch(s, cmd_line_cr(Command::Disconnect), 0);
            lemma_tag_mismatch(s, cmd_line(Command::Ack), 0);
    lemma_tag_mismatch(s, cmd_line_cr(Command::Ack), 0);
            lemma_tag_mismatch(s, cmd_line_cr(Command::Ack), 0);
            lemma_tag_mismatch(s, cmd_line(Command::Connected), 0);
    lemma_tag_mismatch(s, cmd_line_cr(Command::Connected), 0);
            lemma_tag_mismatch(s, cmd_line_cr(Command::Connected), 0);
        },
        Command::Receipt => {
            lemma_tag_mismatch(s, cmd_line(Command::Connect), 0);
    lemma_tag_mismatch(s, cmd_line_cr(Command::Connect), 0);
            lemma_tag_mismatch(s, cmd_line_cr(Command::Connect), 0);
            lemma_tag_mismatch(s, cmd_line(Command::Send), 0);
    lemma_tag_mismatch(s, cmd_line_cr(Command::Send), 0);
            lemma_tag_mismatch(s, cmd_line_cr(Command::Send), 0);
            lemma_tag_mismatch(s, cmd_line(Command::Subscribe), 0);
    lemma_tag_mismatch(s, cmd_line_cr(Command::Subscribe), 0);
            lemma_tag_mismatch(s, cmd_line_cr(Command::Subscribe), 0);
            lemma_tag_mismatch(s, cmd_line(Command::Unsubscribe), 0);
    lemma_tag_mismatch(s, cmd_line_cr(Command::Unsubscribe), 0);
            lemma_tag_mismatch(s, cmd_line_cr(Command::Unsubscribe), 0);
            lemma_tag_mismatch(s, cmd_line(Command::Disconnect), 0);
    lemma_tag_mismatch(s, cmd_line_cr(Command::Disconnect), 0);
            lemma_tag_mismatch(s, cmd_line_cr(Command::Disconnect), 0);
            lemma_tag_mismatch(s, cmd_line(Command::Ack), 0);
    lemma_tag_mismatch(s, cmd_line_cr(Command::Ack), 0);
            lemma_tag_mismatch(s, cmd_line_cr(Command::Ack), 0);
            lemma_tag_mismatch(s, cmd_line(Command::Connected), 0);
    lemma_tag_mismatch(s, cmd_line_cr(Command::Connected), 0);
            lemma_tag_mismatch(s, cmd_line_cr(Command::Connected), 0);
            lemma_tag_mismatch(s, cmd_line(Command::Message), 0);
    lemma_tag_mismatch(s, cmd_line_cr(Command::Message), 0);
            lemma_tag_mismatch(s, cmd_line_cr(Command::Message), 0);
        },
        Command::Error => {
            lemma_tag_mismatch(s, cmd_line(Command::Connect), 0);
    lemma_tag_mismatch(s, cmd_line_cr(Command::Connect), 0);
            lemma_tag_mismatch(s, cmd_line_cr(Command::Connect), 0);
            lemma_tag_mismatch(s, cmd_line(Command::Send), 0);
    lemma_tag_mismatch(s, cmd_line_cr(Command::Send), 0);
            lemma_tag_mismatch(s, cmd_line_cr(Command::Send), 0);
            lemma_tag_mismatch(s, cmd_line(Command::Subscribe), 0);
    lemma_tag_mismatch(s, cmd_line_cr(Command::Subscribe), 0);
            lemma_tag_mismatch(s, cmd_line_cr(Command::Subscribe), 0);
            lemma_tag_mismatch(s, cmd_line(Command::Unsubscribe), 0);
    lemma_tag_mismatch(s, cmd_line_cr(Command::Unsubscribe), 0);
            lemma_tag_mismatch(s, cmd_line_cr(Command::Unsubscribe), 0);
            lemma_tag_mismatch(s, cmd_line(Command::Disconnect), 0);
    lemma_tag_mismatch(s, cmd_line_cr(Command::Disconnect), 0);
            lemma_tag_mismatch(s, cmd_line_cr(Command::Disconnect), 0);
            lemma_tag_mismatch(s, cmd_line(Command::Ack), 0);
    lemma_tag_mismatch(s, cmd_line_cr(Command::Ack), 0);
            lemma_tag_mismatch(s, cmd_line_cr(Command::Ack), 0);
            lemma_tag_mismatch(s, cmd_line(Command::Connected), 0);
    lemma_tag_mismatch(s, cmd_line_cr(Command::Connected), 0);
            lemma_tag_mismatch(s, cmd_line_cr(Command::Connected), 0);
            lemma_tag_mismatch(s, cmd_line(Command::Message), 0);
    lemma_tag_mismatch(s, cmd_line_cr(Command::Message), 0);
            lemma_tag_mismatch(s, cmd_line_cr(Command::Message), 0);
            lemma_tag_mismatch(s, cmd_line(Command::Receipt), 0);
    lemma_tag_mismatch(s, cmd_line_cr(Command::Receipt), 0);
            lemma_tag_mismatch(s, cmd_line_cr(Command::Receipt), 0);
        },
    }
}

/// No command line starts with a line feed.
proof fn lemma_command_fails_on_lf(s: Seq<u8>)
    requires
        s.len() > 0,
        s[0] == LF,
    ensures
        spec_command(s) is Fail,
{
    lemma_token_bytes();
    lemma_tag_mismatch(s, cmd_line(Command::Connect), 0);
    lemma_tag_mismatch(s, cmd_line_cr(Command::Connect), 0);
    lemma_tag_mismatch(s, cmd_line(Command::Send), 0);
    lemma_tag_mismatch(s, cmd_line_cr(Command::Send), 0);
    lemma_tag_mismatch(s, cmd_line(Command::Subscribe), 0);
    lemma_tag_mismatch(s, cmd_line_cr(Command::Subscribe), 0);
    lemma_tag_mismatch(s, cmd_line(Command::Unsubscribe), 0);
    lemma_tag_mismatch(s, cmd_line_cr(Command::Unsubscribe), 0);
    lemma_tag_mismatch(s, cmd_line(Command::Disconnect), 0);
    lemma_tag_mismatch(s, cmd_line_cr(Command::Disconnect), 0);
    lemma_tag_mismatch(s, cmd_line(Command::Ack), 0);
    lemma_tag_mismatch(s, cmd_line_cr(Command::Ack), 0);
    lemma_tag_mismatch(s, cmd_line(Command::Connected), 0);
    lemma_tag_mismatch(s, cmd_line_cr(Command::Connected), 0);
    lemma_tag_mismatch(s, cmd_line(Command::Message), 0);
    lemma_tag_mismatch(s, cmd_line_cr(Command::Message), 0);
    lemma_tag_mismatch(s, cmd_line(Command::Receipt), 0);
    lemma_tag_mismatch(s, cmd_line_cr(Command::Receipt), 0);
    lemma_tag_mismatch(s, cmd_line(Command::Error), 0);
    lemma_tag_mismatch(s, cmd_line_cr(Command::Error), 0);
}

/// Reading a run of name or value bytes over the escaped form of `k`
/// recovers `k` exactly and stops at the byte after it.
proof fn lemma_chars_on_escaped(s: Seq<u8>, i: int, k: Seq<u8>, value: bool)
    requires
        0 <= i,
        i + escape(k).len() < s.len(),
        s.subrange(i, i + escape(k).len() as int) == escape(k),
        value ==> s[i + escape(k).len()] == LF,
        !value ==> s[i + escape(k).len()] == LF || s[i + escape(k).len()] == COLON,
    ensures
        spec_chars(s, i, value) == Step::<Seq<u8>>::Found(k, i + escape(k).len()),
    decreases k.len(),
{
    let e = escape(k);
    if k.len() == 0 {
        assert(e.len() == 0);
        assert(spec_chars(s, i, value) == Step::<Seq<u8>>::Found(Seq::<u8>::empty(), i));
        assert(k =~= Seq::<u8>::empty());
    } else {
        let b = k[0];
        let eb = escape_byte(b);
        let k2 = k.drop_first();
        let e2 = escape(k2);
        assert(e == eb + e2);
        let w = eb.len() as int;
        assert(s[i] == e[0] && (e.len() > 1 ==> s[i + 1] == e[1])) by {
            assert(s.subrange(i, i + e.len() as int)[0] == s[i]);
            if e.len() > 1 {
                assert(s.subrange(i, i + e.len() as int)[1] == s[i + 1]);
            }
        }
        assert(s.subrange(i + w, i + w + e2.len() as int) =~= e2) by {
            assert forall|t: int| 0 <= t < e2.len() implies s.subrange(
                i + w,
                i + w + e2.len() as int,
            )[t] == e2[t] by {
                assert(s.subrange(i, i + e.len() as int)[w + t] == s[i + (w + t)]);
                assert(e[w + t] == e2[t]);
            }
        }
        lemma_chars_on_escaped(s, i + w, k2, value);
        assert(seq![b] + k2 =~= k);
    }
}

/// One serialized header line parses back to its key and value.
proof fn lemma_header_on_escaped(s: Seq<u8>, i: int, k: Seq<u8>, v: Seq<u8>)
    requires
        0 <= i,
        k.len() > 0,
        i + header_line_bytes(k, v).len() <= s.len(),
        s.subrange(i, i + header_line_bytes(k, v).len() as int) == header_line_bytes(k, v),
    ensures
        spec_header(s, i) == Step::<(Seq<u8>, Seq<u8>)>::Found(
            (k, v),
            i + header_line_bytes(k, v).len(),
        ),
{
    let line = header_line_bytes(k, v);
    let ek = escape(k);
    let ev = escape(v);
    let nk = ek.len() as int;
    let nv = ev.len() as int;
    assert(line == ek + seq![COLON] + ev + seq![LF]);
    assert(s.subrange(i, i + nk) =~= ek) by {
        assert forall|t: int| 0 <= t < nk implies s.subrange(i, i + nk)[t] == ek[t] by {
            assert(s.subrange(i, i + line.len() as int)[t] == s[i + t]);
            assert(line[t] == ek[t]);
        }
    }
    assert(s[i + nk] == COLON) by {
        assert(s.subrange(i, i + line.len() as int)[nk] == s[i + nk]);
        assert(line[nk] == COLON);
    }
    lemma_chars_on_escaped(s, i, k, false);
    let j = i + nk;
    assert(s.subrange(j + 1, j + 1 + nv) =~= ev) by {
        assert forall|t: int| 0 <= t < nv implies s.subrange(j + 1, j + 1 + nv)[t] == ev[t] by {
            assert(s.subrange(i, i + line.len() as int)[nk + 1 + t] == s[i + (nk + 1 + t)]);
            assert(line[nk + 1 + t] == ev[t]);
        }
    }
    assert(s[j + 1 + nv] == LF) by {
        assert(s.subrange(i, i + line.len() as int)[nk + 1 + nv] == s[i + (nk + 1 + nv)]);
        assert(line[nk + 1 + nv] == LF);
    }
    lemma_chars_on_escaped(s, j + 1, v, true);
}

/// A serialized header block parses back to its entries, stopping at the
/// blank line that follows it.
proof fn lemma_headers_on_escaped(s: Seq<u8>, i: int, hs: HeadersModel)
    requires
        0 <= i,
        forall|t: int| 0 <= t < hs.len() ==> (#[trigger] hs[t].0).len() > 0,
        i + headers_bytes(hs).len() < s.len(),
        s.subrange(i, i + headers_bytes(hs).len() as int) == headers_bytes(hs),
        s[i + headers_bytes(hs).len()] == LF,
    ensures
        spec_headers(s, i) == Step::<HeadersModel>::Found(hs, i + headers_bytes(hs).len()),
    decreases hs.len(),
{
    let hb = headers_bytes(hs);
    if hs.len() == 0 {
        assert(hb.len() == 0);
        assert(spec_chars(s, i, false) == Step::<Seq<u8>>::Found(Seq::<u8>::empty(), i));
        assert(spec_header(s, i) is Fail);
        assert(hs =~= HeadersModel::empty());
    } else {
        let line = header_line_bytes(hs[0].0, hs[0].1);
        let hs2 = hs.drop_first();
        let hb2 = headers_bytes(hs2);
        let w = line.len() as int;
        assert(hb == line + hb2);
        assert(s.subrange(i, i + w) =~= line) by {
            assert forall|t: int| 0 <= t < w implies s.subrange(i, i + w)[t] == line[t] by {
                assert(s.subrange(i, i + hb.len() as int)[t] == s[i + t]);
                assert(hb[t] == line[t]);
            }
        }
        lemma_header_on_escaped(s, i, hs[0].0, hs[0].1);
        assert(s.subrange(i + w, i + w + hb2.len() as int) =~= hb2) by {
            assert forall|t: int| 0 <= t < hb2.len() implies s.subrange(
                i + w,
                i + w + hb2.len() as int,
            )[t] == hb2[t] by {
                assert(s.subrange(i, i + hb.len() as int)[w + t] == s[i + (w + t)]);
                assert(hb[w + t] == hb2[t]);
            }
        }
        lemma_headers_on_escaped(s, i + w, hs2);
        assert(seq![hs[0]] + hs2 =~= hs);
    }
}

/// Folding the header lines of a uniquely-keyed collection rebuilds it.
proof fn lemma_model_of_unique(hs: HeadersModel)
    requires
        hkeys_unique(hs),
    ensures
        headers_model_of(hs) == hs,
    decreases hs.len(),
{
    if hs.len() == 0 {
    } else {
        let front = hs.drop_last();
        let kv = hs.last();
        assert(hkeys_unique(front)) by {
            assert(forall|a: int, b: int|
                0 <= a < b < front.len() ==> #[trigger] front[a].0 != #[trigger] front[b].0)
                by {
                assert(forall|a: int|
                    0 <= a < front.len() ==> #[trigger] front[a] == hs[a]);
            }
        }
        lemma_model_of_unique(front);
        assert(front.push(kv) =~= hs);
        crate::parser::lemma_hfold_snoc(front, kv.0, kv.1);
        assert(forall|t: int| 0 <= t < front.len() ==> #[trigger] front[t].0 != kv.0) by {
            assert(forall|t: int|
                0 <= t < front.len() ==> #[trigger] front[t] == hs[t] && kv == hs[
                    hs.len() - 1]);
        }
        lemma_hinsert_missing(front, kv.0, kv.1);
    }
}

/// The first NUL after `i` is at `m` when nothing before it is NUL.
proof fn lemma_first_nul_at(s: Seq<u8>, i: int, m: int)
    requires
        0 <= i <= m < s.len(),
        forall|t: int| i <= t < m ==> s[t] != NUL,
        s[m] == NUL,
    ensures
        first_nul_from(s, i) == Some(m),
    decreases m - i,
{
    if i < m {
        lemma_first_nul_at(s, i + 1, m);
    }
}

/// **Header escape round-trip.**  For every header over arbitrary bytes —
/// the four reserved bytes included — a non-empty key and any value,
/// escaped onto the wire, parse back unchanged.
pub proof fn lemma_header_escape_round_trip(k: Seq<u8>, v: Seq<u8>)
    requires
        k.len() > 0,
    ensures
        spec_header(header_line_bytes(k, v), 0) == Step::<(Seq<u8>, Seq<u8>)>::Found(
            (k, v),
            header_line_bytes(k, v).len() as int,
        ),
{
    let line = header_line_bytes(k, v);
    assert(line.subrange(0, line.len() as int) =~= line);
    lemma_header_on_escaped(line, 0, k, v);
}

/// **Codec round-trip.**  Parsing the serialization of a well-formed wire
/// item yields that item back and consumes exactly its bytes — whatever
/// later bytes already sit behind it in the stream, so a growing buffer is
/// decoded item by item.
pub proof fn lemma_codec_round_trip(it: ItemView, rest: Seq<u8>)
    requires
        it matches ItemView::Frame(f) ==> frame_wf(f),
    ensures
        spec_parse(item_bytes(it) + rest) == Step::<ItemView>::Found(
            it,
            item_bytes(it).len() as int,
        ),
{
    match it {
        ItemView::KeepAlive => {
            let s = item_bytes(it) + rest;
            assert(s[0] == LF);
            lemma_command_fails_on_lf(s);
        },
        ItemView::Frame(f) => {
            lemma_frame_round_trip(f, rest);
        },
    }
}

proof fn lemma_frame_round_trip(f: FrameView, rest: Seq<u8>)
    requires
        frame_wf(f),
    ensures
        spec_frame(frame_bytes(f) + rest) == Step::<FrameView>::Found(
            f,
            frame_bytes(f).len() as int,
        ),
        spec_parse(frame_bytes(f) + rest) == Step::<ItemView>::Found(
            ItemView::Frame(f),
            frame_bytes(f).len() as int,
        ),
{
    let s = frame_bytes(f) + rest;
    let tok = cmd_token(f.command);
    let hb = headers_bytes(f.headers);
    let nt = tok.len() as int;
    let nh = hb.len() as int;
    let nb = f.body.len() as int;
    let i0 = nt + 1;
    let total = nt + 1 + nh + 1 + nb + 1;
    assert(frame_bytes(f) == tok + seq![LF] + hb + seq![LF] + f.body + seq![NUL]);
    assert(frame_bytes(f).len() == total);
    assert(forall|t: int| 0 <= t < total ==> #[trigger] s[t] == frame_bytes(f)[t]);
    let after_cmd = hb + seq![LF] + f.body + seq![NUL] + rest;
    assert(s =~= cmd_line(f.command) + after_cmd);
    lemma_command_parse(f.command, after_cmd);
    assert(spec_command(s) == Step::<Command>::Found(f.command, i0));
    assert(s.subrange(i0, i0 + nh) =~= hb) by {
        assert(forall|t: int|
            0 <= t < nh ==> #[trigger] s.subrange(i0, i0 + nh)[t] == s[i0 + t]);
        assert(forall|t: int| 0 <= t < nh ==> s[i0 + t] == #[trigger] hb[t]);
    }
    assert(s[i0 + nh] == LF);
    lemma_headers_on_escaped(s, i0, f.headers);
    assert(spec_headers(s, i0) == Step::<HeadersModel>::Found(f.headers, i0 + nh));
    lemma_model_of_unique(f.headers);
    let b0 = i0 + nh + 1;
    assert(forall|t: int| 0 <= t < nb ==> s[b0 + t] == #[trigger] f.body[t]);
    assert(s[b0 + nb] == NUL);
    match content_length_of(f.headers) {
        Some(n) => {
            assert(n == nb);
            assert(s.subrange(b0, b0 + nb) =~= f.body) by {
                assert(forall|t: int|
                    0 <= t < nb ==> #[trigger] s.subrange(b0, b0 + nb)[t] == s[b0 + t]);
            }
        },
        None => {
            assert(!crate::protocol::hcontains(f.headers, crate::wire::content_length_key()));
            assert(!f.body.contains(NUL));
            assert(forall|t: int| b0 <= t < b0 + nb ==> s[t] != NUL) by {
                assert(forall|t: int|
                    0 <= t < nb ==> s[b0 + t] == #[trigger] f.body[t] && f.body[t] != NUL);
            }
            lemma_first_nul_at(s, b0, b0 + nb);
            assert(s.subrange(b0, b0 + nb) =~= f.body) by {
                assert(forall|t: int|
                    0 <= t < nb ==> #[trigger] s.subrange(b0, b0 + nb)[t] == s[b0 + t]);
            }
        },
    }
    assert(spec_frame(s) == Step::<FrameView>::Found(f, total));
}

} // verus!
