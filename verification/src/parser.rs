//! The frame parser.
//!
//! Line feeds terminate the command line and the blank line, each also in
//! the carriage-return form CRLF; inside a header a raw carriage return is
//! an ordinary value byte, since the escape rules govern it there.
//!
//! `spec_parse` defines, over mathematical sequences, exactly what one call
//! of the decoder does to a buffer: it finds one item and its length, needs
//! more bytes, or fails.  The executable `parse_frame` is proved to return
//! precisely `spec_parse` of its input, and the round-trip law shows that
//! `spec_parse` inverts `frame_bytes` on well-formed frames.

use vstd::prelude::*;

use crate::protocol::{Command, Frame, FrameOrKeepAlive, FrameView, Headers, HeadersModel,
    ItemView, hinsert};
use crate::wire::{all_digits, cmd_token, content_length_of, dec_value, is_digit, parse_dec,
    BACKSLASH, COLON, CR, ESC_COLON, ESC_CR, ESC_LF, LF, NUL};

verus! {

/// The outcome of parsing one piece at some position: the piece with the
/// position after it, a request for more input, or a refusal.
pub enum Step<T> {
    Found(T, int),
    More,
    Fail,
}

/// One decoded byte of a header name at position `i`: an escape sequence
/// decodes to its meaning, a line feed or colon stops the name, a bad escape
/// refuses, and a cut-off escape asks for more input.
pub open spec fn spec_name_char(s: Seq<u8>, i: int) -> Step<u8> {
    if i >= s.len() {
        Step::More
    } else if s[i] == LF || s[i] == COLON {
        Step::Fail
    } else if s[i] == BACKSLASH {
        if i + 1 >= s.len() {
            Step::More
        } else if s[i + 1] == ESC_COLON {
            Step::Found(COLON, i + 2)
        } else if s[i + 1] == BACKSLASH {
            Step::Found(BACKSLASH, i + 2)
        } else if s[i + 1] == ESC_CR {
            Step::Found(CR, i + 2)
        } else if s[i + 1] == ESC_LF {
            Step::Found(LF, i + 2)
        } else {
            Step::Fail
        }
    } else {
        Step::Found(s[i], i + 1)
    }
}

/// One decoded byte of a header value: as in a name, except that a raw
/// colon is taken literally (some brokers write colons into session
/// identifiers).
pub open spec fn spec_value_char(s: Seq<u8>, i: int) -> Step<u8> {
    if 0 <= i < s.len() && s[i] == COLON {
        Step::Found(COLON, i + 1)
    } else {
        spec_name_char(s, i)
    }
}

/// The decoded run of name (or value) bytes starting at `i`, with the
/// position of the byte that stopped it.
pub open spec fn spec_chars(s: Seq<u8>, i: int, value: bool) -> Step<Seq<u8>>
    decreases s.len() - i,
    when 0 <= i <= s.len()
{
    let c = if value {
        spec_value_char(s, i)
    } else {
        spec_name_char(s, i)
    };
    match c {
        Step::More => Step::More,
        Step::Fail => Step::Found(Seq::empty(), i),
        Step::Found(b, j) => match spec_chars(s, j, value) {
            Step::Found(rest, k) => Step::Found(seq![b] + rest, k),
            Step::More => Step::More,
            Step::Fail => Step::Fail,
        },
    }
}

/// One header line at position `i`: a non-empty name, a colon, a value, a
/// line feed.  `Fail` means no header line starts here.
pub open spec fn spec_header(s: Seq<u8>, i: int) -> Step<(Seq<u8>, Seq<u8>)> {
    match spec_chars(s, i, false) {
        Step::More => Step::More,
        Step::Fail => Step::Fail,
        Step::Found(name, j) => {
            if name.len() == 0 {
                Step::Fail
            } else if j >= s.len() {
                Step::More
            } else if s[j] != COLON {
                Step::Fail
            } else {
                match spec_chars(s, j + 1, true) {
                    Step::More => Step::More,
                    Step::Fail => Step::Fail,
                    Step::Found(value, m) => {
                        if m >= s.len() {
                            Step::More
                        } else if s[m] != LF {
                            Step::Fail
                        } else {
                            Step::Found((name, value), m + 1)
                        }
                    },
                }
            }
        },
    }
}

/// A run of name or value bytes never refuses: it stops in front of the
/// offending byte instead.
proof fn lemma_chars_not_fail(s: Seq<u8>, i: int, value: bool)
    requires
        0 <= i <= s.len(),
    ensures
        !(spec_chars(s, i, value) is Fail),
        spec_chars(s, i, value) matches Step::Found(cs, j) ==> i <= j <= s.len() && j >= i
            + cs.len(),
    decreases s.len() - i,
{
    let c = if value {
        spec_value_char(s, i)
    } else {
        spec_name_char(s, i)
    };
    match c {
        Step::More => {},
        Step::Fail => {},
        Step::Found(b, j) => {
            lemma_chars_not_fail(s, j, value);
        },
    }
}

/// A header line, when found, sits strictly inside the buffer.
proof fn lemma_header_pos(s: Seq<u8>, i: int)
    requires
        0 <= i <= s.len(),
        spec_header(s, i) is Found,
    ensures
        i < spec_header(s, i)->1 <= s.len(),
{
    lemma_chars_not_fail(s, i, false);
    let j = spec_chars(s, i, false)->1;
    lemma_chars_not_fail(s, j + 1, true);
}

#[via_fn]
proof fn spec_headers_decreases(s: Seq<u8>, i: int) {
    if spec_header(s, i) is Found {
        lemma_header_pos(s, i);
    }
}

/// The header block: header lines from `i` as long as lines start, with the
/// pairs in wire order and the position where they stop.
pub open spec fn spec_headers(s: Seq<u8>, i: int) -> Step<HeadersModel>
    decreases s.len() - i,
    when 0 <= i <= s.len()
    via spec_headers_decreases
{
    match spec_header(s, i) {
        Step::More => Step::More,
        Step::Fail => Step::Found(Seq::empty(), i),
        Step::Found(kv, j) => match spec_headers(s, j) {
            Step::Found(rest, m) => Step::Found(seq![kv] + rest, m),
            Step::More => Step::More,
            Step::Fail => Step::Fail,
        },
    }
}

/// The header block never refuses, and stops inside the buffer.
proof fn lemma_headers_not_fail(s: Seq<u8>, i: int)
    requires
        0 <= i <= s.len(),
    ensures
        !(spec_headers(s, i) is Fail),
        spec_headers(s, i) matches Step::Found(ps, j) ==> i <= j <= s.len(),
    decreases s.len() - i,
{
    match spec_header(s, i) {
        Step::More => {},
        Step::Fail => {},
        Step::Found(kv, j) => {
            lemma_header_pos(s, i);
            lemma_headers_not_fail(s, j);
        },
    }
}

/// A streaming tag: the literal `t` at the front of `s`, more input wanted
/// while `s` is a proper prefix of `t`.
pub open spec fn spec_tag(s: Seq<u8>, t: Seq<u8>) -> Step<()> {
    if s.len() >= t.len() {
        if s.take(t.len() as int) == t {
            Step::Found((), t.len() as int)
        } else {
            Step::Fail
        }
    } else {
        if s == t.take(s.len() as int) {
            Step::More
        } else {
            Step::Fail
        }
    }
}

/// A command line: its token followed by a line feed.
pub open spec fn cmd_line(c: Command) -> Seq<u8> {
    cmd_token(c) + seq![LF]
}

/// A command line in its carriage-return form: token, CR, LF.
pub open spec fn cmd_line_cr(c: Command) -> Seq<u8> {
    cmd_token(c) + seq![CR, LF]
}

/// One try of the command list: the plain line or its CRLF form wins, a
/// cut-off prefix asks for more input, and a miss falls through to
/// `otherwise`.
pub open spec fn try_cmd(s: Seq<u8>, c: Command, otherwise: Step<Command>) -> Step<Command> {
    match spec_tag(s, cmd_line(c)) {
        Step::Found(u, n) => Step::Found(c, n),
        Step::More => Step::More,
        Step::Fail => match spec_tag(s, cmd_line_cr(c)) {
            Step::Found(u, n) => Step::Found(c, n),
            Step::More => Step::More,
            Step::Fail => otherwise,
        },
    }
}

/// The command line at the front of the buffer, tokens tried in order.
pub open spec fn spec_command(s: Seq<u8>) -> Step<Command> {
    try_cmd(s, Command::Connect,
    try_cmd(s, Command::Send,
    try_cmd(s, Command::Subscribe,
    try_cmd(s, Command::Unsubscribe,
    try_cmd(s, Command::Disconnect,
    try_cmd(s, Command::Ack,
    try_cmd(s, Command::Connected,
    try_cmd(s, Command::Message,
    try_cmd(s, Command::Receipt,
    try_cmd(s, Command::Error,
    Step::Fail))))))))))
}

/// The position of the first NUL byte at or after `i`.
pub open spec fn first_nul_from(s: Seq<u8>, i: int) -> Option<int>
    decreases s.len() - i,
    when 0 <= i <= s.len()
{
    if i >= s.len() {
        None
    } else if s[i] == NUL {
        Some(i)
    } else {
        first_nul_from(s, i + 1)
    }
}

/// The body starting at `i`: with a content length, exactly that many bytes
/// followed by NUL; without one, everything up to the first NUL.
pub open spec fn spec_body(s: Seq<u8>, i: int, cl: Option<int>) -> Step<Seq<u8>> {
    match cl {
        Some(n) => {
            if s.len() - i < n {
                Step::More
            } else if i + n >= s.len() {
                Step::More
            } else if s[i + n] != NUL {
                Step::Fail
            } else {
                Step::Found(s.subrange(i, i + n), i + n + 1)
            }
        },
        None => {
            match first_nul_from(s, i) {
                None => Step::More,
                Some(z) => Step::Found(s.subrange(i, z), z + 1),
            }
        },
    }
}

/// Fold the parsed header lines into a header collection, first line first.
pub open spec fn hfold(acc: HeadersModel, pairs: HeadersModel) -> HeadersModel
    decreases pairs.len(),
{
    if pairs.len() == 0 {
        acc
    } else {
        hfold(hinsert(acc, pairs[0].0, pairs[0].1), pairs.drop_first())
    }
}

/// The header collection built from the header lines of the wire.
pub open spec fn headers_model_of(pairs: HeadersModel) -> HeadersModel {
    hfold(HeadersModel::empty(), pairs)
}

/// One whole frame at the front of the buffer.
pub open spec fn spec_frame(s: Seq<u8>) -> Step<FrameView> {
    match spec_command(s) {
        Step::More => Step::More,
        Step::Fail => Step::Fail,
        Step::Found(cmd, i) => match spec_headers(s, i) {
            Step::More => Step::More,
            Step::Fail => Step::Fail,
            Step::Found(pairs, j) => {
                if j >= s.len() {
                    Step::More
                } else if s[j] != LF && !(s[j] == CR && j + 1 < s.len() && s[j + 1] == LF) {
                    if s[j] == CR && j + 1 >= s.len() {
                        Step::More
                    } else {
                        Step::Fail
                    }
                } else {
                    let b = if s[j] == LF {
                        j + 1
                    } else {
                        j + 2
                    };
                    let hs = headers_model_of(pairs);
                    match spec_body(s, b, content_length_of(hs)) {
                        Step::More => Step::More,
                        Step::Fail => Step::Fail,
                        Step::Found(body, m) => Step::Found(
                            FrameView { command: cmd, headers: hs, body },
                            m,
                        ),
                    }
                }
            },
        },
    }
}

/// One wire item at the front of the buffer: a frame if one parses, else a
/// keep-alive if the buffer starts with a lone line feed.
pub open spec fn spec_parse(s: Seq<u8>) -> Step<ItemView> {
    match spec_frame(s) {
        Step::Found(f, n) => Step::Found(ItemView::Frame(f), n),
        Step::More => Step::More,
        Step::Fail => {
            if s.len() == 0 {
                Step::More
            } else if s[0] == LF {
                Step::Found(ItemView::KeepAlive, 1)
            } else if s[0] == CR && s.len() == 1 {
                Step::More
            } else if s[0] == CR && s[1] == LF {
                Step::Found(ItemView::KeepAlive, 2)
            } else {
                Step::Fail
            }
        },
    }
}

/// The executable outcome of decoding one name or value byte.
enum CharStep {
    Got(u8, usize),
    Need,
    Stop,
}

/// Decode one header-name byte at `i`.
fn next_name_char(s: &[u8], i: usize) -> (r: CharStep)
    requires
        i <= s@.len(),
    ensures
        match r {
            CharStep::Got(b, j) => spec_name_char(s@, i as int) == Step::<u8>::Found(
                b,
                j as int,
            ) && i < j <= s@.len(),
            CharStep::Need => spec_name_char(s@, i as int) is More,
            CharStep::Stop => spec_name_char(s@, i as int) is Fail,
        },
{
    if i >= s.len() {
        return CharStep::Need;
    }
    let b = s[i];
    if b == LF || b == COLON {
        CharStep::Stop
    } else if b == BACKSLASH {
        if i + 1 >= s.len() {
            CharStep::Need
        } else {
            let e = s[i + 1];
            if e == ESC_COLON {
                CharStep::Got(COLON, i + 2)
            } else if e == BACKSLASH {
                CharStep::Got(BACKSLASH, i + 2)
            } else if e == ESC_CR {
                CharStep::Got(CR, i + 2)
            } else if e == ESC_LF {
                CharStep::Got(LF, i + 2)
            } else {
                CharStep::Stop
            }
        }
    } else {
        CharStep::Got(b, i + 1)
    }
}

/// Decode one header-value byte at `i`: a raw colon is literal.
fn next_value_char(s: &[u8], i: usize) -> (r: CharStep)
    requires
        i <= s@.len(),
    ensures
        match r {
            CharStep::Got(b, j) => spec_value_char(s@, i as int) == Step::<u8>::Found(
                b,
                j as int,
            ) && i < j <= s@.len(),
            CharStep::Need => spec_value_char(s@, i as int) is More,
            CharStep::Stop => spec_value_char(s@, i as int) is Fail,
        },
{
    if i < s.len() && s[i] == COLON {
        CharStep::Got(COLON, i + 1)
    } else {
        next_name_char(s, i)
    }
}

/// The executable outcome of decoding a run of name or value bytes.
enum ChunkStep {
    Taken(Vec<u8>, usize),
    Need,
}

/// Decode the run of name (`value == false`) or value bytes starting at `i`.
fn parse_chars(s: &[u8], i: usize, value: bool) -> (r: ChunkStep)
    requires
        i <= s@.len(),
    ensures
        match r {
            ChunkStep::Taken(cs, j) => spec_chars(s@, i as int, value) == Step::<Seq<u8>>::Found(
                cs@,
                j as int,
            ) && i <= j <= s@.len(),
            ChunkStep::Need => spec_chars(s@, i as int, value) is More,
        },
{
    let mut acc: Vec<u8> = Vec::new();
    let mut cur: usize = i;
    proof {
        assert(acc@ =~= Seq::<u8>::empty());
        lemma_chars_not_fail(s@, i as int, value);
        match spec_chars(s@, i as int, value) {
            Step::Found(rest, k) => {
                assert(acc@ + rest =~= rest);
            },
            _ => {},
        }
    }
    loop
        invariant
            i <= cur <= s@.len(),
            match spec_chars(s@, cur as int, value) {
                Step::Found(rest, k) => spec_chars(s@, i as int, value) == Step::<Seq<u8>>::Found(
                    acc@ + rest,
                    k,
                ),
                Step::More => spec_chars(s@, i as int, value) is More,
                Step::Fail => false,
            },
        decreases s@.len() - cur,
    {
        proof {
            lemma_chars_not_fail(s@, cur as int, value);
        }
        let c = if value {
            next_value_char(s, cur)
        } else {
            next_name_char(s, cur)
        };
        match c {
            CharStep::Need => {
                return ChunkStep::Need;
            },
            CharStep::Stop => {
                proof {
                    assert(spec_chars(s@, cur as int, value) == Step::<Seq<u8>>::Found(
                        Seq::<u8>::empty(),
                        cur as int,
                    ));
                    assert(acc@ + Seq::<u8>::empty() =~= acc@);
                }
                return ChunkStep::Taken(acc, cur);
            },
            CharStep::Got(b, j) => {
                proof {
                    lemma_chars_not_fail(s@, j as int, value);
                    assert(acc@.push(b) =~= acc@ + seq![b]);
                    match spec_chars(s@, j as int, value) {
                        Step::Found(rest2, k) => {
                            assert(spec_chars(s@, cur as int, value) == Step::<Seq<u8>>::Found(
                                seq![b] + rest2,
                                k,
                            ));
                            assert(acc@ + (seq![b] + rest2) =~= (acc@ + seq![b]) + rest2);
                        },
                        _ => {},
                    }
                }
                acc.push(b);
                cur = j;
            },
        }
    }
}

/// The executable outcome of matching a literal.
enum TagStep {
    Hit(usize),
    Need,
    Miss,
}

/// Match the literal `t` at the front of `s`, streaming.
fn check_tag(s: &[u8], t: &[u8]) -> (r: TagStep)
    ensures
        match r {
            TagStep::Hit(n) => spec_tag(s@, t@) == Step::<()>::Found((), n as int) && n == t@.len(),
            TagStep::Need => spec_tag(s@, t@) is More,
            TagStep::Miss => spec_tag(s@, t@) is Fail,
        },
{
    let sn = s.len();
    let tn = t.len();
    let m = if sn < tn {
        sn
    } else {
        tn
    };
    let mut i: usize = 0;
    while i < m
        invariant
            m <= sn == s@.len(),
            m <= tn == t@.len(),
            m == if sn < tn {
                sn as int
            } else {
                tn as int
            },
            0 <= i <= m,
            forall|j: int| 0 <= j < i ==> s@[j] == t@[j],
        decreases m - i,
    {
        if s[i] != t[i] {
            proof {
                if sn >= tn {
                    assert(s@.take(tn as int)[i as int] != t@[i as int]);
                } else {
                    assert(s@[i as int] != t@.take(sn as int)[i as int]);
                }
            }
            return TagStep::Miss;
        }
        i = i + 1;
    }
    if sn >= tn {
        proof {
            assert(s@.take(tn as int) =~= t@);
        }
        TagStep::Hit(tn)
    } else {
        proof {
            assert(s@ =~= t@.take(sn as int));
        }
        TagStep::Need
    }
}

/// The executable outcome of reading the command line.
enum CmdStep {
    Got(Command, usize),
    Need,
    Stop,
}

/// The command line of `c`, as owned bytes: plain, or the CRLF form.
fn cmd_line_vec(c: Command, cr: bool) -> (r: Vec<u8>)
    ensures
        !cr ==> r@ == cmd_line(c),
        cr ==> r@ == cmd_line_cr(c),
{
    let mut v: Vec<u8> = Vec::new();
    crate::unparser::push_cmd_token(&mut v, &c);
    if cr {
        v.push(CR);
    }
    v.push(LF);
    proof {
        if cr {
            assert(v@ =~= cmd_line_cr(c));
        } else {
            assert(v@ =~= cmd_line(c));
        }
    }
    v
}

/// Read the command line at the front of the buffer.
fn parse_command_at(s: &[u8]) -> (r: CmdStep)
    ensures
        match r {
            CmdStep::Got(c, n) => spec_command(s@) == Step::<Command>::Found(c, n as int) && n
                <= s@.len(),
            CmdStep::Need => spec_command(s@) is More,
            CmdStep::Stop => spec_command(s@) is Fail,
        },
{
    let order: [Command; 10] = [
        Command::Connect,
        Command::Send,
        Command::Subscribe,
        Command::Unsubscribe,
        Command::Disconnect,
        Command::Ack,
        Command::Connected,
        Command::Message,
        Command::Receipt,
        Command::Error,
    ];
    let mut idx: usize = 0;
    while idx < 10
        invariant
            0 <= idx <= 10,
            order@ =~= seq![
                Command::Connect,
                Command::Send,
                Command::Subscribe,
                Command::Unsubscribe,
                Command::Disconnect,
                Command::Ack,
                Command::Connected,
                Command::Message,
                Command::Receipt,
                Command::Error,
            ],
            forall|j: int|
                0 <= j < idx ==> spec_tag(s@, cmd_line(#[trigger] order@[j])) is Fail && spec_tag(
                    s@,
                    cmd_line_cr(order@[j]),
                ) is Fail,
        decreases 10 - idx,
    {
        let c = order[idx];
        let t = cmd_line_vec(c, false);
        match check_tag(s, t.as_slice()) {
            TagStep::Hit(n) => {
                return CmdStep::Got(c, n);
            },
            TagStep::Need => {
                return CmdStep::Need;
            },
            TagStep::Miss => {},
        }
        let t = cmd_line_vec(c, true);
        match check_tag(s, t.as_slice()) {
            TagStep::Hit(n) => {
                return CmdStep::Got(c, n);
            },
            TagStep::Need => {
                return CmdStep::Need;
            },
            TagStep::Miss => {},
        }
        idx = idx + 1;
    }
    CmdStep::Stop
}

/// The executable outcome of reading one header line.
enum HeaderStep {
    Got(Vec<u8>, Vec<u8>, usize),
    Need,
    Stop,
}

/// Read one header line at `i`.
fn parse_header_at(s: &[u8], i: usize) -> (r: HeaderStep)
    requires
        i <= s@.len(),
    ensures
        match r {
            HeaderStep::Got(k, v, j) => spec_header(s@, i as int) == Step::<(
                Seq<u8>,
                Seq<u8>,
            )>::Found((k@, v@), j as int) && i < j <= s@.len(),
            HeaderStep::Need => spec_header(s@, i as int) is More,
            HeaderStep::Stop => spec_header(s@, i as int) is Fail,
        },
{
    let name = match parse_chars(s, i, false) {
        ChunkStep::Need => {
            return HeaderStep::Need;
        },
        ChunkStep::Taken(name, j) => (name, j),
    };
    let (name, j) = name;
    if name.len() == 0 {
        return HeaderStep::Stop;
    }
    if j >= s.len() {
        return HeaderStep::Need;
    }
    if s[j] != COLON {
        return HeaderStep::Stop;
    }
    let value = match parse_chars(s, j + 1, true) {
        ChunkStep::Need => {
            return HeaderStep::Need;
        },
        ChunkStep::Taken(value, m) => (value, m),
    };
    let (value, m) = value;
    if m >= s.len() {
        return HeaderStep::Need;
    }
    if s[m] != LF {
        return HeaderStep::Stop;
    }
    proof {
        lemma_header_pos(s@, i as int);
    }
    HeaderStep::Got(name, value, m + 1)
}

/// The executable outcome of reading the header block.
enum HeadersStep {
    Got(Headers, usize),
    Need,
}

/// Read the header block at `i`, folding the lines into a collection.
fn parse_headers_at(s: &[u8], i: usize) -> (r: HeadersStep)
    requires
        i <= s@.len(),
    ensures
        match r {
            HeadersStep::Got(h, j) => spec_headers(s@, i as int) matches Step::Found(pairs, jj)
                && jj == j as int && h@ == headers_model_of(pairs) && h.wf() && i <= j <= s@.len(),
            HeadersStep::Need => spec_headers(s@, i as int) is More,
        },
{
    let mut h = Headers::new();
    let mut cur: usize = i;
    let ghost mut prefix: HeadersModel = HeadersModel::empty();
    proof {
        lemma_headers_not_fail(s@, i as int);
        assert(hfold(HeadersModel::empty(), prefix) == HeadersModel::empty());
        match spec_headers(s@, i as int) {
            Step::Found(rest, k) => {
                assert(prefix + rest =~= rest);
            },
            _ => {},
        }
    }
    loop
        invariant
            i <= cur <= s@.len(),
            h.wf(),
            h@ == hfold(HeadersModel::empty(), prefix),
            match spec_headers(s@, cur as int) {
                Step::Found(rest, k) => spec_headers(s@, i as int) == Step::<HeadersModel>::Found(
                    prefix + rest,
                    k,
                ),
                Step::More => spec_headers(s@, i as int) is More,
                Step::Fail => false,
            },
        decreases s@.len() - cur,
    {
        proof {
            lemma_headers_not_fail(s@, cur as int);
        }
        match parse_header_at(s, cur) {
            HeaderStep::Need => {
                return HeadersStep::Need;
            },
            HeaderStep::Stop => {
                proof {
                    assert(spec_headers(s@, cur as int) == Step::<HeadersModel>::Found(
                        HeadersModel::empty(),
                        cur as int,
                    ));
                    assert(prefix + HeadersModel::empty() =~= prefix);
                }
                return HeadersStep::Got(h, cur);
            },
            HeaderStep::Got(k, v, j) => {
                proof {
                    lemma_headers_not_fail(s@, j as int);
                    let kv = (k@, v@);
                    lemma_hfold_snoc(prefix, k@, v@);
                    assert(prefix.push(kv) =~= prefix + seq![kv]);
                    match spec_headers(s@, j as int) {
                        Step::Found(rest2, k2) => {
                            assert(spec_headers(s@, cur as int) == Step::<HeadersModel>::Found(
                                seq![kv] + rest2,
                                k2,
                            ));
                            assert(prefix + (seq![kv] + rest2) =~= (prefix + seq![kv]) + rest2);
                        },
                        _ => {},
                    }
                    prefix = prefix.push(kv);
                }
                h.insert(k, v);
                cur = j;
            },
        }
    }
}

/// Folding one more line into a collection is one insertion.
pub proof fn lemma_hfold_snoc(pairs: HeadersModel, k: Seq<u8>, v: Seq<u8>)
    ensures
        hfold(HeadersModel::empty(), pairs.push((k, v))) == hinsert(
            hfold(HeadersModel::empty(), pairs),
            k,
            v,
        ),
{
    lemma_hfold_snoc_from(HeadersModel::empty(), pairs, k, v);
}

proof fn lemma_hfold_snoc_from(acc: HeadersModel, pairs: HeadersModel, k: Seq<u8>, v: Seq<u8>)
    ensures
        hfold(acc, pairs.push((k, v))) == hinsert(hfold(acc, pairs), k, v),
    decreases pairs.len(),
{
    let p = pairs.push((k, v));
    if pairs.len() == 0 {
        assert(p[0] == (k, v));
        assert(p.drop_first() =~= HeadersModel::empty());
        assert(hfold(acc, p) == hfold(hinsert(acc, k, v), p.drop_first()));
        assert(hfold(hinsert(acc, k, v), p.drop_first()) == hinsert(acc, k, v));
        assert(hfold(acc, pairs) == acc);
    } else {
        assert(p[0] == pairs[0]);
        assert(p.drop_first() =~= pairs.drop_first().push((k, v)));
        let acc2 = hinsert(acc, pairs[0].0, pairs[0].1);
        lemma_hfold_snoc_from(acc2, pairs.drop_first(), k, v);
        assert(hfold(acc, p) == hfold(acc2, p.drop_first()));
        assert(hfold(acc, pairs) == hfold(acc2, pairs.drop_first()));
    }
}

/// A digit string below any position is worth no more than the whole.
pub proof fn lemma_dec_value_grows(s: Seq<u8>, i: int)
    requires
        all_digits(s),
        0 <= i <= s.len(),
    ensures
        0 <= dec_value(s.take(i)) <= dec_value(s),
    decreases s.len() - i,
{
    if i == s.len() {
        assert(s.take(i) =~= s);
        lemma_dec_value_nonneg(s.take(i));
    } else {
        assert(s.take(i + 1).drop_last() =~= s.take(i));
        assert(s.take(i + 1).last() == s[i]);
        lemma_dec_value_nonneg(s.take(i));
        lemma_dec_value_grows(s, i + 1);
    }
}

/// A digit string is worth a non-negative number.
proof fn lemma_dec_value_nonneg(s: Seq<u8>)
    requires
        all_digits(s),
    ensures
        dec_value(s) >= 0,
    decreases s.len(),
{
    if s.len() > 0 {
        assert(all_digits(s.drop_last()));
        lemma_dec_value_nonneg(s.drop_last());
    }
}

/// Read a whole decimal field, refusing anything that `parse_dec` refuses.
fn dec_of_bytes(v: &[u8]) -> (r: Option<usize>)
    ensures
        match r {
            Some(n) => parse_dec(v@) == Some(n as int),
            None => parse_dec(v@) is None,
        },
{
    let n = v.len();
    if n == 0 {
        return None;
    }
    let mut acc: u128 = 0;
    let mut i: usize = 0;
    proof {
        assert(v@.take(0) =~= Seq::<u8>::empty());
    }
    while i < n
        invariant
            n == v@.len(),
            0 <= i <= n,
            all_digits(v@.take(i as int)),
            acc == dec_value(v@.take(i as int)),
            acc <= usize::MAX,
        decreases n - i,
    {
        let b = v[i];
        if b < 48 || b > 57 {
            proof {
                assert(!is_digit(v@[i as int]));
            }
            return None;
        }
        let d = (b - 48) as u128;
        let next = acc * 10 + d;
        proof {
            assert(v@.take(i as int + 1).drop_last() =~= v@.take(i as int));
            assert(v@.take(i as int + 1).last() == v@[i as int]);
        }
        if next > usize::MAX as u128 {
            proof {
                if all_digits(v@) {
                    lemma_dec_value_grows(v@, i as int + 1);
                }
            }
            return None;
        }
        acc = next;
        i = i + 1;
    }
    proof {
        assert(v@.take(n as int) =~= v@);
    }
    Some(acc as usize)
}

/// The `content-length` announced by `h`, when present and numeric.
pub fn content_length_value(h: &Headers) -> (r: Option<usize>)
    ensures
        match r {
            Some(n) => content_length_of(h@) == Some(n as int),
            None => content_length_of(h@) is None,
        },
{
    let key = crate::unparser::content_length_key_vec();
    match h.get(key.as_slice()) {
        None => None,
        Some(v) => dec_of_bytes(v.as_slice()),
    }
}

/// Why the parser refused its input: the bytes at the point of refusal,
/// shortened to a snippet when long.
#[derive(Clone, Debug, Eq, PartialEq)]
pub struct ParseError {
    pub remaining: Vec<u8>,
    pub truncated: bool,
}

/// The longest snippet of refused input kept in a `ParseError`.
pub const MAX_SNIPPET: usize = 80;

impl ParseError {
    /// Record the input that was refused.
    pub fn new(remaining: &[u8]) -> (e: ParseError)
        ensures
            e.truncated == (remaining@.len() > MAX_SNIPPET),
            e.remaining@ == if remaining@.len() > MAX_SNIPPET {
                remaining@.take(MAX_SNIPPET as int)
            } else {
                remaining@
            },
    {
        if remaining.len() > MAX_SNIPPET {
            let cut = vstd::slice::slice_subrange(remaining, 0, MAX_SNIPPET);
            ParseError { remaining: vstd::slice::slice_to_vec(cut), truncated: true }
        } else {
            ParseError { remaining: vstd::slice::slice_to_vec(remaining), truncated: false }
        }
    }
}

/// The executable outcome of reading the position of the first NUL.
fn find_nul(s: &[u8], i: usize) -> (r: Option<usize>)
    requires
        i <= s@.len(),
    ensures
        match r {
            Some(z) => first_nul_from(s@, i as int) == Some(z as int) && i <= z < s@.len(),
            None => first_nul_from(s@, i as int) is None,
        },
{
    let n = s.len();
    let mut cur: usize = i;
    while cur < n
        invariant
            i <= cur <= n == s@.len(),
            first_nul_from(s@, i as int) == first_nul_from(s@, cur as int),
        decreases n - cur,
    {
        if s[cur] == 0u8 {
            return Some(cur);
        }
        cur = cur + 1;
    }
    None
}

/// The executable outcome of reading the body.
enum BodyStep {
    Got(Vec<u8>, usize),
    Need,
    Stop,
}

/// Read the body at `i`, under the announced content length if any.
fn parse_body_at(s: &[u8], i: usize, cl: Option<usize>) -> (r: BodyStep)
    requires
        i <= s@.len(),
    ensures
        match r {
            BodyStep::Got(body, m) => spec_body(
                s@,
                i as int,
                match cl {
                    Some(n) => Some(n as int),
                    None => None,
                },
            ) == Step::<Seq<u8>>::Found(body@, m as int) && i <= m <= s@.len(),
            BodyStep::Need => spec_body(
                s@,
                i as int,
                match cl {
                    Some(n) => Some(n as int),
                    None => None,
                },
            ) is More,
            BodyStep::Stop => spec_body(
                s@,
                i as int,
                match cl {
                    Some(n) => Some(n as int),
                    None => None,
                },
            ) is Fail,
        },
{
    match cl {
        Some(n) => {
            if s.len() - i < n {
                return BodyStep::Need;
            }
            if i + n >= s.len() {
                return BodyStep::Need;
            }
            if s[i + n] != 0u8 {
                return BodyStep::Stop;
            }
            let body = vstd::slice::slice_subrange(s, i, i + n);
            BodyStep::Got(vstd::slice::slice_to_vec(body), i + n + 1)
        },
        None => {
            match find_nul(s, i) {
                None => BodyStep::Need,
                Some(z) => {
                    proof {
                        broadcast use vstd::slice::axiom_spec_len;

                        assert(z < s@.len() && s@.len() == vstd::slice::spec_slice_len(s));
                    }
                    let body = vstd::slice::slice_subrange(s, i, z);
                    BodyStep::Got(vstd::slice::slice_to_vec(body), z + 1)
                },
            }
        },
    }
}

/// The executable outcome of reading one whole frame.
enum FrameStep {
    Got(Frame, usize),
    Need,
    Stop,
}

/// Read one whole frame at the front of the buffer.
fn parse_frame_inner(s: &[u8]) -> (r: FrameStep)
    ensures
        match r {
            FrameStep::Got(f, m) => spec_frame(s@) == Step::<FrameView>::Found(f@, m as int) && m
                <= s@.len() && f.headers.wf(),
            FrameStep::Need => spec_frame(s@) is More,
            FrameStep::Stop => spec_frame(s@) is Fail,
        },
{
    let (cmd, i) = match parse_command_at(s) {
        CmdStep::Need => {
            return FrameStep::Need;
        },
        CmdStep::Stop => {
            return FrameStep::Stop;
        },
        CmdStep::Got(cmd, i) => (cmd, i),
    };
    let (headers, j) = match parse_headers_at(s, i) {
        HeadersStep::Need => {
            return FrameStep::Need;
        },
        HeadersStep::Got(h, j) => (h, j),
    };
    if j >= s.len() {
        return FrameStep::Need;
    }
    let body_start = if s[j] == LF {
        j + 1
    } else if s[j] == CR {
        if j + 1 >= s.len() {
            return FrameStep::Need;
        }
        if s[j + 1] != LF {
            return FrameStep::Stop;
        }
        j + 2
    } else {
        return FrameStep::Stop;
    };
    let cl = content_length_value(&headers);
    let (body, m) = match parse_body_at(s, body_start, cl) {
        BodyStep::Need => {
            return FrameStep::Need;
        },
        BodyStep::Stop => {
            return FrameStep::Stop;
        },
        BodyStep::Got(body, m) => (body, m),
    };
    FrameStep::Got(Frame { command: cmd, headers, body }, m)
}

/// Decode one item from the front of the buffer.
///
/// The result is exactly `spec_parse` of the input: `Ok(Some((item, n)))`
/// when the first `n` bytes form one item, `Ok(None)` when the buffer holds
/// only a prefix of an item and more bytes must arrive, and `Err` when the
/// input can never grow into an item.  A caller feeding a stream removes
/// `n` consumed bytes and calls again as more bytes arrive.
pub fn parse_frame(input: &[u8]) -> (r: Result<Option<(FrameOrKeepAlive, usize)>, ParseError>)
    ensures
        match r {
            Ok(Some((item, n))) => spec_parse(input@) == Step::<ItemView>::Found(
                item@,
                n as int,
            ) && n <= input@.len() && (item matches FrameOrKeepAlive::Frame(f)
                ==> f.headers.wf()),
            Ok(None) => spec_parse(input@) is More,
            Err(e) => spec_parse(input@) is Fail,
        },
{
    match parse_frame_inner(input) {
        FrameStep::Got(f, m) => Ok(Some((FrameOrKeepAlive::Frame(f), m))),
        FrameStep::Need => Ok(None),
        FrameStep::Stop => {
            if input.len() == 0 {
                Ok(None)
            } else if input[0] == LF {
                Ok(Some((FrameOrKeepAlive::KeepAlive, 1)))
            } else if input[0] == CR && input.len() == 1 {
                Ok(None)
            } else if input[0] == CR && input[1] == LF {
                Ok(Some((FrameOrKeepAlive::KeepAlive, 2)))
            } else {
                Err(ParseError::new(input))
            }
        },
    }
}

} // verus!
