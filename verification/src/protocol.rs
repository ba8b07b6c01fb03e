//! Protocol data model: commands, acknowledgement modes, headers, frames.

use vstd::prelude::*;

verus! {

/// The bytes of an ASCII string, character by character.
pub open spec fn ascii_of(s: Seq<char>) -> Seq<u8> {
    Seq::new(s.len(), |i: int| s[i] as u8)
}

/// Byte-wise equality of two slices.
pub fn bytes_eq(a: &[u8], b: &[u8]) -> (r: bool)
    ensures
        r == (a@ == b@),
{
    if a.len() != b.len() {
        proof {
            assert(a@ != b@) by {
                assert(a@.len() != b@.len());
            }
        }
        return false;
    }
    let n = a.len();
    let mut i: usize = 0;
    while i < n
        invariant
            n == a@.len() == b@.len(),
            0 <= i <= n,
            forall|j: int| 0 <= j < i ==> a@[j] == b@[j],
        decreases n - i,
    {
        if a[i] != b[i] {
            return false;
        }
        i = i + 1;
    }
    proof {
        assert(a@ =~= b@);
    }
    true
}

/// The bytes of an ASCII string literal, as an owned value.
pub fn ascii_vec(s: &str) -> (r: Vec<u8>)
    requires
        vstd::string::is_ascii(s),
    ensures
        r@ == ascii_of(s@),
{
    proof {
        broadcast use vstd::string::is_ascii_spec_bytes;
    }
    let b = s.as_bytes();
    proof {
        assert(b@ =~= ascii_of(s@));
    }
    vstd::slice::slice_to_vec(b)
}

/// Acknowledgement mode of a subscription.
#[derive(Clone, Copy, Debug, Eq, PartialEq, Hash, Structural)]
pub enum AckMode {
    Auto,
    ClientIndividual,
}

/// The command word of a frame: client commands first, then server commands.
#[derive(Clone, Copy, Debug, Eq, PartialEq, Hash, Structural)]
pub enum Command {
    Connect,
    Send,
    Subscribe,
    Unsubscribe,
    Disconnect,
    Ack,
    Connected,
    Message,
    Receipt,
    Error,
}

impl AckMode {
    /// The exact token this mode takes on the wire.
    pub fn as_str(&self) -> (r: &'static str)
        ensures
            *self == AckMode::Auto ==> r@ == "auto"@,
            *self == AckMode::ClientIndividual ==> r@ == "client-individual"@,
    {
        match self {
            AckMode::Auto => "auto",
            AckMode::ClientIndividual => "client-individual",
        }
    }
}

impl Command {
    /// The command token as it appears on the command line of a frame.
    pub fn as_str(&self) -> (r: &'static str)
        ensures
            *self == Command::Connect ==> r@ == "CONNECT"@,
            *self == Command::Send ==> r@ == "SEND"@,
            *self == Command::Subscribe ==> r@ == "SUBSCRIBE"@,
            *self == Command::Unsubscribe ==> r@ == "UNSUBSCRIBE"@,
            *self == Command::Disconnect ==> r@ == "DISCONNECT"@,
            *self == Command::Ack ==> r@ == "ACK"@,
            *self == Command::Connected ==> r@ == "CONNECTED"@,
            *self == Command::Message ==> r@ == "MESSAGE"@,
            *self == Command::Receipt ==> r@ == "RECEIPT"@,
            *self == Command::Error ==> r@ == "ERROR"@,
    {
        match self {
            Command::Connect => "CONNECT",
            Command::Send => "SEND",
            Command::Subscribe => "SUBSCRIBE",
            Command::Unsubscribe => "UNSUBSCRIBE",
            Command::Disconnect => "DISCONNECT",
            Command::Ack => "ACK",
            Command::Connected => "CONNECTED",
            Command::Message => "MESSAGE",
            Command::Receipt => "RECEIPT",
            Command::Error => "ERROR",
        }
    }
}

impl Command {
    /// Read a command token: exactly the ten tokens are accepted, anything
    /// else is a protocol error.
    pub fn from_bytes(input: &[u8]) -> (r: Result<Command, crate::errors::StompError>)
        ensures
            match r {
                Ok(c) => input@ == crate::wire::cmd_token(c),
                Err(e) => e == crate::errors::StompError::ProtocolError && forall|c: Command|
                    input@ != crate::wire::cmd_token(c),
            },
    {
        proof {
            reveal_strlit("CONNECT");
            reveal_strlit("SEND");
            reveal_strlit("SUBSCRIBE");
            reveal_strlit("UNSUBSCRIBE");
            reveal_strlit("DISCONNECT");
            reveal_strlit("ACK");
            reveal_strlit("CONNECTED");
            reveal_strlit("MESSAGE");
            reveal_strlit("RECEIPT");
            reveal_strlit("ERROR");
        }
        if bytes_eq(input, ascii_vec("CONNECT").as_slice()) {
            return Ok(Command::Connect);
        }
        if bytes_eq(input, ascii_vec("SEND").as_slice()) {
            return Ok(Command::Send);
        }
        if bytes_eq(input, ascii_vec("SUBSCRIBE").as_slice()) {
            return Ok(Command::Subscribe);
        }
        if bytes_eq(input, ascii_vec("UNSUBSCRIBE").as_slice()) {
            return Ok(Command::Unsubscribe);
        }
        if bytes_eq(input, ascii_vec("DISCONNECT").as_slice()) {
            return Ok(Command::Disconnect);
        }
        if bytes_eq(input, ascii_vec("ACK").as_slice()) {
            return Ok(Command::Ack);
        }
        if bytes_eq(input, ascii_vec("CONNECTED").as_slice()) {
            return Ok(Command::Connected);
        }
        if bytes_eq(input, ascii_vec("MESSAGE").as_slice()) {
            return Ok(Command::Message);
        }
        if bytes_eq(input, ascii_vec("RECEIPT").as_slice()) {
            return Ok(Command::Receipt);
        }
        if bytes_eq(input, ascii_vec("ERROR").as_slice()) {
            return Ok(Command::Error);
        }
        proof {
            assert forall|c: Command| input@ != crate::wire::cmd_token(c) by {
                match c {
                    Command::Connect => {},
                    Command::Send => {},
                    Command::Subscribe => {},
                    Command::Unsubscribe => {},
                    Command::Disconnect => {},
                    Command::Ack => {},
                    Command::Connected => {},
                    Command::Message => {},
                    Command::Receipt => {},
                    Command::Error => {},
                }
            }
        }
        Err(crate::errors::StompError::ProtocolError)
    }
}

/// The model of a header collection: the (key, value) pairs in insertion
/// order.  Well-formed collections hold at most one entry per key.
pub type HeadersModel = Seq<(Seq<u8>, Seq<u8>)>;

/// No two entries share a key.
pub open spec fn hkeys_unique(hs: HeadersModel) -> bool {
    forall|i: int, j: int|
        0 <= i < j < hs.len() ==> #[trigger] hs[i].0 != #[trigger] hs[j].0
}

/// The value stored under `k`: the first entry whose key is `k`.
pub open spec fn hlookup(hs: HeadersModel, k: Seq<u8>) -> Option<Seq<u8>>
    decreases hs.len(),
{
    if hs.len() == 0 {
        None
    } else if hs[0].0 == k {
        Some(hs[0].1)
    } else {
        hlookup(hs.drop_first(), k)
    }
}

/// Whether some entry has key `k`.
pub open spec fn hcontains(hs: HeadersModel, k: Seq<u8>) -> bool {
    hlookup(hs, k) is Some
}

/// Insertion: replaces the value of the first entry keyed `k` in place, or
/// appends a new entry when `k` is absent.
pub open spec fn hinsert(hs: HeadersModel, k: Seq<u8>, v: Seq<u8>) -> HeadersModel
    decreases hs.len(),
{
    if hs.len() == 0 {
        seq![(k, v)]
    } else if hs[0].0 == k {
        seq![(k, v)] + hs.drop_first()
    } else {
        seq![hs[0]] + hinsert(hs.drop_first(), k, v)
    }
}

/// An ordered mapping from byte-string header names to byte-string values.
/// Built through `insert`, the entries hold one value per name (`wf`).
#[derive(Clone, Debug, Eq, PartialEq, Hash)]
pub struct Headers {
    pub entries: Vec<(Vec<u8>, Vec<u8>)>,
}

impl View for Headers {
    type V = HeadersModel;

    open spec fn view(&self) -> HeadersModel {
        Seq::new(self.entries@.len(), |i: int| (self.entries@[i].0@, self.entries@[i].1@))
    }
}

impl Headers {
    /// Every key occurs at most once.
    pub open spec fn wf(&self) -> bool {
        hkeys_unique(self@)
    }

    /// An empty collection.
    pub fn new() -> (h: Headers)
        ensures
            h@ == HeadersModel::empty(),
            h.wf(),
    {
        let h = Headers { entries: Vec::new() };
        proof {
            assert(h@ =~= HeadersModel::empty());
        }
        h
    }

    pub fn len(&self) -> (n: usize)
        ensures
            n == self@.len(),
    {
        self.entries.len()
    }

    /// Store `v` under `k`, replacing any previous value.
    pub fn insert(&mut self, k: Vec<u8>, v: Vec<u8>)
        ensures
            final(self)@ == hinsert(old(self)@, k@, v@),
            old(self).wf() ==> final(self).wf(),
    {
        let n = self.entries.len();
        let mut i: usize = 0;
        while i < n
            invariant
                n == self@.len(),
                0 <= i <= n,
                *self == *old(self),
                forall|j: int| 0 <= j < i ==> #[trigger] self@[j].0 != k@,
            decreases n - i,
        {
            if bytes_eq(self.entries[i].0.as_slice(), k.as_slice()) {
                proof {
                    lemma_hinsert_at(self@, k@, v@, i as int);
                }
                self.entries[i] = (k, v);
                proof {
                    assert(self@ =~= old(self)@.update(i as int, (k@, v@)));
                    if old(self).wf() {
                        lemma_hinsert_wf(old(self)@, k@, v@);
                    }
                }
                return;
            }
            i = i + 1;
        }
        proof {
            lemma_hinsert_missing(self@, k@, v@);
        }
        self.entries.push((k, v));
        proof {
            assert(self@ =~= old(self)@.push((k@, v@)));
            if old(self).wf() {
                lemma_hinsert_wf(old(self)@, k@, v@);
            }
        }
    }

    /// A copy of this collection with the same entries.
    pub fn duplicate(&self) -> (h: Headers)
        ensures
            h@ == self@,
    {
        let n = self.entries.len();
        let mut entries: Vec<(Vec<u8>, Vec<u8>)> = Vec::new();
        let mut i: usize = 0;
        while i < n
            invariant
                n == self.entries@.len(),
                0 <= i <= n,
                entries@.len() == i,
                forall|j: int|
                    0 <= j < i ==> (#[trigger] entries@[j]).0@ == self@[j].0 && entries@[j].1@
                        == self@[j].1,
            decreases n - i,
        {
            let k = vstd::slice::slice_to_vec(self.entries[i].0.as_slice());
            let v = vstd::slice::slice_to_vec(self.entries[i].1.as_slice());
            entries.push((k, v));
            i = i + 1;
        }
        let h = Headers { entries };
        proof {
            assert(h@ =~= self@);
        }
        h
    }

    /// The value stored under `k`, if any.
    pub fn get(&self, k: &[u8]) -> (r: Option<&Vec<u8>>)
        ensures
            match r {
                Some(v) => hlookup(self@, k@) == Some(v@),
                None => hlookup(self@, k@) is None,
            },
    {
        let n = self.entries.len();
        let mut i: usize = 0;
        proof {
            assert(self@.skip(0) =~= self@);
        }
        while i < n
            invariant
                n == self@.len(),
                0 <= i <= n,
                hlookup(self@, k@) == hlookup(self@.skip(i as int), k@),
            decreases n - i,
        {
            proof {
                assert(self@.skip(i as int)[0] == self@[i as int]);
                assert(self@.skip(i as int).drop_first() =~= self@.skip(i as int + 1));
            }
            if bytes_eq(self.entries[i].0.as_slice(), k) {
                return Some(&self.entries[i].1);
            }
            i = i + 1;
        }
        proof {
            assert(self@.skip(n as int) =~= HeadersModel::empty());
        }
        None
    }

    /// Whether any entry is stored under `k`.
    pub fn contains_key(&self, k: &[u8]) -> (r: bool)
        ensures
            r == hcontains(self@, k@),
    {
        self.get(k).is_some()
    }
}

/// When the first entry keyed `k` sits at index `i`, insertion updates
/// that entry in place.
proof fn lemma_hinsert_at(hs: HeadersModel, k: Seq<u8>, v: Seq<u8>, i: int)
    requires
        0 <= i < hs.len(),
        hs[i].0 == k,
        forall|j: int| 0 <= j < i ==> #[trigger] hs[j].0 != k,
    ensures
        hinsert(hs, k, v) == hs.update(i, (k, v)),
    decreases i,
{
    if i == 0 {
        assert(hinsert(hs, k, v) =~= hs.update(0, (k, v)));
    } else {
        lemma_hinsert_at(hs.drop_first(), k, v, i - 1);
        assert(hinsert(hs, k, v) =~= hs.update(i, (k, v)));
    }
}

/// When no entry is keyed `k`, insertion appends.
pub proof fn lemma_hinsert_missing(hs: HeadersModel, k: Seq<u8>, v: Seq<u8>)
    requires
        forall|j: int| 0 <= j < hs.len() ==> #[trigger] hs[j].0 != k,
    ensures
        hinsert(hs, k, v) == hs.push((k, v)),
    decreases hs.len(),
{
    if hs.len() == 0 {
        assert(hinsert(hs, k, v) =~= hs.push((k, v)));
    } else {
        lemma_hinsert_missing(hs.drop_first(), k, v);
        assert(hinsert(hs, k, v) =~= hs.push((k, v)));
    }
}

/// Insertion preserves key uniqueness.
proof fn lemma_hinsert_wf(hs: HeadersModel, k: Seq<u8>, v: Seq<u8>)
    requires
        hkeys_unique(hs),
    ensures
        hkeys_unique(hinsert(hs, k, v)),
    decreases hs.len(),
{
    if hs.len() == 0 {
    } else if hs[0].0 == k {
        assert forall|i: int, j: int|
            0 <= i < j < hinsert(hs, k, v).len() implies #[trigger] hinsert(hs, k, v)[i].0
            != #[trigger] hinsert(hs, k, v)[j].0 by {
            assert(hs[i].0 == hinsert(hs, k, v)[i].0 || i == 0);
            assert(hinsert(hs, k, v)[j] == hs[j]);
        }
    } else {
        lemma_hinsert_wf(hs.drop_first(), k, v);
        let out = hinsert(hs, k, v);
        let rest = hinsert(hs.drop_first(), k, v);
        assert forall|i: int, j: int|
            0 <= i < j < out.len() implies #[trigger] out[i].0 != #[trigger] out[j].0 by {
            if i == 0 {
                lemma_hinsert_keys(hs.drop_first(), k, v, j - 1);
            } else {
                assert(out[i] == rest[i - 1]);
                assert(out[j] == rest[j - 1]);
            }
        }
    }
}

/// Every key of `hinsert(hs, k, v)` is `k` or a key of `hs`.
proof fn lemma_hinsert_keys(hs: HeadersModel, k: Seq<u8>, v: Seq<u8>, i: int)
    requires
        0 <= i < hinsert(hs, k, v).len(),
    ensures
        hinsert(hs, k, v)[i].0 == k || exists|j: int|
            0 <= j < hs.len() && #[trigger] hs[j].0 == hinsert(hs, k, v)[i].0,
    decreases hs.len(),
{
    if hs.len() == 0 {
    } else if hs[0].0 == k {
        if i > 0 {
            assert(hs[i].0 == hinsert(hs, k, v)[i].0);
        }
    } else {
        if i == 0 {
            assert(hs[0].0 == hinsert(hs, k, v)[0].0);
        } else {
            lemma_hinsert_keys(hs.drop_first(), k, v, i - 1);
            if hinsert(hs, k, v)[i].0 != k {
                let j = choose|j: int|
                    0 <= j < hs.drop_first().len() && #[trigger] hs.drop_first()[j].0
                        == hinsert(hs.drop_first(), k, v)[i - 1].0;
                assert(hs[j + 1].0 == hinsert(hs, k, v)[i].0);
            }
        }
    }
}

/// The mathematical content of a frame.
pub struct FrameView {
    pub command: Command,
    pub headers: HeadersModel,
    pub body: Seq<u8>,
}

/// One protocol message: a command, headers, and an arbitrary byte body.
#[derive(Clone, Debug, Eq, PartialEq, Hash)]
pub struct Frame {
    pub command: Command,
    pub headers: Headers,
    pub body: Vec<u8>,
}

impl View for Frame {
    type V = FrameView;

    open spec fn view(&self) -> FrameView {
        FrameView { command: self.command, headers: self.headers@, body: self.body@ }
    }
}

/// The mathematical content of one item of the wire stream.
pub enum ItemView {
    Frame(FrameView),
    KeepAlive,
}

/// One item of the wire stream: a frame, or the single-LF keep-alive.
#[derive(Clone, Debug, Eq, PartialEq, Hash)]
pub enum FrameOrKeepAlive {
    Frame(Frame),
    KeepAlive,
}

impl View for FrameOrKeepAlive {
    type V = ItemView;

    open spec fn view(&self) -> ItemView {
        match self {
            FrameOrKeepAlive::Frame(f) => ItemView::Frame(f@),
            FrameOrKeepAlive::KeepAlive => ItemView::KeepAlive,
        }
    }
}

impl FrameOrKeepAlive {
    /// The frame inside; callable only on the frame variant.
    pub fn unwrap_frame(self) -> (f: Frame)
        requires
            self@ is Frame,
        ensures
            self@ == ItemView::Frame(f@),
    {
        match self {
            FrameOrKeepAlive::Frame(f) => f,
            FrameOrKeepAlive::KeepAlive => vstd::pervasive::unreached(),
        }
    }
}

/// The characters that `String::from_utf8_lossy` decodes the given bytes to:
/// they depend on the bytes alone.
pub uninterp spec fn lossy_utf8_of(b: Seq<u8>) -> Seq<char>;

/// Relies on String::from_utf8_lossy: its result is a function of the bytes,
/// and valid UTF-8 input is kept unchanged.
#[verifier::external_body]
fn lossy_string(b: &Vec<u8>) -> (r: String)
    ensures
        r@ == lossy_utf8_of(b@),
        vstd::utf8::valid_utf8(b@) ==> vstd::utf8::encode_utf8(r@) == b@,
{
    String::from_utf8_lossy(b).into_owned()
}

impl Frame {
    /// The headers decoded to text for display, key and value each through
    /// the lossy UTF-8 decoding, in stored order.
    pub fn stringify_headers(&self) -> (r: Vec<(String, String)>)
        ensures
            r@.len() == self.headers@.len(),
            forall|i: int|
                0 <= i < r@.len() ==> #[trigger] r@[i].0@ == lossy_utf8_of(self.headers@[i].0)
                    && r@[i].1@ == lossy_utf8_of(self.headers@[i].1),
    {
        let n = self.headers.entries.len();
        let mut out: Vec<(String, String)> = Vec::new();
        let mut i: usize = 0;
        while i < n
            invariant
                n == self.headers@.len(),
                0 <= i <= n,
                out@.len() == i,
                forall|j: int|
                    0 <= j < i ==> #[trigger] out@[j].0@ == lossy_utf8_of(self.headers@[j].0)
                        && out@[j].1@ == lossy_utf8_of(self.headers@[j].1),
            decreases n - i,
        {
            let k = lossy_string(&self.headers.entries[i].0);
            let v = lossy_string(&self.headers.entries[i].1);
            out.push((k, v));
            i = i + 1;
        }
        out
    }
}

/// A frame rendered for humans: its headers and body as text.
#[derive(Clone, Debug, Eq, PartialEq, Hash)]
pub struct StringyFrame {
    pub command: Command,
    pub headers: Vec<(String, String)>,
    pub body: String,
}

impl Frame {
    /// This frame rendered for humans, headers and body decoded as text.
    pub fn stringify(&self) -> (r: StringyFrame)
        ensures
            r.command == self.command,
            r.headers@.len() == self.headers@.len(),
            forall|i: int|
                0 <= i < r.headers@.len() ==> #[trigger] r.headers@[i].0@ == lossy_utf8_of(
                    self.headers@[i].0,
                ) && r.headers@[i].1@ == lossy_utf8_of(self.headers@[i].1),
            r.body@ == lossy_utf8_of(self.body@),
    {
        StringyFrame {
            command: self.command,
            headers: self.stringify_headers(),
            body: lossy_string(&self.body),
        }
    }
}

} // verus!
