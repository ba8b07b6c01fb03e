//! The connection multiplexer's decisions: building the frame of each
//! client request, keeping the routing state, dispatching each server item,
//! and judging the handshake answer.
//!
//! The embedding program owns the transport and the two task loops; it
//! calls `writer_on_request` before writing a frame and `reader_on_item`
//! after reading one, and performs the returned action.

use vstd::prelude::*;

use crate::errors::StompError;
use crate::pacemaker::{keepalive_spec, negotiated};
use crate::protocol::{ascii_of, ascii_vec, hinsert, hlookup, AckMode, Command, Frame,
    FrameOrKeepAlive, FrameView, Headers, HeadersModel, ItemView};
use crate::wire::{dec_bytes, frame_wf, parse_dec};

verus! {

/// The bytes of a destination or credential string, UTF-8 encoded.
fn utf8_vec(s: &str) -> (r: Vec<u8>)
    ensures
        r@ == vstd::utf8::encode_utf8(s@),
{
    vstd::slice::slice_to_vec(s.as_bytes())
}

/// The canonical decimal rendering of `n`, as owned bytes.
pub fn render_dec(n: u64) -> (r: Vec<u8>)
    ensures
        r@ == dec_bytes(n as int),
{
    let mut acc: Vec<u8> = Vec::new();
    let mut m: u64 = n;
    proof {
        assert(dec_bytes(n as int) =~= dec_bytes(m as int) + acc@);
    }
    while m >= 10
        invariant
            dec_bytes(n as int) == dec_bytes(m as int) + acc@,
        decreases m,
    {
        let d = (m % 10) as u8 + 48;
        proof {
            assert(dec_bytes(m as int) == dec_bytes(m as int / 10).push(
                (48 + m as int % 10) as u8,
            ));
            assert(dec_bytes(m as int / 10).push(d) =~= dec_bytes(m as int / 10) + seq![d]);
            assert(dec_bytes(m as int / 10) + seq![d] + acc@ =~= dec_bytes(m as int / 10) + (
            seq![d] + acc@));
        }
        acc.insert(0, d);
        m = m / 10;
    }
    let d = m as u8 + 48;
    proof {
        assert(dec_bytes(m as int) =~= seq![d]);
    }
    acc.insert(0, d);
    proof {
        assert(acc@ =~= dec_bytes(n as int));
    }
    acc
}

/// The rendering of `n` is all digits and reads back as `n`.
pub proof fn lemma_dec_bytes_value(n: int)
    requires
        n >= 0,
    ensures
        dec_bytes(n).len() > 0,
        crate::wire::all_digits(dec_bytes(n)),
        crate::wire::dec_value(dec_bytes(n)) == n,
    decreases n,
{
    if n < 10 {
        let s = dec_bytes(n);
        assert(s.len() == 1);
        assert(s.last() == (48 + n) as u8);
        assert(s.drop_last() =~= Seq::<u8>::empty());
        assert(crate::wire::dec_value(s.drop_last()) == 0);
        assert((48 + n) as u8 - 48 == n);
    } else {
        lemma_dec_bytes_value(n / 10);
        let s = dec_bytes(n);
        assert(s.drop_last() =~= dec_bytes(n / 10));
        assert(s.last() == (48 + n % 10) as u8);
        vstd::arithmetic::div_mod::lemma_fundamental_div_mod(n, 10);
    }
}

/// The ack-mode token on the wire.
pub open spec fn ack_mode_bytes(m: AckMode) -> Seq<u8> {
    match m {
        AckMode::Auto => ascii_of("auto"@),
        AckMode::ClientIndividual => ascii_of("client-individual"@),
    }
}

/// The ack-mode token as owned bytes.
fn ack_mode_vec(m: &AckMode) -> (r: Vec<u8>)
    ensures
        r@ == ack_mode_bytes(*m),
{
    match m {
        AckMode::Auto => {
            proof {
                reveal_strlit("auto");
            }
            ascii_vec("auto")
        },
        AckMode::ClientIndividual => {
            proof {
                reveal_strlit("client-individual");
            }
            ascii_vec("client-individual")
        },
    }
}

/// A request to close the session, correlated by a receipt id.
#[derive(Clone, Debug, Eq, PartialEq)]
pub struct DisconnectReq {
    pub id: Vec<u8>,
}

/// A request to open a subscription.
#[derive(Clone, Debug, Eq, PartialEq)]
pub struct SubscribeReq {
    pub destination: String,
    pub id: Vec<u8>,
    pub ack_mode: AckMode,
    pub headers: Headers,
}

/// A request to publish a message.
#[derive(Clone, Debug, Eq, PartialEq)]
pub struct PublishReq {
    pub destination: String,
    pub body: Vec<u8>,
}

/// A request to acknowledge one received message.
#[derive(Clone, Debug, Eq, PartialEq)]
pub struct AckReq {
    pub message_id: Vec<u8>,
}

/// The opening handshake request.
#[derive(Clone, Debug, Eq, PartialEq)]
pub struct ConnectReq {
    pub credentials: Option<(String, String)>,
    pub keepalive: Option<u64>,
    pub headers: Headers,
}

/// Everything a client can ask the writer flow to send.
#[derive(Clone, Debug, Eq, PartialEq)]
pub enum ClientReq {
    Disconnect(DisconnectReq),
    Subscribe(SubscribeReq),
    Publish(PublishReq),
    Ack(AckReq),
}

/// The frame of a disconnect request.
pub open spec fn disconnect_frame(id: Seq<u8>) -> FrameView {
    FrameView {
        command: Command::Disconnect,
        headers: hinsert(HeadersModel::empty(), ascii_of("receipt"@), id),
        body: Seq::empty(),
    }
}

/// The frame of a subscribe request: the caller's extra headers with
/// `destination`, `id` and `ack` written over them.
pub open spec fn subscribe_frame(
    extra: HeadersModel,
    destination: Seq<char>,
    id: Seq<u8>,
    mode: AckMode,
) -> FrameView {
    FrameView {
        command: Command::Subscribe,
        headers: hinsert(
            hinsert(
                hinsert(extra, ascii_of("destination"@), vstd::utf8::encode_utf8(destination)),
                ascii_of("id"@),
                id,
            ),
            ascii_of("ack"@),
            ack_mode_bytes(mode),
        ),
        body: Seq::empty(),
    }
}

/// The frame of a publish request: it always announces the body's length.
pub open spec fn publish_frame(destination: Seq<char>, body: Seq<u8>) -> FrameView {
    FrameView {
        command: Command::Send,
        headers: hinsert(
            hinsert(
                HeadersModel::empty(),
                ascii_of("destination"@),
                vstd::utf8::encode_utf8(destination),
            ),
            ascii_of("content-length"@),
            dec_bytes(body.len() as int),
        ),
        body: body,
    }
}

/// The frame of an ack request.
pub open spec fn ack_frame(message_id: Seq<u8>) -> FrameView {
    FrameView {
        command: Command::Ack,
        headers: hinsert(HeadersModel::empty(), ascii_of("id"@), message_id),
        body: Seq::empty(),
    }
}

/// The frame of the opening handshake: the caller's extra headers with
/// `accept-version` written over them, then the heartbeat proposal `c,c`
/// when one is made, then the credentials when given.
pub open spec fn connect_frame(
    extra: HeadersModel,
    keepalive: Option<u64>,
    credentials: Option<(Seq<char>, Seq<char>)>,
) -> FrameView {
    let h1 = hinsert(extra, ascii_of("accept-version"@), ascii_of("1.2"@));
    let h2 = match keepalive {
        Some(ms) => hinsert(
            h1,
            ascii_of("heart-beat"@),
            dec_bytes(ms as int) + seq![44u8] + dec_bytes(ms as int),
        ),
        None => h1,
    };
    let h3 = match credentials {
        Some((user, pass)) => hinsert(
            hinsert(h2, ascii_of("login"@), vstd::utf8::encode_utf8(user)),
            ascii_of("passcode"@),
            vstd::utf8::encode_utf8(pass),
        ),
        None => h2,
    };
    FrameView { command: Command::Connect, headers: h3, body: Seq::empty() }
}

impl DisconnectReq {
    /// Build the `DISCONNECT` frame carrying the receipt id.
    pub fn to_frame(&self) -> (r: Frame)
        ensures
            r@ == disconnect_frame(self.id@),
            r.headers.wf(),
    {
        let mut headers = Headers::new();
        proof {
            reveal_strlit("receipt");
        }
        headers.insert(ascii_vec("receipt"), vstd::slice::slice_to_vec(self.id.as_slice()));
        Frame { command: Command::Disconnect, headers, body: Vec::new() }
    }
}

impl SubscribeReq {
    /// Build the `SUBSCRIBE` frame for this subscription.
    pub fn to_frame(&self) -> (r: Frame)
        ensures
            r@ == subscribe_frame(self.headers@, self.destination@, self.id@, self.ack_mode),
            self.headers.wf() ==> r.headers.wf(),
    {
        let mut headers = self.headers.duplicate();
        proof {
            reveal_strlit("destination");
            reveal_strlit("id");
            reveal_strlit("ack");
        }
        headers.insert(ascii_vec("destination"), utf8_vec(self.destination.as_str()));
        headers.insert(ascii_vec("id"), vstd::slice::slice_to_vec(self.id.as_slice()));
        headers.insert(ascii_vec("ack"), ack_mode_vec(&self.ack_mode));
        Frame { command: Command::Subscribe, headers, body: Vec::new() }
    }
}

impl PublishReq {
    /// Build the `SEND` frame; the body's length is always announced, so a
    /// body holding NUL is well-formed on the wire.
    pub fn to_frame(&self) -> (r: Frame)
        ensures
            r@ == publish_frame(self.destination@, self.body@),
            r.headers.wf(),
            frame_wf(r@),
    {
        let mut headers = Headers::new();
        proof {
            reveal_strlit("destination");
            reveal_strlit("content-length");
        }
        headers.insert(ascii_vec("destination"), utf8_vec(self.destination.as_str()));
        let blen = self.body.len();
        headers.insert(ascii_vec("content-length"), render_dec(blen as u64));
        proof {
            assert(self.body@.len() <= usize::MAX);
            lemma_publish_frame_wf(self.destination@, self.body@);
        }
        Frame { command: Command::Send, headers, body: vstd::slice::slice_to_vec(self.body.as_slice()) }
    }
}

/// A published frame is well-formed: its two keys differ, are non-empty,
/// and its announced length reads back as the body's length.
proof fn lemma_publish_frame_wf(destination: Seq<char>, body: Seq<u8>)
    requires
        body.len() <= usize::MAX,
    ensures
        frame_wf(publish_frame(destination, body)),
{
    reveal_strlit("destination");
    reveal_strlit("content-length");
    let dk = ascii_of("destination"@);
    let ck = ascii_of("content-length"@);
    assert(dk.len() == 11 && ck.len() == 14);
    let f = publish_frame(destination, body);
    let h1 = hinsert(HeadersModel::empty(), dk, vstd::utf8::encode_utf8(destination));
    assert(h1 =~= seq![(dk, vstd::utf8::encode_utf8(destination))]);
    let cl = dec_bytes(body.len() as int);
    assert(dk != ck);
    assert(h1.drop_first() =~= HeadersModel::empty());
    assert(hinsert(h1.drop_first(), ck, cl) =~= seq![(ck, cl)]);
    let dv = vstd::utf8::encode_utf8(destination);
    assert(f.headers =~= seq![(dk, dv), (ck, cl)]);
    lemma_dec_bytes_value(body.len() as int);
    let hs = f.headers;
    assert(hs[0] == (dk, dv) && hs[1] == (ck, cl));
    assert(hs[0].0 != ck);
    assert(hs.drop_first() =~= seq![(ck, cl)]);
    assert(hlookup(hs.drop_first(), ck) == Some(cl));
    assert(hlookup(hs, ck) == Some(cl));
    assert(parse_dec(cl) == Some(body.len() as int));
}

impl AckReq {
    /// Build the `ACK` frame naming the message.
    pub fn to_frame(&self) -> (r: Frame)
        ensures
            r@ == ack_frame(self.message_id@),
            r.headers.wf(),
    {
        let mut headers = Headers::new();
        proof {
            reveal_strlit("id");
        }
        headers.insert(ascii_vec("id"), vstd::slice::slice_to_vec(self.message_id.as_slice()));
        Frame { command: Command::Ack, headers, body: Vec::new() }
    }
}

impl ConnectReq {
    /// Build the `CONNECT` frame of the opening handshake.
    pub fn to_frame(&self) -> (r: Frame)
        ensures
            r@ == connect_frame(
                self.headers@,
                self.keepalive,
                match self.credentials {
                    Some((user, pass)) => Some((user@, pass@)),
                    None => None,
                },
            ),
            self.headers.wf() ==> r.headers.wf(),
    {
        let mut headers = self.headers.duplicate();
        proof {
            reveal_strlit("accept-version");
            reveal_strlit("1.2");
            reveal_strlit("heart-beat");
            reveal_strlit("login");
            reveal_strlit("passcode");
        }
        headers.insert(ascii_vec("accept-version"), ascii_vec("1.2"));
        match &self.keepalive {
            Some(ms) => {
                let mut value = render_dec(*ms);
                value.push(44u8);
                let mut again = render_dec(*ms);
                value.append(&mut again);
                proof {
                    assert(value@ =~= dec_bytes(*ms as int) + seq![44u8] + dec_bytes(*ms as int));
                }
                headers.insert(ascii_vec("heart-beat"), value);
            },
            None => {},
        }
        match &self.credentials {
            Some((user, pass)) => {
                headers.insert(ascii_vec("login"), utf8_vec(user.as_str()));
                headers.insert(ascii_vec("passcode"), utf8_vec(pass.as_str()));
            },
            None => {},
        }
        Frame { command: Command::Connect, headers, body: Vec::new() }
    }
}

/// The routing tables shared by the reader and writer flows: the ids of
/// the open subscriptions and of the awaited receipts.  The embedding
/// program keeps the channel of each id beside this state.
pub struct ConnectionState {
    pub subscriptions: Vec<Vec<u8>>,
    pub receipts: Vec<Vec<u8>>,
}

/// The byte strings held by a list of ids.
pub open spec fn ids_of(v: Seq<Vec<u8>>) -> Seq<Seq<u8>> {
    Seq::new(v.len(), |i: int| v[i]@)
}

/// A subscription id registered: present once after, whether or not it was
/// present before (reusing an id keeps the table unchanged).
pub open spec fn register(ids: Seq<Seq<u8>>, id: Seq<u8>) -> Seq<Seq<u8>> {
    if ids.contains(id) {
        ids
    } else {
        ids.push(id)
    }
}

/// The list with the first occurrence of `id` removed.
pub open spec fn remove_first(ids: Seq<Seq<u8>>, id: Seq<u8>) -> Seq<Seq<u8>>
    decreases ids.len(),
{
    if ids.len() == 0 {
        ids
    } else if ids[0] == id {
        ids.drop_first()
    } else {
        seq![ids[0]] + remove_first(ids.drop_first(), id)
    }
}

impl ConnectionState {
    /// The open subscription ids.
    pub open spec fn subs(&self) -> Seq<Seq<u8>> {
        ids_of(self.subscriptions@)
    }

    /// The awaited receipt ids.
    pub open spec fn rcpts(&self) -> Seq<Seq<u8>> {
        ids_of(self.receipts@)
    }

    /// Drop a subscription whose receiving end is gone; later messages for
    /// it are then dropped rather than delivered.
    pub fn remove_subscription(&mut self, id: &[u8])
        ensures
            final(self).subs() == remove_first(old(self).subs(), id@),
            final(self).rcpts() == old(self).rcpts(),
    {
        if !take_id(&mut self.subscriptions, id) {
            proof {
                lemma_remove_first_absent(old(self).subs(), id@);
            }
        }
    }

    /// Empty routing tables.
    pub fn new() -> (s: ConnectionState)
        ensures
            s.subs() == Seq::<Seq<u8>>::empty(),
            s.rcpts() == Seq::<Seq<u8>>::empty(),
    {
        let s = ConnectionState { subscriptions: Vec::new(), receipts: Vec::new() };
        proof {
            assert(s.subs() =~= Seq::<Seq<u8>>::empty());
            assert(s.rcpts() =~= Seq::<Seq<u8>>::empty());
        }
        s
    }
}

/// No id occurs twice.
pub open spec fn ids_unique(ids: Seq<Seq<u8>>) -> bool {
    forall|i: int, j: int| 0 <= i < j < ids.len() ==> ids[i] != ids[j]
}

/// Registration keeps subscription ids unique within the connection.
pub proof fn lemma_register_keeps_ids_unique(ids: Seq<Seq<u8>>, id: Seq<u8>)
    requires
        ids_unique(ids),
    ensures
        ids_unique(register(ids, id)),
        register(ids, id).contains(id),
{
    if !ids.contains(id) {
        let out = ids.push(id);
        assert(out[ids.len() as int] == id);
        assert forall|i: int, j: int| 0 <= i < j < out.len() implies out[i] != out[j] by {
            if j == ids.len() {
                assert(!ids.contains(id));
                assert(ids[i] != id);
            }
        }
    }
}

/// Whether `id` is one of `ids`.
fn ids_contain(ids: &Vec<Vec<u8>>, id: &[u8]) -> (r: bool)
    ensures
        r == ids_of(ids@).contains(id@),
{
    let n = ids.len();
    let mut i: usize = 0;
    while i < n
        invariant
            0 <= i <= n == ids@.len(),
            forall|j: int| 0 <= j < i ==> ids_of(ids@)[j] != id@,
        decreases n - i,
    {
        if crate::protocol::bytes_eq(ids[i].as_slice(), id) {
            proof {
                assert(ids_of(ids@)[i as int] == id@);
            }
            return true;
        }
        i = i + 1;
    }
    proof {
        assert(!ids_of(ids@).contains(id@)) by {
            assert(forall|j: int| 0 <= j < ids_of(ids@).len() ==> ids_of(ids@)[j] != id@);
        }
    }
    false
}

/// Where a routed item goes, given the open subscription ids.
pub enum RouteView {
    /// A message for a known subscription: hand this frame to it.
    Deliver(Seq<u8>, FrameView),
    /// A receipt: wake its waiter.
    Receipt(Seq<u8>),
    /// Nothing to route: a keep-alive, an unknown subscription, a server
    /// `ERROR`, or an unexpected command.
    Skip,
    /// A malformed item: the required header is missing.
    Refuse,
}

/// The reader flow's dispatch decision for one item, over the open
/// subscription ids: a `MESSAGE` goes to its subscription when known and is
/// dropped when not, and must name one; a `RECEIPT` must name its id; all
/// else is dropped.
pub open spec fn route_item(subs: Seq<Seq<u8>>, item: ItemView) -> RouteView {
    match item {
        ItemView::KeepAlive => RouteView::Skip,
        ItemView::Frame(f) => {
            if f.command == Command::Message {
                match hlookup(f.headers, ascii_of("subscription"@)) {
                    None => RouteView::Refuse,
                    Some(id) => if subs.contains(id) {
                        RouteView::Deliver(id, f)
                    } else {
                        RouteView::Skip
                    },
                }
            } else if f.command == Command::Receipt {
                match hlookup(f.headers, ascii_of("receipt-id"@)) {
                    None => RouteView::Refuse,
                    Some(id) => RouteView::Receipt(id),
                }
            } else {
                RouteView::Skip
            }
        },
    }
}

/// What the writer flow does to the routing state for one request, before
/// the frame goes on the wire.
pub open spec fn writer_effect(req: ClientReq, subs: Seq<Seq<u8>>, rcpts: Seq<Seq<u8>>) -> (
    Seq<Seq<u8>>,
    Seq<Seq<u8>>,
) {
    match req {
        ClientReq::Subscribe(r) => (register(subs, r.id@), rcpts),
        ClientReq::Disconnect(r) => (subs, rcpts.push(r.id@)),
        _ => (subs, rcpts),
    }
}

/// The frame a request puts on the wire.
pub open spec fn request_frame(req: ClientReq) -> FrameView {
    match req {
        ClientReq::Disconnect(r) => disconnect_frame(r.id@),
        ClientReq::Subscribe(r) => subscribe_frame(r.headers@, r.destination@, r.id@, r.ack_mode),
        ClientReq::Publish(r) => publish_frame(r.destination@, r.body@),
        ClientReq::Ack(r) => ack_frame(r.message_id@),
    }
}

/// Handle one client request in the writer flow: mutate the routing state
/// first, then hand back the frame to write.
///
/// A `Subscribe` registers its id before the frame exists to be written, so
/// a `MESSAGE` arriving however soon after the `SUBSCRIBE` finds the route;
/// a `Disconnect` registers its receipt waiter the same way.
pub fn writer_on_request(state: &mut ConnectionState, req: &ClientReq) -> (f: Frame)
    ensures
        f@ == request_frame(*req),
        (final(state).subs(), final(state).rcpts()) == writer_effect(
            *req,
            old(state).subs(),
            old(state).rcpts(),
        ),
        req matches ClientReq::Subscribe(r) ==> final(state).subs().contains(r.id@),
{
    match req {
        ClientReq::Disconnect(r) => {
            let f = r.to_frame();
            state.receipts.push(vstd::slice::slice_to_vec(r.id.as_slice()));
            proof {
                assert(state.rcpts() =~= old(state).rcpts().push(r.id@));
            }
            f
        },
        ClientReq::Subscribe(r) => {
            let f = r.to_frame();
            if !ids_contain(&state.subscriptions, r.id.as_slice()) {
                state.subscriptions.push(vstd::slice::slice_to_vec(r.id.as_slice()));
                proof {
                    assert(state.subs() =~= old(state).subs().push(r.id@));
                    assert(state.subs()[state.subs().len() - 1] == r.id@);
                }
            }
            f
        },
        ClientReq::Publish(r) => r.to_frame(),
        ClientReq::Ack(r) => r.to_frame(),
    }
}

/// What the embedding program must do with one item the reader decoded.
pub enum ReaderAction {
    /// Hand the frame to the channel of this subscription id.
    Deliver(Vec<u8>, Frame),
    /// Signal the waiter of this receipt id; its entry is already removed.
    CompleteReceipt(Vec<u8>),
    /// Nothing: a keep-alive, an unknown id, or an unexpected command
    /// (worth logging, never fatal).
    Ignore,
    /// A protocol violation: fail the connection with this error.
    Fail(StompError),
}

/// Dispatch one item read from the wire.
///
/// The decision is `route_item` over the subscriptions; a routed receipt is
/// also removed from the waiting list, and one nobody awaits is ignored.
pub fn reader_on_item(state: &mut ConnectionState, item: FrameOrKeepAlive) -> (a: ReaderAction)
    ensures
        final(state).subs() == old(state).subs(),
        match route_item(old(state).subs(), item@) {
            RouteView::Deliver(id, fv) => (a matches ReaderAction::Deliver(i, f) && i@ == id && f@
                == fv) && final(state).rcpts() == old(state).rcpts(),
            RouteView::Receipt(id) => if old(state).rcpts().contains(id) {
                (a matches ReaderAction::CompleteReceipt(i) && i@ == id) && final(state).rcpts()
                    == remove_first(old(state).rcpts(), id)
            } else {
                a is Ignore && final(state).rcpts() == old(state).rcpts()
            },
            RouteView::Skip => a is Ignore && final(state).rcpts() == old(state).rcpts(),
            RouteView::Refuse => final(state).rcpts() == old(state).rcpts() && a
                == ReaderAction::Fail(StompError::ProtocolError),
        },
{
    let f = match item {
        FrameOrKeepAlive::KeepAlive => {
            return ReaderAction::Ignore;
        },
        FrameOrKeepAlive::Frame(f) => f,
    };
    if f.command == Command::Message {
        proof {
            reveal_strlit("subscription");
        }
        let key = ascii_vec("subscription");
        let id = match f.headers.get(key.as_slice()) {
            None => {
                return ReaderAction::Fail(StompError::ProtocolError);
            },
            Some(v) => vstd::slice::slice_to_vec(v.as_slice()),
        };
        if ids_contain(&state.subscriptions, id.as_slice()) {
            ReaderAction::Deliver(id, f)
        } else {
            ReaderAction::Ignore
        }
    } else if f.command == Command::Receipt {
        proof {
            reveal_strlit("receipt-id");
        }
        let key = ascii_vec("receipt-id");
        let id = match f.headers.get(key.as_slice()) {
            None => {
                return ReaderAction::Fail(StompError::ProtocolError);
            },
            Some(v) => vstd::slice::slice_to_vec(v.as_slice()),
        };
        if take_id(&mut state.receipts, id.as_slice()) {
            ReaderAction::CompleteReceipt(id)
        } else {
            ReaderAction::Ignore
        }
    } else {
        ReaderAction::Ignore
    }
}

/// Remove the first entry equal to `id`, saying whether one was there.
fn take_id(ids: &mut Vec<Vec<u8>>, id: &[u8]) -> (r: bool)
    ensures
        r == ids_of(old(ids)@).contains(id@),
        r ==> ids_of(final(ids)@) == remove_first(ids_of(old(ids)@), id@),
        !r ==> ids_of(final(ids)@) == ids_of(old(ids)@),
{
    let n = ids.len();
    let mut i: usize = 0;
    while i < n
        invariant
            0 <= i <= n == ids@.len(),
            *ids == *old(ids),
            forall|j: int| 0 <= j < i ==> ids_of(ids@)[j] != id@,
        decreases n - i,
    {
        if crate::protocol::bytes_eq(ids[i].as_slice(), id) {
            proof {
                assert(ids_of(ids@)[i as int] == id@);
                lemma_remove_first_at(ids_of(ids@), id@, i as int);
            }
            ids.remove(i);
            proof {
                assert(ids_of(ids@) =~= ids_of(old(ids)@).remove(i as int));
            }
            return true;
        }
        i = i + 1;
    }
    proof {
        assert(!ids_of(ids@).contains(id@)) by {
            assert(forall|j: int| 0 <= j < ids_of(ids@).len() ==> ids_of(ids@)[j] != id@);
        }
    }
    false
}

/// Removing an absent id changes nothing.
proof fn lemma_remove_first_absent(ids: Seq<Seq<u8>>, id: Seq<u8>)
    requires
        !ids.contains(id),
    ensures
        remove_first(ids, id) == ids,
    decreases ids.len(),
{
    if ids.len() > 0 {
        assert(ids[0] != id);
        assert(!ids.drop_first().contains(id)) by {
            assert forall|j: int|
                0 <= j < ids.drop_first().len() implies ids.drop_first()[j] != id by {
                assert(ids.drop_first()[j] == ids[j + 1]);
            }
        }
        lemma_remove_first_absent(ids.drop_first(), id);
        assert(remove_first(ids, id) =~= ids);
    }
}

/// Removing the first occurrence is removal at the first matching index.
proof fn lemma_remove_first_at(ids: Seq<Seq<u8>>, id: Seq<u8>, i: int)
    requires
        0 <= i < ids.len(),
        ids[i] == id,
        forall|j: int| 0 <= j < i ==> ids[j] != id,
    ensures
        remove_first(ids, id) == ids.remove(i),
        ids.contains(id),
    decreases i,
{
    if i == 0 {
        assert(remove_first(ids, id) =~= ids.remove(0));
    } else {
        assert(forall|j: int|
            0 <= j < i - 1 ==> #[trigger] ids.drop_first()[j] == ids[j + 1]);
        lemma_remove_first_at(ids.drop_first(), id, i - 1);
        assert(ids.drop_first().remove(i - 1) =~= ids.remove(i).drop_first());
        assert(remove_first(ids, id) =~= ids.remove(i));
    }
}

/// Judge the first item the transport yields after `CONNECT` was written,
/// and negotiate the heartbeat intervals against the proposal `keepalive`.
///
/// Success returns the `CONNECTED` frame with the negotiated
/// client-to-server and server-to-client intervals.  Nothing before a frame
/// is tolerated: a closed transport or a leading keep-alive is a protocol
/// error, a server `ERROR` is fatal with that frame inside, and any other
/// command is a protocol error.  A malformed `heart-beat` header surfaces
/// as its own parse error.
pub fn process_connected(item: Option<FrameOrKeepAlive>, keepalive: Option<u64>) -> (r: Result<
    (Frame, Option<u64>, Option<u64>),
    StompError,
>)
    ensures
        match item {
            None => r == Err::<(Frame, Option<u64>, Option<u64>), StompError>(
                StompError::ProtocolError,
            ),
            Some(it) => match it@ {
                ItemView::KeepAlive => r == Err::<(Frame, Option<u64>, Option<u64>), StompError>(
                    StompError::ProtocolError,
                ),
                ItemView::Frame(fv) => {
                    if fv.command == Command::Error {
                        r matches Err(StompError::StompError(e)) && e@ == fv
                    } else if fv.command != Command::Connected {
                        r == Err::<(Frame, Option<u64>, Option<u64>), StompError>(
                            StompError::ProtocolError,
                        )
                    } else {
                        match hlookup(fv.headers, ascii_of("heart-beat"@)) {
                            None => r matches Ok((g, c2s, s2c)) && g@ == fv && c2s is None && s2c
                                is None,
                            Some(v) => match keepalive_spec(v) {
                                Err(e) => r == Err::<(Frame, Option<u64>, Option<u64>), StompError>(
                                    e,
                                ),
                                Ok((sx, sy)) => r matches Ok((g, c2s, s2c)) && g@ == fv && c2s
                                    == negotiated(keepalive, sy) && s2c == negotiated(
                                    keepalive,
                                    sx,
                                ),
                            },
                        }
                    }
                },
            },
        },
{
    let frame = match item {
        None => {
            return Err(StompError::ProtocolError);
        },
        Some(FrameOrKeepAlive::KeepAlive) => {
            return Err(StompError::ProtocolError);
        },
        Some(FrameOrKeepAlive::Frame(f)) => f,
    };
    if frame.command == Command::Error {
        return Err(StompError::StompError(frame));
    }
    if frame.command != Command::Connected {
        return Err(StompError::ProtocolError);
    }
    proof {
        reveal_strlit("heart-beat");
    }
    let key = ascii_vec("heart-beat");
    let sxsy = match frame.headers.get(key.as_slice()) {
        None => crate::pacemaker::parse_keepalive(None),
        Some(v) => crate::pacemaker::parse_keepalive(Some(v.as_slice())),
    };
    let (sx, sy) = match sxsy {
        Err(e) => {
            return Err(e);
        },
        Ok(p) => p,
    };
    let (s2c, c2s) = crate::pacemaker::negotiate(keepalive, sx, sy);
    Ok((frame, c2s, s2c))
}

/// The id to acknowledge, read from a received frame's headers: the `ack`
/// header's value, or the dedicated error when the frame carries none.
pub fn ack_id_of(headers: &Headers) -> (r: Result<Vec<u8>, StompError>)
    ensures
        match hlookup(headers@, ascii_of("ack"@)) {
            Some(v) => r matches Ok(id) && id@ == v,
            None => r == Err::<Vec<u8>, StompError>(StompError::NoAckHeader),
        },
{
    proof {
        reveal_strlit("ack");
    }
    let key = ascii_vec("ack");
    match headers.get(key.as_slice()) {
        Some(v) => Ok(vstd::slice::slice_to_vec(v.as_slice())),
        None => Err(StompError::NoAckHeader),
    }
}

/// Judge a frame pulled from a subscription stream: only `MESSAGE` may
/// reach the consumer; anything else is a protocol error.
pub fn check_consumed(frame: Frame) -> (r: Result<Frame, StompError>)
    ensures
        frame@.command == Command::Message ==> (r matches Ok(f) && f@ == frame@),
        frame@.command != Command::Message ==> r == Err::<Frame, StompError>(
            StompError::ProtocolError,
        ),
{
    if frame.command == Command::Message {
        Ok(frame)
    } else {
        Err(StompError::ProtocolError)
    }
}

/// Whether an item is a `MESSAGE` for the subscription `id`.
pub open spec fn is_message_for(item: ItemView, id: Seq<u8>) -> bool {
    item matches ItemView::Frame(f) && f.command == Command::Message && hlookup(
        f.headers,
        ascii_of("subscription"@),
    ) == Some(id)
}

/// The `MESSAGE` frames for `id` among `items`, in wire order.
pub open spec fn wire_messages_for(items: Seq<ItemView>, id: Seq<u8>) -> Seq<FrameView>
    decreases items.len(),
{
    if items.len() == 0 {
        Seq::empty()
    } else {
        let rest = wire_messages_for(items.drop_first(), id);
        if is_message_for(items[0], id) {
            seq![items[0]->Frame_0] + rest
        } else {
            rest
        }
    }
}

/// The frames the reader delivers to subscription `id` when it dispatches
/// `items` in order against the subscription ids `subs`.
pub open spec fn delivered_to(subs: Seq<Seq<u8>>, items: Seq<ItemView>, id: Seq<u8>) -> Seq<
    FrameView,
>
    decreases items.len(),
{
    if items.len() == 0 {
        Seq::empty()
    } else {
        let rest = delivered_to(subs, items.drop_first(), id);
        match route_item(subs, items[0]) {
            RouteView::Deliver(i, f) => if i == id {
                seq![f] + rest
            } else {
                rest
            },
            _ => rest,
        }
    }
}

/// **Subscribe before send.**  Once the writer has handled a `Subscribe`
/// request, every `MESSAGE` naming that subscription routes to it: none can
/// be lost to routing-table timing, however fast the server answers.
pub proof fn lemma_subscribe_before_send(subs: Seq<Seq<u8>>, id: Seq<u8>, f: FrameView)
    requires
        f.command == Command::Message,
        hlookup(f.headers, ascii_of("subscription"@)) == Some(id),
    ensures
        route_item(register(subs, id), ItemView::Frame(f)) == RouteView::Deliver(id, f),
{
    if !subs.contains(id) {
        assert(register(subs, id)[subs.len() as int] == id);
        assert(register(subs, id).contains(id));
    }
}

/// **Per-subscription ordering.**  For an open subscription, the frames the
/// reader delivers to it are exactly the `MESSAGE` frames naming it, in the
/// order they came off the wire.
pub proof fn lemma_per_subscription_ordering(
    subs: Seq<Seq<u8>>,
    items: Seq<ItemView>,
    id: Seq<u8>,
)
    requires
        subs.contains(id),
    ensures
        delivered_to(subs, items, id) == wire_messages_for(items, id),
    decreases items.len(),
{
    if items.len() > 0 {
        lemma_per_subscription_ordering(subs, items.drop_first(), id);
    }
}

} // verus!
