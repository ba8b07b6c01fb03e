//! The heartbeat pacemaker: interval negotiation, the read timeout, and the
//! decision taken when it fires.
//!
//! All times are milliseconds on a monotonic clock, as `u64`.  Elapsed time
//! is measured with saturating subtraction, so a clock that moves backwards
//! reads as "no time elapsed".

use vstd::prelude::*;

use crate::errors::StompError;
use crate::wire::{all_digits, dec_value};

verus! {

/// An ASCII whitespace byte, as trimmed from protocol fields.
pub open spec fn is_ws(b: u8) -> bool {
    b == 32 || 9 <= b <= 13
}

/// The bytes with ASCII whitespace stripped from both ends.
pub open spec fn trim(s: Seq<u8>) -> Seq<u8>
    decreases s.len(),
{
    if s.len() > 0 && is_ws(s[0]) {
        trim(s.drop_first())
    } else if s.len() > 0 && is_ws(s.last()) {
        trim(s.drop_last())
    } else {
        s
    }
}

/// The position of the first comma, if any.
pub open spec fn first_comma(s: Seq<u8>) -> Option<int>
    decreases s.len(),
{
    if s.len() == 0 {
        None
    } else if s[0] == 44 {
        Some(0)
    } else {
        match first_comma(s.drop_first()) {
            Some(i) => Some(i + 1),
            None => None,
        }
    }
}

/// A decimal interval field: non-empty, digits only, within `u64`.
pub open spec fn parse_dec64(s: Seq<u8>) -> Option<int> {
    if s.len() > 0 && all_digits(s) && dec_value(s) <= u64::MAX {
        Some(dec_value(s))
    } else {
        None
    }
}

/// Zero milliseconds means "this direction is disabled".
pub open spec fn non_zero(n: int) -> Option<u64> {
    if n == 0 {
        None
    } else {
        Some(n as u64)
    }
}

/// What the `heart-beat` header value denotes: `(sx, sy)` intervals with
/// zero as none; or the error it raises.  Bytes outside ASCII are refused as
/// text, a missing comma as a protocol error, and a bad number as a numeric
/// error — the first number is read before the comma is required.
pub open spec fn keepalive_spec(v: Seq<u8>) -> Result<(Option<u64>, Option<u64>), StompError> {
    if exists|i: int| 0 <= i < v.len() && v[i] >= 128 {
        Err(StompError::Utf8)
    } else {
        let t = trim(v);
        let p1 = match first_comma(t) {
            Some(c) => t.take(c),
            None => t,
        };
        match parse_dec64(p1) {
            None => Err(StompError::ParseInt),
            Some(sx) => match first_comma(t) {
                None => Err(StompError::ProtocolError),
                Some(c) => match parse_dec64(t.skip(c + 1)) {
                    None => Err(StompError::ParseInt),
                    Some(sy) => Ok((non_zero(sx), non_zero(sy))),
                },
            },
        }
    }
}

/// Strip ASCII whitespace from both ends of `s`.
fn trim_slice(s: &[u8]) -> (r: &[u8])
    ensures
        r@ == trim(s@),
{
    let mut f: usize = 0;
    let mut l: usize = s.len();
    proof {
        assert(s@.subrange(0, s@.len() as int) =~= s@);
    }
    loop
        invariant
            0 <= f <= l <= s@.len(),
            trim(s@) == trim(s@.subrange(f as int, l as int)),
        ensures
            trim(s@) == s@.subrange(f as int, l as int),
        decreases l - f,
    {
        if f == l {
            proof {
                assert(s@.subrange(f as int, l as int).len() == 0);
            }
            break;
        }
        let b = s[f];
        if b == 32 || (9 <= b && b <= 13) {
            proof {
                assert(s@.subrange(f as int, l as int).drop_first() =~= s@.subrange(
                    f as int + 1,
                    l as int,
                ));
            }
            f = f + 1;
        } else {
            let e = s[l - 1];
            if e == 32 || (9 <= e && e <= 13) {
                proof {
                    assert(s@.subrange(f as int, l as int)[0] == s@[f as int]);
                    assert(s@.subrange(f as int, l as int).drop_last() =~= s@.subrange(
                        f as int,
                        l as int - 1,
                    ));
                }
                l = l - 1;
            } else {
                proof {
                    let sub = s@.subrange(f as int, l as int);
                    assert(sub[0] == s@[f as int]);
                    assert(sub.last() == s@[l as int - 1]);
                    assert(trim(sub) == sub);
                }
                break;
            }
        }
    }
    vstd::slice::slice_subrange(s, f, l)
}

/// The position of the first comma in `s`, if any.
fn find_comma(s: &[u8]) -> (r: Option<usize>)
    ensures
        match r {
            Some(c) => first_comma(s@) == Some(c as int) && c < s@.len(),
            None => first_comma(s@) is None,
        },
{
    let n = s.len();
    let mut i: usize = 0;
    proof {
        lemma_first_comma_props(s@);
    }
    while i < n
        invariant
            0 <= i <= n == s@.len(),
            forall|j: int| 0 <= j < i ==> s@[j] != 44,
        decreases n - i,
    {
        if s[i] == 44u8 {
            proof {
                lemma_first_comma_props(s@);
            }
            return Some(i);
        }
        i = i + 1;
    }
    None
}

/// The first comma is a comma, sits inside the buffer, and nothing before
/// it is one; without a comma there is none.
proof fn lemma_first_comma_props(s: Seq<u8>)
    ensures
        match first_comma(s) {
            Some(c) => 0 <= c < s.len() && s[c] == 44 && forall|j: int|
                0 <= j < c ==> s[j] != 44,
            None => forall|j: int| 0 <= j < s.len() ==> s[j] != 44,
        },
    decreases s.len(),
{
    if s.len() > 0 && s[0] != 44 {
        lemma_first_comma_props(s.drop_first());
        match first_comma(s.drop_first()) {
            Some(c2) => {
                assert(s.drop_first()[c2] == s[c2 + 1]);
                assert forall|j: int| 0 <= j < c2 + 1 implies s[j] != 44 by {
                    if j > 0 {
                        assert(s.drop_first()[j - 1] == s[j]);
                    }
                }
            },
            None => {
                assert forall|j: int| 0 <= j < s.len() implies s[j] != 44 by {
                    if j > 0 {
                        assert(s.drop_first()[j - 1] == s[j]);
                    }
                }
            },
        }
    }
}

/// Read a whole `u64` decimal field, refusing what `parse_dec64` refuses.
fn dec64_of_bytes(v: &[u8]) -> (r: Option<u64>)
    ensures
        match r {
            Some(n) => parse_dec64(v@) == Some(n as int),
            None => parse_dec64(v@) is None,
        },
{
    let n = v.len();
    if n == 0 {
        return None;
    }
    let mut acc: u128 = 0;
    let mut i: usize = 0;
    proof {
        assert(v@.take(0) =~= Seq::<u8>::empty());
    }
    while i < n
        invariant
            n == v@.len(),
            0 <= i <= n,
            all_digits(v@.take(i as int)),
            acc == dec_value(v@.take(i as int)),
            acc <= u64::MAX,
        decreases n - i,
    {
        let b = v[i];
        if b < 48 || b > 57 {
            proof {
                assert(!crate::wire::is_digit(v@[i as int]));
            }
            return None;
        }
        let d = (b - 48) as u128;
        let next = acc * 10 + d;
        proof {
            assert(v@.take(i as int + 1).drop_last() =~= v@.take(i as int));
            assert(v@.take(i as int + 1).last() == v@[i as int]);
        }
        if next > u64::MAX as u128 {
            proof {
                if all_digits(v@) {
                    crate::parser::lemma_dec_value_grows(v@, i as int + 1);
                }
            }
            return None;
        }
        acc = next;
        i = i + 1;
    }
    proof {
        assert(v@.take(n as int) =~= v@);
    }
    Some(acc as u64)
}

/// Whether any byte of `s` is outside ASCII.
fn has_high_byte(s: &[u8]) -> (r: bool)
    ensures
        r == exists|i: int| 0 <= i < s@.len() && s@[i] >= 128,
{
    let n = s.len();
    let mut i: usize = 0;
    while i < n
        invariant
            0 <= i <= n == s@.len(),
            forall|j: int| 0 <= j < i ==> s@[j] < 128,
        decreases n - i,
    {
        if s[i] >= 128 {
            return true;
        }
        i = i + 1;
    }
    false
}

/// Read the server's `heart-beat` header: `sx,sy` in milliseconds, zero
/// meaning disabled.  An absent header means both directions disabled.
pub fn parse_keepalive(headervalue: Option<&[u8]>) -> (r: Result<
    (Option<u64>, Option<u64>),
    StompError,
>)
    ensures
        match headervalue {
            None => r == Ok::<(Option<u64>, Option<u64>), StompError>((None, None)),
            Some(v) => r == keepalive_spec(v@),
        },
{
    let v = match headervalue {
        None => {
            return Ok((None, None));
        },
        Some(v) => v,
    };
    if has_high_byte(v) {
        return Err(StompError::Utf8);
    }
    let t = trim_slice(v);
    let comma = find_comma(t);
    let p1 = match comma {
        Some(c) => vstd::slice::slice_subrange(t, 0, c),
        None => t,
    };
    proof {
        match first_comma(t@) {
            Some(c) => {
                assert(t@.subrange(0, c) =~= t@.take(c));
            },
            None => {},
        }
    }
    let sx = match dec64_of_bytes(p1) {
        None => {
            return Err(StompError::ParseInt);
        },
        Some(sx) => sx,
    };
    let c = match comma {
        None => {
            return Err(StompError::ProtocolError);
        },
        Some(c) => c,
    };
    let tl = t.len();
    let p2 = vstd::slice::slice_subrange(t, c + 1, tl);
    proof {
        assert(t@.subrange(c as int + 1, t@.len() as int) =~= t@.skip(c as int + 1));
    }
    let sy = match dec64_of_bytes(p2) {
        None => {
            return Err(StompError::ParseInt);
        },
        Some(sy) => sy,
    };
    Ok((some_non_zero(sx), some_non_zero(sy)))
}

/// A zero interval stands for "disabled": it becomes none.
pub fn some_non_zero(dur: u64) -> (r: Option<u64>)
    ensures
        r == non_zero(dur as int),
{
    if dur == 0 {
        None
    } else {
        Some(dur)
    }
}

/// One direction of the negotiation: active only when both sides want it,
/// then the larger of the two intervals.
pub open spec fn negotiated(client: Option<u64>, server: Option<u64>) -> Option<u64> {
    match (client, server) {
        (Some(c), Some(s)) => Some(
            if c >= s {
                c
            } else {
                s
            },
        ),
        _ => None,
    }
}

/// Negotiate both directions from the client proposal `c` and the server's
/// `sx` (server sends) and `sy` (server expects).  A direction is enabled
/// only when both sides propose it; the negotiated interval is the larger
/// proposal; an absent client proposal disables everything.
pub fn negotiate(client: Option<u64>, sx: Option<u64>, sy: Option<u64>) -> (r: (
    Option<u64>,
    Option<u64>,
))
    ensures
        r.0 == negotiated(client, sx),
        r.1 == negotiated(client, sy),
{
    let s2c = match (client, sx) {
        (Some(c), Some(s)) => Some(
            if c >= s {
                c
            } else {
                s
            },
        ),
        _ => None,
    };
    let c2s = match (client, sy) {
        (Some(c), Some(s)) => Some(
            if c >= s {
                c
            } else {
                s
            },
        ),
        _ => None,
    };
    (s2c, c2s)
}

/// Saturating difference: a clock that moved backwards reads as zero.
pub open spec fn sat_sub(a: int, b: int) -> int {
    if a >= b {
        a - b
    } else {
        0
    }
}

/// Arithmetic on the millisecond clock is capped at the largest `u64`.
pub open spec fn cap64(x: int) -> int {
    if x <= u64::MAX {
        x
    } else {
        u64::MAX as int
    }
}

/// What the pacemaker decides when the read timeout fires.
#[derive(Clone, Copy, Debug, Eq, PartialEq, Structural)]
pub enum BeatAction {
    /// Time to write a single line feed and record a write.
    SendClientHeart,
    /// The peer has been silent too long: fail the connection.
    PeerFailed,
    /// Neither deadline reached: keep waiting.
    Retry,
}

/// The heartbeat state of one connection: the negotiated intervals and the
/// moments of the last observed read and write.
#[derive(Clone, Copy, Debug, Eq, PartialEq, Structural)]
pub struct Pacemaker {
    /// Interval at which this client must write, if enabled.
    pub c2s: Option<u64>,
    /// Interval at which the server promises to write, if enabled.
    pub s2c: Option<u64>,
    /// The moment of the most recent successful read.
    pub last_read: u64,
    /// The moment of the most recent successful write.
    pub last_write: u64,
}

/// The smallest timeout handed out when a deadline is already past, so the
/// caller wakes at once instead of blocking.
pub const EPSILON_MS: u64 = 1;

/// The inbound grace factor: the peer is dead after twice its interval.
pub const READ_FACTOR: u64 = 2;

impl Pacemaker {
    /// Start observing at the connect moment `now`.
    pub fn new(c2s: Option<u64>, s2c: Option<u64>, now: u64) -> (p: Pacemaker)
        ensures
            p.c2s == c2s,
            p.s2c == s2c,
            p.last_read == now,
            p.last_write == now,
    {
        Pacemaker { c2s, s2c, last_read: now, last_write: now }
    }

    /// Record a successful read at `now`.
    pub fn observe_read(&mut self, now: u64)
        ensures
            *final(self) == (Pacemaker { last_read: now, ..*old(self) }),
    {
        self.last_read = now;
    }

    /// Record a successful write at `now`.
    pub fn observe_write(&mut self, now: u64)
        ensures
            *final(self) == (Pacemaker { last_write: now, ..*old(self) }),
    {
        self.last_write = now;
    }

    /// The inbound wait: until twice the inbound interval of silence, as
    /// `(last_read + s2c - now) * 2`, with saturating subtraction and the
    /// sums capped at the clock's range.
    pub open spec fn until_read(&self, now: int) -> Option<int> {
        match self.s2c {
            Some(r) => Some(cap64(sat_sub(cap64(self.last_read + r), now) * 2)),
            None => None,
        }
    }

    /// The outbound wait: half the time left to the outbound deadline, as
    /// `(last_write + c2s - now) / 2`, with saturating subtraction and the
    /// sum capped at the clock's range.
    pub open spec fn until_write(&self, now: int) -> Option<int> {
        match self.c2s {
            Some(w) => Some(sat_sub(cap64(self.last_write + w), now) / 2),
            None => None,
        }
    }

    /// The timeout to apply to the next read: the smaller of the two waits,
    /// never below `EPSILON_MS` so a passed deadline wakes at once; none
    /// when both directions are disabled (block indefinitely).
    pub open spec fn timeout_spec(&self, now: int) -> Option<int> {
        let m = match (self.until_read(now), self.until_write(now)) {
            (Some(a), Some(b)) => Some(
                if a <= b {
                    a
                } else {
                    b
                },
            ),
            (Some(a), None) => Some(a),
            (None, Some(b)) => Some(b),
            (None, None) => None,
        };
        match m {
            Some(v) => Some(
                if v == 0 {
                    EPSILON_MS as int
                } else {
                    v
                },
            ),
            None => None,
        }
    }

    /// Compute the next read timeout at `now`.
    pub fn next_timeout(&self, now: u64) -> (r: Option<u64>)
        ensures
            match r {
                Some(v) => self.timeout_spec(now as int) == Some(v as int),
                None => self.timeout_spec(now as int) is None,
            },
    {
        let ur: Option<u64> = match self.s2c {
            Some(r) => {
                let deadline = sat_add64(self.last_read, r);
                let left = sat_sub64(deadline, now);
                Some(
                    if left > u64::MAX / 2 {
                        u64::MAX
                    } else {
                        left * 2
                    },
                )
            },
            None => None,
        };
        let uw: Option<u64> = match self.c2s {
            Some(w) => {
                let deadline = sat_add64(self.last_write, w);
                Some(sat_sub64(deadline, now) / 2)
            },
            None => None,
        };
        let m = match (ur, uw) {
            (Some(a), Some(b)) => Some(
                if a <= b {
                    a
                } else {
                    b
                },
            ),
            (Some(a), None) => Some(a),
            (None, Some(b)) => Some(b),
            (None, None) => None,
        };
        match m {
            Some(v) => {
                if v == 0 {
                    Some(EPSILON_MS)
                } else {
                    Some(v)
                }
            },
            None => None,
        }
    }

    /// Decide what a fired read timeout means at `now`.
    ///
    /// Outbound is checked first: writing a heartbeat is cheaper than
    /// declaring the peer dead.  The client heart beats when a full
    /// outbound interval has passed without a write; the peer has failed
    /// when twice the inbound interval has passed without a read.
    pub fn on_timeout(&self, now: u64) -> (r: BeatAction)
        ensures
            r == BeatAction::SendClientHeart <==> (self.c2s matches Some(w) && sat_sub(
                now as int,
                self.last_write as int,
            ) >= w),
            r == BeatAction::PeerFailed <==> (!(self.c2s matches Some(w) && sat_sub(
                now as int,
                self.last_write as int,
            ) >= w) && (self.s2c matches Some(x) && sat_sub(now as int, self.last_read as int)
                >= READ_FACTOR * x)),
    {
        match self.c2s {
            Some(w) => {
                let idle = sat_sub64(now, self.last_write);
                if idle >= w {
                    return BeatAction::SendClientHeart;
                }
            },
            None => {},
        }
        match self.s2c {
            Some(x) => {
                let idle = sat_sub64(now, self.last_read);
                if (idle as u128) >= (READ_FACTOR as u128) * (x as u128) {
                    return BeatAction::PeerFailed;
                }
            },
            None => {},
        }
        BeatAction::Retry
    }
}

/// `a - b`, floored at zero.
fn sat_sub64(a: u64, b: u64) -> (r: u64)
    ensures
        r as int == sat_sub(a as int, b as int),
{
    if a >= b {
        a - b
    } else {
        0
    }
}

/// `a + b`, capped at the largest `u64`.
fn sat_add64(a: u64, b: u64) -> (r: u64)
    ensures
        r as int == cap64(a + b),
{
    if a <= u64::MAX - b {
        a + b
    } else {
        u64::MAX
    }
}

} // verus!
