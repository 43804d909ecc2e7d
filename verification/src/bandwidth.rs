//! Limits on the rate of a transfer, by token buckets.
//!
//! A bucket holds byte allowances, counted in billionths of a byte, so that
//! the share that a nanosecond adds is exact.

use vstd::arithmetic::power2::pow2;
use vstd::prelude::*;
use vstd::string::*;

use crate::decimal::{
    all_digits, capped, decimal_of, is_digit, law_digits_around_point_are_read,
    law_digits_spell_by_place, law_whole_numbers_are_read, lemma_pow10_pos, number_of, pow10,
    read_decimal, read_whole, unsigned_part, whole_number, with_point, ReadDecimal,
};
use crate::double::{
    denominator, does_vanish, law_exact_quotients_are_kept, numerator, scale_as_double, vanishes,
    whole_of_double,
};
use crate::text::{
    all_white, chars_of, law_outer_white_space_is_dropped, lowercase_of, str_eq, string_of,
    to_lowercase, trim, trimmed,
};
pub use crate::units::format_bandwidth;

verus! {

/// Parts that a byte is counted in.
pub const PARTS_PER_BYTE: u64 = 1_000_000_000;

/// A bucket as a value.
pub ghost struct BucketView {
    /// Bytes per second.
    pub rate: nat,
    /// Allowance left, in parts of a byte; negative where more was sent than
    /// was allowed.
    pub tokens: int,
    /// Most allowance that is saved up, in parts of a byte.
    pub capacity: nat,
    /// When the allowance was last brought up to date, in nanoseconds.
    pub last_refill: nat,
}

impl BucketView {
    /// The bucket brought up to date: what the time since then adds, up to the
    /// capacity.
    pub open spec fn refilled(self, now: nat) -> BucketView {
        let passed = if now > self.last_refill {
            (now - self.last_refill) as nat
        } else {
            0
        };
        let sum = self.tokens + passed * self.rate;
        BucketView {
            tokens: if sum < self.capacity {
                sum
            } else {
                self.capacity as int
            },
            last_refill: now,
            ..self
        }
    }

    /// Whether the allowance is enough for `parts`.
    pub open spec fn enough(self, parts: int, now: nat) -> bool {
        self.refilled(now).tokens >= parts
    }

    /// The bucket after `parts` were used: what is missing is owed.
    pub open spec fn used(self, parts: int, now: nat) -> BucketView {
        let b = self.refilled(now);
        BucketView {
            tokens: if b.tokens - parts > debt_floor() {
                b.tokens - parts
            } else {
                debt_floor()
            },
            ..b
        }
    }

    /// The bucket after `parts` were asked for: they are used where the
    /// allowance is enough, and else nothing is.
    pub open spec fn asked(self, parts: int, now: nat) -> BucketView {
        if self.enough(parts, now) {
            self.used(parts, now)
        } else {
            self.refilled(now)
        }
    }

    /// How long to wait for `parts`, where one has to.
    pub open spec fn told(self, parts: int, now: nat) -> Option<int> {
        if self.enough(parts, now) {
            None
        } else {
            Some(self.refilled(now).wait_for(parts))
        }
    }

    /// Nanoseconds until the allowance reaches `parts`.
    pub open spec fn wait_for(self, parts: int) -> int {
        (parts - self.tokens + self.rate - 1) / (self.rate as int)
    }
}

/// A token bucket.
#[derive(Debug, Clone, Copy)]
pub struct TokenBucket {
    rate: u64,
    tokens: i128,
    capacity: u128,
    last_refill: u64,
}

impl View for TokenBucket {
    type V = BucketView;

    closed spec fn view(&self) -> BucketView {
        BucketView {
            rate: self.rate as nat,
            tokens: self.tokens as int,
            capacity: self.capacity as nat,
            last_refill: self.last_refill as nat,
        }
    }
}

/// The least allowance that is kept track of.
pub open spec fn debt_floor() -> int {
    -0x4000_0000_0000_0000_0000_0000_0000_0000
}

impl TokenBucket {
    pub closed spec fn wf(&self) -> bool {
        &&& self.tokens >= debt_floor()
        &&& self.tokens <= 0x1_0000_0000_0000_0000 * PARTS_PER_BYTE
        &&& self.capacity <= 0x1_0000_0000_0000_0000 * PARTS_PER_BYTE
    }

    /// A full bucket that saves up two seconds of a rate.
    pub fn new(max_bytes_per_sec: u64, now: u64) -> (r: Self)
        requires
            max_bytes_per_sec * 2 <= u64::MAX,
        ensures
            r.wf(),
            r@ == (BucketView {
                rate: max_bytes_per_sec as nat,
                tokens: max_bytes_per_sec * 2 * PARTS_PER_BYTE,
                capacity: (max_bytes_per_sec * 2 * PARTS_PER_BYTE) as nat,
                last_refill: now as nat,
            }),
    {
        let capacity: u128 = max_bytes_per_sec as u128 * 2_000_000_000;
        TokenBucket {
            rate: max_bytes_per_sec,
            tokens: capacity as i128,
            capacity,
            last_refill: now,
        }
    }

    fn refill(&mut self, now: u64)
        requires
            old(self).wf(),
        ensures
            final(self).wf(),
            final(self)@ == old(self)@.refilled(now as nat),
    {
        let passed: u64 = now.saturating_sub(self.last_refill);
        proof {
            let p = passed as int;
            let r = self.rate as int;
            assert(0 <= p * r <= 0xffff_ffff_ffff_ffff * 0xffff_ffff_ffff_ffff) by (nonlinear_arith)
                requires
                    0 <= p <= 0xffff_ffff_ffff_ffff,
                    0 <= r <= 0xffff_ffff_ffff_ffff,
            ;
        }
        let added: u128 = passed as u128 * self.rate as u128;
        if self.tokens < 0 {
            let debt: u128 = (-self.tokens) as u128;
            if added >= debt {
                let sum: u128 = added - debt;
                self.tokens = if sum < self.capacity {
                    sum as i128
                } else {
                    self.capacity as i128
                };
            } else {
                self.tokens = -((debt - added) as i128);
            }
        } else {
            let room: u128 = if self.capacity > self.tokens as u128 {
                self.capacity - self.tokens as u128
            } else {
                0
            };
            self.tokens = if added < room {
                self.tokens + added as i128
            } else {
                self.capacity as i128
            };
        }
        self.last_refill = now;
    }

    /// Asks to send `bytes`. Where the allowance is enough it is used; else
    /// comes back how many nanoseconds to wait, and after that
    /// [`TokenBucket::settle`] is owed.
    pub fn take(&mut self, bytes: usize, now: u64) -> (r: Option<u128>)
        requires
            old(self).wf(),
            old(self)@.rate > 0,
        ensures
            final(self).wf(),
            final(self)@ == old(self)@.asked(bytes * PARTS_PER_BYTE, now as nat),
            match old(self)@.told(bytes * PARTS_PER_BYTE, now as nat) {
                Some(wait) => r matches Some(w) && w == wait,
                None => r is None,
            },
    {
        self.refill(now);
        let parts: u128 = bytes as u128 * 1_000_000_000;
        if self.tokens >= 0 && self.tokens as u128 >= parts {
            self.tokens = self.tokens - parts as i128;
            return None;
        }
        let short: u128 = if self.tokens < 0 {
            parts + (-self.tokens) as u128
        } else {
            parts - self.tokens as u128
        };
        let rate: u128 = self.rate as u128;
        Some((short + (rate - 1)) / rate)
    }

    /// Uses the allowance for `bytes` after a wait; what is missing is owed.
    pub fn settle(&mut self, bytes: usize, now: u64)
        requires
            old(self).wf(),
        ensures
            final(self).wf(),
            final(self)@ == old(self)@.used(bytes * PARTS_PER_BYTE, now as nat),
    {
        self.refill(now);
        let parts: i128 = bytes as i128 * 1_000_000_000;
        let floor: i128 = -0x4000_0000_0000_0000_0000_0000_0000_0000;
        let left: i128 = self.tokens - parts;
        self.tokens = if left > floor {
            left
        } else {
            floor
        };
    }
}

/// A limiter on what is sent, or none.
#[derive(Debug, Clone, Copy)]
pub struct BandwidthLimiter {
    pub max_bytes_per_sec: u64,
    pub bucket: TokenBucket,
}

impl BandwidthLimiter {
    pub open spec fn wf(&self) -> bool {
        self.bucket.wf() && self.bucket@.rate == self.max_bytes_per_sec
    }

    /// A limiter to `max_bytes_per_sec`; 0 for no limit.
    pub fn new(max_bytes_per_sec: u64, now: u64) -> (r: Self)
        requires
            max_bytes_per_sec * 2 <= u64::MAX,
        ensures
            r.wf(),
            r.max_bytes_per_sec == max_bytes_per_sec,
            r.bucket@.tokens == max_bytes_per_sec * 2 * PARTS_PER_BYTE,
            r.bucket@.capacity == max_bytes_per_sec * 2 * PARTS_PER_BYTE,
            r.bucket@.last_refill == now,
    {
        BandwidthLimiter { max_bytes_per_sec, bucket: TokenBucket::new(max_bytes_per_sec, now) }
    }

    /// No limit.
    pub fn unlimited(now: u64) -> (r: Self)
        ensures
            r.wf(),
            r.max_bytes_per_sec == 0,
            r.bucket@ == (BucketView { rate: 0, tokens: 0, capacity: 0, last_refill: now as nat }),
    {
        Self::new(0, now)
    }

    /// Whether there is a limit.
    pub fn is_enabled(&self) -> (r: bool)
        ensures
            r == (self.max_bytes_per_sec > 0),
    {
        self.max_bytes_per_sec > 0
    }

    pub fn max_bytes_per_sec(&self) -> (r: u64)
        ensures
            r == self.max_bytes_per_sec,
    {
        self.max_bytes_per_sec
    }

    /// Asks to send `bytes`: how many nanoseconds to wait, or none.
    pub fn wait_for_tokens(&mut self, bytes: usize, now: u64) -> (r: Option<u128>)
        requires
            old(self).wf(),
        ensures
            final(self).wf(),
            final(self).max_bytes_per_sec == old(self).max_bytes_per_sec,
            old(self).max_bytes_per_sec == 0 ==> r is None && final(self).bucket == old(self).bucket,
            old(self).max_bytes_per_sec > 0 ==> {
                let b = old(self).bucket@;
                let parts = bytes * PARTS_PER_BYTE;
                &&& final(self).bucket@ == b.asked(parts, now as nat)
                &&& match b.told(parts, now as nat) {
                    Some(wait) => r matches Some(w) && w == wait,
                    None => r is None,
                }
            },
    {
        if self.max_bytes_per_sec == 0 {
            return None;
        }
        self.bucket.take(bytes, now)
    }
}

/// After the wait that is asked for, the allowance is enough: at the time
/// `now + wait` the bucket holds what was asked for, unless that is more than
/// it can hold.
pub proof fn law_wait_suffices(b: BucketView, parts: int, now: nat)
    requires
        b.rate > 0,
        b.last_refill == now,
        b.tokens < parts <= b.capacity,
    ensures
        b.wait_for(parts) >= 0,
        b.refilled((now + b.wait_for(parts)) as nat).tokens >= parts,
{
    let short = parts - b.tokens;
    let r = b.rate as int;
    let n = short + r - 1;
    let w = b.wait_for(parts);
    vstd::arithmetic::div_mod::lemma_fundamental_div_mod(n, r);
    assert(w * r >= short) by (nonlinear_arith)
        requires
            n == r * w + n % r,
            0 <= n % r < r,
            n == short + r - 1,
    ;
    assert(w >= 0) by (nonlinear_arith)
        requires
            w * r >= short,
            short > 0,
            r > 0,
    ;
}

/// Something that was sent: its size in parts of a byte, when it was asked
/// for, and when its allowance was used.
pub ghost struct Request {
    pub parts: nat,
    pub asked: nat,
    pub used: nat,
}

impl BucketView {
    /// Whether a request is served as it should: at once where the allowance
    /// is enough, else after the wait that is asked for, or later.
    pub open spec fn serves(self, q: Request) -> bool {
        &&& q.asked >= self.last_refill
        &&& q.parts <= -debt_floor()
        &&& match self.told(q.parts as int, q.asked) {
            None => q.used == q.asked,
            Some(wait) => q.used >= q.asked + wait,
        }
    }

    /// The bucket after a request was served.
    pub open spec fn served(self, q: Request) -> BucketView {
        let b = self.asked(q.parts as int, q.asked);
        match self.told(q.parts as int, q.asked) {
            None => b,
            Some(_) => b.used(q.parts as int, q.used),
        }
    }
}

/// The bucket after each of the requests, in order.
pub open spec fn all_served(b: BucketView, requests: Seq<Request>) -> BucketView
    decreases requests.len(),
{
    if requests.len() == 0 {
        b
    } else {
        all_served(b, requests.drop_last()).served(requests.last())
    }
}

/// Whether each of the requests is served as it should.
pub open spec fn serves_all(b: BucketView, requests: Seq<Request>) -> bool
    decreases requests.len(),
{
    requests.len() > 0 ==> {
        &&& serves_all(b, requests.drop_last())
        &&& all_served(b, requests.drop_last()).serves(requests.last())
    }
}

/// The size of all requests together.
pub open spec fn total_parts(requests: Seq<Request>) -> nat
    decreases requests.len(),
{
    if requests.len() == 0 {
        0
    } else {
        total_parts(requests.drop_last()) + requests.last().parts
    }
}

/// The rate is kept: over any run of requests, whether served at once or after
/// a wait, and however large, no more is sent than the bucket held at the start
/// and the rate allows for the time that passed.
pub proof fn law_rate_is_kept(b: BucketView, requests: Seq<Request>)
    requires
        b.rate > 0,
        b.tokens >= 0,
        serves_all(b, requests),
    ensures
        ({
            let end = all_served(b, requests);
            let allowed = b.tokens + (end.last_refill - b.last_refill) * b.rate;
            &&& end.rate == b.rate
            &&& end.last_refill == (if requests.len() == 0 {
                b.last_refill
            } else {
                requests.last().used
            })
            &&& total_parts(requests) + end.tokens <= allowed
            &&& total_parts(requests) <= allowed
        }),
    decreases requests.len(),
{
    if requests.len() == 0 {
        assert((b.last_refill - b.last_refill) * b.rate == 0) by (nonlinear_arith);
    } else {
        let q = requests.last();
        let before = all_served(b, requests.drop_last());
        law_rate_is_kept(b, requests.drop_last());
        let asked = before.refilled(q.asked);
        let start = b.last_refill as int;
        let mid = before.last_refill as int;
        let rate = b.rate as int;
        assert((q.used - start) * rate == (q.used - q.asked) * rate + (q.asked - mid) * rate + (mid
            - start) * rate) by (nonlinear_arith);
        assert(asked.tokens <= before.tokens + (q.asked - mid) * rate);
        if asked.tokens < q.parts {
            let wait = asked.wait_for(q.parts as int);
            lemma_wait_covers(asked, q.parts as int);
            assert((q.used - q.asked) * rate >= wait * rate) by (nonlinear_arith)
                requires
                    q.used - q.asked >= wait,
                    rate > 0,
            ;
            let later = asked.refilled(q.used);
            assert(later.tokens <= asked.tokens + (q.used - q.asked) * rate);
            assert(later.tokens >= 0);
        } else {
            assert((q.used - q.asked) * rate == 0) by (nonlinear_arith)
                requires
                    q.used == q.asked,
            ;
        }
    }
}

proof fn lemma_wait_covers(b: BucketView, parts: int)
    requires
        b.rate > 0,
        b.tokens < parts,
    ensures
        b.wait_for(parts) > 0,
        b.tokens + b.wait_for(parts) * b.rate >= parts,
{
    let short = parts - b.tokens;
    let rate = b.rate as int;
    let n = short + rate - 1;
    vstd::arithmetic::div_mod::lemma_fundamental_div_mod(n, rate);
    vstd::arithmetic::div_mod::lemma_mod_bound(n, rate);
    let w = n / rate;
    assert(w * rate >= short) by (nonlinear_arith)
        requires
            n == rate * w + n % rate,
            n % rate < rate,
            n == short + rate - 1,
    ;
    assert(w > 0) by (nonlinear_arith)
        requires
            w * rate >= short,
            short > 0,
            rate > 0,
    ;
}

/// The relay's limiter: packets beyond the rate are dropped, and half a second
/// of it is saved up.
#[derive(Debug, Clone, Copy)]
pub struct RelayLimiter {
    cap: u64,
    tokens: u128,
    last: u64,
}

/// The relay's limiter as a value.
pub ghost struct RelayLimiterView {
    pub cap: nat,
    pub tokens: nat,
    pub last: nat,
}

impl RelayLimiterView {
    /// The limiter brought up to date.
    pub open spec fn refilled(self, now: nat) -> RelayLimiterView {
        let passed = if now > self.last {
            (now - self.last) as nat
        } else {
            0
        };
        let sum = self.tokens + passed * self.cap;
        let burst = (self.cap * (PARTS_PER_BYTE / 2)) as nat;
        RelayLimiterView {
            tokens: if sum < burst {
                sum
            } else {
                burst
            },
            last: now,
            ..self
        }
    }

    /// Whether a packet may pass: there is no limit, or enough is left.
    pub open spec fn passes(self, parts: nat, now: nat) -> bool {
        self.cap == 0 || parts <= self.refilled(now).tokens
    }

    /// The limiter after a packet passed or was dropped.
    pub open spec fn after(self, parts: nat, now: nat) -> RelayLimiterView {
        if self.cap == 0 {
            self
        } else {
            let b = self.refilled(now);
            if self.passes(parts, now) {
                RelayLimiterView { tokens: (b.tokens - parts) as nat, ..b }
            } else {
                b
            }
        }
    }

    /// The limiter after a run of packets: their sizes, and when they came.
    pub open spec fn after_all(self, packets: Seq<(nat, nat)>) -> RelayLimiterView
        decreases packets.len(),
    {
        if packets.len() == 0 {
            self
        } else {
            self.after_all(packets.drop_last()).after(packets.last().0, packets.last().1)
        }
    }

    /// The size of those packets of a run that passed.
    pub open spec fn passed(self, packets: Seq<(nat, nat)>) -> nat
        decreases packets.len(),
    {
        if packets.len() == 0 {
            0
        } else {
            let before = self.after_all(packets.drop_last());
            self.passed(packets.drop_last()) + if before.passes(packets.last().0, packets.last().1) {
                packets.last().0
            } else {
                0
            }
        }
    }
}

impl View for RelayLimiter {
    type V = RelayLimiterView;

    closed spec fn view(&self) -> RelayLimiterView {
        RelayLimiterView {
            cap: self.cap as nat,
            tokens: self.tokens as nat,
            last: self.last as nat,
        }
    }
}

impl RelayLimiter {
    pub closed spec fn wf(&self) -> bool {
        self.tokens <= self.cap * PARTS_PER_BYTE
    }

    /// A limiter to `cap` bytes per second; 0 for no limit.
    pub fn new(cap: u64, now: u64) -> (r: Self)
        ensures
            r.wf(),
            r@ == (RelayLimiterView {
                cap: cap as nat,
                tokens: cap as nat * PARTS_PER_BYTE as nat,
                last: now as nat,
            }),
    {
        RelayLimiter { cap, tokens: cap as u128 * 1_000_000_000, last: now }
    }

    /// Whether a packet of `len` bytes may pass.
    pub fn lets_pass(&mut self, len: usize, now: u64) -> (r: bool)
        requires
            old(self).wf(),
        ensures
            final(self).wf(),
            r == old(self)@.passes(len as nat * PARTS_PER_BYTE as nat, now as nat),
            final(self)@ == old(self)@.after(len as nat * PARTS_PER_BYTE as nat, now as nat),
    {
        if self.cap == 0 {
            return true;
        }
        let passed: u64 = now.saturating_sub(self.last);
        proof {
            let p = passed as int;
            let c = self.cap as int;
            assert(0 <= p * c <= 0xffff_ffff_ffff_ffff * 0xffff_ffff_ffff_ffff) by (nonlinear_arith)
                requires
                    0 <= p <= 0xffff_ffff_ffff_ffff,
                    0 <= c <= 0xffff_ffff_ffff_ffff,
            ;
        }
        let added: u128 = passed as u128 * self.cap as u128;
        let burst: u128 = self.cap as u128 * 500_000_000;
        self.last = now;
        self.tokens = if self.tokens >= burst || added >= burst - self.tokens {
            burst
        } else {
            self.tokens + added
        };
        let parts: u128 = len as u128 * 1_000_000_000;
        if parts > self.tokens {
            return false;
        }
        self.tokens = self.tokens - parts;
        true
    }
}

// ---------------------------------------------------------------- text

/// Without any number of `first` and then `b` at the end.
pub open spec fn without_pairs(s: Seq<char>, first: char) -> Seq<char>
    decreases s.len(),
{
    if s.len() >= 2 && s.last() == 'b' && s[s.len() - 2] == first {
        without_pairs(s.take(s.len() - 2), first)
    } else {
        s
    }
}

/// Without any number of `c` at the end.
pub open spec fn without_last(s: Seq<char>, c: char) -> Seq<char>
    decreases s.len(),
{
    if s.len() > 0 && s.last() == c {
        without_last(s.drop_last(), c)
    } else {
        s
    }
}

/// Whether text ends in a unit: its letter, or the letter and `b`.
pub open spec fn has_unit(s: Seq<char>, unit: char) -> bool {
    (s.len() >= 1 && s.last() == unit) || (s.len() >= 2 && s.last() == 'b' && s[s.len() - 2] == unit)
}

/// The bytes per second that a number in a unit stands for, or why it stands
/// for none; the unit is two to the power `k`, and `whole` is the whole text.
/// The number is taken in double precision.
pub open spec fn rate_in_unit(number: Seq<char>, k: nat, whole: Seq<char>) -> core::result::Result<
    u64,
    Seq<char>,
> {
    let word = unsigned_part(number);
    let minus = number.len() > 0 && number[0] == '-';
    if word == "inf"@ || word == "infinity"@ {
        if minus {
            Err("Bandwidth cannot be negative"@)
        } else {
            Ok(u64::MAX)
        }
    } else if word == "nan"@ {
        Ok(0)
    } else {
        match decimal_of(number) {
            None => Err("Invalid number in bandwidth: "@ + whole),
            Some(d) => if vanishes(d.digits, d.scale) {
                Ok(0)
            } else if d.negative {
                Err("Bandwidth cannot be negative"@)
            } else {
                Ok(
                    capped(
                        whole_of_double(
                            numerator(d.digits, d.scale) * pow2(k),
                            denominator(d.scale),
                        ),
                    ),
                )
            },
        }
    }
}

/// The bytes per second that text in lower case stands for, or why it stands
/// for none.
pub open spec fn rate_of(s: Seq<char>) -> core::result::Result<u64, Seq<char>> {
    if s == "unlimited"@ || s == "0"@ {
        Ok(0)
    } else {
        match whole_number(s) {
            Some(n) => Ok(n),
            None => if has_unit(s, 'g') {
                rate_in_unit(without_last(without_pairs(s, 'g'), 'g'), 30, s)
            } else if has_unit(s, 'm') {
                rate_in_unit(without_last(without_pairs(s, 'm'), 'm'), 20, s)
            } else if has_unit(s, 'k') {
                rate_in_unit(without_last(without_pairs(s, 'k'), 'k'), 10, s)
            } else {
                Err(
                    "Invalid bandwidth format: "@ + s
                        + ". Use K, M, or G suffix (e.g., '10M', '1G')"@,
                )
            },
        }
    }
}

fn ends_in_unit(s: &Vec<char>, unit: char) -> (r: bool)
    ensures
        r == has_unit(s@, unit),
{
    let n: usize = s.len();
    (n >= 1 && s[n - 1] == unit) || (n >= 2 && s[n - 1] == 'b' && s[n - 2] == unit)
}

fn strip_unit(s: &Vec<char>, unit: char) -> (r: Vec<char>)
    ensures
        r@ == without_last(without_pairs(s@, unit), unit),
{
    let mut n: usize = s.len();
    assert(s@.take(n as int) =~= s@);
    while n >= 2 && s[n - 1] == 'b' && s[n - 2] == unit
        invariant
            n <= s@.len(),
            without_pairs(s@, unit) == without_pairs(s@.take(n as int), unit),
        decreases n,
    {
        assert(s@.take(n as int).take(n - 2) =~= s@.take(n - 2));
        n -= 2;
    }
    let ghost t = s@.take(n as int);
    assert(without_pairs(s@, unit) == t);
    while n >= 1 && s[n - 1] == unit
        invariant
            n <= s@.len(),
            without_last(t, unit) == without_last(s@.take(n as int), unit),
        decreases n,
    {
        assert(s@.take(n as int).drop_last() =~= s@.take(n - 1));
        n -= 1;
    }
    let mut out: Vec<char> = Vec::new();
    out.extend_from_slice(vstd::slice::slice_subrange(s.as_slice(), 0, n));
    assert(out@ =~= s@.take(n as int));
    out
}

fn read_in_unit(number: &Vec<char>, k: u32, whole: &str) -> (r: core::result::Result<u64, String>)
    requires
        k <= 30,
    ensures
        match rate_in_unit(number@, k as nat, whole@) {
            Ok(n) => r == Ok::<u64, String>(n),
            Err(text) => r matches Err(m) && m@ == text,
        },
{
    let minus: bool = number.len() > 0 && number[0] == '-';
    let signed: bool = number.len() > 0 && (number[0] == '+' || number[0] == '-');
    let word: String = if signed {
        string_of(vstd::slice::slice_subrange(number.as_slice(), 1, number.len()))
    } else {
        string_of(number.as_slice())
    };
    assert(word@ =~= unsigned_part(number@));
    if str_eq(word.as_str(), "inf") || str_eq(word.as_str(), "infinity") {
        if minus {
            return Err("Bandwidth cannot be negative".to_owned());
        }
        return Ok(u64::MAX);
    }
    if str_eq(word.as_str(), "nan") {
        return Ok(0);
    }
    match read_decimal(number.as_slice()) {
        None => Err("Invalid number in bandwidth: ".to_owned().concat(whole)),
        Some(d) => {
            let ReadDecimal { negative, digits, scale, exact } = d;
            if does_vanish(digits.as_slice(), &scale, exact) {
                return Ok(0);
            }
            if negative {
                return Err("Bandwidth cannot be negative".to_owned());
            }
            Ok(scale_as_double(digits.as_slice(), &scale, k, exact))
        },
    }
}

/// Reads a rate from text in lower case: `unlimited`, a number of bytes per
/// second, or a number with the unit `k`, `m` or `g`, perhaps followed by `b`.
pub fn bandwidth_from_lowercase(s: &str) -> (r: core::result::Result<u64, String>)
    ensures
        match rate_of(s@) {
            Ok(n) => r == Ok::<u64, String>(n),
            Err(text) => r matches Err(m) && m@ == text,
        },
{
    if str_eq(s, "unlimited") || str_eq(s, "0") {
        return Ok(0);
    }
    let chars: Vec<char> = chars_of(s);
    if let Some(n) = read_whole(chars.as_slice()) {
        return Ok(n);
    }
    if ends_in_unit(&chars, 'g') {
        read_in_unit(&strip_unit(&chars, 'g'), 30, s)
    } else if ends_in_unit(&chars, 'm') {
        read_in_unit(&strip_unit(&chars, 'm'), 20, s)
    } else if ends_in_unit(&chars, 'k') {
        read_in_unit(&strip_unit(&chars, 'k'), 10, s)
    } else {
        let mut m = "Invalid bandwidth format: ".to_owned();
        m.append(s);
        m.append(". Use K, M, or G suffix (e.g., '10M', '1G')");
        Err(m)
    }
}

/// Reads a rate in upper or lower case; 0 stands for no limit.
pub fn parse_bandwidth(s: &str) -> (r: core::result::Result<u64, String>)
    ensures
        match rate_of(lowercase_of(trimmed(s@))) {
            Ok(n) => r == Ok::<u64, String>(n),
            Err(text) => r matches Err(m) && m@ == text,
        },
{
    bandwidth_from_lowercase(to_lowercase(trim(s).as_str()).as_str())
}

/// Upper and lower case do not change a rate: two texts that, without the
/// white space around them, have the same lower-case form give the same
/// result, be it a rate or an error.
pub proof fn law_rate_ignores_case(a: Seq<char>, b: Seq<char>)
    requires
        lowercase_of(trimmed(a)) == lowercase_of(trimmed(b)),
    ensures
        rate_of(lowercase_of(trimmed(a))) == rate_of(lowercase_of(trimmed(b))),
{
}

/// White space around a rate does not change it.
pub proof fn law_rate_ignores_outer_white_space(a: Seq<char>, s: Seq<char>, b: Seq<char>)
    requires
        all_white(a),
        all_white(b),
    ensures
        rate_of(lowercase_of(trimmed(a + s + b))) == rate_of(lowercase_of(trimmed(s))),
{
    law_outer_white_space_is_dropped(a, s, b);
}

/// The relay's rate is kept: of any run of packets, whatever their sizes, no
/// more passes than the limiter held at the start and its rate allows for the
/// time that went by.
pub proof fn law_relay_rate_is_kept(v: RelayLimiterView, packets: Seq<(nat, nat)>)
    requires
        v.cap > 0,
        forall|i: int| 0 <= i < packets.len() ==> v.last <= (#[trigger] packets[i]).1,
        forall|i: int, j: int|
            0 <= i < j < packets.len() ==> (#[trigger] packets[i]).1 <= (#[trigger] packets[j]).1,
    ensures
        v.after_all(packets).cap == v.cap,
        v.after_all(packets).last == (if packets.len() == 0 {
            v.last
        } else {
            packets.last().1
        }),
        v.passed(packets) + v.after_all(packets).tokens <= v.tokens + (v.after_all(packets).last
            - v.last) * v.cap,
    decreases packets.len(),
{
    if packets.len() == 0 {
        assert(0 * v.cap == 0);
    } else {
        let front = packets.drop_last();
        assert forall|i: int| 0 <= i < front.len() implies v.last <= (#[trigger] front[i]).1 by {
            assert(front[i] == packets[i]);
        }
        law_relay_rate_is_kept(v, front);
        let b = v.after_all(front);
        let now = packets.last().1;
        assert(packets[packets.len() - 1].1 == now);
        if front.len() > 0 {
            assert(front.last() == packets[packets.len() - 2]);
        }
        assert(b.last <= now);
        let d = now - b.last;
        assert((b.last - v.last) * v.cap + d * v.cap == (now - v.last) * v.cap) by (nonlinear_arith)
            requires
                d == now - b.last,
        ;
        let passed = if now > b.last {
            (now - b.last) as nat
        } else {
            0
        };
        assert(passed * v.cap == d * v.cap);
    }
}

/// Nothing is dropped that the rate allows: a packet passes if it is no larger
/// than what was left and what came since together, as long as it is no larger
/// than half a second of the rate. Without a limit every packet passes.
pub proof fn law_relay_passes_what_is_allowed(v: RelayLimiterView, parts: nat, now: nat)
    requires
        now >= v.last,
    ensures
        v.cap == 0 ==> v.passes(parts, now),
        v.cap > 0 ==> (v.passes(parts, now) <==> parts <= v.tokens + (now - v.last) * v.cap && parts
            <= v.cap * 500_000_000),
{
    let d = now - v.last;
    let passed = if now > v.last {
        (now - v.last) as nat
    } else {
        0
    };
    assert(passed * v.cap == d * v.cap);
}

/// Time adds up: bringing a bucket up to date twice is the same as once, and as
/// long as it is not full every second adds a second's worth of bytes.
pub proof fn law_allowance_grows_with_time(b: BucketView, a: nat, c: nat)
    requires
        b.last_refill <= a <= c,
        b.tokens <= b.capacity,
    ensures
        b.refilled(a).refilled(c) == b.refilled(c),
        b.refilled(c).tokens <= b.capacity,
        b.refilled(c).tokens >= b.tokens,
        b.tokens + (c - b.last_refill) * b.rate <= b.capacity ==> b.refilled(c).tokens == b.tokens
            + (c - b.last_refill) * b.rate,
        b.tokens + (c - b.last_refill) * b.rate > b.capacity ==> b.refilled(c).tokens == b.capacity,
        b.tokens + b.rate * 1_000_000_000 <= b.capacity ==> b.refilled(
            b.last_refill + 1_000_000_000,
        ).tokens == b.tokens + b.rate * PARTS_PER_BYTE,
{
    let x = a - b.last_refill;
    let y = c - a;
    let r = b.rate as int;
    assert((x + y) * r == x * r + y * r) by (nonlinear_arith);
    assert(x * r >= 0) by (nonlinear_arith)
        requires
            x >= 0,
            r >= 0,
    ;
    assert(y * r >= 0) by (nonlinear_arith)
        requires
            y >= 0,
            r >= 0,
    ;
    assert(1_000_000_000 * r == r * 1_000_000_000) by (nonlinear_arith);
    let px = if a > b.last_refill {
        (a - b.last_refill) as nat
    } else {
        0
    };
    let py = if c > a {
        (c - a) as nat
    } else {
        0
    };
    let pz = if c > b.last_refill {
        (c - b.last_refill) as nat
    } else {
        0
    };
    assert(px * b.rate == x * r);
    assert(py * b.rate == y * r);
    assert(pz * b.rate == (x + y) * r);
}

/// No wait is longer than it has to be: a nanosecond earlier the allowance is
/// not enough.
pub proof fn law_wait_is_the_shortest(b: BucketView, parts: int, now: nat)
    requires
        b.rate > 0,
        b.last_refill == now,
        b.tokens < parts <= b.capacity,
    ensures
        b.wait_for(parts) > 0,
        b.refilled((now + b.wait_for(parts) - 1) as nat).tokens < parts,
{
    let r = b.rate as int;
    let missing = parts - b.tokens;
    let w = b.wait_for(parts);
    vstd::arithmetic::div_mod::lemma_fundamental_div_mod(missing + r - 1, r);
    assert(w > 0 && (w - 1) * r < missing) by (nonlinear_arith)
        requires
            r > 0,
            missing > 0,
            missing + r - 1 == r * w + (missing + r - 1) % r,
            0 <= (missing + r - 1) % r < r,
    ;
    let passed = if now + w - 1 > now {
        (w - 1) as nat
    } else {
        0
    };
    assert(passed * b.rate == (w - 1) * r);
}

/// Text that ends in the unit of a power of two: `k` for the 10th, `m` for the
/// 20th, `g` for the 30th.
pub open spec fn unit_of(letter: char) -> nat {
    if letter == 'k' {
        1024
    } else if letter == 'm' {
        1024 * 1024
    } else {
        1024 * 1024 * 1024
    }
}

proof fn lemma_stripped(number: Seq<char>, letter: char, b: bool)
    requires
        number.len() > 0,
        number.last() != 'b',
        number.last() != letter,
        letter != 'b',
    ensures
        ({
            let s = if b {
                number + seq![letter, 'b']
            } else {
                number + seq![letter]
            };
            without_last(without_pairs(s, letter), letter) == number
        }),
{
    let plain = number + seq![letter];
    let pair = number + seq![letter, 'b'];
    reveal_with_fuel(without_pairs, 3);
    reveal_with_fuel(without_last, 3);
    assert(plain.drop_last() =~= number);
    assert(pair.take(pair.len() - 2) =~= number);
}

proof fn lemma_exact_in_unit(
    before: Seq<char>,
    pointed: bool,
    behind: Seq<char>,
    k: nat,
    rate: nat,
    whole: Seq<char>,
)
    requires
        before.len() > 0,
        all_digits(before),
        all_digits(behind),
        !pointed ==> behind.len() == 0,
        k <= 30,
        rate < 0x20_0000_0000_0000,
        number_of(before + behind) * pow2(k) == rate * pow10(behind.len()),
    ensures
        rate_in_unit(with_point(before, pointed, behind), k, whole) == Ok::<u64, Seq<char>>(
            rate as u64,
        ),
{
    let number = with_point(before, pointed, behind);
    assert(is_digit(before[0]));
    assert(before[0] == number[0]);
    reveal_strlit("inf");
    reveal_strlit("infinity");
    reveal_strlit("nan");
    assert("inf"@[0] == 'i');
    assert("infinity"@[0] == 'i');
    assert("nan"@[0] == 'n');
    law_digits_around_point_are_read(before, pointed, behind);
    lemma_exact_value(before + behind, behind.len(), k, rate);
}

proof fn lemma_exact_value(digits: Seq<char>, scale: nat, k: nat, rate: nat)
    requires
        k <= 30,
        rate < 0x20_0000_0000_0000,
        number_of(digits) * pow2(k) == rate * pow10(scale),
    ensures
        whole_of_double(numerator(digits, scale as int) * pow2(k), denominator(scale as int)) == rate,
        vanishes(digits, scale as int) ==> rate == 0,
{
    let n = number_of(digits);
    lemma_pow10_pos(scale);
    assert(pow10(0) == 1);
    let den = denominator(scale as int);
    assert(den == pow10(scale));
    assert(numerator(digits, scale as int) == n) by {
        assert(n * 1 == n);
    }
    law_exact_quotients_are_kept(rate, den);
    if vanishes(digits, scale as int) {
        vstd::arithmetic::power2::lemma2_to64();
        vstd::arithmetic::power2::lemma2_to64_rest();
        vstd::arithmetic::power2::lemma_pow2_adds(64, 1011);
        vstd::arithmetic::power2::lemma_pow2_pos(1011);
        if k < 30 {
            vstd::arithmetic::power2::lemma_pow2_strictly_increases(k, 30);
        }
        let big = pow2(1075);
        let u = pow2(k);
        let rest = pow2(1011);
        assert(big >= 0x1_0000_0000_0000_0000) by (nonlinear_arith)
            requires
                big == 0x1_0000_0000_0000_0000 * rest,
                rest > 0,
        ;
        assert(rate * den < den) by (nonlinear_arith)
            requires
                n * big <= den,
                n * u == rate * den,
                u <= 0x4000_0000,
                big >= 0x1_0000_0000_0000_0000,
                den > 0,
        ;
        assert(rate == 0) by (nonlinear_arith)
            requires
                rate * den < den,
                den > 0,
        ;
    }
}

/// A rate is what it says: a number of bytes per second as it stands; a number,
/// perhaps with digits behind a point, and `k`, `m` or `g`, perhaps with a `b`
/// behind it, that many times 1024, 1024 squared or 1024 cubed, wherever that is
/// a whole number below two to the 53rd; and `unlimited` no limit.
pub proof fn law_rates_are_what_they_say(
    before: Seq<char>,
    pointed: bool,
    behind: Seq<char>,
    letter: char,
    b: bool,
    rate: nat,
)
    requires
        before.len() > 0,
        all_digits(before),
        all_digits(behind),
        !pointed ==> behind.len() == 0,
        letter == 'k' || letter == 'm' || letter == 'g',
        rate < 0x20_0000_0000_0000,
        number_of(before + behind) * unit_of(letter) == rate * pow10(behind.len()),
    ensures
        ({
            let number = with_point(before, pointed, behind);
            let s = if b {
                number + seq![letter, 'b']
            } else {
                number + seq![letter]
            };
            rate_of(s) == Ok::<u64, Seq<char>>(rate as u64)
        }),
        number_of(before) <= u64::MAX ==> rate_of(before) == Ok::<u64, Seq<char>>(
            number_of(before) as u64,
        ),
        rate_of("unlimited"@) == Ok::<u64, Seq<char>>(0),
{
    let number = with_point(before, pointed, behind);
    let s = if b {
        number + seq![letter, 'b']
    } else {
        number + seq![letter]
    };
    let k: nat = if letter == 'k' {
        10
    } else if letter == 'm' {
        20
    } else {
        30
    };
    assert(is_digit(before[0]));
    assert(before[0] == number[0] && number[0] == s[0]);
    assert(number.last() == '.' || is_digit(number.last())) by {
        if pointed && behind.len() > 0 {
            assert(number.last() == behind[behind.len() - 1]);
            assert(is_digit(behind[behind.len() - 1]));
        } else if !pointed {
            assert(is_digit(before[before.len() - 1]));
        }
    }
    vstd::arithmetic::power2::lemma2_to64();
    assert(pow2(k) == unit_of(letter));
    lemma_stripped(number, letter, b);
    lemma_exact_in_unit(before, pointed, behind, k, rate, s);
    lemma_unit_is_read(s, letter, b);
    lemma_plain_number(before);
}

proof fn lemma_unit_is_read(s: Seq<char>, letter: char, b: bool)
    requires
        s.len() > 1,
        is_digit(s[0]),
        letter == 'k' || letter == 'm' || letter == 'g',
        b ==> s.len() > 2 && s.last() == 'b' && s[s.len() - 2] == letter,
        !b ==> s.last() == letter,
    ensures
        rate_of(s) == rate_in_unit(
            without_last(without_pairs(s, letter), letter),
            if letter == 'k' {
                10
            } else if letter == 'm' {
                20
            } else {
                30
            },
            s,
        ),
{
    reveal_strlit("unlimited");
    reveal_strlit("0");
    assert("unlimited"@[0] == 'u');
    law_whole_numbers_are_read(s);
}

proof fn lemma_plain_number(s: Seq<char>)
    requires
        s.len() > 0,
        all_digits(s),
    ensures
        number_of(s) <= u64::MAX ==> rate_of(s) == Ok::<u64, Seq<char>>(number_of(s) as u64),
{
    reveal_strlit("unlimited");
    reveal_strlit("0");
    assert("unlimited"@[0] == 'u');
    assert(is_digit(s[0]));
    law_whole_numbers_are_read(s);
    if s == "0"@ {
        law_digits_spell_by_place(Seq::empty(), 0);
        assert(s =~= Seq::<char>::empty().push('0'));
    }
}

/// Nothing waits that the rate allows: a request is served at once if and only
/// if it is no larger than what is left and what came since together, and no
/// larger than what can be saved up; and then just as much is taken as was asked
/// for.
pub proof fn law_nothing_waits_that_the_rate_allows(b: BucketView, parts: int, now: nat)
    requires
        now >= b.last_refill,
        0 <= parts,
    ensures
        b.told(parts, now) is None <==> parts <= b.tokens + (now - b.last_refill) * b.rate && parts
            <= b.capacity,
        b.told(parts, now) is None ==> b.asked(parts, now).tokens == b.refilled(now).tokens - parts,
        b.told(parts, now) is Some ==> b.asked(parts, now) == b.refilled(now),
        b.asked(parts, now).rate == b.rate,
        b.asked(parts, now).capacity == b.capacity,
        b.asked(parts, now).last_refill == now,
{
    let d = now - b.last_refill;
    let passed = if now > b.last_refill {
        (now - b.last_refill) as nat
    } else {
        0
    };
    assert(passed * b.rate == d * b.rate);
}

/// A limiter lets two seconds' worth of bytes through at once and no more; one
/// without a rate lets everything through.
pub proof fn law_two_seconds_are_saved_up(
    rate: u64,
    now: u64,
    limiter: BandwidthLimiter,
    enabled: bool,
    endless: BandwidthLimiter,
    limited: bool,
)
    requires
        rate * 2 <= u64::MAX,
        call_ensures(BandwidthLimiter::new, (rate, now), limiter),
        call_ensures(BandwidthLimiter::is_enabled, (&limiter,), enabled),
        call_ensures(BandwidthLimiter::unlimited, (now,), endless),
        call_ensures(BandwidthLimiter::is_enabled, (&endless,), limited),
    ensures
        enabled <==> rate > 0,
        !limited,
        limiter.bucket@.told(rate * 2 * 1_000_000_000, now as nat) is None,
        limiter.bucket@.told(rate * 2 * 1_000_000_000 + 1, now as nat) is Some,
        limiter.bucket@.rate == rate,
        limiter.max_bytes_per_sec == rate,
{
    law_nothing_waits_that_the_rate_allows(
        limiter.bucket@,
        rate * 2 * 1_000_000_000,
        now as nat,
    );
    law_nothing_waits_that_the_rate_allows(
        limiter.bucket@,
        rate * 2 * 1_000_000_000 + 1,
        now as nat,
    );
    assert(0 * rate == 0);
}

/// A relay's limiter begins with half a second's worth of bytes to let through.
pub proof fn law_relay_saves_up_half_a_second(cap: u64, now: u64, limiter: RelayLimiter)
    requires
        cap > 0,
        call_ensures(RelayLimiter::new, (cap, now), limiter),
    ensures
        limiter@.passes((cap * 500_000_000) as nat, now as nat),
        !limiter@.passes((cap * 500_000_000 + 1) as nat, now as nat),
{
    law_relay_passes_what_is_allowed(limiter@, (cap * 500_000_000) as nat, now as nat);
    law_relay_passes_what_is_allowed(limiter@, (cap * 500_000_000 + 1) as nat, now as nat);
    assert(0 * cap == 0);
}

/// What is no rate is refused: text that is neither `unlimited` nor a number and
/// ends neither in a unit nor in a unit and `b`; a unit without a number before
/// it; and a rate below nought.
pub proof fn law_nonsense_is_refused(s: Seq<char>, before: Seq<char>, letter: char)
    requires
        letter == 'k' || letter == 'm' || letter == 'g',
        before.len() > 0,
        all_digits(before),
        number_of(before) > 0,
    ensures
        s != "unlimited"@ && s.len() > 0 && s.last() != 'k' && s.last() != 'm' && s.last() != 'g'
            && s.last() != 'b' && !is_digit(s.last()) ==> rate_of(s) is Err,
        s.len() > 1 && s.last() == 'b' && s[s.len() - 2] != 'k' && s[s.len() - 2] != 'm' && s[s.len()
            - 2] != 'g' ==> rate_of(s) is Err,
        rate_of(seq![letter]) is Err,
        rate_of(Seq::empty()) is Err,
        rate_of(seq!['-'] + before + seq![letter]) is Err,
{
    reveal_strlit("unlimited");
    reveal_strlit("0");
    assert("unlimited"@.last() == 'd');
    assert("unlimited"@[0] == 'u');
    assert("0"@.last() == '0');
    assert("0"@.len() == 1);
    law_whole_numbers_are_read(s);
    law_whole_numbers_are_read(Seq::empty());
    lemma_bare_unit(letter);
    lemma_negative_rate(before, letter);
}

proof fn lemma_bare_unit(letter: char)
    requires
        letter == 'k' || letter == 'm' || letter == 'g',
    ensures
        rate_of(seq![letter]) is Err,
{
    let s = seq![letter];
    reveal_strlit("unlimited");
    reveal_strlit("0");
    reveal_strlit("inf");
    reveal_strlit("infinity");
    reveal_strlit("nan");
    assert("unlimited"@.len() == 9);
    assert("0"@[0] == '0');
    assert("inf"@.len() == 3);
    assert("infinity"@.len() == 8);
    assert("nan"@.len() == 3);
    law_whole_numbers_are_read(s);
    reveal_with_fuel(without_pairs, 2);
    reveal_with_fuel(without_last, 2);
    assert(s.drop_last() =~= Seq::<char>::empty());
    let none = Seq::<char>::empty();
    assert(without_last(without_pairs(s, letter), letter) =~= none);
    assert(none.subrange(0, 0) + Seq::<char>::empty() =~= none);
    assert(decimal_of(none) is None);
}

proof fn lemma_negative_rate(before: Seq<char>, letter: char)
    requires
        letter == 'k' || letter == 'm' || letter == 'g',
        before.len() > 0,
        all_digits(before),
        number_of(before) > 0,
    ensures
        rate_of(seq!['-'] + before + seq![letter]) is Err,
{
    let number = seq!['-'] + before;
    let s = number + seq![letter];
    assert(is_digit(before[before.len() - 1]));
    assert(is_digit(before[0]));
    assert(number.last() == before.last());
    reveal_strlit("unlimited");
    reveal_strlit("0");
    reveal_strlit("inf");
    reveal_strlit("infinity");
    reveal_strlit("nan");
    assert("unlimited"@[0] == 'u');
    assert("0"@[0] == '0');
    assert("inf"@[0] == 'i');
    assert("infinity"@[0] == 'i');
    assert("nan"@[0] == 'n');
    law_whole_numbers_are_read(s);
    assert(s[0] == '-');
    lemma_stripped(number, letter, false);
    law_digits_around_point_are_read(before, false, Seq::empty());
    assert(number.skip(1) =~= before);
    let d = before + Seq::<char>::empty();
    assert(d =~= before);
    vstd::arithmetic::power2::lemma2_to64();
    vstd::arithmetic::power2::lemma_pow2_adds(1, 1074);
    vstd::arithmetic::power2::lemma_pow2_pos(1074);
    let big = pow2(1075);
    let n = number_of(before);
    assert(big >= 2);
    assert(pow10(0) == 1);
    assert(numerator(before, 0) == n) by {
        assert(n * 1 == n);
    }
    assert(n * big > 1) by (nonlinear_arith)
        requires
            n >= 1,
            big >= 2,
    ;
    assert(!vanishes(before, 0));
}

} // verus!
