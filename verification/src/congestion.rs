//! A congestion controller that sends at a fixed rate: losses do not slow it
//! down.

use vstd::arithmetic::div_mod::lemma_hoist_over_denominator;
use vstd::prelude::*;

verus! {

/// Bytes of the smallest datagram that every path carries.
pub const BASE_DATAGRAM_SIZE: u64 = 1200;

/// Round-trip time that is assumed before one is measured, in nanoseconds.
pub const ASSUMED_RTT_NANOS: u64 = 30_000_000;

/// The rate to send at, and the window to begin with.
#[derive(Debug, Clone, Copy, PartialEq, Eq, Structural)]
pub struct BrutalConfig {
    /// Bytes per second.
    pub max_bandwidth: u64,
    /// Bytes.
    pub initial_window: u64,
}

impl BrutalConfig {
    /// A configuration for a rate.
    pub fn new(max_bandwidth: u64) -> (r: Self)
        ensures
            r == (BrutalConfig {
                max_bandwidth,
                initial_window: (10 * BASE_DATAGRAM_SIZE) as u64,
            }),
    {
        BrutalConfig { max_bandwidth, initial_window: 10 * BASE_DATAGRAM_SIZE }
    }

    /// Sets the window to begin with.
    pub fn initial_window(&mut self, value: u64)
        ensures
            *final(self) == (BrutalConfig { initial_window: value, ..*old(self) }),
    {
        self.initial_window = value;
    }
}

impl Default for BrutalConfig {
    fn default() -> (r: Self)
        ensures
            r == (BrutalConfig {
                max_bandwidth: 1_250_000_000,
                initial_window: (10 * BASE_DATAGRAM_SIZE) as u64,
            }),
    {
        BrutalConfig::new(1_250_000_000)
    }
}

/// The bytes that are under way at a rate for the length of a round trip.
pub open spec fn bytes_under_way(max_bandwidth: nat, rtt_nanos: nat) -> nat {
    max_bandwidth * rtt_nanos / 1_000_000_000
}

/// The window: the bytes under way, and at least ten packets.
pub open spec fn window_for(max_bandwidth: nat, rtt_nanos: nat, mtu: nat) -> nat {
    let bdp = bytes_under_way(max_bandwidth, rtt_nanos);
    if bdp > 10 * mtu {
        bdp
    } else {
        10 * mtu
    }
}

/// Whether the window can be computed in 64 bits.
pub open spec fn window_fits(max_bandwidth: nat, rtt_nanos: nat) -> bool {
    &&& bytes_under_way(max_bandwidth, rtt_nanos) <= u64::MAX
    &&& (max_bandwidth % 1_000_000_000) * rtt_nanos <= u64::MAX
}

/// The round-trip time after one was measured; none at all is no measurement.
pub open spec fn rtt_after(before: u64, measured: u64) -> u64 {
    if measured > 0 {
        measured
    } else {
        before
    }
}

/// The controller.
#[derive(Debug, Clone, Copy, PartialEq, Eq, Structural)]
pub struct Brutal {
    pub config: BrutalConfig,
    pub rtt_nanos: u64,
    pub mtu: u16,
    pub cwnd: u64,
}

impl Brutal {
    /// The window is that of the rate, the round-trip time and the packet size.
    pub open spec fn wf(&self) -> bool {
        &&& window_fits(self.config.max_bandwidth as nat, self.rtt_nanos as nat)
        &&& self.cwnd == window_for(
            self.config.max_bandwidth as nat,
            self.rtt_nanos as nat,
            self.mtu as nat,
        )
    }

    /// A controller before any round-trip time was measured.
    pub fn new(config: BrutalConfig, current_mtu: u16) -> (r: Self)
        requires
            window_fits(config.max_bandwidth as nat, ASSUMED_RTT_NANOS as nat),
        ensures
            r.wf(),
            r.config == config,
            r.rtt_nanos == ASSUMED_RTT_NANOS,
            r.mtu == current_mtu,
    {
        let cwnd: u64 = Self::compute_window(config.max_bandwidth, ASSUMED_RTT_NANOS, current_mtu);
        Brutal { config, rtt_nanos: ASSUMED_RTT_NANOS, mtu: current_mtu, cwnd }
    }

    /// The window for a rate, a round-trip time and a packet size.
    pub fn compute_window(max_bandwidth: u64, rtt_nanos: u64, mtu: u16) -> (r: u64)
        requires
            window_fits(max_bandwidth as nat, rtt_nanos as nat),
        ensures
            r == window_for(max_bandwidth as nat, rtt_nanos as nat, mtu as nat),
    {
        let whole: u64 = max_bandwidth / 1_000_000_000;
        let part: u64 = max_bandwidth % 1_000_000_000;
        proof {
            let q = whole as int;
            let m = part as int;
            let t = rtt_nanos as int;
            let b = max_bandwidth as int;
            assert(b == q * 1_000_000_000 + m);
            assert((q * 1_000_000_000 + m) * t == (q * t) * 1_000_000_000 + m * t)
                by (nonlinear_arith);
            lemma_hoist_over_denominator(m * t, q * t, 1_000_000_000);
            assert(q * t >= 0) by (nonlinear_arith)
                requires
                    q >= 0,
                    t >= 0,
            ;
            assert(m * t >= 0) by (nonlinear_arith)
                requires
                    m >= 0,
                    t >= 0,
            ;
        }
        let bdp: u64 = whole * rtt_nanos + part * rtt_nanos / 1_000_000_000;
        let least: u64 = 10 * mtu as u64;
        if bdp > least {
            bdp
        } else {
            least
        }
    }

    /// A round trip was measured.
    pub fn on_ack(&mut self, rtt_nanos: u64)
        requires
            old(self).wf(),
            rtt_nanos > 0 ==> window_fits(old(self).config.max_bandwidth as nat, rtt_nanos as nat),
        ensures
            final(self).wf(),
            final(self).config == old(self).config,
            final(self).mtu == old(self).mtu,
            final(self).rtt_nanos == rtt_after(old(self).rtt_nanos, rtt_nanos),
    {
        if rtt_nanos > 0 && rtt_nanos != self.rtt_nanos {
            self.rtt_nanos = rtt_nanos;
            self.cwnd = Self::compute_window(self.config.max_bandwidth, rtt_nanos, self.mtu);
        }
    }

    /// Packets were lost: nothing changes, and sending goes on at the same
    /// rate.
    pub fn on_congestion_event(&mut self)
        ensures
            *final(self) == *old(self),
    {
    }

    /// The packet size changed.
    pub fn on_mtu_update(&mut self, new_mtu: u16)
        requires
            old(self).wf(),
        ensures
            final(self).wf(),
            final(self).config == old(self).config,
            final(self).rtt_nanos == old(self).rtt_nanos,
            final(self).mtu == new_mtu,
    {
        self.mtu = new_mtu;
        self.cwnd = Self::compute_window(self.config.max_bandwidth, self.rtt_nanos, new_mtu);
    }

    /// The window in bytes.
    pub fn window(&self) -> (r: u64)
        ensures
            r == self.cwnd,
    {
        self.cwnd
    }

    /// The window to begin with, in bytes.
    pub fn initial_window(&self) -> (r: u64)
        ensures
            r == self.config.initial_window,
    {
        self.config.initial_window
    }

    /// The rate in bits per second.
    pub fn pacing_rate(&self) -> (r: u64)
        requires
            self.config.max_bandwidth * 8 <= u64::MAX,
        ensures
            r == self.config.max_bandwidth * 8,
    {
        self.config.max_bandwidth * 8
    }
}

/// The window never falls below ten packets, and never shrinks while the
/// round-trip time grows.
pub proof fn law_window_grows_with_round_trip(bandwidth: nat, rtt: nat, longer: nat, mtu: nat)
    requires
        rtt <= longer,
    ensures
        window_for(bandwidth, rtt, mtu) >= 10 * mtu,
        window_for(bandwidth, rtt, mtu) <= window_for(bandwidth, longer, mtu),
{
    assert(bandwidth * rtt <= bandwidth * longer) by (nonlinear_arith)
        requires
            rtt <= longer,
    ;
    vstd::arithmetic::div_mod::lemma_div_is_ordered(
        (bandwidth * rtt) as int,
        (bandwidth * longer) as int,
        1_000_000_000,
    );
}

/// The window holds what the rate sends in a round trip, to the byte, unless
/// that is less than ten packets: then it holds ten packets.
pub proof fn law_window_is_rate_times_round_trip(bandwidth: nat, rtt: nat, mtu: nat)
    ensures
        ({
            let w = window_for(bandwidth, rtt, mtu);
            &&& w >= 10 * mtu
            &&& bandwidth * rtt < (w + 1) * 1_000_000_000
            &&& w > 10 * mtu ==> w * 1_000_000_000 <= bandwidth * rtt
        }),
{
    let bits = bandwidth * rtt;
    let w = window_for(bandwidth, rtt, mtu);
    let bdp = bits / 1_000_000_000;
    assert(bdp * 1_000_000_000 <= bits < (bdp + 1) * 1_000_000_000);
}

/// Losses do not slow it down and the latest round trip counts: the window is
/// that of the rate and the last round trip that was measured, before any of
/// thirty milliseconds.
pub proof fn law_latest_round_trip_counts(
    config: BrutalConfig,
    mtu: u16,
    fresh: Brutal,
    after: Brutal,
    measured: u64,
)
    requires
        call_ensures(Brutal::new, (config, mtu), fresh),
        after.wf(),
        after.config == config,
        after.mtu == mtu,
        after.rtt_nanos == rtt_after(fresh.rtt_nanos, measured),
    ensures
        fresh.cwnd >= 10 * mtu,
        config.max_bandwidth * 30_000_000 < (fresh.cwnd + 1) * 1_000_000_000,
        measured > 0 ==> config.max_bandwidth * measured < (after.cwnd + 1) * 1_000_000_000,
        measured > 0 && after.cwnd > 10 * mtu ==> after.cwnd * 1_000_000_000
            <= config.max_bandwidth * measured,
        measured == 0 ==> after.cwnd == fresh.cwnd,
{
    law_window_is_rate_times_round_trip(config.max_bandwidth as nat, 30_000_000, mtu as nat);
    law_window_is_rate_times_round_trip(config.max_bandwidth as nat, measured as nat, mtu as nat);
}

/// Packets go out at the rate configured, in bits, and a connection begins with
/// ten packets of the size that every path carries.
pub proof fn law_packets_go_out_at_the_rate(
    rate: u64,
    config: BrutalConfig,
    mtu: u16,
    b: Brutal,
    bits: u64,
    first: u64,
)
    requires
        call_ensures(BrutalConfig::new, (rate,), config),
        call_ensures(Brutal::new, (config, mtu), b),
        rate * 8 <= u64::MAX,
        call_ensures(Brutal::pacing_rate, (&b,), bits),
        call_ensures(Brutal::initial_window, (&b,), first),
    ensures
        bits == 8 * rate,
        first == 12_000,
{
}

} // verus!
