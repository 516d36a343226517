//! What a peer is worth keeping, in numbers, and who leaves for want of room.

use vstd::prelude::*;

use crate::closeness::{
    around, dust, lemma_count_number, lemma_factors, lemma_fraction, lemma_grains, lemma_hour,
    lemma_number_order, lemma_product_number, lemma_quotient_number, lemma_share_product,
    lemma_share_sum, lemma_sum_number, lemma_summands, lemma_vast, lemma_vaster,
    lemma_whole_constants, lemma_worth_share, number, slip, VAST, VASTER,
};
use crate::doubles::{is_number, Doubles};
use crate::formula::{constant, Formula};
use crate::identity::PeerId;
use crate::measure::{Arithmetic, Measure, HALF, ONE, ZERO};
use crate::moving_laws::{lemma_share_of, moderate};
use crate::quality::{confidence_in, PeerQuality};
use crate::registry::{
    bounded, distinct, freshness, kept, known, lemma_place, place, registered, retention, settled,
    shed, weighed, Peer, HOUR,
};
use crate::registry_laws::{lemma_settled_places, the_bound_is_hard, the_least_worth_leave_first};
use crate::scoring::or_constant;
use crate::worth_laws::{lemma_constant, number_or, trust_is_a_share_of_four_more};

verus! {

/// How fresh a peer is that was last measured so many seconds ago: one, a half after an hour, a third
/// after two, and so on.
pub open spec fn fresh_share(age: u64) -> real {
    1real / (1real + (age as real) / 3600real)
}

/// What a peer is worth keeping: its throughput as far as its outcomes are trusted and succeed, and
/// one more, as far as the peer is fresh.
pub open spec fn keeping(quality: PeerQuality, age: u64) -> real {
    let n = quality.samples as real;
    let t = number_or(quality.throughput.mean, 0real);
    let rate = number_or(quality.reliability.rate, 0real);
    ((t * (n / (n + 4real))) * (1real / 2real + rate / 2real)) * fresh_share(age) + fresh_share(age)
}

/// By how much rounding may change what a peer is worth keeping.
pub open spec fn keeping_slack(quality: PeerQuality) -> real {
    40real * (slip() * (number_or(quality.throughput.mean, 0real) + 1real) + dust())
}

/// Whether what is known of a peer is measured in ordinary numbers.
pub open spec fn ordinary(quality: PeerQuality) -> bool {
    &&& quality.throughput.mean matches Some(mean) ==> moderate(mean)
    &&& quality.reliability.rate matches Some(rate) ==> rate.bits <= ONE
}

proof fn lemma_fresh(kit: &Doubles, age: u64, v: Measure)
    requires
        freshness(age).gives(kit, v),
        age <= 0x20_0000_0000_0000,
    ensures
        v.bits <= ONE,
        0real < fresh_share(age) <= 1real,
        around(number(v), fresh_share(age), 9real * slip()),
{
    lemma_grains();
    lemma_vast();
    lemma_whole_constants();
    lemma_hour();
    let hours = Formula::Count(age).over(constant(HOUR));
    let (o, total) = lemma_fraction(kit, constant(ONE), constant(ONE).plus(hours), v);
    lemma_constant(kit, ONE, o);
    let (f, h) = lemma_summands(kit, constant(ONE), hours, total);
    lemma_constant(kit, ONE, f);
    let (c, k) = lemma_fraction(kit, Formula::Count(age), constant(HOUR), h);
    lemma_constant(kit, HOUR, k);
    lemma_count_number(age, c);
    let vast = Measure { bits: VAST };
    let (a, s, d) = (age as real, slip(), dust());
    let x = a / 3600real;
    lemma_number_order(Measure { bits: ZERO }, k);
    lemma_quotient_number(c, k, h, vast);
    assert(s * x <= x / 1000real && s * x >= 0real) by (nonlinear_arith)
        requires
            0real < s,
            1000real * s <= 1real,
            x >= 0real,
    ;
    lemma_number_order(h, h);
    lemma_sum_number(f, h, total, vast);
    let (hn, tn) = (number(h), number(total));
    let y = 1real + x;
    let g = s * (1real + hn);
    assert(g <= 2real * s + 2real * (s * x) && g >= 0real) by (nonlinear_arith)
        requires
            g == s * (1real + hn),
            0real <= hn,
            hn <= x + x / 1000real + d,
            0real < s,
            d <= 1real,
            x >= 0real,
    ;
    assert(s * y == s + s * x) by (nonlinear_arith)
        requires
            y == 1real + x,
    ;
    assert(s * s <= s / 1000real) by (nonlinear_arith)
        requires
            0real < s,
            1000real * s <= 1real,
    ;
    lemma_share_of(o, total, v, y);
    assert(1real / y > 0real) by (nonlinear_arith)
        requires
            y >= 1real,
    ;
}

/// What a peer is worth keeping, up to rounding.
pub proof fn fast_trusted_fresh_peers_are_worth_keeping(
    kit: &Doubles,
    quality: PeerQuality,
    age: u64,
    v: Measure,
)
    requires
        retention(quality, age).gives(kit, v),
        ordinary(quality),
        age <= 0x20_0000_0000_0000,
    ensures
        is_number(v),
        around(number(v), keeping(quality, age), keeping_slack(quality)),
{
    lemma_grains();
    lemma_vast();
    lemma_vaster();
    lemma_whole_constants();
    let (one, half, vast, vaster) = (
        Measure { bits: ONE },
        Measure { bits: HALF },
        Measure { bits: VAST },
        Measure { bits: VASTER },
    );
    let throughput = or_constant(quality.throughput.mean, ZERO);
    let reliability = or_constant(quality.reliability.rate, ZERO);
    let trust = confidence_in(quality.samples);
    let dependability = constant(HALF).plus(constant(HALF).times(reliability));
    let fresh = freshness(age);
    let (p, f) = lemma_summands(
        kit,
        throughput.times(trust).times(dependability).times(fresh),
        fresh,
        v,
    );
    let (q, g) = lemma_factors(kit, throughput.times(trust).times(dependability), fresh, p);
    let (r, b) = lemma_factors(kit, throughput.times(trust), dependability, q);
    let (t, c) = lemma_factors(kit, throughput, trust, r);
    lemma_fresh(kit, age, f);
    lemma_fresh(kit, age, g);
    trust_is_a_share_of_four_more(kit, quality.samples, c);
    let (tn, rate, s, d) = (
        number_or(quality.throughput.mean, 0real),
        number_or(quality.reliability.rate, 0real),
        slip(),
        dust(),
    );
    lemma_number_order(Measure { bits: ZERO }, vast);
    lemma_number_order(t, vast);
    assert(number(t) == tn && moderate(t));
    // The share that succeeds.
    let (b1, b2) = lemma_summands(kit, constant(HALF), constant(HALF).times(reliability), b);
    lemma_constant(kit, HALF, b1);
    let (k, y) = lemma_factors(kit, constant(HALF), reliability, b2);
    lemma_constant(kit, HALF, k);
    assert(y.bits <= ONE && number(y) == rate);
    lemma_number_order(y, one);
    let (yn, hn) = (number(y), number(half));
    assert(hn * yn <= hn) by (nonlinear_arith)
        requires
            hn >= 0real,
            yn <= 1real,
    ;
    lemma_product_number(k, y, b2, half);
    lemma_number_order(b2, half);
    lemma_share_product(k, y, b2, 1real / 2real, rate, 0real, 0real);
    lemma_share_sum(b1, b2, b, 1real / 2real, (1real / 2real) * rate, 0real, 2real * s);
    let n = quality.samples as real;
    let share = n / (n + 4real);
    assert(0real <= share <= 1real) by (nonlinear_arith)
        requires
            share == n / (n + 4real),
            n >= 0real,
    ;
    assert(0real * (s * tn + d) == 0real);
    lemma_worth_share(t, c, r, tn, share, tn, 0real, 9real);
    let x1 = tn * share;
    assert(0real <= x1 <= tn) by (nonlinear_arith)
        requires
            x1 == tn * share,
            0real <= share <= 1real,
            0real <= tn,
    ;
    let part = 1real / 2real + rate / 2real;
    lemma_worth_share(r, b, q, x1, part, tn, 12real, 5real);
    let x2 = x1 * part;
    assert(0real <= x2 <= tn) by (nonlinear_arith)
        requires
            x2 == x1 * part,
            0real <= part <= 1real,
            0real <= x1 <= tn,
    ;
    let fr = fresh_share(age);
    lemma_worth_share(q, g, p, x2, fr, tn, 20real, 9real);
    let x3 = x2 * fr;
    lemma_number_order(p, t);
    lemma_number_order(f, one);
    lemma_sum_number(p, f, v, vaster);
    let (pn, fnum) = (number(p), number(f));
    let z = s * (pn + fnum);
    assert(z <= s * tn + s && z >= 0real) by (nonlinear_arith)
        requires
            z == s * (pn + fnum),
            0real <= pn <= tn,
            0real <= fnum <= 1real,
            0real < s,
    ;
    let w = s * tn;
    assert(s * (tn + 1real) == w + s) by (nonlinear_arith)
        requires
            w == s * tn,
    ;
    assert(w >= 0real) by (nonlinear_arith)
        requires
            w == s * tn,
            0real < s,
            tn >= 0real,
    ;
    assert(keeping(quality, age) == x3 + fr);
    assert(keeping_slack(quality) == 40real * (w + s + d));
    assert(around(pn, x3, 32real * (w + d)));
    assert(around(number(v), pn + fnum, z + d));
    assert(around(fnum, fr, 9real * s));
}

/// How long ago a peer was last measured, or registered where it never was.
pub open spec fn seconds_since(peer: Peer, now: u64) -> u64 {
    let then = match peer.last_outcome_at {
        Some(at) => at,
        None => peer.first_seen,
    };
    if then <= now {
        (now - then) as u64
    } else {
        0
    }
}

/// Whether a peer is busy: it has ranges in flight, and not for five minutes yet.
pub open spec fn still_busy(peer: Peer, now: u64) -> bool {
    peer.quality.in_flight > 0 && !(peer.in_flight_since is Some && peer.in_flight_since->0 + 300
        <= now)
}

/// Whoever has to leave for want of room is not connected. It is busy only where nobody who stays is
/// idle, and of those that are busy, or idle, like it, it is worth keeping no more than anyone who
/// stays and is not connected; up to rounding.
pub proof fn those_least_worth_keeping_leave(
    kit: &Doubles,
    before: Seq<Peer>,
    capacity: nat,
    now: u64,
    after: Seq<Peer>,
    gone: Seq<PeerId>,
    leaver: PeerId,
    stayer: PeerId,
)
    requires
        distinct(before),
        bounded(kit, before, capacity, now, after, gone),
        gone.contains(leaver),
        registered(after, stayer),
        ordinary(known(before, leaver).quality),
        ordinary(known(before, stayer).quality),
        seconds_since(known(before, leaver), now) <= 0x20_0000_0000_0000,
        seconds_since(known(before, stayer), now) <= 0x20_0000_0000_0000,
    ensures
        before.len() > capacity,
        registered(before, leaver),
        registered(before, stayer),
        !known(before, leaver).connected,
        still_busy(known(before, leaver), now) ==> known(before, stayer).connected || still_busy(
            known(before, stayer),
            now,
        ),
        ({
            let (l, s) = (known(before, leaver), known(before, stayer));
            !s.connected && still_busy(l, now) == still_busy(s, now) ==> keeping(
                l.quality,
                seconds_since(l, now),
            ) - keeping_slack(l.quality) <= keeping(s.quality, seconds_since(s, now))
                + keeping_slack(s.quality)
        }),
{
    the_bound_is_hard(kit, before, capacity, now, after, gone);
    lemma_settled_places(before, now);
    let peers = settled(before, now);
    let worth = choose|worth: Seq<Measure>| #[trigger]
        weighed(kit, peers, now, worth) && after == kept(peers, worth, capacity) && gone == shed(
            peers,
            worth,
            capacity,
        );
    assert(registered(before, leaver) && registered(before, stayer));
    assert(registered(peers, leaver) && registered(peers, stayer));
    let i = place(after, stayer);
    assert(0 <= i < after.len() && after[i].peer_id == stayer);
    lemma_place(after, i);
    let stays = after[i];
    assert(kept(peers, worth, capacity).contains(stays));
    the_least_worth_leave_first(peers, worth, capacity, leaver, stays);
    assert(stays == known(before, stayer).settled(now));
    let (l, s) = (known(before, leaver), known(before, stayer));
    assert(known(peers, leaver) == l.settled(now));
    assert(known(peers, stayer) == s.settled(now));
    let (p, q) = (place(peers, leaver), place(peers, stayer));
    assert(0 <= p < peers.len() && peers[p].peer_id == leaver);
    assert(0 <= q < peers.len() && peers[q].peer_id == stayer);
    assert(retention(peers[p].quality, peers[p].age(now)).gives(kit, worth[p]));
    assert(retention(peers[q].quality, peers[q].age(now)).gives(kit, worth[q]));
    lemma_same_retention(l, now);
    lemma_same_retention(s, now);
    fast_trusted_fresh_peers_are_worth_keeping(kit, l.quality, seconds_since(l, now), worth[p]);
    fast_trusted_fresh_peers_are_worth_keeping(kit, s.quality, seconds_since(s, now), worth[q]);
    lemma_number_order(worth[p], worth[q]);
}

/// Writing off a dispatch does not change what a peer is worth keeping.
proof fn lemma_same_retention(peer: Peer, now: u64)
    ensures
        retention(peer.settled(now).quality, peer.settled(now).age(now)) == retention(
            peer.quality,
            seconds_since(peer, now),
        ),
{
}

} // verus!
