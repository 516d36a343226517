//! What is shown, what is dialed, and how ties are broken, in terms of what is known of the peers.

use vstd::prelude::*;

use crate::address::{AddressKind, CandidateAddr, TraversalKind};
use crate::closeness::{around, lemma_number_order, lemma_whole_constants, number, slip};
use crate::config::{ClockSource, SelectorConfig};
use crate::dial::{descriptions, dial_order, is_target, literals, reachable, reaches, PeerTarget};
use crate::doubles::{is_number, Doubles};
use crate::draw::pcg_number;
use crate::identity::{spelled_bytes, spells_identity, text_form_spells_the_identity, PeerId};
use crate::measure::{Arithmetic, Measure, ONE};
use crate::engine_laws::same_but_load;
use crate::observe::{connected_among, measured_among, path_name, PeerSnapshot, SelectorSnapshot};
use crate::quality::Reliability;
use crate::ranking::{
    chosen, lemma_chosen_places, lineup, ranking, roomy, some_room, starved, Contender,
};
use crate::ranking_laws::{ranking_is_stable, the_starved_are_served, unmixed};
use crate::registry::{preferred, Peer};
use crate::scoring::{salt, RelayModel, SaturationModel};
use crate::state::SelectorState;
use crate::types::SelectedPeer;
use crate::worth_laws::{
    finite, left_by, swing, the_handicap_is_the_ratio_of_the_means,
    volatility_is_the_relative_swing,
};

verus! {

/// What is shown of a peer is what is known of it: its identity, in lower-case hexadecimal digits, its
/// measured means, which a starting point is not, the swing of its throughput, its outcomes, its link
/// and its load.
pub proof fn snapshots_show_what_is_known(kit: &Doubles, peer: Peer, shown: PeerSnapshot)
    requires
        shown.shows(kit, peer),
        finite(peer.quality.throughput.mean),
        is_number(peer.quality.throughput.mad),
    ensures
        spells_identity(shown.peer_id@),
        spelled_bytes(shown.peer_id@) == peer.peer_id.bytes@,
        forall|i: int|
            0 <= i < 64 ==> '0' <= (#[trigger] shown.peer_id@[i]) <= '9' || 'a' <= shown.peer_id@[i]
                <= 'f',
        around(
            number(shown.throughput_volatility),
            swing(peer.quality.throughput),
            2real * slip(),
        ),
        shown.provenance == peer.provenance,
        shown.connection_class is Some <==> peer.connection_class is Some,
        shown.connected == peer.connected,
        shown.banned == peer.banned,
        shown.samples == peer.quality.samples,
        shown.hard_failures == peer.quality.reliability.hard_failures,
        shown.in_flight == peer.quality.in_flight,
        peer.quality.throughput.samples == 0 ==> shown.throughput_bps is None,
        peer.quality.throughput.samples > 0 ==> shown.throughput_bps
            == peer.quality.throughput.mean,
        peer.quality.rtt.samples == 0 ==> shown.rtt_ms is None,
        peer.quality.rtt.samples > 0 ==> shown.rtt_ms == peer.quality.rtt.mean,
        peer.quality.reliability.samples == 0 ==> shown.reliability is None,
        peer.quality.reliability.samples > 0 ==> shown.reliability
            == peer.quality.reliability.rate,
{
    text_form_spells_the_identity(peer.peer_id);
    volatility_is_the_relative_swing(
        kit,
        peer.quality.throughput,
        shown.throughput_volatility,
    );
}

/// Whether something was measured of a peer.
pub open spec fn was_measured(peer: Peer) -> bool {
    peer.quality.samples > 0
}

/// Whether a peer is connected.
pub open spec fn is_connected(peer: Peer) -> bool {
    peer.connected
}

proof fn lemma_counted(peers: Seq<Peer>)
    ensures
        measured_among(peers) == peers.filter(|p: Peer| was_measured(p)).len(),
        connected_among(peers) == peers.filter(|p: Peer| is_connected(p)).len(),
    decreases peers.len(),
{
    reveal(Seq::filter);
    if peers.len() > 0 {
        lemma_counted(peers.drop_last());
    }
}

/// What is shown of a selector on the whole counts the registered, the measured and the connected
/// peers, and gives the saturation point of each class in whole ranges and the factor of relayed paths.
pub proof fn snapshots_count_the_peers(
    kit: &Doubles,
    peers: Seq<Peer>,
    saturation: SaturationModel,
    relay: RelayModel,
    shown: SelectorSnapshot,
)
    requires
        shown.shows(kit, peers, saturation, relay),
        finite(relay.relayed_mean),
        finite(relay.direct_mean),
    ensures
        around(
            number(shown.relayed_penalty),
            left_by(Some(TraversalKind::Relayed), relay),
            2real * slip(),
        ),
        shown.registry_size == peers.len(),
        shown.measured_peers == peers.filter(|p: Peer| was_measured(p)).len(),
        shown.connected_peers == peers.filter(|p: Peer| is_connected(p)).len(),
        shown.saturation_direct == saturation.direct.ranges,
        shown.saturation_relayed == saturation.relayed.ranges,
        shown.saturation_unknown == saturation.unknown.ranges,
{
    lemma_counted(peers);
    the_handicap_is_the_ratio_of_the_means(kit, relay, shown.relayed_penalty);
}

/// Whether the host of an address is an IP literal.
pub open spec fn is_literal(address: CandidateAddr) -> bool {
    address.ip is Some
}

proof fn lemma_literals_kept(addresses: Seq<CandidateAddr>)
    ensures
        literals(addresses) == addresses.filter(|a: CandidateAddr| is_literal(a)),
    decreases addresses.len(),
{
    reveal(Seq::filter);
    if addresses.len() > 0 {
        lemma_literals_kept(addresses.drop_last());
    }
}

/// A target names the peer and the network, and holds a socket for each place of the dial order of the
/// IP literals among the addresses, in that order: the address and the port of one with the host and
/// the port that stand there, which is no relay marker. There are four at most, and none only where no
/// address is a literal that can be dialed.
pub proof fn targets_follow_the_dial_order(
    target: PeerTarget,
    peer_id: PeerId,
    addresses: Seq<CandidateAddr>,
    network_id: Seq<char>,
)
    requires
        is_target(target, peer_id, addresses, network_id),
    ensures
        target.peer_id == peer_id,
        target.network_id@ == network_id,
        target.addrs@.len() <= 4,
        ({
            let order = dial_order(
                descriptions(addresses.filter(|a: CandidateAddr| is_literal(a))),
            );
            &&& target.addrs@.len() == order.len()
            &&& forall|k: int|
                0 <= k < order.len() ==> exists|i: int|
                    0 <= i < addresses.len() && (#[trigger] addresses[i]).host@ == (
                    #[trigger] order[k]).0 && addresses[i].port == order[k].1
                        && addresses[i].kind != AddressKind::Relay && addresses[i].ip == Some(
                        target.addrs@[k].ip,
                    ) && target.addrs@[k].port == order[k].1
        }),
        target.addrs@.len() == 0 <==> forall|i: int|
            0 <= i < addresses.len() ==> (#[trigger] addresses[i]).ip is None || addresses[i].kind
                == AddressKind::Relay,
{
    lemma_literals_kept(addresses);
    let order = dial_order(descriptions(literals(addresses)));
    let found = target.addrs@;
    assert forall|k: int| 0 <= k < order.len() implies exists|i: int|
        0 <= i < addresses.len() && (#[trigger] addresses[i]).host@ == (#[trigger] order[k]).0
            && addresses[i].port == order[k].1 && addresses[i].kind != AddressKind::Relay
            && addresses[i].ip == Some(found[k].ip) && found[k].port == order[k].1 by {
        assert(reaches(addresses, order[k], found[k]));
    }
    if found.len() == 0 {
        assert forall|i: int| 0 <= i < addresses.len() implies (#[trigger] addresses[i]).ip is None
            || addresses[i].kind == AddressKind::Relay by {
            assert(!reachable(addresses[i]));
        }
    } else {
        assert(reaches(addresses, order[0], found[0]));
    }
}

/// A dial plan holds those of a selection who are registered still, in its order.
pub proof fn plans_leave_out_the_unregistered(state: SelectorState, selected: Seq<SelectedPeer>)
    ensures
        state.diallable(selected) == selected.filter(|s: SelectedPeer| state.knows(s.peer_id)),
    decreases selected.len(),
{
    reveal(Seq::filter);
    if selected.len() > 0 {
        plans_leave_out_the_unregistered(state, selected.drop_last());
    }
}

/// The address to prefer is no relay marker. It is the first direct one where there is any, else the
/// first mapped one, else the first that a third party saw.
pub proof fn direct_addresses_are_preferred(addresses: Seq<CandidateAddr>, i: int, j: int)
    requires
        preferred(addresses, i),
        0 <= j < addresses.len(),
    ensures
        0 <= i < addresses.len(),
        addresses[i].kind != AddressKind::Relay,
        addresses[j].kind == AddressKind::Direct ==> addresses[i].kind == AddressKind::Direct && i
            <= j,
        addresses[j].kind == AddressKind::Mapped ==> addresses[i].kind == AddressKind::Direct || (
        addresses[i].kind == AddressKind::Mapped && i <= j),
        addresses[j].kind == AddressKind::Reflexive && addresses[i].kind == AddressKind::Reflexive
            ==> i <= j,
{
    assert(addresses[j].kind.dials() ==> addresses[i].kind.distance() < addresses[j].kind.distance()
        || (addresses[i].kind.distance() == addresses[j].kind.distance() && i <= j));
}

/// Ties are broken by the first eight bytes of the identities, as words are ordered: the smaller byte
/// where they first differ counts, and nothing behind them does.
pub proof fn ties_are_broken_by_the_identity(a: PeerId, b: PeerId, k: int)
    requires
        0 <= k <= 8,
        forall|i: int| 0 <= i < k ==> #[trigger] a.bytes@[i] == b.bytes@[i],
    ensures
        k == 8 ==> salt(a) == salt(b),
        k < 8 && a.bytes@[k] < b.bytes@[k] ==> salt(a) < salt(b),
{
    let (x, y) = (a.bytes@, b.bytes@);
    assert(k > 0 ==> x[0] == y[0]);
    assert(k > 1 ==> x[1] == y[1]);
    assert(k > 2 ==> x[2] == y[2]);
    assert(k > 3 ==> x[3] == y[3]);
    assert(k > 4 ==> x[4] == y[4]);
    assert(k > 5 ==> x[5] == y[5]);
    assert(k > 6 ==> x[6] == y[6]);
    assert(k > 7 ==> x[7] == y[7]);
}

/// Of two contenders of equal score in a ranking, where no unmeasured one ties with a measured one,
/// two measured ones stand in the order of their tie-breaks, and of two unmeasured ones the one comes
/// first that was chosen longer ago, or, where they tie, drew the smaller number.
pub proof fn equals_are_ordered_by_their_ties(field: Seq<Contender>, a: int, b: int)
    requires
        field.len() <= usize::MAX,
        unmixed(field),
        0 <= a < b < field.len(),
    ensures
        ({
            let x = field[ranking(field, field.len())[a] as int];
            let y = field[ranking(field, field.len())[b] as int];
            &&& x.score.effective_score >= y.score.effective_score
            &&& x.score.effective_score == y.score.effective_score && !(x.score.exploratory
                && y.score.exploratory) ==> x.score.tie_break <= y.score.tie_break
            &&& x.score.effective_score == y.score.effective_score && x.score.exploratory
                && y.score.exploratory ==> x.last_selected < y.last_selected || (x.last_selected
                == y.last_selected && x.jitter <= y.jitter)
        }),
{
    ranking_is_stable(field, field.len());
    let order = ranking(field, field.len());
    let (i, j) = (order[a], order[b]);
    assert(!field[j as int].precedes(field[i as int]));
}

/// Where there are fewer slots than contenders, and one of them that is no bad source, and not at its
/// saturation point while others are below theirs, was not chosen for more rounds than there are
/// contenders, then the last slot goes to one that was not chosen for at least as long, and breaks the
/// tie where it was as long, as an exploratory choice.
pub proof fn the_longest_waiting_get_the_last_slot(
    field: Seq<Contender>,
    want: usize,
    epoch: u64,
    i: int,
)
    requires
        field.len() <= usize::MAX,
        1 <= want < field.len(),
        0 <= i < field.len(),
        field[i].score.effective_score >= 0,
        !field[i].full || forall|j: int| 0 <= j < field.len() ==> (#[trigger] field[j]).full,
        epoch - field[i].last_selected > field.len(),
    ensures
        lineup(field, want, epoch).len() > 0,
        lineup(field, want, epoch).last().exploratory,
        ({
            let last = chosen(field, want, epoch).last() as int;
            &&& 0 <= last < field.len()
            &&& lineup(field, want, epoch).last().peer_id == field[last].peer_id
            &&& field[last].score.effective_score >= 0
            &&& epoch - field[last].last_selected >= epoch - field[i].last_selected
            &&& field[last].last_selected == field[i].last_selected
                ==> field[last].score.tie_break <= field[i].score.tie_break
        }),
{
    assert(starved(field, epoch, i)) by {
        if some_room(field) && field[i].full {
            let j = choose|j: int| #[trigger] roomy(field, j);
            assert(field[j].full);
        }
    }
    the_starved_are_served(field, want, epoch, i);
    lemma_chosen_places(field, want, epoch);
}

/// Each contender of a round draws a number of its own: that at its place behind those drawn before.
pub proof fn each_contender_draws_its_own_number<A: Arithmetic>(
    kit: &A,
    state: SelectorState,
    ids: Seq<PeerId>,
    active: Seq<PeerId>,
    field: Seq<Contender>,
    i: int,
)
    requires
        state.is_field(kit, ids, active, field),
        0 <= i < ids.len(),
        state.drawn + ids.len() <= u128::MAX,
    ensures
        field.len() == ids.len(),
        field[i].peer_id == ids[i],
        field[i].jitter == pcg_number(state.seed, (state.drawn + i) as u128),
        state.next_round(ids.len()).drawn == state.drawn + ids.len(),
        state.next_round(ids.len()).seed == state.seed,
        state.epoch < u64::MAX ==> state.next_round(ids.len()).epoch == state.epoch + 1,
{
}

/// A new selector knows nobody, has chosen and drawn nothing, and presumes four ranges at once on a
/// direct path, two on a relayed one and three on one not known.
pub proof fn new_selectors_presume_little(clock: ClockSource, seed: u64, bound: nat)
    ensures
        ({
            let new = SelectorState::initial(clock, seed, bound);
            &&& forall|id: PeerId| !#[trigger] new.knows(id)
            &&& new.clock == clock && new.seed == seed && new.bound == bound
            &&& new.drawn == 0 && new.epoch == 0
            &&& forall|id: PeerId| !#[trigger] new.last_selected.contains_key(id)
            &&& forall|id: PeerId| !#[trigger] new.dispatched.contains_key(id)
            &&& new.saturation.direct.ranges == 4 && number(new.saturation.direct.point) == 4real
            &&& new.saturation.relayed.ranges == 2 && number(new.saturation.relayed.point) == 2real
            &&& new.saturation.unknown.ranges == 3 && number(new.saturation.unknown.point) == 3real
            &&& new.relay.relayed_mean is None && new.relay.direct_mean is None
            &&& new.relay.relayed_samples == 0 && new.relay.direct_samples == 0
        }),
{
    lemma_whole_constants();
}

/// A starting rate is taken while no result is measured, as far as it is at most one, and never after.
pub proof fn starting_rates_stay_within_one(reliability: Reliability, value: Measure)
    ensures
        reliability.samples > 0 ==> reliability.seeded(value) == reliability,
        reliability.samples == 0 ==> {
            let seeded = reliability.seeded(value);
            &&& seeded.rate is Some
            &&& number(value) <= 1real ==> seeded.rate == Some(value)
            &&& number(value) > 1real ==> number(seeded.rate->0) == 1real
            &&& seeded.samples == 0
            &&& seeded.hard_failures == reliability.hard_failures
        },
{
    lemma_whole_constants();
    lemma_number_order(value, Measure { bits: ONE });
}

/// A configured seed is the one that is used.
pub proof fn configured_seeds_are_used(config: SelectorConfig, seed: u64)
    requires
        config.rng_seed == Some(seed),
    ensures
        config.seed() == seed,
{
}

/// Each path has a name of its own.
pub proof fn paths_are_told_apart_by_their_names(kind: TraversalKind)
    ensures
        path_name(kind) == "direct"@ <==> kind == TraversalKind::Direct,
        path_name(kind) == "upnp"@ <==> kind == TraversalKind::Upnp,
        path_name(kind) == "natpmp"@ <==> kind == TraversalKind::NatPmp,
        path_name(kind) == "pcp"@ <==> kind == TraversalKind::Pcp,
        path_name(kind) == "holepunch"@ <==> kind == TraversalKind::HolePunch,
        path_name(kind) == "relayed"@ <==> kind == TraversalKind::Relayed,
{
    reveal_strlit("direct");
    reveal_strlit("upnp");
    reveal_strlit("natpmp");
    reveal_strlit("pcp");
    reveal_strlit("holepunch");
    reveal_strlit("relayed");
    assert("direct"@.len() == 6 && "natpmp"@.len() == 6 && "upnp"@.len() == 4);
    assert("pcp"@.len() == 3 && "holepunch"@.len() == 9 && "relayed"@.len() == 7);
    assert("direct"@[0] == 'd' && "natpmp"@[0] == 'n');
}

/// Ranges that were settled are taken off those in flight, as far as there are any; with none left the
/// peer is busy no longer.
pub proof fn settled_ranges_are_taken_off(peer: Peer, count: u32)
    ensures
        count <= peer.quality.in_flight ==> peer.relieved(count).quality.in_flight
            == peer.quality.in_flight - count,
        count > peer.quality.in_flight ==> peer.relieved(count).quality.in_flight == 0,
        count >= peer.quality.in_flight ==> peer.relieved(count).in_flight_since is None,
        count < peer.quality.in_flight ==> peer.relieved(count).in_flight_since
            == peer.in_flight_since,
        same_but_load(peer.relieved(count), peer),
{
}

} // verus!
