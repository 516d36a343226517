//! The values that callers hand to a selector and get back from it.

use vstd::prelude::*;

use crate::address::{copy_addresses, CandidateAddr, TraversalKind};
use crate::formula::{constant, Formula, Term};
use crate::identity::{spelled_bytes, spells_identity, PeerId};
use crate::measure::{Arithmetic, Measure, THOUSAND};

use dig_dht::ContentId;

verus! {

/// `dig_dht::ContentId`, which names what is fetched. The library only carries it.
#[verifier::external_type_specification]
#[verifier::external_body]
pub struct ExContentId(dig_dht::ContentId);

/// How a peer entered the registry: a hint about its addresses, which never moves its quality.
#[derive(Clone, Copy, Debug, PartialEq, Eq, Hash, Structural)]
pub enum Provenance {
    /// From a provider record.
    Dht,
    /// From the connected pool.
    Gossip,
    /// From peer exchange.
    Pex,
    /// From a link whose path was reported.
    Nat,
    /// From the host.
    Manual,
}

impl Provenance {
    /// How strong the evidence is; higher is stronger.
    pub open spec fn strength(self) -> u8 {
        match self {
            Provenance::Manual => 0,
            Provenance::Pex => 1,
            Provenance::Dht => 2,
            Provenance::Gossip => 3,
            Provenance::Nat => 4,
        }
    }

    /// The one of two provenances with the stronger evidence; the first where they tie.
    pub open spec fn stronger(self, other: Provenance) -> Provenance {
        if other.strength() > self.strength() {
            other
        } else {
            self
        }
    }

    /// How strong the evidence is: a live link outranks an address hint.
    pub fn evidence(self) -> (r: u8)
        ensures
            r == self.strength(),
    {
        match self {
            Provenance::Manual => 0,
            Provenance::Pex => 1,
            Provenance::Dht => 2,
            Provenance::Gossip => 3,
            Provenance::Nat => 4,
        }
    }
}

/// What is fetched, and from how many sources at once.
#[derive(Clone, Copy, Debug)]
pub struct ContentRequest {
    /// What is fetched.
    pub content: ContentId,
    /// Its length, if known.
    pub total_length: Option<u64>,
    /// The planned number of ranges, if known.
    pub range_count: Option<usize>,
    /// How many sources the caller wants.
    pub parallelism: usize,
}

impl ContentRequest {
    /// How many sources are wanted: at least one.
    pub open spec fn wanted(self) -> usize {
        if self.parallelism == 0 {
            1
        } else {
            self.parallelism
        }
    }

    /// A request for `parallelism` sources, at least one, of content of unknown length.
    pub fn new(content: ContentId, parallelism: usize) -> (r: ContentRequest)
        ensures
            r == (ContentRequest {
                content,
                total_length: None,
                range_count: None,
                parallelism: if parallelism == 0 {
                    1
                } else {
                    parallelism
                },
            }),
    {
        ContentRequest {
            content,
            total_length: None,
            range_count: None,
            parallelism: if parallelism == 0 {
                1
            } else {
                parallelism
            },
        }
    }

    /// How many sources are wanted: at least one.
    pub fn effective_parallelism(&self) -> (r: usize)
        ensures
            r == self.wanted(),
            r >= 1,
    {
        if self.parallelism == 0 {
            1
        } else {
            self.parallelism
        }
    }
}

/// A published claim that a peer holds some content.
#[derive(Debug, PartialEq, Eq)]
pub struct ProviderRecord {
    /// The key of the content, in hexadecimal digits.
    pub content_key: String,
    /// The identity of the holder, in hexadecimal digits.
    pub provider_peer_id: String,
    /// Where the holder may be dialed.
    pub addresses: Vec<CandidateAddr>,
    /// When the record lapses, in seconds since the epoch.
    pub expires_at: u64,
}

/// A peer offered as a source.
#[derive(Clone, Debug)]
pub struct Candidate {
    /// The identity.
    pub peer_id: PeerId,
    /// Where it may be dialed.
    pub addresses: Vec<CandidateAddr>,
    /// The path of a live link to it, if known.
    pub class: Option<TraversalKind>,
}

impl Candidate {
    /// A candidate without a known path.
    pub fn new(peer_id: PeerId, addresses: Vec<CandidateAddr>) -> (r: Candidate)
        ensures
            r == (Candidate { peer_id, addresses, class: None }),
    {
        Candidate { peer_id, addresses, class: None }
    }

    /// The candidate that a provider record names; nothing where the record's identity is not sixty-
    /// four hexadecimal digits.
    pub fn from_provider_record(rec: &ProviderRecord) -> (r: Option<Candidate>)
        ensures
            r is Some <==> spells_identity(rec.provider_peer_id@),
            r matches Some(candidate) ==> {
                &&& candidate.peer_id.bytes@ == spelled_bytes(rec.provider_peer_id@)
                &&& candidate.addresses@ == rec.addresses@
                &&& candidate.class is None
            },
    {
        match PeerId::from_hex(rec.provider_peer_id.as_str()) {
            Some(peer_id) => Some(Candidate::new(peer_id, copy_addresses(&rec.addresses))),
            None => None,
        }
    }
}

/// One chosen peer.
#[derive(Clone, Copy, Debug, PartialEq, Eq)]
pub struct SelectedPeer {
    /// The identity.
    pub peer_id: PeerId,
    /// The rank; zero is best.
    pub rank: u32,
    /// How many ranges to run at once; at least one.
    pub max_concurrency: u32,
    /// Whether the peer was chosen to learn about it rather than on merit.
    pub exploratory: bool,
}

/// The chosen peers, best first.
#[derive(Clone, Debug, PartialEq, Eq)]
pub struct Selection {
    /// The peers.
    pub peers: Vec<SelectedPeer>,
}

impl Selection {
    /// A selection of nobody.
    pub fn empty() -> (r: Selection)
        ensures
            r.peers@ == Seq::<SelectedPeer>::empty(),
    {
        Selection { peers: Vec::new() }
    }

    /// Whether nobody was chosen.
    pub fn is_empty(&self) -> (r: bool)
        ensures
            r == (self.peers@.len() == 0),
    {
        self.peers.len() == 0
    }

    /// How many peers were chosen.
    pub fn len(&self) -> (r: usize)
        ensures
            r == self.peers@.len(),
    {
        self.peers.len()
    }

    /// The best chosen peer.
    pub fn best(&self) -> (r: Option<&SelectedPeer>)
        ensures
            r is Some <==> self.peers@.len() > 0,
            r matches Some(peer) ==> *peer == self.peers@[0],
    {
        if self.peers.len() == 0 {
            None
        } else {
            Some(&self.peers[0])
        }
    }
}

impl Default for Selection {
    fn default() -> (r: Selection)
        ensures
            r.peers@ == Seq::<SelectedPeer>::empty(),
    {
        Selection::empty()
    }
}

/// What an outcome is about.
#[derive(Clone, Copy, Debug, PartialEq, Eq, Structural)]
pub enum OutcomeKind {
    /// One range.
    Range {
        /// Its index in the plan.
        index: usize,
        /// Where it starts.
        offset: u64,
        /// How long it is.
        length: u64,
    },
    /// A whole request.
    Request {
        /// How much was moved in all.
        total_length: u64,
    },
}

/// Why a transfer failed.
#[derive(Clone, Copy, Debug, PartialEq, Eq, Structural)]
pub enum FailureReason {
    /// The peer did not answer in time.
    Timeout,
    /// The connection failed.
    Transport,
    /// The peer does not have the content.
    Unavailable,
    /// The bytes did not verify.
    VerificationFailed,
    /// The host cancelled.
    Cancelled,
    /// Anything else.
    Other,
}

impl FailureReason {
    /// Whether the failure marks a bad source: bytes that did not verify.
    pub fn is_hard(self) -> (r: bool)
        ensures
            r == (self == FailureReason::VerificationFailed),
    {
        matches!(self, FailureReason::VerificationFailed)
    }

    /// Whether the failure is the peer's: every one but a cancellation by the host.
    pub fn blames_peer(self) -> (r: bool)
        ensures
            r == (self != FailureReason::Cancelled),
    {
        !matches!(self, FailureReason::Cancelled)
    }
}

/// How a transfer ended.
#[derive(Clone, Copy, Debug, PartialEq, Eq, Structural)]
pub enum OutcomeResult {
    /// It succeeded, and its bytes verified.
    Success,
    /// It failed.
    Failure {
        /// Why.
        reason: FailureReason,
    },
    /// It broke off.
    Interrupted {
        /// How much was moved before that.
        bytes_before: u64,
    },
}

/// The rate in bytes per second of bytes moved in some milliseconds.
pub open spec fn throughput(bytes: u64, duration_ms: u64) -> Formula {
    Formula::Count(bytes).times(constant(THOUSAND)).over(Formula::Count(duration_ms))
}

/// One measured transfer.
#[derive(Clone, Copy, Debug, PartialEq, Eq)]
pub struct TransferOutcome {
    /// Who served it.
    pub peer_id: PeerId,
    /// What was fetched.
    pub content: ContentId,
    /// A range or a whole request.
    pub kind: OutcomeKind,
    /// How it ended.
    pub result: OutcomeResult,
    /// How many bytes were moved.
    pub bytes: u64,
    /// How long it took, in milliseconds.
    pub duration_ms: u64,
    /// The time to the first byte in milliseconds, if measured.
    pub rtt_ms: Option<u64>,
    /// When it ended, in seconds since the epoch.
    pub at: u64,
}

impl TransferOutcome {
    /// Whether `r` is the measured rate, as `kit` computes: there is one where bytes were moved in a
    /// time that is not zero.
    pub open spec fn is_rate<A: Arithmetic>(self, kit: &A, r: Option<Measure>) -> bool {
        match r {
            Some(rate) => self.bytes != 0 && self.duration_ms != 0 && throughput(
                self.bytes,
                self.duration_ms,
            ).gives(kit, rate),
            None => self.bytes == 0 || self.duration_ms == 0,
        }
    }

    /// The measured throughput in bytes per second; nothing where no byte or no time was measured.
    pub fn throughput_bps<A: Arithmetic>(&self, kit: &A) -> (r: Option<Measure>)
        ensures
            self.is_rate(kit, r),
    {
        if self.bytes == 0 || self.duration_ms == 0 {
            None
        } else {
            let scaled = Term::count(self.bytes, kit).times(&Term::constant(THOUSAND, kit), kit);
            Some(scaled.over(&Term::count(self.duration_ms, kit), kit).value)
        }
    }

    /// Whether the transfer succeeded.
    pub fn is_success(&self) -> (r: bool)
        ensures
            r == (self.result is Success),
    {
        matches!(self.result, OutcomeResult::Success)
    }

    /// Whether the bytes did not verify.
    pub fn is_hard_failure(&self) -> (r: bool)
        ensures
            r == (self.result == OutcomeResult::Failure {
                reason: FailureReason::VerificationFailed,
            }),
    {
        matches!(
            self.result,
            OutcomeResult::Failure { reason: FailureReason::VerificationFailed }
        )
    }
}

/// The ranges that still need a source.
#[derive(Clone, Debug, PartialEq, Eq)]
pub struct RangePlanDelta {
    /// Their indices in the plan.
    pub needed_ranges: Vec<usize>,
}

impl RangePlanDelta {
    /// The ranges `0..count`.
    pub fn of_count(count: usize) -> (r: RangePlanDelta)
        ensures
            r.needed_ranges@ == Seq::new(count as nat, |i: int| i as usize),
    {
        let mut needed_ranges: Vec<usize> = Vec::new();
        let mut i: usize = 0;
        while i < count
            invariant
                i <= count,
                needed_ranges@ == Seq::new(i as nat, |j: int| j as usize),
            decreases count - i,
        {
            needed_ranges.push(i);
            i = i + 1;
            assert(needed_ranges@ == Seq::new(i as nat, |j: int| j as usize));
        }
        RangePlanDelta { needed_ranges }
    }

    /// The ranges with the given indices.
    pub fn of_indices(indices: Vec<usize>) -> (r: RangePlanDelta)
        ensures
            r.needed_ranges == indices,
    {
        RangePlanDelta { needed_ranges: indices }
    }

    /// How many ranges need a source.
    pub fn len(&self) -> (r: usize)
        ensures
            r == self.needed_ranges@.len(),
    {
        self.needed_ranges.len()
    }

    /// Whether none does.
    pub fn is_empty(&self) -> (r: bool)
        ensures
            r == (self.needed_ranges@.len() == 0),
    {
        self.needed_ranges.len() == 0
    }
}

impl Default for RangePlanDelta {
    fn default() -> (r: RangePlanDelta)
        ensures
            r.needed_ranges@ == Seq::<usize>::empty(),
    {
        RangePlanDelta { needed_ranges: Vec::new() }
    }
}

} // verus!
