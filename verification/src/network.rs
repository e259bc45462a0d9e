//! The network aggregate: the address tree, the pending-event queue, and
//! the churn entry points with their cascade processor.

use vstd::prelude::*;
use crate::hashing::{event_hash, keccak_low64, spec_encoding};
use crate::params::{Params, PPM_SCALE};
use crate::policy::{
    fires, flatten, pick_weighted, should_merge, should_split, spec_fires, spec_flat,
    spec_pick_from, spec_total_weight, spec_weakest_from, total_weight, weakest_neighbour,
};
use crate::rng::{sm_mix, sm_next, SimRng};
use vstd::arithmetic::power2::{
    pow2, lemma_pow2_adds, lemma_pow2_pos, lemma_pow2_strictly_increases, lemma2_to64,
    lemma2_to64_rest,
};
use vstd::bits::lemma_u64_shl_is_mul;
use crate::tree::{
    covers, covers_pred, lemma_cover_unique, lemma_covers_iff_interval, lemma_filter_sub,
    not_covers_pred, sec_size, spec_bump, spec_find_prefix, spec_locate, total_nodes, AddressTree,
    Node, Section,
    ADDR_BITS,
};

verus! {

/// A churn event, externally injected or generated inside a cascade. Each
/// carries what is needed to replay it.
#[derive(Clone, Copy, Debug, PartialEq, Eq, Structural)]
pub enum Event {
    /// A new node joins at the given address.
    Join { address: u64 },
    /// The node at the given address leaves.
    Drop { address: u64 },
    /// A previously departed node joins again at its old address.
    Rejoin { address: u64 },
    /// The node at the given address is checked for forced reassignment.
    Relocate { address: u64 },
    /// The section with the given prefix is due to split.
    SplitSection { prefix_len: u64, prefix_bits: u64 },
    /// The section with the given prefix is due to merge with its sibling.
    MergeSection { prefix_len: u64, prefix_bits: u64 },
}

impl Event {
    /// The one-byte kind tag of the canonical hash encoding.
    pub open spec fn spec_kind_tag(self) -> u8 {
        match self {
            Event::Join { .. } => 0,
            Event::Drop { .. } => 1,
            Event::Rejoin { .. } => 2,
            Event::Relocate { .. } => 3,
            Event::SplitSection { .. } => 4,
            Event::MergeSection { .. } => 5,
        }
    }

    /// The 64-bit field of the canonical hash encoding: the event's address,
    /// or the prefix bits for structural events.
    pub open spec fn spec_hash_key(self) -> u64 {
        match self {
            Event::Join { address } => address,
            Event::Drop { address } => address,
            Event::Rejoin { address } => address,
            Event::Relocate { address } => address,
            Event::SplitSection { prefix_bits, .. } => prefix_bits,
            Event::MergeSection { prefix_bits, .. } => prefix_bits,
        }
    }

    /// Read the kind tag.
    pub fn kind_tag(&self) -> (r: u8)
        ensures
            r == self.spec_kind_tag(),
    {
        match self {
            Event::Join { .. } => 0,
            Event::Drop { .. } => 1,
            Event::Rejoin { .. } => 2,
            Event::Relocate { .. } => 3,
            Event::SplitSection { .. } => 4,
            Event::MergeSection { .. } => 5,
        }
    }

    /// Read the 64-bit hash key.
    pub fn hash_key(&self) -> (r: u64)
        ensures
            r == self.spec_hash_key(),
    {
        match self {
            Event::Join { address } => *address,
            Event::Drop { address } => *address,
            Event::Rejoin { address } => *address,
            Event::Relocate { address } => *address,
            Event::SplitSection { prefix_bits, .. } => *prefix_bits,
            Event::MergeSection { prefix_bits, .. } => *prefix_bits,
        }
    }

    /// The hash of this event's canonical content at sequence number `seqno`.
    pub open spec fn spec_hash(self, seqno: u64) -> u64 {
        keccak_low64(spec_encoding(self.spec_hash_key(), self.spec_kind_tag(), seqno))
    }
}

/// What can go wrong inside the core.
#[derive(Clone, Copy, Debug, PartialEq, Eq, Structural)]
pub enum SimError {
    /// A configuration value was out of range; nothing was constructed.
    InvalidConfig,
    /// An address was inserted that was already present: the partition
    /// invariant would have been broken, so the run is abandoned.
    DuplicateAddress,
    /// A cascade exceeded its safety bound without reaching quiescence.
    CascadeOverrun,
}

/// Bound on the recent-departures record consulted by rejoins.
pub const DEPARTED_CAP: usize = 1024;

/// Safety bound on the number of events processed in one cascade.
pub const MAX_CASCADE_EVENTS: usize = 100000;

/// Every member everywhere is at least `init_age` old.
pub open spec fn ages_ok(secs: Seq<Section>, init_age: u8) -> bool {
    forall|i: int, j: int|
        0 <= i < secs.len() && 0 <= j < secs[i].members@.len() ==> (#[trigger] secs[i].members@[j]).age
            >= init_age
}

/// Whether some section of the network holds a node with address `a`.
pub open spec fn tree_has_address(secs: Seq<Section>, a: u64) -> bool {
    exists|i: int| 0 <= i < secs.len() && Section::has_address(#[trigger] secs[i].members@, a)
}

/// Whether the exact node `n` is a member somewhere.
pub open spec fn node_in(secs: Seq<Section>, n: Node) -> bool {
    exists|i: int, j: int|
        0 <= i < secs.len() && 0 <= j < secs[i].members@.len() && (#[trigger] secs[i].members@[j])
            == n
}

/// Two sections agree in everything observable: prefix and members.
pub open spec fn sec_view_eq(a: Section, b: Section) -> bool {
    &&& a.prefix_len == b.prefix_len
    &&& a.prefix_bits == b.prefix_bits
    &&& a.members@ == b.members@
}

/// Two partitions agree section by section.
pub open spec fn secs_view_eq(a: Seq<Section>, b: Seq<Section>) -> bool {
    &&& a.len() == b.len()
    &&& forall|i: int| 0 <= i < a.len() ==> sec_view_eq(#[trigger] a[i], #[trigger] b[i])
}

/// Two networks agree in everything observable: the partition, the pending
/// events, the departures record, the configuration and the event counter.
pub open spec fn net_view_eq(a: Network, b: Network) -> bool {
    &&& secs_view_eq(a.tree.sections@, b.tree.sections@)
    &&& a.queue@ == b.queue@
    &&& a.departed@ == b.departed@
    &&& a.params == b.params
    &&& a.event_seq == b.event_seq
}

/// The network: the partition, the pending events of the current cascade,
/// a bounded record of recently departed addresses, the configuration, and
/// the event sequence number fed into the event hash.
pub struct Network {
    /// The partition of the address space.
    pub tree: AddressTree,
    /// Pending events, processed first-in first-out.
    pub queue: Vec<Event>,
    /// Addresses of recently dropped nodes, oldest first.
    pub departed: Vec<u64>,
    /// The run's configuration.
    pub params: Params,
    /// Number of events processed so far; each processed event gets the next
    /// value, which salts its hash.
    pub event_seq: u64,
}

impl Network {
    /// The global invariant: a valid configuration, the partition invariant
    /// on the tree, and the age bound on every member.
    pub open spec fn wf(&self) -> bool {
        &&& self.params.valid()
        &&& self.tree.wf()
        &&& ages_ok(self.tree.sections@, self.params.init_age)
    }

    /// Total number of live nodes.
    pub open spec fn total(&self) -> int {
        self.tree.total()
    }

    /// Build an empty network from a configuration. Out-of-range
    /// configuration values are rejected, never defaulted.
    pub fn new(params: Params) -> (r: Result<Network, SimError>)
        ensures
            r is Ok <==> params.valid(),
            r is Ok ==> {
                let net = r->Ok_0;
                &&& net.wf()
                &&& net.params == params
                &&& net.tree.sections@.len() == 1
                &&& net.total() == 0
                &&& net.queue@ == Seq::<Event>::empty()
                &&& net.departed@ == Seq::<u64>::empty()
                &&& net.event_seq == 0
            },
            r is Err ==> r == Err::<Network, SimError>(SimError::InvalidConfig),
    {
        if !params.check() {
            return Err(SimError::InvalidConfig);
        }
        let net = Network {
            tree: AddressTree::new(),
            queue: Vec::new(),
            departed: Vec::new(),
            params,
            event_seq: 0,
        };
        Ok(net)
    }

    /// Draw a uniformly random address and enqueue a join for it. Effects
    /// become visible once `process_events` drains the cascade.
    pub fn add_random_node(&mut self, rng: &mut SimRng)
        requires
            old(self).wf(),
        ensures
            final(self).wf(),
            final(self).tree == old(self).tree,
            final(self).departed == old(self).departed,
            final(self).params == old(self).params,
            final(self).event_seq == old(self).event_seq,
            final(rng).state == sm_next(old(rng).state),
            final(self).queue@ == old(self).queue@.push(
                Event::Join { address: sm_mix(sm_next(old(rng).state)) },
            ),
    {
        let address = rng.next_u64();
        self.queue.push(Event::Join { address });
    }

    /// Choose a live node under the configured drop distribution and enqueue
    /// a drop for it; with no live node this is a no-op, not an error.
    pub fn drop_random_node(&mut self, rng: &mut SimRng)
        requires
            old(self).wf(),
        ensures
            final(self).wf(),
            final(self).tree == old(self).tree,
            final(self).departed == old(self).departed,
            final(self).params == old(self).params,
            final(self).event_seq == old(self).event_seq,
            ({
                let ns = spec_flat(old(self).tree.sections@, 0);
                let tw = spec_total_weight(
                    ns,
                    old(self).params.init_age,
                    old(self).params.drop_dist,
                    0,
                );
                if ns.len() == 0 {
                    final(self).queue == old(self).queue && *final(rng) == *old(rng)
                } else {
                    let draw = ((sm_mix(sm_next(old(rng).state)) as int) * 0x10000000000000000 + (
                    sm_mix(sm_next(sm_next(old(rng).state))) as int)) % tw;
                    let idx = spec_pick_from(
                        ns,
                        old(self).params.init_age,
                        old(self).params.drop_dist,
                        draw,
                        0,
                    );
                    &&& final(rng).state == sm_next(sm_next(old(rng).state))
                    &&& final(self).queue@ == old(self).queue@.push(
                        Event::Drop { address: ns[idx].address },
                    )
                }
            }),
    {
        let ns = flatten(&self.tree);
        if ns.len() == 0 {
            return ;
        }
        let tw = total_weight(&ns, self.params.init_age, self.params.drop_dist);
        let draw = rng.below_u128(tw);
        let idx = pick_weighted(&ns, self.params.init_age, self.params.drop_dist, draw);
        let address = ns[idx].address;
        self.queue.push(Event::Drop { address });
    }

    /// Re-admit a recently departed node, chosen uniformly from the
    /// departures record, and enqueue its rejoin; the chosen address leaves
    /// the record only when the rejoin event is applied. With no eligible
    /// node this is a no-op, not an error. Only the event queue changes.
    pub fn rejoin_random_node(&mut self, rng: &mut SimRng)
        requires
            old(self).wf(),
        ensures
            final(self).wf(),
            final(self).tree == old(self).tree,
            final(self).departed == old(self).departed,
            final(self).params == old(self).params,
            final(self).event_seq == old(self).event_seq,
            ({
                let dep = old(self).departed@;
                if dep.len() == 0 {
                    final(self).queue == old(self).queue && *final(rng) == *old(rng)
                } else {
                    let j = (sm_mix(sm_next(old(rng).state)) % (dep.len() as u64)) as int;
                    &&& final(rng).state == sm_next(old(rng).state)
                    &&& final(self).queue@ == old(self).queue@.push(
                        Event::Rejoin { address: dep[j] },
                    )
                }
            }),
    {
        let n = self.departed.len();
        if n == 0 {
            return ;
        }
        let j = rng.below(n as u64) as usize;
        let address = self.departed[j];
        self.queue.push(Event::Rejoin { address });
    }

    /// Count of live nodes at each age, indexed by age.
    pub open spec fn spec_count_age(ns: Seq<Node>, a: u8, i: int) -> int
        decreases ns.len() - i,
    {
        if i < 0 || i >= ns.len() {
            0
        } else {
            (if ns[i].age == a {
                1int
            } else {
                0int
            }) + Network::spec_count_age(ns, a, i + 1)
        }
    }

    /// The age distribution: entry `a` counts the live nodes of age `a`.
    /// Read-only; no side effects.
    pub fn age_distribution(&self) -> (r: Vec<usize>)
        requires
            self.wf(),
        ensures
            r@.len() == 256,
            forall|a: int|
                0 <= a < 256 ==> r@[a] == Network::spec_count_age(
                    spec_flat(self.tree.sections@, 0),
                    a as u8,
                    0,
                ),
    {
        let ns = flatten(&self.tree);
        let ghost nsv = ns@;
        let mut counts: Vec<usize> = vec![0; 256];
        let n = ns.len();
        proof {
            Network::lemma_count_age_bounds(nsv, 0);
        }
        let mut i: usize = 0;
        while i < n
            invariant
                0 <= i <= n,
                n == nsv.len(),
                nsv == ns@,
                counts@.len() == 256,
                forall|a: int|
                    0 <= a < 256 ==> (#[trigger] counts@[a]) + Network::spec_count_age(
                        nsv,
                        a as u8,
                        i as int,
                    ) == Network::spec_count_age(nsv, a as u8, 0),
                forall|a: int| 0 <= a < 256 ==> (#[trigger] counts@[a]) <= i,
            decreases n - i,
        {
            let age = ns[i].age as usize;
            let c = counts[age];
            counts.remove(age);
            counts.insert(age, c + 1);
            proof {
                assert forall|a: int| 0 <= a < 256 implies (#[trigger] counts@[a])
                    + Network::spec_count_age(nsv, a as u8, i + 1) == Network::spec_count_age(
                    nsv,
                    a as u8,
                    0,
                ) by {
                    assert(Network::spec_count_age(nsv, a as u8, i as int) == (if nsv[i as int].age
                        == a as u8 {
                        1int
                    } else {
                        0int
                    }) + Network::spec_count_age(nsv, a as u8, i + 1));
                }
            }
            i = i + 1;
        }
        counts
    }

    /// The count of an age never exceeds the number of nodes considered.
    pub proof fn lemma_count_age_bounds(ns: Seq<Node>, i: int)
        requires
            0 <= i <= ns.len(),
        ensures
            forall|a: u8| 0 <= #[trigger] Network::spec_count_age(ns, a, i) <= ns.len() - i,
        decreases ns.len() - i,
    {
        if i < ns.len() {
            Network::lemma_count_age_bounds(ns, i + 1);
            assert forall|a: u8| 0 <= #[trigger] Network::spec_count_age(ns, a, i) <= ns.len()
                - i by {
                assert(0 <= Network::spec_count_age(ns, a, i + 1) <= ns.len() - i - 1);
            }
        }
    }
}

/// Relocation events generated by checking the members of a section against
/// an event hash, in member order.
pub open spec fn spec_relocs(
    ms: Seq<Node>,
    h: u64,
    init_age: u8,
    rate: crate::params::RelocationRate,
    i: int,
) -> Seq<Event>
    decreases ms.len() - i,
{
    if i < 0 || i >= ms.len() {
        Seq::empty()
    } else {
        (if spec_fires(h, ms[i].age, init_age, rate) {
            seq![Event::Relocate { address: ms[i].address }]
        } else {
            Seq::empty()
        }) + spec_relocs(ms, h, init_age, rate, i + 1)
    }
}

/// Members matching the one-bit prefix extension `(clen, cb)`, from `i` on.
pub open spec fn spec_count_cov(ms: Seq<Node>, clen: u64, cb: u64, i: int) -> int
    decreases ms.len() - i,
{
    if i < 0 || i >= ms.len() {
        0
    } else {
        (if covers(clen, cb, ms[i].address) {
            1int
        } else {
            0int
        }) + spec_count_cov(ms, clen, cb, i + 1)
    }
}

/// Young members matching the extension, from `i` on.
pub open spec fn spec_count_cov_young(ms: Seq<Node>, clen: u64, cb: u64, b: u8, i: int) -> int
    decreases ms.len() - i,
{
    if i < 0 || i >= ms.len() {
        0
    } else {
        (if covers(clen, cb, ms[i].address) && ms[i].age <= b {
            1int
        } else {
            0int
        }) + spec_count_cov_young(ms, clen, cb, b, i + 1)
    }
}

/// Members not matching the extension, from `i` on.
pub open spec fn spec_count_not(ms: Seq<Node>, clen: u64, cb: u64, i: int) -> int
    decreases ms.len() - i,
{
    if i < 0 || i >= ms.len() {
        0
    } else {
        (if !covers(clen, cb, ms[i].address) {
            1int
        } else {
            0int
        }) + spec_count_not(ms, clen, cb, i + 1)
    }
}

/// Young members not matching the extension, from `i` on.
pub open spec fn spec_count_not_young(ms: Seq<Node>, clen: u64, cb: u64, b: u8, i: int) -> int
    decreases ms.len() - i,
{
    if i < 0 || i >= ms.len() {
        0
    } else {
        (if !covers(clen, cb, ms[i].address) && ms[i].age <= b {
            1int
        } else {
            0int
        }) + spec_count_not_young(ms, clen, cb, b, i + 1)
    }
}

/// The prospective-children counts are bounded by the membership and young
/// counts never exceed totals.
pub proof fn lemma_counts_bounds(ms: Seq<Node>, clen: u64, cb: u64, b: u8, i: int)
    requires
        0 <= i <= ms.len(),
    ensures
        0 <= spec_count_cov_young(ms, clen, cb, b, i) <= spec_count_cov(ms, clen, cb, i),
        spec_count_cov(ms, clen, cb, i) <= ms.len() - i,
        0 <= spec_count_not_young(ms, clen, cb, b, i) <= spec_count_not(ms, clen, cb, i),
        spec_count_not(ms, clen, cb, i) <= ms.len() - i,
        spec_count_cov(ms, clen, cb, i) + spec_count_not(ms, clen, cb, i) == ms.len() - i,
    decreases ms.len() - i,
{
    if i < ms.len() {
        lemma_counts_bounds(ms, clen, cb, b, i + 1);
    }
}

/// The split or merge event a section's state calls for after a change, if
/// any: the split decision looks at the prospective children, the merge
/// decision at the section's own size. A freshly split child is checked with
/// `merge_allowed` false: it waits for its own membership to change before
/// it may merge, so a split never immediately undoes itself.
pub open spec fn spec_sm_event(sec: Section, params: Params, merge_allowed: bool) -> Seq<Event> {
    let ms = sec.members@;
    let clen = (sec.prefix_len + 1) as u64;
    let cb = (2 * sec.prefix_bits) as u64;
    let y0 = spec_count_cov_young(ms, clen, cb, params.init_age, 0);
    let t0 = spec_count_cov(ms, clen, cb, 0);
    let y1 = spec_count_not_young(ms, clen, cb, params.init_age, 0);
    let t1 = spec_count_not(ms, clen, cb, 0);
    if crate::policy::spec_should_split(y0, t0, y1, t1, sec.prefix_len, params) {
        seq![Event::SplitSection { prefix_len: sec.prefix_len, prefix_bits: sec.prefix_bits }]
    } else if merge_allowed && crate::policy::spec_should_merge(
        ms.len() as int,
        sec.prefix_len,
        params,
    ) {
        seq![Event::MergeSection { prefix_len: sec.prefix_len, prefix_bits: sec.prefix_bits }]
    } else {
        Seq::empty()
    }
}

impl Network {
    /// Count the members of section `idx` that the two prospective children
    /// would receive, split by young and total.
    fn child_counts(&self, idx: usize) -> (r: (usize, usize, usize, usize))
        requires
            self.wf(),
            idx < self.tree.sections@.len(),
            self.tree.sections@[idx as int].prefix_len < ADDR_BITS,
        ensures
            ({
                let ms = self.tree.sections@[idx as int].members@;
                let clen = (self.tree.sections@[idx as int].prefix_len + 1) as u64;
                let cb = (2 * self.tree.sections@[idx as int].prefix_bits) as u64;
                &&& r.0 as int == spec_count_cov_young(ms, clen, cb, self.params.init_age, 0)
                &&& r.1 as int == spec_count_cov(ms, clen, cb, 0)
                &&& r.2 as int == spec_count_not_young(ms, clen, cb, self.params.init_age, 0)
                &&& r.3 as int == spec_count_not(ms, clen, cb, 0)
                &&& r.0 <= r.1 && r.2 <= r.3 && r.1 + r.3 == ms.len()
            }),
    {
        let sec = &self.tree.sections[idx];
        let len = sec.prefix_len;
        let bits = sec.prefix_bits;
        let ghost ms = sec.members@;
        proof {
            vstd::arithmetic::power2::lemma_pow2_adds(len as nat, 1);
            vstd::arithmetic::power2::lemma2_to64();
            if len < 63 {
                vstd::arithmetic::power2::lemma_pow2_strictly_increases(len as nat, 63);
            }
            vstd::arithmetic::power2::lemma2_to64_rest();
        }
        let clen = len + 1;
        let cb = 2 * bits;
        let b = self.params.init_age;
        let n = sec.members.len();
        let mut y0: usize = 0;
        let mut t0: usize = 0;
        let mut y1: usize = 0;
        let mut t1: usize = 0;
        let mut i: usize = 0;
        while i < n
            invariant
                0 <= i <= n,
                n == ms.len(),
                ms == sec.members@,
                clen == len + 1,
                cb == 2 * bits,
                (cb as nat) < pow2(clen as nat),
                clen <= ADDR_BITS,
                y0 <= t0 <= i,
                y1 <= t1 <= i,
                t0 + t1 == i,
                y0 as int + spec_count_cov_young(ms, clen, cb, b, i as int) == spec_count_cov_young(
                    ms,
                    clen,
                    cb,
                    b,
                    0,
                ),
                t0 as int + spec_count_cov(ms, clen, cb, i as int) == spec_count_cov(
                    ms,
                    clen,
                    cb,
                    0,
                ),
                y1 as int + spec_count_not_young(ms, clen, cb, b, i as int)
                    == spec_count_not_young(ms, clen, cb, b, 0),
                t1 as int + spec_count_not(ms, clen, cb, i as int) == spec_count_not(
                    ms,
                    clen,
                    cb,
                    0,
                ),
            decreases n - i,
        {
            let node = sec.members[i];
            let young = node.age <= b;
            if crate::tree::prefix_matches(clen, cb, node.address) {
                t0 = t0 + 1;
                if young {
                    y0 = y0 + 1;
                }
            } else {
                t1 = t1 + 1;
                if young {
                    y1 = y1 + 1;
                }
            }
            i = i + 1;
        }
        (y0, t0, y1, t1)
    }

    /// After a section's membership changed: check every member against the
    /// processed event's hash and enqueue the relocations that fire, then
    /// check the section against the split and merge policies. The queue
    /// grows by exactly those events.
    fn post_check(&mut self, idx: usize, h: u64, merge_allowed: bool)
        requires
            old(self).wf(),
            idx < old(self).tree.sections@.len(),
        ensures
            final(self).wf(),
            final(self).tree == old(self).tree,
            final(self).departed == old(self).departed,
            final(self).params == old(self).params,
            final(self).event_seq == old(self).event_seq,
            final(self).queue@ == old(self).queue@ + spec_relocs(
                old(self).tree.sections@[idx as int].members@,
                h,
                old(self).params.init_age,
                old(self).params.relocation_rate,
                0,
            ) + spec_sm_event(old(self).tree.sections@[idx as int], old(self).params, merge_allowed),
    {
        let ghost oldq = self.queue@;
        let ghost ms = self.tree.sections@[idx as int].members@;
        let init_age = self.params.init_age;
        let rate = self.params.relocation_rate;
        let n = self.tree.sections[idx].members.len();
        let mut i: usize = 0;
        while i < n
            invariant
                0 <= i <= n,
                n == ms.len(),
                self.wf(),
                self.tree == old(self).tree,
                self.departed == old(self).departed,
                self.params == old(self).params,
                self.event_seq == old(self).event_seq,
                ms == self.tree.sections@[idx as int].members@,
                idx < self.tree.sections@.len(),
                init_age == self.params.init_age,
                rate == self.params.relocation_rate,
                self.queue@ + spec_relocs(ms, h, init_age, rate, i as int) == oldq + spec_relocs(
                    ms,
                    h,
                    init_age,
                    rate,
                    0,
                ),
            decreases n - i,
        {
            let node = self.tree.sections[idx].members[i];
            let ghost qbefore = self.queue@;
            if fires(h, node.age, init_age, rate) {
                self.queue.push(Event::Relocate { address: node.address });
            }
            proof {
                assert(self.queue@ + spec_relocs(ms, h, init_age, rate, i + 1) =~= qbefore
                    + spec_relocs(ms, h, init_age, rate, i as int));
                assert(self.queue@ + spec_relocs(ms, h, init_age, rate, i + 1) =~= oldq
                    + spec_relocs(ms, h, init_age, rate, 0));
            }
            i = i + 1;
        }
        proof {
            assert(spec_relocs(ms, h, init_age, rate, n as int) =~= Seq::<Event>::empty());
            assert(self.queue@ =~= oldq + spec_relocs(ms, h, init_age, rate, 0));
        }
        let plen = self.tree.sections[idx].prefix_len;
        let pbits = self.tree.sections[idx].prefix_bits;
        let total = self.tree.sections[idx].members.len();
        let ghost sec = self.tree.sections@[idx as int];
        if plen < ADDR_BITS {
            let (y0, t0, y1, t1) = self.child_counts(idx);
            if should_split(y0, t0, y1, t1, plen, &self.params) {
                self.queue.push(Event::SplitSection { prefix_len: plen, prefix_bits: pbits });
                proof {
                    assert(self.queue@ =~= oldq + spec_relocs(ms, h, init_age, rate, 0)
                        + spec_sm_event(sec, self.params, merge_allowed));
                }
                return ;
            }
        }
        if merge_allowed && should_merge(total, plen, &self.params) {
            self.queue.push(Event::MergeSection { prefix_len: plen, prefix_bits: pbits });
            proof {
                if plen < ADDR_BITS {
                    assert(!crate::policy::spec_should_split(
                        spec_count_cov_young(
                            ms,
                            (plen + 1) as u64,
                            (2 * pbits) as u64,
                            init_age,
                            0,
                        ),
                        spec_count_cov(ms, (plen + 1) as u64, (2 * pbits) as u64, 0),
                        spec_count_not_young(
                            ms,
                            (plen + 1) as u64,
                            (2 * pbits) as u64,
                            init_age,
                            0,
                        ),
                        spec_count_not(ms, (plen + 1) as u64, (2 * pbits) as u64, 0),
                        plen,
                        self.params,
                    ));
                }
                assert(self.queue@ =~= oldq + spec_relocs(ms, h, init_age, rate, 0)
                    + spec_sm_event(sec, self.params, merge_allowed));
            }
        } else {
            proof {
                assert(spec_sm_event(sec, self.params, merge_allowed) =~= Seq::<Event>::empty());
                assert(self.queue@ =~= oldq + spec_relocs(ms, h, init_age, rate, 0)
                    + spec_sm_event(sec, self.params, merge_allowed));
            }
        }
    }
}

/// An address can only be held by the section that covers it.
pub proof fn lemma_address_in_one_section(secs: Seq<Section>, a: u64, i: int)
    requires
        crate::tree::tiling(secs),
        crate::tree::all_wf(secs),
        0 <= i < secs.len(),
        covers(secs[i].prefix_len, secs[i].prefix_bits, a),
    ensures
        tree_has_address(secs, a) <==> Section::has_address(secs[i].members@, a),
{
    if tree_has_address(secs, a) {
        let j = choose|j: int| 0 <= j < secs.len() && Section::has_address(secs[j].members@, a);
        let k = choose|k: int| 0 <= k < secs[j].members@.len() && secs[j].members@[k].address == a;
        assert(covers(secs[j].prefix_len, secs[j].prefix_bits, a));
        lemma_cover_unique(secs, a, i, j);
    }
}

/// With two or more sections, no section has the empty prefix.
#[verifier::rlimit(100)]
pub proof fn lemma_multi_section_len(secs: Seq<Section>, j: int)
    requires
        crate::tree::tiling(secs),
        crate::tree::all_wf(secs),
        secs.len() >= 2,
        0 <= j < secs.len(),
    ensures
        secs[j].prefix_len >= 1,
{
    if secs[j].prefix_len == 0 {
        lemma2_to64();
        assert(secs[j].prefix_bits == 0);
        assert(secs[j].lo() == 0);
        assert(secs[j].hi() == pow2(ADDR_BITS as nat));
        let last = secs.len() - 1;
        if j < last {
            assert(secs[j + 1].lo() == secs[j].hi());
            crate::tree::lemma_lo_ordered(secs, j + 1, last);
            assert(secs[last].lo() >= pow2(ADDR_BITS as nat));
            lemma_pow2_pos((ADDR_BITS - secs[last].prefix_len) as nat);
            assert(secs[last].hi() > secs[last].lo());
            assert(false);
        } else {
            assert(secs[j].lo() == secs[j - 1].hi());
            vstd::arithmetic::mul::lemma_mul_nonnegative(
                secs[j - 1].prefix_bits as int,
                sec_size(secs[j - 1].prefix_len) as int,
            );
            lemma_pow2_pos((ADDR_BITS - secs[j - 1].prefix_len) as nat);
            assert(secs[j - 1].hi() > 0);
            assert(false);
        }
    }
}

/// Index of the first departures-record entry holding `address`, scanning
/// from `i`; the record's length when none does.
pub open spec fn spec_find_departed(dep: Seq<u64>, address: u64, i: int) -> int
    decreases dep.len() - i,
{
    if i < 0 || i >= dep.len() {
        dep.len() as int
    } else if dep[i] == address {
        i
    } else {
        spec_find_departed(dep, address, i + 1)
    }
}

/// The departures record after a rejoin of `address` is applied: the first
/// entry holding the address leaves the record.
pub open spec fn spec_departed_rejoined(dep: Seq<u64>, address: u64) -> Seq<u64> {
    let i = spec_find_departed(dep, address, 0);
    if i == dep.len() {
        dep
    } else {
        dep.remove(i)
    }
}

/// The departures record after a drop of `address`: appended when the node
/// was live, with the oldest entry evicted once the record is full.
pub open spec fn spec_departed_after(dep: Seq<u64>, address: u64, was_live: bool) -> Seq<u64> {
    if was_live {
        (if dep.len() >= DEPARTED_CAP {
            dep.remove(0)
        } else {
            dep
        }).push(address)
    } else {
        dep
    }
}

/// The state of the random source after a relocation check of `address`:
/// one draw decides local versus distant, a second picks the random target
/// of a distant relocation, and a third picks the fresh address once a
/// destination exists. The paths where nothing can move consume exactly the
/// draws made up to that discovery.
pub open spec fn spec_relocate_rng(secs: Seq<Section>, params: Params, address: u64, s0: u64) -> u64 {
    let idx = spec_locate(secs, address, 0);
    if Section::spec_find(secs[idx].members@, address, 0) is None {
        s0
    } else if secs.len() <= 1 {
        s0
    } else {
        let s1 = sm_next(s0);
        let distant = (sm_mix(s1) % (PPM_SCALE as u64)) < params.distant_relocation_ppm as u64;
        let s2 = if distant {
            sm_next(s1)
        } else {
            s1
        };
        let target = if distant {
            (sm_mix(s2) % (secs.len() as u64)) as int
        } else {
            idx
        };
        let w = spec_weakest_from(
            secs,
            secs[target].prefix_len,
            secs[target].prefix_bits,
            params.init_age,
            idx,
            target,
            0,
            -1,
        );
        if w == -1 {
            s2
        } else {
            sm_next(s2)
        }
    }
}

/// Exactly what a successful join or rejoin of `address` does: the node
/// enters the covering section with the initial age, every other section is
/// untouched, and the queue grows by the relocation checks of the changed
/// section followed by its split or merge event, if any.
pub open spec fn spec_inserted(pre: Network, post: Network, address: u64, h: u64) -> bool {
    let i = spec_locate(pre.tree.sections@, address, 0);
    let ms1 = pre.tree.sections@[i].members@.push(
        Node { address, age: pre.params.init_age },
    );
    &&& post.tree.sections@.len() == pre.tree.sections@.len()
    &&& forall|k: int|
        0 <= k < pre.tree.sections@.len() && k != i ==> post.tree.sections@[k]
            == pre.tree.sections@[k]
    &&& post.tree.sections@[i].prefix_len == pre.tree.sections@[i].prefix_len
    &&& post.tree.sections@[i].prefix_bits == pre.tree.sections@[i].prefix_bits
    &&& post.tree.sections@[i].members@ == ms1
    &&& post.queue@ == pre.queue@ + spec_relocs(
        ms1,
        h,
        pre.params.init_age,
        pre.params.relocation_rate,
        0,
    ) + spec_sm_event(post.tree.sections@[i], pre.params, true)
}

/// Exactly what a drop of `address` does: when the node is live it leaves
/// its section, the survivors there age one step, the departure is
/// recorded, and the queue grows by the relocation checks of the changed
/// section followed by its split or merge event; when it is not live,
/// nothing changes at all.
pub open spec fn spec_dropped(pre: Network, post: Network, address: u64, h: u64) -> bool {
    let i = spec_locate(pre.tree.sections@, address, 0);
    match Section::spec_find(pre.tree.sections@[i].members@, address, 0) {
        None => post == pre,
        Some(mi) => {
            let ms1 = pre.tree.sections@[i].members@.remove(mi).map_values(
                |n: Node| Node { address: n.address, age: spec_bump(n.age) },
            );
            &&& post.tree.sections@.len() == pre.tree.sections@.len()
            &&& forall|k: int|
                0 <= k < pre.tree.sections@.len() && k != i ==> post.tree.sections@[k]
                    == pre.tree.sections@[k]
            &&& post.tree.sections@[i].prefix_len == pre.tree.sections@[i].prefix_len
            &&& post.tree.sections@[i].prefix_bits == pre.tree.sections@[i].prefix_bits
            &&& post.tree.sections@[i].members@ == ms1
            &&& post.queue@ == pre.queue@ + spec_relocs(
                ms1,
                h,
                pre.params.init_age,
                pre.params.relocation_rate,
                0,
            ) + spec_sm_event(post.tree.sections@[i], pre.params, true)
            &&& post.departed@ == spec_departed_after(pre.departed@, address, true)
        },
    }
}

/// Exactly what a relocation check of `address` does, given the random
/// source at `s0`: if the node is live and a destination is found, it moves
/// there under the drawn fresh address with its age reset, and the queue
/// grows by the checks of the two changed sections in order; on every other
/// path — node gone, single section, no candidate, or a colliding fresh
/// address (reported fatal) — the network is untouched.
pub open spec fn spec_relocated(pre: Network, post: Network, address: u64, h: u64, s0: u64) -> bool {
    let secs = pre.tree.sections@;
    let i = spec_locate(secs, address, 0);
    match Section::spec_find(secs[i].members@, address, 0) {
        None => post == pre,
        Some(mi) => {
            if secs.len() <= 1 {
                post == pre
            } else {
                let s1 = sm_next(s0);
                let distant = (sm_mix(s1) % (PPM_SCALE as u64))
                    < pre.params.distant_relocation_ppm as u64;
                let s2 = if distant {
                    sm_next(s1)
                } else {
                    s1
                };
                let target = if distant {
                    (sm_mix(s2) % (secs.len() as u64)) as int
                } else {
                    i
                };
                let w = spec_weakest_from(
                    secs,
                    secs[target].prefix_len,
                    secs[target].prefix_bits,
                    pre.params.init_age,
                    i,
                    target,
                    0,
                    -1,
                );
                if w == -1 {
                    post == pre
                } else {
                    let dlen = secs[w].prefix_len;
                    let dbits = secs[w].prefix_bits;
                    let size = sec_size(dlen);
                    let off = sm_mix(sm_next(s2)) % (size as u64);
                    let new_addr = ((dbits as int) * (size as int) + off) as u64;
                    match Section::spec_find(secs[w].members@, new_addr, 0) {
                        Some(_) => post == pre,
                        None => {
                            let msi = secs[i].members@.remove(mi);
                            let msd = secs[w].members@.push(
                                Node { address: new_addr, age: pre.params.init_age },
                            );
                            &&& post.tree.sections@.len() == secs.len()
                            &&& forall|k: int|
                                0 <= k < secs.len() && k != i && k != w
                                    ==> post.tree.sections@[k] == secs[k]
                            &&& post.tree.sections@[i].prefix_len == secs[i].prefix_len
                            &&& post.tree.sections@[i].prefix_bits == secs[i].prefix_bits
                            &&& post.tree.sections@[i].members@ == msi
                            &&& post.tree.sections@[w].prefix_len == dlen
                            &&& post.tree.sections@[w].prefix_bits == dbits
                            &&& post.tree.sections@[w].members@ == msd
                            &&& post.queue@ == pre.queue@ + spec_relocs(
                                msi,
                                h,
                                pre.params.init_age,
                                pre.params.relocation_rate,
                                0,
                            ) + spec_sm_event(post.tree.sections@[i], pre.params, true) + spec_relocs(
                                msd,
                                h,
                                pre.params.init_age,
                                pre.params.relocation_rate,
                                0,
                            ) + spec_sm_event(post.tree.sections@[w], pre.params, true)
                        },
                    }
                }
            }
        },
    }
}

/// Whether a relocation check of `address` fails: the node is live, a
/// destination is found, and the drawn fresh address collides with a member
/// of the destination — the one fatal path of a relocation.
pub open spec fn spec_relocate_collides(pre: Network, address: u64, s0: u64) -> bool {
    let secs = pre.tree.sections@;
    let i = spec_locate(secs, address, 0);
    &&& Section::spec_find(secs[i].members@, address, 0) is Some
    &&& secs.len() > 1
    &&& ({
        let s1 = sm_next(s0);
        let distant = (sm_mix(s1) % (PPM_SCALE as u64)) < pre.params.distant_relocation_ppm as u64;
        let s2 = if distant {
            sm_next(s1)
        } else {
            s1
        };
        let target = if distant {
            (sm_mix(s2) % (secs.len() as u64)) as int
        } else {
            i
        };
        let w = spec_weakest_from(
            secs,
            secs[target].prefix_len,
            secs[target].prefix_bits,
            pre.params.init_age,
            i,
            target,
            0,
            -1,
        );
        &&& w != -1
        &&& ({
            let dlen = secs[w].prefix_len;
            let dbits = secs[w].prefix_bits;
            let size = sec_size(dlen);
            let off = sm_mix(sm_next(s2)) % (size as u64);
            let new_addr = ((dbits as int) * (size as int) + off) as u64;
            Section::spec_find(secs[w].members@, new_addr, 0) is Some
        })
    })
}

impl Network {
    /// Strike the first occurrence of `address` from the departures record,
    /// if any: a rejoined node is consumed from the record as its event is
    /// applied.
    fn remove_departed(&mut self, address: u64)
        ensures
            final(self).tree == old(self).tree,
            final(self).queue == old(self).queue,
            final(self).params == old(self).params,
            final(self).event_seq == old(self).event_seq,
            final(self).departed@ == spec_departed_rejoined(old(self).departed@, address),
    {
        let ghost dep = self.departed@;
        let n = self.departed.len();
        let mut i: usize = 0;
        while i < n
            invariant
                0 <= i <= n,
                n == dep.len(),
                dep == self.departed@,
                dep == old(self).departed@,
                self.tree == old(self).tree,
                self.queue == old(self).queue,
                self.params == old(self).params,
                self.event_seq == old(self).event_seq,
                spec_find_departed(dep, address, 0) == spec_find_departed(dep, address, i as int),
            decreases n - i,
        {
            if self.departed[i] == address {
                proof {
                    assert(spec_find_departed(dep, address, i as int) == i as int);
                    assert(spec_find_departed(dep, address, 0) == i as int);
                }
                self.departed.remove(i);
                proof {
                    assert(self.departed@ =~= spec_departed_rejoined(dep, address));
                }
                return ;
            }
            i = i + 1;
        }
    }

    /// Apply a join or rejoin: insert a fresh node at `address` with the
    /// initial age. A duplicate address means the partition invariant would
    /// break, so it is fatal; otherwise the affected section is re-checked.
    fn apply_insert(&mut self, address: u64, h: u64) -> (r: Result<(), SimError>)
        requires
            old(self).wf(),
        ensures
            final(self).wf(),
            final(self).queue@.len() >= old(self).queue@.len(),
            final(self).params == old(self).params,
            final(self).event_seq == old(self).event_seq,
            final(self).departed == old(self).departed,
            r is Ok <==> !tree_has_address(old(self).tree.sections@, address),
            r is Ok ==> final(self).total() == old(self).total() + 1,
            r is Ok ==> node_in(
                final(self).tree.sections@,
                Node { address, age: old(self).params.init_age },
            ),
            r is Ok ==> spec_inserted(*old(self), *final(self), address, h),
            r is Err ==> r == Err::<(), SimError>(SimError::DuplicateAddress) && *final(self)
                == *old(self),
    {
        let ghost olds = self.tree.sections@;
        let idx = self.tree.locate(address);
        proof {
            lemma_address_in_one_section(olds, address, idx as int);
        }
        let found = self.tree.sections[idx].find(address);
        if found.is_some() {
            return Err(SimError::DuplicateAddress);
        }
        let node = Node { address, age: self.params.init_age };
        self.tree.add_member(idx, node);
        proof {
            let news = self.tree.sections@;
            assert(news[idx as int].members@[news[idx as int].members@.len() - 1] == node);
            assert forall|i: int, j: int|
                0 <= i < news.len() && 0 <= j < news[i].members@.len() implies (
            #[trigger] news[i].members@[j]).age >= self.params.init_age by {
                if i == idx && j == news[i].members@.len() - 1 {
                } else if i == idx {
                    assert(news[i].members@[j] == olds[i].members@[j]);
                } else {
                    assert(news[i] == olds[i]);
                }
            }
        }
        self.post_check(idx, h, true);
        Ok(())
    }

    /// Apply a drop: remove the node at `address` if it is still live, age
    /// the survivors of its section one step, record the departure, and
    /// re-check the section. A missing address is a no-op, not an error.
    fn apply_drop(&mut self, address: u64, h: u64)
        requires
            old(self).wf(),
        ensures
            final(self).wf(),
            final(self).queue@.len() >= old(self).queue@.len(),
            final(self).params == old(self).params,
            final(self).event_seq == old(self).event_seq,
            final(self).total() == old(self).total() - (if tree_has_address(
                old(self).tree.sections@,
                address,
            ) {
                1int
            } else {
                0int
            }),
            final(self).departed@ == spec_departed_after(
                old(self).departed@,
                address,
                tree_has_address(old(self).tree.sections@, address),
            ),
            spec_dropped(*old(self), *final(self), address, h),
    {
        let ghost olds = self.tree.sections@;
        let idx = self.tree.locate(address);
        proof {
            lemma_address_in_one_section(olds, address, idx as int);
        }
        let found = self.tree.sections[idx].find(address);
        match found {
            None => {
            },
            Some(mi) => {
                proof {
                    crate::tree::Section::lemma_find(olds[idx as int].members@, address, 0);
                }
                self.tree.remove_member(idx, mi);
                let ghost mids = self.tree.sections@;
                self.tree.bump_ages(idx);
                proof {
                    let news = self.tree.sections@;
                    assert forall|i: int, j: int|
                        0 <= i < news.len() && 0 <= j < news[i].members@.len() implies (
                    #[trigger] news[i].members@[j]).age >= self.params.init_age by {
                        if i == idx {
                            assert(news[i].members@[j].age >= mids[i].members@[j].age);
                            if j < mi {
                                assert(mids[i].members@[j] == olds[i].members@[j]);
                            } else {
                                assert(mids[i].members@[j] == olds[i].members@[j + 1]);
                            }
                        } else {
                            assert(news[i] == olds[i]);
                        }
                    }
                }
                if self.departed.len() >= DEPARTED_CAP {
                    self.departed.remove(0);
                }
                self.departed.push(address);
                proof {
                    assert(self.tree.sections@[idx as int].members@ =~= olds[idx as int].members@.remove(
                        mi as int,
                    ).map_values(|n: Node| Node { address: n.address, age: spec_bump(n.age) }));
                }
                self.post_check(idx, h, true);
            },
        }
    }

    /// Apply a relocation check for the node at `address`: if it is still
    /// live and a destination exists, move it there under a fresh address
    /// matching the destination's prefix, with its age reset to the initial
    /// age; then re-check both affected sections. With a single section, or
    /// none other eligible, nothing happens. A colliding fresh address is
    /// fatal, as any duplicate insert is.
    #[verifier::rlimit(100)]
    fn apply_relocate(&mut self, address: u64, h: u64, rng: &mut SimRng) -> (r: Result<
        (),
        SimError,
    >)
        requires
            old(self).wf(),
        ensures
            final(self).wf(),
            final(self).queue@.len() >= old(self).queue@.len(),
            final(self).params == old(self).params,
            final(self).event_seq == old(self).event_seq,
            final(self).departed == old(self).departed,
            final(self).total() == old(self).total(),
            r is Err ==> r == Err::<(), SimError>(SimError::DuplicateAddress),
            r is Err <==> spec_relocate_collides(*old(self), address, old(rng).state),
            final(rng).state == spec_relocate_rng(
                old(self).tree.sections@,
                old(self).params,
                address,
                old(rng).state,
            ),
            spec_relocated(*old(self), *final(self), address, h, old(rng).state),
            forall|i: int, j: int|
                0 <= i < final(self).tree.sections@.len() && 0 <= j < final(self).tree.sections@[i].members@.len() ==> node_in(
                    old(self).tree.sections@,
                    (#[trigger] final(self).tree.sections@[i].members@[j]),
                ) || final(self).tree.sections@[i].members@[j].age == old(self).params.init_age,
    {
        let ghost olds = self.tree.sections@;
        let ghost s0 = rng.state;
        let idx = self.tree.locate(address);
        let found = self.tree.sections[idx].find(address);
        proof {
            Section::lemma_find(olds[idx as int].members@, address, 0);
        }
        let mi = match found {
            None => {
                proof {
                    lemma_everything_in_place(olds);
                    assert(rng.state == spec_relocate_rng(olds, self.params, address, s0));
                }
                return Ok(());
            },
            Some(mi) => mi,
        };
        let n = self.tree.sections.len();
        if n <= 1 {
            proof {
                lemma_everything_in_place(olds);
                assert(rng.state == spec_relocate_rng(olds, self.params, address, s0));
            }
            return Ok(());
        }
        let draw = rng.below(PPM_SCALE as u64);
        let distant = (draw as u32) < self.params.distant_relocation_ppm;
        proof {
            assert(distant == ((sm_mix(sm_next(s0)) % (PPM_SCALE as u64))
                < self.params.distant_relocation_ppm as u64));
        }
        let target = if distant {
            rng.below(n as u64) as usize
        } else {
            idx
        };
        let ghost s2 = rng.state;
        let dest = match weakest_neighbour(&self.tree, target, idx, self.params.init_age) {
            None => {
                proof {
                    lemma_everything_in_place(olds);
                    assert(rng.state == spec_relocate_rng(olds, self.params, address, s0));
                }
                return Ok(());
            },
            Some(d) => d,
        };
        proof {
            assert(spec_relocate_rng(olds, self.params, address, s0) == sm_next(s2));
        }
        let dlen = self.tree.sections[dest].prefix_len;
        let dbits = self.tree.sections[dest].prefix_bits;
        proof {
            lemma_multi_section_len(olds, dest as int);
            lemma2_to64_rest();
            lemma_pow2_strictly_increases((ADDR_BITS - dlen) as nat, 64);
            lemma_pow2_pos((ADDR_BITS - dlen) as nat);
            lemma_u64_shl_is_mul(1u64, (ADDR_BITS - dlen) as u64);
            lemma_pow2_adds(dlen as nat, (ADDR_BITS - dlen) as nat);
        }
        let size = 1u64 << (ADDR_BITS - dlen);
        let off = rng.below(size);
        proof {
            assert((dbits as int + 1) * (size as int) <= pow2(ADDR_BITS as nat) as int)
                by (nonlinear_arith)
                requires
                    (dbits as int) < pow2(dlen as nat) as int,
                    size as int == pow2((ADDR_BITS - dlen) as nat) as int,
                    pow2(dlen as nat) * pow2((ADDR_BITS - dlen) as nat) == pow2(ADDR_BITS as nat),
            ;
            assert(dbits as int * size as int + size as int == (dbits as int + 1) * (
            size as int)) by (nonlinear_arith);
        }
        let base = dbits * size;
        let new_addr = base + off;
        proof {
            lemma_covers_iff_interval(dlen, dbits, new_addr);
        }
        let dup = self.tree.sections[dest].find(new_addr);
        if dup.is_some() {
            return Err(SimError::DuplicateAddress);
        }
        self.tree.remove_member(idx, mi);
        let node = Node { address: new_addr, age: self.params.init_age };
        self.tree.add_member(dest, node);
        proof {
            lemma_relocate_nodes(
                olds,
                self.tree.sections@,
                idx as int,
                mi as int,
                dest as int,
                node,
                self.params.init_age,
            );
        }
        self.post_check(idx, h, true);
        self.post_check(dest, h, true);
        Ok(())
    }
}

/// Moving one node between two sections keeps every other node in place:
/// afterwards each member either already was a member, or is the freshly
/// initialized relocated node; and the age bound is kept.
proof fn lemma_relocate_nodes(
    olds: Seq<Section>,
    news: Seq<Section>,
    idx: int,
    mi: int,
    dest: int,
    node: Node,
    init_age: u8,
)
    requires
        olds.len() == news.len(),
        0 <= idx < olds.len(),
        0 <= dest < olds.len(),
        idx != dest,
        0 <= mi < olds[idx].members@.len(),
        news[idx].members@ == olds[idx].members@.remove(mi),
        news[dest].members@ == olds[dest].members@.push(node),
        forall|k: int| 0 <= k < olds.len() && k != idx && k != dest ==> news[k] == olds[k],
        node.age == init_age,
        ages_ok(olds, init_age),
    ensures
        forall|i: int, j: int|
            0 <= i < news.len() && 0 <= j < news[i].members@.len() ==> node_in(
                olds,
                (#[trigger] news[i].members@[j]),
            ) || news[i].members@[j].age == init_age,
        ages_ok(news, init_age),
{
    assert forall|i: int, j: int|
        0 <= i < news.len() && 0 <= j < news[i].members@.len() implies (node_in(
        olds,
        (#[trigger] news[i].members@[j]),
    ) || news[i].members@[j].age == init_age) by {
        if i == dest {
            if j < news[i].members@.len() - 1 {
                assert(news[i].members@[j] == olds[i].members@[j]);
            }
        } else if i == idx {
            if j < mi {
                assert(news[i].members@[j] == olds[i].members@[j]);
            } else {
                assert(news[i].members@[j] == olds[i].members@[j + 1]);
            }
        } else {
            assert(news[i].members@[j] == olds[i].members@[j]);
        }
    }
    assert forall|i: int, j: int|
        0 <= i < news.len() && 0 <= j < news[i].members@.len() implies (
    #[trigger] news[i].members@[j]).age >= init_age by {
        if !(i == dest && j == news[i].members@.len() - 1) {
            if i == idx && j >= mi {
                assert(news[i].members@[j] == olds[i].members@[j + 1]);
            } else if i == idx {
                assert(news[i].members@[j] == olds[i].members@[j]);
            } else if i == dest {
                assert(news[i].members@[j] == olds[i].members@[j]);
            } else {
                assert(news[i].members@[j] == olds[i].members@[j]);
            }
        }
    }
}

/// Whether the pending split of prefix `(plen, pbits)` still applies: the
/// prefix names a current section, it can still be extended, and the split
/// policy approves on the current membership.
pub open spec fn spec_split_approved(secs: Seq<Section>, plen: u64, pbits: u64, params: Params) -> bool {
    let i = spec_find_prefix(secs, plen, pbits, 0);
    if i == secs.len() || plen >= ADDR_BITS {
        false
    } else {
        let ms = secs[i].members@;
        let clen = (plen + 1) as u64;
        let cb = (2 * pbits) as u64;
        crate::policy::spec_should_split(
            spec_count_cov_young(ms, clen, cb, params.init_age, 0),
            spec_count_cov(ms, clen, cb, 0),
            spec_count_not_young(ms, clen, cb, params.init_age, 0),
            spec_count_not(ms, clen, cb, 0),
            plen,
            params,
        )
    }
}

/// Exactly what a pending split of prefix `(plen, pbits)` does: nothing when
/// it is stale or no longer approved; otherwise the section becomes its two
/// children, each holding the members its extended prefix covers, and the
/// queue grows by the checks of the lower child.
pub open spec fn spec_split_applied(pre: Network, post: Network, plen: u64, pbits: u64, h: u64) -> bool {
    let secs = pre.tree.sections@;
    if !spec_split_approved(secs, plen, pbits, pre.params) {
        post == pre
    } else {
        let i = spec_find_prefix(secs, plen, pbits, 0);
        let clen = (plen + 1) as u64;
        let cb = (2 * pbits) as u64;
        let m0 = secs[i].members@.filter(covers_pred(clen, cb));
        let m1 = secs[i].members@.filter(not_covers_pred(clen, cb));
        &&& post.tree.sections@.len() == secs.len() + 1
        &&& forall|k: int| 0 <= k < i ==> post.tree.sections@[k] == secs[k]
        &&& forall|k: int| i < k < secs.len() ==> post.tree.sections@[k + 1] == secs[k]
        &&& post.tree.sections@[i].prefix_len == plen + 1
        &&& post.tree.sections@[i].prefix_bits == 2 * pbits
        &&& post.tree.sections@[i].members@ == m0
        &&& post.tree.sections@[i + 1].prefix_len == plen + 1
        &&& post.tree.sections@[i + 1].prefix_bits == 2 * pbits + 1
        &&& post.tree.sections@[i + 1].members@ == m1
        &&& post.queue@ == pre.queue@ + spec_relocs(
            m0,
            h,
            pre.params.init_age,
            pre.params.relocation_rate,
            0,
        ) + spec_sm_event(post.tree.sections@[i], pre.params, false)
    }
}

/// The left index of the mergeable pair around the section at `i`, whose
/// prefix is `(plen, pbits)`; -1 when the sibling is not a current leaf.
pub open spec fn spec_sibling_left(secs: Seq<Section>, i: int, plen: u64, pbits: u64) -> int {
    if pbits % 2 == 0 {
        if i + 1 < secs.len() && secs[i + 1].prefix_len == plen && secs[i + 1].prefix_bits == pbits
            + 1 {
            i
        } else {
            -1
        }
    } else {
        if i >= 1 && secs[i - 1].prefix_len == plen && secs[i - 1].prefix_bits == pbits - 1 {
            i - 1
        } else {
            -1
        }
    }
}

/// Where the pending merge of prefix `(plen, pbits)` still applies: the left
/// index of the sibling pair to coalesce, or -1 when the event is stale, the
/// section is the root or no longer below the minimum viable size, or its
/// sibling is not a current leaf.
pub open spec fn spec_merge_left(secs: Seq<Section>, plen: u64, pbits: u64, params: Params) -> int {
    let i = spec_find_prefix(secs, plen, pbits, 0);
    if plen == 0 || i == secs.len() || !crate::policy::spec_should_merge(
        secs[i].members@.len() as int,
        plen,
        params,
    ) {
        -1
    } else {
        spec_sibling_left(secs, i, plen, pbits)
    }
}

/// Exactly what a pending merge of prefix `(plen, pbits)` does: nothing when
/// it no longer applies; otherwise the sibling pair becomes their parent,
/// holding both memberships in order, and the queue grows by the checks of
/// the merged section.
pub open spec fn spec_merge_applied(pre: Network, post: Network, plen: u64, pbits: u64, h: u64) -> bool {
    let secs = pre.tree.sections@;
    let left = spec_merge_left(secs, plen, pbits, pre.params);
    if left == -1 {
        post == pre
    } else {
        let mm = secs[left].members@ + secs[left + 1].members@;
        &&& post.tree.sections@.len() == secs.len() - 1
        &&& forall|k: int| 0 <= k < left ==> post.tree.sections@[k] == secs[k]
        &&& forall|k: int|
            left + 1 < k < secs.len() ==> post.tree.sections@[k - 1] == secs[k]
        &&& post.tree.sections@[left].prefix_len == secs[left].prefix_len - 1
        &&& post.tree.sections@[left].prefix_bits == secs[left].prefix_bits / 2
        &&& post.tree.sections@[left].members@ == mm
        &&& post.queue@ == pre.queue@ + spec_relocs(
            mm,
            h,
            pre.params.init_age,
            pre.params.relocation_rate,
            0,
        ) + spec_sm_event(post.tree.sections@[left], pre.params, true)
    }
}

/// The state right after the front event leaves the queue and the sequence
/// number advances, before the event's effect is applied.
pub open spec fn spec_popped(pre: Network, mid: Network) -> bool {
    &&& mid.queue@ == pre.queue@.drop_first()
    &&& mid.tree == pre.tree
    &&& mid.departed == pre.departed
    &&& mid.params == pre.params
    &&& mid.event_seq == pre.event_seq.wrapping_add(1)
}

/// The exact effect of applying event `ev` to the popped state `mid`, as
/// pinned by the per-kind predicates. Every clause determines `post` and
/// `s1` from `mid`, `ev` and `s0`.
pub open spec fn spec_step_effect(mid: Network, s0: u64, post: Network, s1: u64, ev: Event) -> bool {
    let h = ev.spec_hash(mid.event_seq);
    &&& post.params == mid.params
    &&& post.event_seq == mid.event_seq
    &&& post.wf()
    &&& match ev {
        Event::Join { address } => !tree_has_address(mid.tree.sections@, address) && spec_inserted(
            mid,
            post,
            address,
            h,
        ) && post.departed == mid.departed && s1 == s0,
        Event::Rejoin { address } => !tree_has_address(mid.tree.sections@, address)
            && spec_inserted(mid, post, address, h) && post.departed@ == spec_departed_rejoined(
            mid.departed@,
            address,
        ) && s1 == s0,
        Event::Drop { address } => spec_dropped(mid, post, address, h) && post.departed@
            == spec_departed_after(
            mid.departed@,
            address,
            tree_has_address(mid.tree.sections@, address),
        ) && s1 == s0,
        Event::Relocate { address } => spec_relocated(mid, post, address, h, s0) && post.departed
            == mid.departed && s1 == spec_relocate_rng(
            mid.tree.sections@,
            mid.params,
            address,
            s0,
        ),
        Event::SplitSection { prefix_len, prefix_bits } => spec_split_applied(
            mid,
            post,
            prefix_len,
            prefix_bits,
            h,
        ) && post.departed == mid.departed && s1 == s0,
        Event::MergeSection { prefix_len, prefix_bits } => spec_merge_applied(
            mid,
            post,
            prefix_len,
            prefix_bits,
            h,
        ) && post.departed == mid.departed && s1 == s0,
    }
}

/// One processed event, as a relation between whole states: the front event
/// leaves the queue, the sequence number advances, and the event's exact
/// effect relates the popped state to `post`.
pub open spec fn spec_cascade_step(pre: Network, s0: u64, post: Network, s1: u64) -> bool {
    &&& pre.queue@.len() > 0
    &&& exists|mid: Network|
        #[trigger] spec_popped(pre, mid) && spec_step_effect(mid, s0, post, s1, pre.queue@[0])
}

/// `post` with the random source at `s1` is reached from `pre` at `s0` by
/// processing exactly `n` events of the cascade, in queue order.
pub open spec fn spec_cascade(pre: Network, s0: u64, post: Network, s1: u64, n: int) -> bool
    decreases n,
{
    if n <= 0 {
        post == pre && s1 == s0
    } else {
        exists|m: Network, sm: u64|
            #[trigger] spec_cascade_step(pre, s0, m, sm) && spec_cascade(m, sm, post, s1, n - 1)
    }
}

/// A cascade of `n` steps followed by one more step is a cascade of `n + 1`
/// steps.
pub proof fn lemma_cascade_snoc(
    pre: Network,
    s0: u64,
    mid: Network,
    sm: u64,
    post: Network,
    s1: u64,
    n: int,
)
    requires
        n >= 0,
        spec_cascade(pre, s0, mid, sm, n),
        spec_cascade_step(mid, sm, post, s1),
    ensures
        spec_cascade(pre, s0, post, s1, n + 1),
    decreases n,
{
    if n == 0 {
        assert(spec_cascade(post, s1, post, s1, 0));
    } else {
        let (m2, sm2) = choose|m2: Network, sm2: u64|
            #[trigger] spec_cascade_step(pre, s0, m2, sm2) && spec_cascade(m2, sm2, mid, sm, n - 1);
        lemma_cascade_snoc(m2, sm2, mid, sm, post, s1, n - 1);
    }
}

/// The failing counterpart of `spec_step_effect`: applying `ev` to `mid`
/// reports a duplicate, leaving the state exactly as popped.
pub open spec fn spec_fail_effect(mid: Network, s0: u64, post: Network, s1: u64, ev: Event) -> bool {
    &&& post == mid
    &&& match ev {
        Event::Join { address } => tree_has_address(mid.tree.sections@, address) && s1 == s0,
        Event::Rejoin { address } => tree_has_address(mid.tree.sections@, address) && s1 == s0,
        Event::Relocate { address } => spec_relocate_collides(mid, address, s0) && s1
            == spec_relocate_rng(mid.tree.sections@, mid.params, address, s0),
        Event::Drop { .. } => false,
        Event::SplitSection { .. } => false,
        Event::MergeSection { .. } => false,
    }
}

/// Processing the front event of `pre` fails as a duplicate, leaving the
/// network exactly as it stood after the pop and the sequence-number
/// advance: the event is a join or rejoin of a live address, or a
/// relocation whose drawn fresh address collides in its destination.
pub open spec fn spec_cascade_fails(pre: Network, s0: u64, post: Network, s1: u64) -> bool {
    &&& pre.queue@.len() > 0
    &&& exists|mid: Network|
        #[trigger] spec_popped(pre, mid) && spec_fail_effect(mid, s0, post, s1, pre.queue@[0])
}

impl Network {
    /// Replace the section at `idx` by its two children, re-establishing the
    /// whole-network invariant.
    fn do_split(&mut self, idx: usize, plen: u64, pbits: u64)
        requires
            old(self).wf(),
            idx < old(self).tree.sections@.len(),
            old(self).tree.sections@[idx as int].prefix_len == plen,
            old(self).tree.sections@[idx as int].prefix_bits == pbits,
            plen < ADDR_BITS,
        ensures
            final(self).wf(),
            final(self).params == old(self).params,
            final(self).event_seq == old(self).event_seq,
            final(self).departed == old(self).departed,
            final(self).queue == old(self).queue,
            final(self).total() == old(self).total(),
            final(self).tree.sections@.len() == old(self).tree.sections@.len() + 1,
            idx + 1 < final(self).tree.sections@.len(),
            forall|k: int| 0 <= k < idx ==> final(self).tree.sections@[k] == old(self).tree.sections@[k],
            forall|k: int|
                idx < k < old(self).tree.sections@.len() ==> final(self).tree.sections@[k + 1]
                    == old(self).tree.sections@[k],
            final(self).tree.sections@[idx as int].prefix_len == plen + 1,
            final(self).tree.sections@[idx as int].prefix_bits == 2 * pbits,
            final(self).tree.sections@[idx as int].members@ == old(
                self,
            ).tree.sections@[idx as int].members@.filter(
                covers_pred((plen + 1) as u64, (2 * pbits) as u64),
            ),
            final(self).tree.sections@[idx + 1].prefix_len == plen + 1,
            final(self).tree.sections@[idx + 1].prefix_bits == 2 * pbits + 1,
            final(self).tree.sections@[idx + 1].members@ == old(
                self,
            ).tree.sections@[idx as int].members@.filter(
                not_covers_pred((plen + 1) as u64, (2 * pbits) as u64),
            ),
    {
        let ghost olds = self.tree.sections@;
        self.tree.split(idx);
        proof {
            lemma_split_ages(
                olds,
                self.tree.sections@,
                idx as int,
                plen,
                pbits,
                self.params.init_age,
            );
        }
    }

    /// Replace the sibling sections at `left` and `left + 1` by their
    /// parent, re-establishing the whole-network invariant.
    fn do_merge(&mut self, left: usize)
        requires
            old(self).wf(),
            siblings_at(old(self).tree.sections@, left as int),
        ensures
            final(self).wf(),
            final(self).params == old(self).params,
            final(self).event_seq == old(self).event_seq,
            final(self).departed == old(self).departed,
            final(self).queue == old(self).queue,
            final(self).total() == old(self).total(),
            final(self).tree.sections@.len() == old(self).tree.sections@.len() - 1,
            left < final(self).tree.sections@.len(),
            forall|k: int| 0 <= k < left ==> final(self).tree.sections@[k] == old(self).tree.sections@[k],
            forall|k: int|
                left + 1 < k < old(self).tree.sections@.len() ==> final(self).tree.sections@[k - 1]
                    == old(self).tree.sections@[k],
            final(self).tree.sections@[left as int].prefix_len == old(
                self,
            ).tree.sections@[left as int].prefix_len - 1,
            final(self).tree.sections@[left as int].prefix_bits == old(
                self,
            ).tree.sections@[left as int].prefix_bits / 2,
            final(self).tree.sections@[left as int].members@ == old(
                self,
            ).tree.sections@[left as int].members@ + old(self).tree.sections@[left + 1].members@,
    {
        let ghost olds = self.tree.sections@;
        self.tree.merge(left);
        proof {
            lemma_merge_ages(olds, self.tree.sections@, left as int, self.params.init_age);
        }
    }

    /// Whether a pending split event still applies: the prefix must still
    /// name a current section and the policy must still approve on the
    /// current membership.
    #[verifier::rlimit(100)]
    fn split_decision(&self, plen: u64, pbits: u64) -> (r: Option<usize>)
        requires
            self.wf(),
        ensures
            match r {
                Some(i) => spec_split_approved(self.tree.sections@, plen, pbits, self.params) && i
                    as int == spec_find_prefix(self.tree.sections@, plen, pbits, 0) && i
                    < self.tree.sections@.len() && self.tree.sections@[i as int].prefix_len == plen
                    && self.tree.sections@[i as int].prefix_bits == pbits && plen < ADDR_BITS,
                None => !spec_split_approved(self.tree.sections@, plen, pbits, self.params),
            },
    {
        let idx = match self.tree.find_prefix(plen, pbits) {
            None => {
                return None;
            },
            Some(i) => i,
        };
        if plen >= ADDR_BITS {
            return None;
        }
        let (y0, t0, y1, t1) = self.child_counts(idx);
        let mlen = self.tree.sections[idx].members.len();
        proof {
            assert(t0 + t1 == mlen);
        }
        if !should_split(y0, t0, y1, t1, plen, &self.params) {
            return None;
        }
        Some(idx)
    }

    /// Apply a pending split: if a section still carries the named prefix
    /// and the policy still approves, replace it by its two children and
    /// re-check both. A stale prefix is a no-op.
    /// Carry out an approved split at `idx` and re-check the lower child;
    /// the sibling is evaluated again as soon as its own membership next
    /// changes.
    #[verifier::rlimit(100)]
    fn apply_split_at(&mut self, idx: usize, plen: u64, pbits: u64, h: u64)
        requires
            old(self).wf(),
            idx < old(self).tree.sections@.len(),
            old(self).tree.sections@[idx as int].prefix_len == plen,
            old(self).tree.sections@[idx as int].prefix_bits == pbits,
            plen < ADDR_BITS,
        ensures
            final(self).wf(),
            final(self).queue@.len() >= old(self).queue@.len(),
            final(self).params == old(self).params,
            final(self).event_seq == old(self).event_seq,
            final(self).departed == old(self).departed,
            final(self).total() == old(self).total(),
            final(self).tree.sections@.len() == old(self).tree.sections@.len() + 1,
            forall|k: int| 0 <= k < idx ==> final(self).tree.sections@[k] == old(self).tree.sections@[k],
            forall|k: int|
                idx < k < old(self).tree.sections@.len() ==> final(self).tree.sections@[k + 1]
                    == old(self).tree.sections@[k],
            final(self).tree.sections@[idx as int].prefix_len == plen + 1,
            final(self).tree.sections@[idx as int].prefix_bits == 2 * pbits,
            final(self).tree.sections@[idx as int].members@ == old(
                self,
            ).tree.sections@[idx as int].members@.filter(
                covers_pred((plen + 1) as u64, (2 * pbits) as u64),
            ),
            final(self).tree.sections@[idx + 1].prefix_len == plen + 1,
            final(self).tree.sections@[idx + 1].prefix_bits == 2 * pbits + 1,
            final(self).tree.sections@[idx + 1].members@ == old(
                self,
            ).tree.sections@[idx as int].members@.filter(
                not_covers_pred((plen + 1) as u64, (2 * pbits) as u64),
            ),
            final(self).queue@ == old(self).queue@ + spec_relocs(
                final(self).tree.sections@[idx as int].members@,
                h,
                old(self).params.init_age,
                old(self).params.relocation_rate,
                0,
            ) + spec_sm_event(final(self).tree.sections@[idx as int], old(self).params, false),
    {
        self.do_split(idx, plen, pbits);
        self.post_check(idx, h, false);
    }

    #[verifier::rlimit(100)]
    fn apply_split(&mut self, plen: u64, pbits: u64, h: u64)
        requires
            old(self).wf(),
        ensures
            final(self).wf(),
            final(self).queue@.len() >= old(self).queue@.len(),
            final(self).params == old(self).params,
            final(self).event_seq == old(self).event_seq,
            final(self).departed == old(self).departed,
            final(self).total() == old(self).total(),
            spec_split_applied(*old(self), *final(self), plen, pbits, h),
    {
        match self.split_decision(plen, pbits) {
            None => {
            },
            Some(idx) => {
                self.apply_split_at(idx, plen, pbits, h);
            },
        }
    }

    /// Whether a pending merge event still applies: the named section must
    /// still be current and below the minimum viable size, and its sibling
    /// must be a current leaf. Returns the left sibling's index.
    #[verifier::rlimit(100)]
    fn merge_decision(&self, plen: u64, pbits: u64) -> (r: Option<usize>)
        requires
            self.wf(),
        ensures
            match r {
                Some(left) => siblings_at(self.tree.sections@, left as int) && left as int
                    == spec_merge_left(self.tree.sections@, plen, pbits, self.params),
                None => spec_merge_left(self.tree.sections@, plen, pbits, self.params) == -1,
            },
    {
        if plen == 0 {
            return None;
        }
        let idx = match self.tree.find_prefix(plen, pbits) {
            None => {
                return None;
            },
            Some(i) => i,
        };
        let total = self.tree.sections[idx].members.len();
        if !should_merge(total, plen, &self.params) {
            return None;
        }
        self.sibling_check(idx, plen, pbits)
    }

    /// Find the left index of the sibling pair around the section at `idx`,
    /// if its sibling is a current leaf.
    #[verifier::rlimit(100)]
    fn sibling_check(&self, idx: usize, plen: u64, pbits: u64) -> (r: Option<usize>)
        requires
            idx < self.tree.sections@.len(),
            self.tree.sections@[idx as int].prefix_len == plen,
            self.tree.sections@[idx as int].prefix_bits == pbits,
            plen > 0,
        ensures
            match r {
                Some(left) => siblings_at(self.tree.sections@, left as int) && left as int
                    == spec_sibling_left(self.tree.sections@, idx as int, plen, pbits),
                None => spec_sibling_left(self.tree.sections@, idx as int, plen, pbits) == -1,
            },
    {
        if pbits % 2 == 0 {
            proof {
                assert(u64::MAX % 2 == 1);
            }
            let n = self.tree.sections.len();
            if idx >= n - 1 {
                return None;
            }
            let s = &self.tree.sections[idx + 1];
            if !(s.prefix_len == plen && s.prefix_bits == pbits + 1) {
                return None;
            }
            proof {
                assert(siblings_at(self.tree.sections@, idx as int));
            }
            Some(idx)
        } else {
            if idx == 0 {
                return None;
            }
            let s = &self.tree.sections[idx - 1];
            if !(s.prefix_len == plen && s.prefix_bits == pbits - 1) {
                return None;
            }
            proof {
                assert(siblings_at(self.tree.sections@, idx - 1));
            }
            Some(idx - 1)
        }
    }

    /// Apply a pending merge: if the named section is still current, still
    /// below the minimum viable size, and its sibling is a current leaf,
    /// coalesce the two into their parent and re-check it. Anything stale,
    /// or a root section, is a no-op.
    #[verifier::rlimit(100)]
    fn apply_merge(&mut self, plen: u64, pbits: u64, h: u64)
        requires
            old(self).wf(),
        ensures
            final(self).wf(),
            final(self).queue@.len() >= old(self).queue@.len(),
            final(self).params == old(self).params,
            final(self).event_seq == old(self).event_seq,
            final(self).departed == old(self).departed,
            final(self).total() == old(self).total(),
            spec_merge_applied(*old(self), *final(self), plen, pbits, h),
    {
        match self.merge_decision(plen, pbits) {
            None => {
            },
            Some(left) => {
                self.apply_merge_at(left, h);
            },
        }
    }

    /// Carry out an approved merge of the pair at `left` and re-check the
    /// merged section.
    #[verifier::rlimit(100)]
    fn apply_merge_at(&mut self, left: usize, h: u64)
        requires
            old(self).wf(),
            siblings_at(old(self).tree.sections@, left as int),
        ensures
            final(self).wf(),
            final(self).queue@.len() >= old(self).queue@.len(),
            final(self).params == old(self).params,
            final(self).event_seq == old(self).event_seq,
            final(self).departed == old(self).departed,
            final(self).total() == old(self).total(),
            final(self).tree.sections@.len() == old(self).tree.sections@.len() - 1,
            forall|k: int| 0 <= k < left ==> final(self).tree.sections@[k] == old(self).tree.sections@[k],
            forall|k: int|
                left + 1 < k < old(self).tree.sections@.len() ==> final(self).tree.sections@[k - 1]
                    == old(self).tree.sections@[k],
            final(self).tree.sections@[left as int].prefix_len == old(
                self,
            ).tree.sections@[left as int].prefix_len - 1,
            final(self).tree.sections@[left as int].prefix_bits == old(
                self,
            ).tree.sections@[left as int].prefix_bits / 2,
            final(self).tree.sections@[left as int].members@ == old(
                self,
            ).tree.sections@[left as int].members@ + old(self).tree.sections@[left + 1].members@,
            final(self).queue@ == old(self).queue@ + spec_relocs(
                final(self).tree.sections@[left as int].members@,
                h,
                old(self).params.init_age,
                old(self).params.relocation_rate,
                0,
            ) + spec_sm_event(final(self).tree.sections@[left as int], old(self).params, true),
    {
        self.do_merge(left);
        proof {
            assert(self.total() == old(self).total());
        }
        self.post_check(left, h, true);
    }

    /// Process one already-dequeued event at the current sequence number:
    /// apply its direct effect, then run the relocation and split/merge
    /// checks on the affected sections, enqueuing any follow-on events.
    ///
    /// The conservation contract: a join or rejoin grows the live count by
    /// exactly one (when its address is fresh, which is also exactly when it
    /// succeeds), a drop shrinks it by exactly one when its address is live,
    /// and relocations, splits and merges never change it.
    pub fn step_event(&mut self, ev: Event, rng: &mut SimRng) -> (r: Result<(), SimError>)
        requires
            old(self).wf(),
        ensures
            final(self).wf(),
            final(self).queue@.len() >= old(self).queue@.len(),
            final(self).params == old(self).params,
            final(self).event_seq == old(self).event_seq,
            r is Err ==> r == Err::<(), SimError>(SimError::DuplicateAddress),
            match ev {
                Event::Join { address } => (r is Ok <==> !tree_has_address(
                    old(self).tree.sections@,
                    address,
                )) && (r is Err ==> *final(self) == *old(self)) && (r is Ok ==> final(self).total()
                    == old(self).total() + 1 && node_in(
                    final(self).tree.sections@,
                    (Node { address, age: old(self).params.init_age }),
                ) && spec_inserted(
                    *old(self),
                    *final(self),
                    address,
                    ev.spec_hash(old(self).event_seq),
                )) && final(self).departed == old(self).departed && *final(rng) == *old(rng),
                Event::Rejoin { address } => (r is Ok <==> !tree_has_address(
                    old(self).tree.sections@,
                    address,
                )) && (r is Err ==> *final(self) == *old(self)) && (r is Ok ==> final(self).total()
                    == old(self).total() + 1 && node_in(
                    final(self).tree.sections@,
                    (Node { address, age: old(self).params.init_age }),
                ) && spec_inserted(
                    *old(self),
                    *final(self),
                    address,
                    ev.spec_hash(old(self).event_seq),
                ) && final(self).departed@ == spec_departed_rejoined(
                    old(self).departed@,
                    address,
                )) && (r is Err ==> final(self).departed == old(self).departed) && *final(rng)
                    == *old(rng),
                Event::Drop { address } => r is Ok && final(self).total() == old(self).total() - (
                if tree_has_address(old(self).tree.sections@, address) {
                    1int
                } else {
                    0int
                }) && final(self).departed@ == spec_departed_after(
                    old(self).departed@,
                    address,
                    tree_has_address(old(self).tree.sections@, address),
                ) && spec_dropped(
                    *old(self),
                    *final(self),
                    address,
                    ev.spec_hash(old(self).event_seq),
                ) && *final(rng) == *old(rng),
                Event::Relocate { address } => final(self).total() == old(self).total() && final(self).departed == old(self).departed && final(rng).state == spec_relocate_rng(
                    old(self).tree.sections@,
                    old(self).params,
                    address,
                    old(rng).state,
                ) && spec_relocated(
                    *old(self),
                    *final(self),
                    address,
                    ev.spec_hash(old(self).event_seq),
                    old(rng).state,
                ) && (r is Err <==> spec_relocate_collides(
                    *old(self),
                    address,
                    old(rng).state,
                )) && (forall|i: int, j: int|
                    0 <= i < final(self).tree.sections@.len() && 0 <= j < final(self).tree.sections@[i].members@.len() ==> node_in(
                        old(self).tree.sections@,
                        (#[trigger] final(self).tree.sections@[i].members@[j]),
                    ) || final(self).tree.sections@[i].members@[j].age == old(
                        self,
                    ).params.init_age),
                Event::SplitSection { prefix_len, prefix_bits } => r is Ok && final(self).total()
                    == old(self).total() && final(self).departed == old(self).departed && *final(rng) == *old(rng) && spec_split_applied(
                    *old(self),
                    *final(self),
                    prefix_len,
                    prefix_bits,
                    ev.spec_hash(old(self).event_seq),
                ),
                Event::MergeSection { prefix_len, prefix_bits } => r is Ok && final(self).total()
                    == old(self).total() && final(self).departed == old(self).departed
                    && *final(rng) == *old(rng) && spec_merge_applied(
                    *old(self),
                    *final(self),
                    prefix_len,
                    prefix_bits,
                    ev.spec_hash(old(self).event_seq),
                ),
            },
    {
        let h = event_hash(ev.hash_key(), ev.kind_tag(), self.event_seq);
        match ev {
            Event::Join { address } => self.apply_insert(address, h),
            Event::Rejoin { address } => {
                let r = self.apply_insert(address, h);
                if r.is_ok() {
                    self.remove_departed(address);
                }
                r
            },
            Event::Drop { address } => {
                self.apply_drop(address, h);
                Ok(())
            },
            Event::Relocate { address } => self.apply_relocate(address, h, rng),
            Event::SplitSection { prefix_len, prefix_bits } => {
                self.apply_split(prefix_len, prefix_bits, h);
                Ok(())
            },
            Event::MergeSection { prefix_len, prefix_bits } => {
                self.apply_merge(prefix_len, prefix_bits, h);
                Ok(())
            },
        }
    }

    /// Drain the event queue, processing at most `limit` events: the
    /// cascade. Returns how many events were processed; on success the
    /// queue is empty, every event that was pending has been processed, and
    /// the event sequence number records the exact count. Exceeding the
    /// bound without reaching quiescence is the fatal cascade overrun, and
    /// it is reported only after exactly `limit` events were processed.
    pub fn process_events_bounded(&mut self, rng: &mut SimRng, limit: usize) -> (r: Result<
        usize,
        SimError,
    >)
        requires
            old(self).wf(),
        ensures
            final(self).wf(),
            final(self).params == old(self).params,
            r is Ok ==> final(self).queue@.len() == 0 && r->Ok_0 <= limit,
            r is Ok ==> r->Ok_0 >= old(self).queue@.len(),
            r is Ok ==> final(self).event_seq == old(self).event_seq.wrapping_add(
                r->Ok_0 as u64,
            ),
            r is Ok ==> spec_cascade(
                *old(self),
                old(rng).state,
                *final(self),
                final(rng).state,
                r->Ok_0 as int,
            ),
            r == Err::<usize, SimError>(SimError::CascadeOverrun) ==> final(self).queue@.len() > 0
                && final(self).event_seq == old(self).event_seq.wrapping_add(limit as u64),
            r == Err::<usize, SimError>(SimError::DuplicateAddress) ==> exists|
                k: int,
                m: Network,
                sm: u64,
            |
                0 <= k < limit && #[trigger] spec_cascade(*old(self), old(rng).state, m, sm, k)
                    && spec_cascade_fails(m, sm, *final(self), final(rng).state),
            r is Err ==> r == Err::<usize, SimError>(SimError::DuplicateAddress) || r == Err::<
                usize,
                SimError,
            >(SimError::CascadeOverrun),
            old(self).queue@.len() == 0 ==> r == Ok::<usize, SimError>(0) && *final(self) == *old(
                self,
            ) && *final(rng) == *old(rng),
    {
        if self.queue.len() == 0 {
            return Ok(0);
        }
        let mut steps: usize = 0;
        while self.queue.len() > 0
            invariant
                self.wf(),
                self.params == old(self).params,
                0 <= steps <= limit,
                old(self).queue@.len() > 0,
                steps + self.queue@.len() >= old(self).queue@.len(),
                self.event_seq == old(self).event_seq.wrapping_add(steps as u64),
                spec_cascade(*old(self), old(rng).state, *self, rng.state, steps as int),
            decreases limit - steps,
        {
            if steps >= limit {
                return Err(SimError::CascadeOverrun);
            }
            let ghost pre_iter = *self;
            let ghost s_pre = rng.state;
            let ev = self.queue.remove(0);
            self.event_seq = self.event_seq.wrapping_add(1);
            let ghost mid = *self;
            let res = self.step_event(ev, rng);
            match res {
                Err(e) => {
                    proof {
                        assert(mid.queue@ =~= pre_iter.queue@.drop_first());
                        assert(ev == pre_iter.queue@[0]);
                        assert(*self == mid);
                        assert(spec_popped(pre_iter, mid));
                        assert(spec_fail_effect(mid, s_pre, *self, rng.state, ev));
                        assert(spec_cascade_fails(pre_iter, s_pre, *self, rng.state));
                    }
                    return Err(e);
                },
                Ok(()) => {
                },
            }
            proof {
                assert(mid.queue@ =~= pre_iter.queue@.drop_first());
                assert(ev == pre_iter.queue@[0]);
                assert(spec_popped(pre_iter, mid));
                assert(spec_step_effect(mid, s_pre, *self, rng.state, ev));
                assert(spec_cascade_step(pre_iter, s_pre, *self, rng.state));
                lemma_cascade_snoc(
                    *old(self),
                    old(rng).state,
                    pre_iter,
                    s_pre,
                    *self,
                    rng.state,
                    steps as int,
                );
            }
            steps = steps + 1;
        }
        Ok(steps)
    }

    /// Drain the event queue under the built-in safety bound. Must be called
    /// after each churn entry point before the network is read.
    pub fn process_events(&mut self, rng: &mut SimRng) -> (r: Result<usize, SimError>)
        requires
            old(self).wf(),
        ensures
            final(self).wf(),
            final(self).params == old(self).params,
            r is Ok ==> final(self).queue@.len() == 0 && r->Ok_0 <= MAX_CASCADE_EVENTS,
            r is Ok ==> r->Ok_0 >= old(self).queue@.len(),
            r is Ok ==> final(self).event_seq == old(self).event_seq.wrapping_add(
                r->Ok_0 as u64,
            ),
            r is Ok ==> spec_cascade(
                *old(self),
                old(rng).state,
                *final(self),
                final(rng).state,
                r->Ok_0 as int,
            ),
            r == Err::<usize, SimError>(SimError::CascadeOverrun) ==> final(self).queue@.len() > 0
                && final(self).event_seq == old(self).event_seq.wrapping_add(
                MAX_CASCADE_EVENTS as u64,
            ),
            r == Err::<usize, SimError>(SimError::DuplicateAddress) ==> exists|
                k: int,
                m: Network,
                sm: u64,
            |
                0 <= k < MAX_CASCADE_EVENTS && #[trigger] spec_cascade(
                    *old(self),
                    old(rng).state,
                    m,
                    sm,
                    k,
                ) && spec_cascade_fails(m, sm, *final(self), final(rng).state),
            r is Err ==> r == Err::<usize, SimError>(SimError::DuplicateAddress) || r == Err::<
                usize,
                SimError,
            >(SimError::CascadeOverrun),
            old(self).queue@.len() == 0 ==> r == Ok::<usize, SimError>(0) && *final(self) == *old(
                self,
            ) && *final(rng) == *old(rng),
    {
        self.process_events_bounded(rng, MAX_CASCADE_EVENTS)
    }
}

/// The children of a split inherit the age bound: each child member is a
/// former member of the parent.
proof fn lemma_split_ages(
    olds: Seq<Section>,
    news: Seq<Section>,
    idx: int,
    plen: u64,
    pbits: u64,
    init_age: u8,
)
    requires
        0 <= idx < olds.len(),
        news.len() == olds.len() + 1,
        forall|k: int| 0 <= k < idx ==> news[k] == olds[k],
        forall|k: int| idx < k < olds.len() ==> news[k + 1] == olds[k],
        news[idx].members@ == olds[idx].members@.filter(
            covers_pred((plen + 1) as u64, (2 * pbits) as u64),
        ),
        news[idx + 1].members@ == olds[idx].members@.filter(
            not_covers_pred((plen + 1) as u64, (2 * pbits) as u64),
        ),
        ages_ok(olds, init_age),
    ensures
        ages_ok(news, init_age),
{
    let pm = olds[idx].members@;
    let p0 = covers_pred((plen + 1) as u64, (2 * pbits) as u64);
    let p1 = not_covers_pred((plen + 1) as u64, (2 * pbits) as u64);
    lemma_filter_sub(pm, p0);
    lemma_filter_sub(pm, p1);
    assert forall|i: int, j: int|
        0 <= i < news.len() && 0 <= j < news[i].members@.len() implies (
    #[trigger] news[i].members@[j]).age >= init_age by {
        if i == idx || i == idx + 1 {
            let x = news[i].members@[j];
            assert(pm.contains(x));
            let w = choose|w: int| 0 <= w < pm.len() && pm[w] == x;
        } else if i < idx {
            assert(news[i] == olds[i]);
        } else {
            assert(news[i] == olds[i - 1]);
        }
    }
}

/// The merged parent inherits the age bound: its members are the two
/// siblings' members.
proof fn lemma_merge_ages(olds: Seq<Section>, news: Seq<Section>, left: int, init_age: u8)
    requires
        0 <= left,
        left + 1 < olds.len(),
        news.len() == olds.len() - 1,
        forall|k: int| 0 <= k < left ==> news[k] == olds[k],
        forall|k: int| left + 1 < k < olds.len() ==> news[k - 1] == olds[k],
        news[left].members@ == olds[left].members@ + olds[left + 1].members@,
        ages_ok(olds, init_age),
    ensures
        ages_ok(news, init_age),
{
    let am = olds[left].members@;
    assert forall|i: int, j: int|
        0 <= i < news.len() && 0 <= j < news[i].members@.len() implies (
    #[trigger] news[i].members@[j]).age >= init_age by {
        if i == left {
            if j < am.len() {
                assert(news[i].members@[j] == am[j]);
            } else {
                assert(news[i].members@[j] == olds[left + 1].members@[j - am.len()]);
            }
        } else if i < left {
            assert(news[i] == olds[i]);
        } else {
            assert(news[i] == olds[i + 1]);
        }
    }
}

/// Two adjacent sections form a mergeable sibling pair: same non-empty
/// prefix length, and their prefixes differ only in the last bit.
pub open spec fn siblings_at(secs: Seq<Section>, left: int) -> bool {
    &&& 0 <= left
    &&& left + 1 < secs.len()
    &&& secs[left].prefix_len == secs[left + 1].prefix_len
    &&& secs[left].prefix_len > 0
    &&& secs[left].prefix_bits % 2 == 0
    &&& secs[left + 1].prefix_bits == secs[left].prefix_bits + 1
}

/// Every node of a partition is one of its own members: the trivial witness
/// form of `node_in`, used when nothing moved.
pub proof fn lemma_everything_in_place(secs: Seq<Section>)
    ensures
        forall|i: int, j: int|
            0 <= i < secs.len() && 0 <= j < secs[i].members@.len() ==> node_in(
                secs,
                (#[trigger] secs[i].members@[j]),
            ),
{
    assert forall|i: int, j: int|
        0 <= i < secs.len() && 0 <= j < secs[i].members@.len() implies node_in(
        secs,
        (#[trigger] secs[i].members@[j]),
    ) by {
        assert(secs[i].members@[j] == secs[i].members@[j]);
    }
}

} // verus!
