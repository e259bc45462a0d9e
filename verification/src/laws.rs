//! The global laws of the partition, stated once over any well-formed
//! network state. The per-operation laws — conservation of the node count,
//! exact split and merge membership, age bounds, termination of the cascade
//! within its bound — are the `ensures` of the operations themselves.

use vstd::prelude::*;
use crate::network::{
    net_view_eq, sec_view_eq, secs_view_eq, spec_cascade, spec_cascade_step, spec_dropped,
    spec_inserted, spec_merge_applied, spec_merge_left, spec_popped,
    spec_relocate_rng, spec_relocated, spec_sm_event, spec_split_applied, spec_split_approved,
    spec_step_effect, tree_has_address, Event, Network,
};
use crate::params::PPM_SCALE;
use crate::rng::{sm_mix, sm_next};
use crate::policy::{spec_better, spec_flat, spec_weakest_from};
use crate::tree::{
    all_wf, covers, lemma_cover_unique, lemma_covers_iff_interval, lemma_locate_covers, sec_size,
    spec_find_prefix, spec_locate, tiling, Node, Section,
};

verus! {

/// The partition invariant: in every well-formed state, each address is
/// covered by exactly one section — the prefixes partition the space.
pub proof fn lemma_partition_total(secs: Seq<Section>, a: u64)
    requires
        tiling(secs),
        all_wf(secs),
    ensures
        exists|i: int|
            0 <= i < secs.len() && #[trigger] covers(secs[i].prefix_len, secs[i].prefix_bits, a),
        forall|i: int, j: int|
            0 <= i < secs.len() && 0 <= j < secs.len() && #[trigger] covers(
                secs[i].prefix_len,
                secs[i].prefix_bits,
                a,
            ) && #[trigger] covers(secs[j].prefix_len, secs[j].prefix_bits, a) ==> i == j,
{
    lemma_locate_covers(secs, a, 0);
    let w = spec_locate(secs, a, 0);
    assert(0 <= w < secs.len() && covers(secs[w].prefix_len, secs[w].prefix_bits, a));
    assert forall|i: int, j: int|
        0 <= i < secs.len() && 0 <= j < secs.len() && #[trigger] covers(
            secs[i].prefix_len,
            secs[i].prefix_bits,
            a,
        ) && #[trigger] covers(secs[j].prefix_len, secs[j].prefix_bits, a) implies i == j by {
        lemma_cover_unique(secs, a, i, j);
    }
}

/// No address is held twice anywhere in the network: two member entries
/// with the same address are the same entry of the same section.
pub proof fn lemma_global_address_unique(
    secs: Seq<Section>,
    i1: int,
    j1: int,
    i2: int,
    j2: int,
)
    requires
        tiling(secs),
        all_wf(secs),
        0 <= i1 < secs.len(),
        0 <= j1 < secs[i1].members@.len(),
        0 <= i2 < secs.len(),
        0 <= j2 < secs[i2].members@.len(),
        secs[i1].members@[j1].address == secs[i2].members@[j2].address,
    ensures
        i1 == i2 && j1 == j2,
{
    let a = secs[i1].members@[j1].address;
    assert(covers(secs[i1].prefix_len, secs[i1].prefix_bits, a));
    assert(covers(secs[i2].prefix_len, secs[i2].prefix_bits, a));
    lemma_cover_unique(secs, a, i1, i2);
    if j1 != j2 {
        assert(secs[i1].members@[j1].address != secs[i1].members@[j2].address);
    }
}

/// The covering scan reads only prefixes: view-equal partitions locate any
/// address alike.
pub proof fn lemma_locate_cong(a: Seq<Section>, b: Seq<Section>, addr: u64, i: int)
    requires
        secs_view_eq(a, b),
    ensures
        spec_locate(a, addr, i) == spec_locate(b, addr, i),
    decreases a.len() - i,
{
    if 0 <= i < a.len() {
        assert(sec_view_eq(a[i], b[i]));
        if !covers(a[i].prefix_len, a[i].prefix_bits, addr) {
            lemma_locate_cong(a, b, addr, i + 1);
        }
    }
}

/// The prefix scan reads only prefixes: view-equal partitions find a prefix
/// alike.
pub proof fn lemma_find_prefix_cong(a: Seq<Section>, b: Seq<Section>, plen: u64, pbits: u64, i: int)
    requires
        secs_view_eq(a, b),
    ensures
        spec_find_prefix(a, plen, pbits, i) == spec_find_prefix(b, plen, pbits, i),
    decreases a.len() - i,
{
    if 0 <= i < a.len() {
        assert(sec_view_eq(a[i], b[i]));
        if !(a[i].prefix_len == plen && a[i].prefix_bits == pbits) {
            lemma_find_prefix_cong(a, b, plen, pbits, i + 1);
        }
    }
}

/// The prefix scan lands between its start and the sequence's length.
pub proof fn lemma_find_prefix_range(secs: Seq<Section>, plen: u64, pbits: u64, i: int)
    requires
        0 <= i <= secs.len(),
    ensures
        i <= spec_find_prefix(secs, plen, pbits, i) <= secs.len(),
    decreases secs.len() - i,
{
    if i < secs.len() && !(secs[i].prefix_len == plen && secs[i].prefix_bits == pbits) {
        lemma_find_prefix_range(secs, plen, pbits, i + 1);
    }
}

/// Liveness of an address reads only memberships: view-equal partitions
/// agree on it.
pub proof fn lemma_has_address_cong(a: Seq<Section>, b: Seq<Section>, addr: u64)
    requires
        secs_view_eq(a, b),
    ensures
        tree_has_address(a, addr) == tree_has_address(b, addr),
{
    if tree_has_address(a, addr) {
        let i = choose|i: int| 0 <= i < a.len() && Section::has_address(a[i].members@, addr);
        assert(sec_view_eq(a[i], b[i]));
        assert(Section::has_address(b[i].members@, addr));
    }
    if tree_has_address(b, addr) {
        let i = choose|i: int| 0 <= i < b.len() && Section::has_address(b[i].members@, addr);
        assert(sec_view_eq(a[i], b[i]));
        assert(Section::has_address(a[i].members@, addr));
    }
}

/// The weakest-neighbour scan lands in the partition or reports none.
pub proof fn lemma_weakest_range(
    secs: Seq<Section>,
    tlen: u64,
    tbits: u64,
    init_age: u8,
    me: int,
    target: int,
    j: int,
    best: int,
)
    requires
        best == -1 || 0 <= best < secs.len(),
    ensures
        ({
            let w = spec_weakest_from(secs, tlen, tbits, init_age, me, target, j, best);
            w == best || 0 <= w < secs.len()
        }),
    decreases secs.len() - j,
{
    if 0 <= j < secs.len() {
        if j != me && j != target && spec_better(secs, tlen, tbits, init_age, j, best) {
            lemma_weakest_range(secs, tlen, tbits, init_age, me, target, j + 1, j);
        } else {
            lemma_weakest_range(secs, tlen, tbits, init_age, me, target, j + 1, best);
        }
    }
}

/// The weakest-neighbour scan reads only prefixes and memberships:
/// view-equal partitions choose the same destination.
pub proof fn lemma_weakest_cong(
    a: Seq<Section>,
    b: Seq<Section>,
    tlen: u64,
    tbits: u64,
    init_age: u8,
    me: int,
    target: int,
    j: int,
    best: int,
)
    requires
        secs_view_eq(a, b),
        best == -1 || 0 <= best < a.len(),
    ensures
        spec_weakest_from(a, tlen, tbits, init_age, me, target, j, best) == spec_weakest_from(
            b,
            tlen,
            tbits,
            init_age,
            me,
            target,
            j,
            best,
        ),
    decreases a.len() - j,
{
    if 0 <= j < a.len() {
        assert(sec_view_eq(a[j], b[j]));
        if best != -1 {
            assert(sec_view_eq(a[best], b[best]));
        }
        assert(spec_better(a, tlen, tbits, init_age, j, best) == spec_better(
            b,
            tlen,
            tbits,
            init_age,
            j,
            best,
        ));
        if j != me && j != target && spec_better(a, tlen, tbits, init_age, j, best) {
            lemma_weakest_cong(a, b, tlen, tbits, init_age, me, target, j + 1, j);
        } else {
            lemma_weakest_cong(a, b, tlen, tbits, init_age, me, target, j + 1, best);
        }
    }
}

/// A successful insert is a function of the observable state: view-equal
/// states produce view-equal partitions and queues.
#[verifier::rlimit(100)]
proof fn lemma_insert_det(m1: Network, m2: Network, a1: Network, a2: Network, address: u64, h: u64)
    requires
        m1.wf(),
        m2.wf(),
        net_view_eq(m1, m2),
        spec_inserted(m1, a1, address, h),
        spec_inserted(m2, a2, address, h),
    ensures
        secs_view_eq(a1.tree.sections@, a2.tree.sections@),
        a1.queue@ == a2.queue@,
{
    let secs1 = m1.tree.sections@;
    let secs2 = m2.tree.sections@;
    lemma_locate_covers(secs1, address, 0);
    lemma_locate_cong(secs1, secs2, address, 0);
    let i = spec_locate(secs1, address, 0);
    assert(sec_view_eq(secs1[i], secs2[i]));
    let node = Node { address, age: m1.params.init_age };
    assert(secs2[i].members@.push(node) == secs1[i].members@.push(node));
    assert forall|k: int| 0 <= k < a1.tree.sections@.len() implies sec_view_eq(
        #[trigger] a1.tree.sections@[k],
        #[trigger] a2.tree.sections@[k],
    ) by {
        if k != i {
            assert(a1.tree.sections@[k] == secs1[k]);
            assert(a2.tree.sections@[k] == secs2[k]);
            assert(sec_view_eq(secs1[k], secs2[k]));
        }
    }
    let c1 = a1.tree.sections@[i];
    let c2 = a2.tree.sections@[i];
    assert(c1.prefix_len == c2.prefix_len && c1.prefix_bits == c2.prefix_bits && c1.members@
        == c2.members@);
    assert(spec_sm_event(c1, m1.params, true) == spec_sm_event(c2, m2.params, true));
}

/// A drop is a function of the observable state.
#[verifier::rlimit(100)]
proof fn lemma_drop_det(m1: Network, m2: Network, a1: Network, a2: Network, address: u64, h: u64)
    requires
        m1.wf(),
        m2.wf(),
        net_view_eq(m1, m2),
        spec_dropped(m1, a1, address, h),
        spec_dropped(m2, a2, address, h),
    ensures
        secs_view_eq(a1.tree.sections@, a2.tree.sections@),
        a1.queue@ == a2.queue@,
{
    let secs1 = m1.tree.sections@;
    let secs2 = m2.tree.sections@;
    lemma_locate_covers(secs1, address, 0);
    lemma_locate_cong(secs1, secs2, address, 0);
    let i = spec_locate(secs1, address, 0);
    assert(sec_view_eq(secs1[i], secs2[i]));
    match Section::spec_find(secs1[i].members@, address, 0) {
        None => {
            assert(a1 == m1 && a2 == m2);
        },
        Some(mi) => {
            assert forall|k: int| 0 <= k < a1.tree.sections@.len() implies sec_view_eq(
                #[trigger] a1.tree.sections@[k],
                #[trigger] a2.tree.sections@[k],
            ) by {
                if k != i {
                    assert(a1.tree.sections@[k] == secs1[k]);
                    assert(a2.tree.sections@[k] == secs2[k]);
                    assert(sec_view_eq(secs1[k], secs2[k]));
                }
            }
            let c1 = a1.tree.sections@[i];
            let c2 = a2.tree.sections@[i];
            assert(c1.prefix_len == c2.prefix_len && c1.prefix_bits == c2.prefix_bits
                && c1.members@ == c2.members@);
            assert(spec_sm_event(c1, m1.params, true) == spec_sm_event(c2, m2.params, true));
        },
    }
}

/// A relocation check is a function of the observable state and the draw.
#[verifier::rlimit(100)]
proof fn lemma_relocate_det(
    m1: Network,
    m2: Network,
    a1: Network,
    a2: Network,
    address: u64,
    h: u64,
    s0: u64,
)
    requires
        m1.wf(),
        m2.wf(),
        net_view_eq(m1, m2),
        spec_relocated(m1, a1, address, h, s0),
        spec_relocated(m2, a2, address, h, s0),
    ensures
        secs_view_eq(a1.tree.sections@, a2.tree.sections@),
        a1.queue@ == a2.queue@,
        spec_relocate_rng(m1.tree.sections@, m1.params, address, s0) == spec_relocate_rng(
            m2.tree.sections@,
            m2.params,
            address,
            s0,
        ),
{
    let secs1 = m1.tree.sections@;
    let secs2 = m2.tree.sections@;
    lemma_locate_covers(secs1, address, 0);
    lemma_locate_cong(secs1, secs2, address, 0);
    let i = spec_locate(secs1, address, 0);
    assert(sec_view_eq(secs1[i], secs2[i]));
    match Section::spec_find(secs1[i].members@, address, 0) {
        None => {
            assert(a1 == m1 && a2 == m2);
        },
        Some(mi) => {
            if secs1.len() <= 1 {
                assert(a1 == m1 && a2 == m2);
            } else {
                vstd::std_specs::vec::axiom_spec_len(&m1.tree.sections);
                let s1v = sm_next(s0);
                let distant = (sm_mix(s1v) % (PPM_SCALE as u64))
                    < m1.params.distant_relocation_ppm as u64;
                let s2v = if distant {
                    sm_next(s1v)
                } else {
                    s1v
                };
                let target = if distant {
                    (sm_mix(s2v) % (secs1.len() as u64)) as int
                } else {
                    i
                };
                assert(secs1.len() <= u64::MAX);
                assert(0 <= target < secs1.len());
                lemma_relocate_dest_det(m1, m2, a1, a2, address, h, s0, i, target, s2v);
            }
        },
    }
}

/// The tail of the live relocation case, once the draws have fixed the
/// target whose weakest neighbour is sought.
#[verifier::rlimit(100)]
proof fn lemma_relocate_dest_det(
    m1: Network,
    m2: Network,
    a1: Network,
    a2: Network,
    address: u64,
    h: u64,
    s0: u64,
    i: int,
    target: int,
    s2v: u64,
)
    requires
        m1.wf(),
        m2.wf(),
        net_view_eq(m1, m2),
        spec_relocated(m1, a1, address, h, s0),
        spec_relocated(m2, a2, address, h, s0),
        i == spec_locate(m1.tree.sections@, address, 0),
        i == spec_locate(m2.tree.sections@, address, 0),
        0 <= i < m1.tree.sections@.len(),
        Section::spec_find(m1.tree.sections@[i].members@, address, 0) is Some,
        m1.tree.sections@.len() > 1,
        0 <= target < m1.tree.sections@.len(),
        ({
            let s1v = sm_next(s0);
            let distant = (sm_mix(s1v) % (PPM_SCALE as u64))
                < m1.params.distant_relocation_ppm as u64;
            &&& s2v == (if distant {
                sm_next(s1v)
            } else {
                s1v
            })
            &&& target == (if distant {
                (sm_mix(s2v) % (m1.tree.sections@.len() as u64)) as int
            } else {
                i
            })
        }),
    ensures
        secs_view_eq(a1.tree.sections@, a2.tree.sections@),
        a1.queue@ == a2.queue@,
        spec_relocate_rng(m1.tree.sections@, m1.params, address, s0) == spec_relocate_rng(
            m2.tree.sections@,
            m2.params,
            address,
            s0,
        ),
{
    let secs1 = m1.tree.sections@;
    let secs2 = m2.tree.sections@;
    assert(sec_view_eq(secs1[i], secs2[i]));
    assert(sec_view_eq(secs1[target], secs2[target]));
    lemma_weakest_cong(
        secs1,
        secs2,
        secs1[target].prefix_len,
        secs1[target].prefix_bits,
        m1.params.init_age,
        i,
        target,
        0,
        -1,
    );
    lemma_weakest_range(
        secs1,
        secs1[target].prefix_len,
        secs1[target].prefix_bits,
        m1.params.init_age,
        i,
        target,
        0,
        -1,
    );
    let w = crate::policy::spec_weakest_from(
        secs1,
        secs1[target].prefix_len,
        secs1[target].prefix_bits,
        m1.params.init_age,
        i,
        target,
        0,
        -1,
    );
    if w == -1 {
        assert(a1 == m1 && a2 == m2);
    } else {
        assert(sec_view_eq(secs1[w], secs2[w]));
        let dlen = secs1[w].prefix_len;
        let dbits = secs1[w].prefix_bits;
        let size = sec_size(dlen);
        let off = sm_mix(sm_next(s2v)) % (size as u64);
        let new_addr = ((dbits as int) * (size as int) + off) as u64;
        match Section::spec_find(secs1[w].members@, new_addr, 0) {
            Some(_) => {
                assert(a1 == m1 && a2 == m2);
            },
            None => {
                assert forall|k: int| 0 <= k < a1.tree.sections@.len() implies sec_view_eq(
                    #[trigger] a1.tree.sections@[k],
                    #[trigger] a2.tree.sections@[k],
                ) by {
                    if k != i && k != w {
                        assert(a1.tree.sections@[k] == secs1[k]);
                        assert(a2.tree.sections@[k] == secs2[k]);
                        assert(sec_view_eq(secs1[k], secs2[k]));
                    }
                }
                let ci1 = a1.tree.sections@[i];
                let ci2 = a2.tree.sections@[i];
                let cw1 = a1.tree.sections@[w];
                let cw2 = a2.tree.sections@[w];
                assert(ci1.prefix_len == ci2.prefix_len && ci1.prefix_bits == ci2.prefix_bits
                    && ci1.members@ == ci2.members@);
                assert(cw1.prefix_len == cw2.prefix_len && cw1.prefix_bits == cw2.prefix_bits
                    && cw1.members@ == cw2.members@);
                assert(spec_sm_event(ci1, m1.params, true) == spec_sm_event(ci2, m2.params, true));
                assert(spec_sm_event(cw1, m1.params, true) == spec_sm_event(cw2, m2.params, true));
            },
        }
    }
}

/// A pending split's application is a function of the observable state./// A pending split's application is a function of the observable state./// A pending split's application is a function of the observable state.
#[verifier::rlimit(100)]
proof fn lemma_split_det(
    m1: Network,
    m2: Network,
    a1: Network,
    a2: Network,
    plen: u64,
    pbits: u64,
    h: u64,
)
    requires
        m1.wf(),
        m2.wf(),
        net_view_eq(m1, m2),
        spec_split_applied(m1, a1, plen, pbits, h),
        spec_split_applied(m2, a2, plen, pbits, h),
    ensures
        secs_view_eq(a1.tree.sections@, a2.tree.sections@),
        a1.queue@ == a2.queue@,
{
    let secs1 = m1.tree.sections@;
    let secs2 = m2.tree.sections@;
    lemma_find_prefix_cong(secs1, secs2, plen, pbits, 0);
    lemma_find_prefix_range(secs1, plen, pbits, 0);
    let i = spec_find_prefix(secs1, plen, pbits, 0);
    if i < secs1.len() {
        assert(sec_view_eq(secs1[i], secs2[i]));
    }
    assert(spec_split_approved(secs1, plen, pbits, m1.params) == spec_split_approved(
        secs2,
        plen,
        pbits,
        m2.params,
    ));
    if !spec_split_approved(secs1, plen, pbits, m1.params) {
        assert(a1 == m1 && a2 == m2);
    } else {
        assert forall|k: int| 0 <= k < a1.tree.sections@.len() implies sec_view_eq(
            #[trigger] a1.tree.sections@[k],
            #[trigger] a2.tree.sections@[k],
        ) by {
            if k < i {
                assert(a1.tree.sections@[k] == secs1[k]);
                assert(a2.tree.sections@[k] == secs2[k]);
                assert(sec_view_eq(secs1[k], secs2[k]));
            } else if k > i + 1 {
                assert(a1.tree.sections@[k] == secs1[k - 1]);
                assert(a2.tree.sections@[k] == secs2[k - 1]);
                assert(sec_view_eq(secs1[k - 1], secs2[k - 1]));
            }
        }
        let c1 = a1.tree.sections@[i];
        let c2 = a2.tree.sections@[i];
        assert(c1.prefix_len == c2.prefix_len && c1.prefix_bits == c2.prefix_bits && c1.members@
            == c2.members@);
        assert(spec_sm_event(c1, m1.params, false) == spec_sm_event(c2, m2.params, false));
    }
}

/// A pending merge's application is a function of the observable state.
#[verifier::rlimit(100)]
proof fn lemma_merge_det(
    m1: Network,
    m2: Network,
    a1: Network,
    a2: Network,
    plen: u64,
    pbits: u64,
    h: u64,
)
    requires
        m1.wf(),
        m2.wf(),
        net_view_eq(m1, m2),
        spec_merge_applied(m1, a1, plen, pbits, h),
        spec_merge_applied(m2, a2, plen, pbits, h),
    ensures
        secs_view_eq(a1.tree.sections@, a2.tree.sections@),
        a1.queue@ == a2.queue@,
{
    let secs1 = m1.tree.sections@;
    let secs2 = m2.tree.sections@;
    lemma_find_prefix_cong(secs1, secs2, plen, pbits, 0);
    lemma_find_prefix_range(secs1, plen, pbits, 0);
    let i = spec_find_prefix(secs1, plen, pbits, 0);
    if i < secs1.len() {
        assert(sec_view_eq(secs1[i], secs2[i]));
        if i + 1 < secs1.len() {
            assert(sec_view_eq(secs1[i + 1], secs2[i + 1]));
        }
        if i >= 1 {
            assert(sec_view_eq(secs1[i - 1], secs2[i - 1]));
        }
    }
    assert(spec_merge_left(secs1, plen, pbits, m1.params) == spec_merge_left(
        secs2,
        plen,
        pbits,
        m2.params,
    ));
    let left = spec_merge_left(secs1, plen, pbits, m1.params);
    if left == -1 {
        assert(a1 == m1 && a2 == m2);
    } else {
        assert(sec_view_eq(secs1[left], secs2[left]));
        assert(sec_view_eq(secs1[left + 1], secs2[left + 1]));
        assert forall|k: int| 0 <= k < a1.tree.sections@.len() implies sec_view_eq(
            #[trigger] a1.tree.sections@[k],
            #[trigger] a2.tree.sections@[k],
        ) by {
            if k < left {
                assert(a1.tree.sections@[k] == secs1[k]);
                assert(a2.tree.sections@[k] == secs2[k]);
                assert(sec_view_eq(secs1[k], secs2[k]));
            } else if k > left {
                assert(a1.tree.sections@[k] == secs1[k + 1]);
                assert(a2.tree.sections@[k] == secs2[k + 1]);
                assert(sec_view_eq(secs1[k + 1], secs2[k + 1]));
            }
        }
        let c1 = a1.tree.sections@[left];
        let c2 = a2.tree.sections@[left];
        assert(c1.prefix_len == c2.prefix_len && c1.prefix_bits == c2.prefix_bits && c1.members@
            == c2.members@);
        assert(spec_sm_event(c1, m1.params, true) == spec_sm_event(c2, m2.params, true));
    }
}

/// One cascade step is a function of the observable state and the random
/// source: two steps on view-equal, well-formed states with the same source
/// end in view-equal states with the same source.
#[verifier::rlimit(100)]
pub proof fn lemma_step_deterministic(
    p1: Network,
    p2: Network,
    s0: u64,
    a1: Network,
    t1: u64,
    a2: Network,
    t2: u64,
)
    requires
        p1.wf(),
        p2.wf(),
        net_view_eq(p1, p2),
        spec_cascade_step(p1, s0, a1, t1),
        spec_cascade_step(p2, s0, a2, t2),
    ensures
        net_view_eq(a1, a2),
        t1 == t2,
        a1.wf(),
        a2.wf(),
{
    let ev = p1.queue@[0];
    assert(p2.queue@[0] == ev);
    let m1 = choose|m: Network|
        #[trigger] spec_popped(p1, m) && spec_step_effect(m, s0, a1, t1, ev);
    let m2 = choose|m: Network|
        #[trigger] spec_popped(p2, m) && spec_step_effect(m, s0, a2, t2, ev);
    let secs1 = m1.tree.sections@;
    let secs2 = m2.tree.sections@;
    assert(secs_view_eq(secs1, secs2));
    assert(m1.queue@ == m2.queue@);
    assert(m1.departed@ == m2.departed@);
    assert(m1.params == m2.params);
    assert(m1.event_seq == m2.event_seq);
    assert(m1.wf());
    assert(m2.wf());
    let h = ev.spec_hash(m1.event_seq);
    match ev {
        Event::Join { address } => {
            lemma_insert_det(m1, m2, a1, a2, address, h);
        },
        Event::Rejoin { address } => {
            lemma_insert_det(m1, m2, a1, a2, address, h);
        },
        Event::Drop { address } => {
            lemma_drop_det(m1, m2, a1, a2, address, h);
            lemma_has_address_cong(secs1, secs2, address);
        },
        Event::Relocate { address } => {
            lemma_relocate_det(m1, m2, a1, a2, address, h, s0);
        },
        Event::SplitSection { prefix_len, prefix_bits } => {
            lemma_split_det(m1, m2, a1, a2, prefix_len, prefix_bits, h);
        },
        Event::MergeSection { prefix_len, prefix_bits } => {
            lemma_merge_det(m1, m2, a1, a2, prefix_len, prefix_bits, h);
        },
    }
}

/// The flattened node list reads only memberships: view-equal partitions
/// flatten alike.
proof fn lemma_flat_cong(a: Seq<Section>, b: Seq<Section>, i: int)
    requires
        secs_view_eq(a, b),
    ensures
        spec_flat(a, i) == spec_flat(b, i),
    decreases a.len() - i,
{
    if 0 <= i < a.len() {
        assert(sec_view_eq(a[i], b[i]));
        lemma_flat_cong(a, b, i + 1);
    }
}

/// Cascades of equal length from view-equal, well-formed states with the
/// same random source end in view-equal states with the same source.
pub proof fn lemma_cascade_deterministic(
    p1: Network,
    p2: Network,
    s0: u64,
    a1: Network,
    t1: u64,
    a2: Network,
    t2: u64,
    n: int,
)
    requires
        p1.wf(),
        p2.wf(),
        net_view_eq(p1, p2),
        spec_cascade(p1, s0, a1, t1, n),
        spec_cascade(p2, s0, a2, t2, n),
    ensures
        net_view_eq(a1, a2),
        t1 == t2,
    decreases n,
{
    if n > 0 {
        let (m1, sm1) = choose|m: Network, sm: u64|
            #[trigger] spec_cascade_step(p1, s0, m, sm) && spec_cascade(m, sm, a1, t1, n - 1);
        let (m2, sm2) = choose|m: Network, sm: u64|
            #[trigger] spec_cascade_step(p2, s0, m, sm) && spec_cascade(m, sm, a2, t2, n - 1);
        lemma_step_deterministic(p1, p2, s0, m1, sm1, m2, sm2);
        lemma_cascade_deterministic(m1, m2, sm1, a1, t1, a2, t2, n - 1);
    }
}

/// Determinism of a resolved cascade, the two-run form of the stated
/// property: two well-formed, observably equal networks that drain their
/// queues with random sources in the same state process the same number of
/// events and end observably equal — same sections, members and ages, so
/// identical age distributions — with their sources again in the same
/// state. With the entry points' exact contracts, two whole runs over one
/// seed and one configuration issuing the same calls end identically.
pub proof fn lemma_runs_deterministic(
    p1: Network,
    p2: Network,
    s0: u64,
    a1: Network,
    t1: u64,
    a2: Network,
    t2: u64,
    n1: int,
    n2: int,
)
    requires
        p1.wf(),
        p2.wf(),
        net_view_eq(p1, p2),
        spec_cascade(p1, s0, a1, t1, n1),
        spec_cascade(p2, s0, a2, t2, n2),
        a1.queue@.len() == 0,
        a2.queue@.len() == 0,
        n1 >= 0,
        n2 >= 0,
    ensures
        n1 == n2,
        net_view_eq(a1, a2),
        t1 == t2,
        forall|g: u8|
            Network::spec_count_age(spec_flat(a1.tree.sections@, 0), g, 0)
                == Network::spec_count_age(spec_flat(a2.tree.sections@, 0), g, 0),
    decreases n1 + n2,
{
    if n1 == 0 && n2 == 0 {
    } else if n1 == 0 {
        let (m2, sm2) = choose|m: Network, sm: u64|
            #[trigger] spec_cascade_step(p2, s0, m, sm) && spec_cascade(m, sm, a2, t2, n2 - 1);
        assert(p2.queue@.len() > 0);
        assert(p1.queue@.len() == 0);
    } else if n2 == 0 {
        let (m1, sm1) = choose|m: Network, sm: u64|
            #[trigger] spec_cascade_step(p1, s0, m, sm) && spec_cascade(m, sm, a1, t1, n1 - 1);
        assert(p1.queue@.len() > 0);
        assert(p2.queue@.len() == 0);
    } else {
        let (m1, sm1) = choose|m: Network, sm: u64|
            #[trigger] spec_cascade_step(p1, s0, m, sm) && spec_cascade(m, sm, a1, t1, n1 - 1);
        let (m2, sm2) = choose|m: Network, sm: u64|
            #[trigger] spec_cascade_step(p2, s0, m, sm) && spec_cascade(m, sm, a2, t2, n2 - 1);
        lemma_step_deterministic(p1, p2, s0, m1, sm1, m2, sm2);
        lemma_runs_deterministic(m1, m2, sm1, a1, t1, a2, t2, n1 - 1, n2 - 1);
    }
    lemma_flat_cong(a1.tree.sections@, a2.tree.sections@, 0);
}

} // verus!
