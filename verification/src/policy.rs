//! The decision rules of the simulation: when a relocation trigger fires,
//! when a section splits or merges, which neighbour is weakest, and how a
//! node is chosen to be dropped.

use vstd::prelude::*;
use vstd::arithmetic::power2::{
    pow2, lemma_pow2_pos, lemma_pow2_adds, lemma_pow2_strictly_increases, lemma2_to64,
    lemma2_to64_rest,
};
use vstd::bits::{lemma_u64_shl_is_mul, lemma_u64_shr_is_div};
use crate::params::{DropDist, Params, RelocationRate, Strategy};
use crate::tree::{AddressTree, Node, Section, covers, sec_size, ADDR_BITS};

verus! {

/// The age tier an event hash must select for a node of age `age` to
/// relocate: 0 is selected by an odd hash, `k` by a hash whose number of
/// trailing zero bits is exactly `k`.
pub open spec fn reloc_exponent(age: u8, init_age: u8, rate: RelocationRate) -> int {
    age - init_age + 1 - (if rate == RelocationRate::Aggressive {
        1int
    } else {
        0int
    })
}

/// Whether the relocation trigger fires for a node of age `age` on an event
/// with hash `h`: the hash's trailing-zero count must equal the node's tier,
/// so each event relocates the nodes of at most one age tier. Ages below
/// `init_age` never fire.
pub open spec fn spec_fires(h: u64, age: u8, init_age: u8, rate: RelocationRate) -> bool {
    let k = reloc_exponent(age, init_age, rate);
    &&& age >= init_age
    &&& 0 <= k <= 63
    &&& (h as nat) % pow2((k + 1) as nat) == pow2(k as nat)
}

/// Decide the relocation trigger for one node on one event hash.
pub fn fires(h: u64, age: u8, init_age: u8, rate: RelocationRate) -> (r: bool)
    ensures
        r == spec_fires(h, age, init_age, rate),
{
    if age < init_age {
        return false;
    }
    let shift: u64 = if rate == RelocationRate::Aggressive {
        1
    } else {
        0
    };
    let base = (age - init_age) as u64;
    let k = base + 1 - shift;
    if k > 63 {
        return false;
    }
    proof {
        lemma2_to64_rest();
        lemma_pow2_strictly_increases(k as nat, 64);
        lemma_u64_shl_is_mul(1u64, k);
    }
    if k == 63 {
        h == 1u64 << 63u64
    } else {
        proof {
            lemma_pow2_strictly_increases((k + 1) as nat, 64);
            lemma_u64_shl_is_mul(1u64, (k + 1) as u64);
            lemma_pow2_pos((k + 1) as nat);
        }
        h % (1u64 << ((k + 1) as u64)) == 1u64 << k
    }
}

/// Whether a prospective child section meets the growth thresholds
/// `(g0, g1)`: its young count exceeds `g0` and its total membership
/// exceeds `g0 + g1`. (The mature threshold is taken as total headroom so
/// that an all-young network can still grow.)
pub open spec fn spec_child_meets(young: int, total: int, g0: u8, g1: u8) -> bool {
    young > g0 && total > g0 + g1
}

/// The split decision for a section whose prospective children would count
/// `(y0, t0)` and `(y1, t1)` young/total members. A split needs the prefix
/// not yet exhausted, and either the strategy's growth condition or the hard
/// cap `max_young` on young members, which forces a split regardless of
/// strategy.
pub open spec fn spec_should_split(
    y0: int,
    t0: int,
    y1: int,
    t1: int,
    len: u64,
    params: Params,
) -> bool {
    let meets0 = spec_child_meets(y0, t0, params.growth.0, params.growth.1);
    let meets1 = spec_child_meets(y1, t1, params.growth.0, params.growth.1);
    let grown = if params.split_strategy == Strategy::Complete {
        meets0 && meets1
    } else {
        meets0 || meets1
    };
    &&& len < ADDR_BITS
    &&& (grown || y0 + y1 > params.max_young)
}

/// Decide a split from the prospective children's counts.
pub fn should_split(y0: usize, t0: usize, y1: usize, t1: usize, len: u64, params: &Params) -> (r:
    bool)
    requires
        y0 <= t0,
        y1 <= t1,
        t0 + t1 <= usize::MAX,
    ensures
        r == spec_should_split(y0 as int, t0 as int, y1 as int, t1 as int, len, *params),
{
    let g0 = params.growth.0 as usize;
    let g1 = params.growth.1 as usize;
    let meets0 = y0 > g0 && t0 > g0 + g1;
    let meets1 = y1 > g0 && t1 > g0 + g1;
    let grown = if params.split_strategy == Strategy::Complete {
        meets0 && meets1
    } else {
        meets0 || meets1
    };
    len < ADDR_BITS && (grown || y0 + y1 > params.max_young)
}

/// The merge decision: a non-root section below the minimum viable size must
/// merge with its sibling.
pub open spec fn spec_should_merge(total: int, len: u64, params: Params) -> bool {
    len > 0 && total < params.growth.0
}

/// Decide a merge from a section's total membership.
pub fn should_merge(total: usize, len: u64, params: &Params) -> (r: bool)
    ensures
        r == spec_should_merge(total as int, len, *params),
{
    len > 0 && total < params.growth.0 as usize
}

/// The bit of prefix `(len, bits)` at position `k` counted from the top.
pub open spec fn prefix_bit(len: u64, bits: u64, k: int) -> u64
    recommends
        0 <= k < len,
{
    (bits >> (len - 1 - k) as u64) % 2
}

/// Length of the longest common prefix of two section prefixes, scanning
/// from bit `k`.
pub open spec fn spec_lcp_from(l1: u64, b1: u64, l2: u64, b2: u64, k: int) -> int
    decreases (if l1 < l2 {
        l1 as int
    } else {
        l2 as int
    }) - k,
{
    let m = if l1 < l2 {
        l1 as int
    } else {
        l2 as int
    };
    if k < 0 || k >= m {
        m
    } else if prefix_bit(l1, b1, k) == prefix_bit(l2, b2, k) {
        spec_lcp_from(l1, b1, l2, b2, k + 1)
    } else {
        k
    }
}

/// Number of leading bits shared by two prefixes.
pub fn lcp(l1: u64, b1: u64, l2: u64, b2: u64) -> (r: u64)
    requires
        l1 <= ADDR_BITS,
        l2 <= ADDR_BITS,
    ensures
        r as int == spec_lcp_from(l1, b1, l2, b2, 0),
        r <= l1 && r <= l2,
    decreases 0int,
{
    let m: u64 = if l1 < l2 {
        l1
    } else {
        l2
    };
    let mut k: u64 = 0;
    while k < m
        invariant
            0 <= k <= m,
            m == (if l1 < l2 {
                l1
            } else {
                l2
            }),
            l1 <= ADDR_BITS,
            l2 <= ADDR_BITS,
            spec_lcp_from(l1, b1, l2, b2, 0) == spec_lcp_from(l1, b1, l2, b2, k as int),
        decreases m - k,
    {
        let bit1 = (b1 >> (l1 - 1 - k)) % 2;
        let bit2 = (b2 >> (l2 - 1 - k)) % 2;
        if bit1 != bit2 {
            return k;
        }
        k = k + 1;
    }
    m
}

/// Mature member count of a section: members older than `init_age`.
pub open spec fn spec_mature(s: Section, init_age: u8) -> int {
    s.members@.len() - Section::spec_count_young(s.members@, init_age, 0)
}

/// Whether candidate section `j` is a strictly better "weakest neighbour" of
/// the target prefix than `best`: longer common prefix first, then fewer
/// mature members, then fewer members overall; an earlier candidate keeps a
/// full tie (and, the sections being in address order, is the one with the
/// lexicographically smallest prefix). `best == -1` means no candidate yet.
pub open spec fn spec_better(
    secs: Seq<Section>,
    tlen: u64,
    tbits: u64,
    init_age: u8,
    j: int,
    best: int,
) -> bool {
    if best == -1 {
        true
    } else {
        let lj = spec_lcp_from(tlen, tbits, secs[j].prefix_len, secs[j].prefix_bits, 0);
        let lb = spec_lcp_from(tlen, tbits, secs[best].prefix_len, secs[best].prefix_bits, 0);
        let mj = spec_mature(secs[j], init_age);
        let mb = spec_mature(secs[best], init_age);
        let tj = secs[j].members@.len() as int;
        let tb = secs[best].members@.len() as int;
        lj > lb || (lj == lb && (mj < mb || (mj == mb && tj < tb)))
    }
}

/// The weakest neighbour of the target prefix, scanning candidates from `j`
/// with `best` the strongest candidate so far; sections `me` and `target`
/// never qualify.
pub open spec fn spec_weakest_from(
    secs: Seq<Section>,
    tlen: u64,
    tbits: u64,
    init_age: u8,
    me: int,
    target: int,
    j: int,
    best: int,
) -> int
    decreases secs.len() - j,
{
    if j < 0 || j >= secs.len() {
        best
    } else if j != me && j != target && spec_better(secs, tlen, tbits, init_age, j, best) {
        spec_weakest_from(secs, tlen, tbits, init_age, me, target, j + 1, j)
    } else {
        spec_weakest_from(secs, tlen, tbits, init_age, me, target, j + 1, best)
    }
}

/// Pick the weakest neighbour of section `target`: among all sections other
/// than `target` itself and the relocating node's own section `me`, the one
/// sharing the longest common prefix with `target`, with ties broken by
/// fewest mature members, then fewest members, then smallest prefix.
/// `None` only when no such section exists.
pub fn weakest_neighbour(tree: &AddressTree, target: usize, me: usize, init_age: u8) -> (r: Option<
    usize,
>)
    requires
        tree.wf(),
        target < tree.sections@.len(),
        me < tree.sections@.len(),
    ensures
        ({
            let w = spec_weakest_from(
                tree.sections@,
                tree.sections@[target as int].prefix_len,
                tree.sections@[target as int].prefix_bits,
                init_age,
                me as int,
                target as int,
                0,
                -1,
            );
            match r {
                Some(d) => d as int == w && d < tree.sections@.len() && d != me && d != target,
                None => w == -1,
            }
        }),
{
    let secs_len = tree.sections.len();
    let tlen = tree.sections[target].prefix_len;
    let tbits = tree.sections[target].prefix_bits;
    let ghost secs = tree.sections@;
    let mut best: Option<usize> = None;
    let mut best_lcp: u64 = 0;
    let mut best_mature: usize = 0;
    let mut best_total: usize = 0;
    let mut j: usize = 0;
    while j < secs_len
        invariant
            0 <= j <= secs_len,
            secs_len == secs.len(),
            secs == tree.sections@,
            tree.wf(),
            target < secs.len(),
            me < secs.len(),
            tlen == secs[target as int].prefix_len,
            tbits == secs[target as int].prefix_bits,
            match best {
                Some(b) => {
                    &&& b < secs.len() && b != me && b != target
                    &&& best_lcp as int == spec_lcp_from(
                        tlen,
                        tbits,
                        secs[b as int].prefix_len,
                        secs[b as int].prefix_bits,
                        0,
                    )
                    &&& best_mature as int == spec_mature(secs[b as int], init_age)
                    &&& best_total == secs[b as int].members@.len()
                    &&& spec_weakest_from(
                        secs,
                        tlen,
                        tbits,
                        init_age,
                        me as int,
                        target as int,
                        0,
                        -1,
                    ) == spec_weakest_from(
                        secs,
                        tlen,
                        tbits,
                        init_age,
                        me as int,
                        target as int,
                        j as int,
                        b as int,
                    )
                },
                None => spec_weakest_from(
                    secs,
                    tlen,
                    tbits,
                    init_age,
                    me as int,
                    target as int,
                    0,
                    -1,
                ) == spec_weakest_from(
                    secs,
                    tlen,
                    tbits,
                    init_age,
                    me as int,
                    target as int,
                    j as int,
                    -1,
                ),
            },
        decreases secs_len - j,
    {
        if j != me && j != target {
            let sec = &tree.sections[j];
            let lj = lcp(tlen, tbits, sec.prefix_len, sec.prefix_bits);
            let total = sec.members.len();
            let young = sec.count_young(init_age);
            let mature = total - young;
            let take = match best {
                None => true,
                Some(_) => lj > best_lcp || (lj == best_lcp && (mature < best_mature || (mature
                    == best_mature && total < best_total))),
            };
            if take {
                best = Some(j);
                best_lcp = lj;
                best_mature = mature;
                best_total = total;
            }
        }
        j = j + 1;
    }
    proof {
        if best is Some {
            let b = best->0 as int;
            assert(spec_weakest_from(
                secs,
                tlen,
                tbits,
                init_age,
                me as int,
                target as int,
                secs.len() as int,
                b,
            ) == b);
        }
    }
    best
}

/// Drop weight of a node: the young are favoured.
///
/// - `Exponential`: `2^(63 - min(age - init_age, 63))`, halving for each
///   year above `init_age`.
/// - `RevProp`: `65536 / (age - init_age + 1)`, inversely proportional to
///   the node's age offset.
///
/// Both are strictly positive for every node and never increase with age.
pub open spec fn spec_weight(age: u8, init_age: u8, dist: DropDist) -> int {
    let off: int = if age >= init_age {
        age - init_age
    } else {
        0
    };
    let capped: int = if off > 63 {
        63
    } else {
        off
    };
    if dist == DropDist::Exponential {
        pow2((63 - capped) as nat) as int
    } else {
        65536int / (off + 1)
    }
}

/// Compute a node's drop weight.
pub fn weight(age: u8, init_age: u8, dist: DropDist) -> (r: u64)
    ensures
        r as int == spec_weight(age, init_age, dist),
        1 <= r,
        r <= 0x8000000000000000u64,
{
    let off: u64 = if age >= init_age {
        (age - init_age) as u64
    } else {
        0
    };
    match dist {
        DropDist::Exponential => {
            let capped: u64 = if off > 63 {
                63
            } else {
                off
            };
            proof {
                lemma2_to64_rest();
                if capped > 0 {
                    lemma_pow2_strictly_increases((63 - capped) as nat, 63);
                }
                lemma_pow2_pos((63 - capped) as nat);
                lemma_u64_shl_is_mul(1u64, (63 - capped) as u64);
            }
            1u64 << (63 - capped)
        },
        DropDist::RevProp => {
            let r = 65536 / (off + 1);
            proof {
                assert(r >= 1) by (nonlinear_arith)
                    requires
                        r as int == 65536int / (off as int + 1),
                        off <= 255,
                ;
            }
            r
        },
    }
}

/// All live nodes in section order, members in section-local order.
pub open spec fn spec_flat(secs: Seq<Section>, i: int) -> Seq<Node>
    decreases secs.len() - i,
{
    if i < 0 || i >= secs.len() {
        Seq::empty()
    } else {
        secs[i].members@ + spec_flat(secs, i + 1)
    }
}

/// The flattened view has exactly one entry per live node.
pub proof fn lemma_flat_len(secs: Seq<Section>, i: int)
    requires
        0 <= i <= secs.len(),
    ensures
        spec_flat(secs, i).len() == crate::tree::total_nodes(secs.subrange(
            i,
            secs.len() as int,
        )),
    decreases secs.len() - i,
{
    if i == secs.len() {
        assert(secs.subrange(i, secs.len() as int) =~= Seq::<Section>::empty());
    } else {
        lemma_flat_len(secs, i + 1);
        assert(secs.subrange(i, secs.len() as int).drop_first() =~= secs.subrange(
            i + 1,
            secs.len() as int,
        ));
    }
}

/// Collect every live node, in section order.
pub fn flatten(tree: &AddressTree) -> (r: Vec<Node>)
    ensures
        r@ == spec_flat(tree.sections@, 0),
{
    let ghost secs = tree.sections@;
    let n = tree.sections.len();
    let mut out: Vec<Node> = Vec::new();
    let mut i: usize = 0;
    while i < n
        invariant
            0 <= i <= n,
            n == secs.len(),
            secs == tree.sections@,
            out@ + spec_flat(secs, i as int) == spec_flat(secs, 0),
        decreases n - i,
    {
        out.extend_from_slice(tree.sections[i].members.as_slice());
        proof {
            assert(out@ + spec_flat(secs, i + 1) =~= spec_flat(secs, 0));
        }
        i = i + 1;
    }
    proof {
        assert(out@ =~= out@ + spec_flat(secs, n as int));
    }
    out
}

/// Sum of the drop weights of nodes from position `i` on.
pub open spec fn spec_total_weight(ns: Seq<Node>, init_age: u8, dist: DropDist, i: int) -> int
    decreases ns.len() - i,
{
    if i < 0 || i >= ns.len() {
        0
    } else {
        spec_weight(ns[i].age, init_age, dist) + spec_total_weight(ns, init_age, dist, i + 1)
    }
}

/// Weights are positive, so the partial sums are monotone and the total is
/// positive whenever any node is live.
pub proof fn lemma_total_weight_bounds(ns: Seq<Node>, init_age: u8, dist: DropDist, i: int)
    requires
        0 <= i <= ns.len(),
    ensures
        ns.len() - i <= spec_total_weight(ns, init_age, dist, i),
        spec_total_weight(ns, init_age, dist, i) <= (ns.len() - i) * 0x8000000000000000,
    decreases ns.len() - i,
{
    if i < ns.len() {
        lemma_total_weight_bounds(ns, init_age, dist, i + 1);
        lemma_weight_bounds(ns[i].age, init_age, dist);
    }
}

/// A single weight lies between 1 and `2^63`.
pub proof fn lemma_weight_bounds(age: u8, init_age: u8, dist: DropDist)
    ensures
        1 <= spec_weight(age, init_age, dist),
        spec_weight(age, init_age, dist) <= 0x8000000000000000,
{
    let off: int = if age >= init_age {
        age - init_age
    } else {
        0
    };
    let capped: int = if off > 63 {
        63
    } else {
        off
    };
    lemma2_to64_rest();
    if capped > 0 {
        lemma_pow2_strictly_increases((63 - capped) as nat, 63);
    }
    lemma_pow2_pos((63 - capped) as nat);
    assert(65536int / (off + 1) >= 1) by (nonlinear_arith)
        requires
            0 <= off <= 255,
    ;
    assert(65536int / (off + 1) <= 65536) by (nonlinear_arith)
        requires
            0 <= off,
    ;
}

/// Sum all drop weights.
pub fn total_weight(ns: &Vec<Node>, init_age: u8, dist: DropDist) -> (r: u128)
    ensures
        r == spec_total_weight(ns@, init_age, dist, 0),
        r >= ns@.len(),
{
    proof {
        lemma_total_weight_bounds(ns@, init_age, dist, 0);
    }
    let n = ns.len();
    let mut acc: u128 = 0;
    let mut i: usize = 0;
    while i < n
        invariant
            0 <= i <= n,
            n == ns@.len(),
            acc + spec_total_weight(ns@, init_age, dist, i as int) == spec_total_weight(
                ns@,
                init_age,
                dist,
                0,
            ),
            acc <= i * 0x8000000000000000,
        decreases n - i,
    {
        proof {
            lemma_weight_bounds(ns@[i as int].age, init_age, dist);
        }
        let w = weight(ns[i].age, init_age, dist);
        acc = acc + (w as u128);
        i = i + 1;
    }
    acc
}

/// The node selected by a weighted draw `r`, walking the nodes from `i` and
/// consuming their weights in order.
pub open spec fn spec_pick_from(ns: Seq<Node>, init_age: u8, dist: DropDist, r: int, i: int) -> int
    decreases ns.len() - i,
{
    if i < 0 || i >= ns.len() {
        i
    } else if r < spec_weight(ns[i].age, init_age, dist) {
        i
    } else {
        spec_pick_from(ns, init_age, dist, r - spec_weight(ns[i].age, init_age, dist), i + 1)
    }
}

/// A draw below the total weight always lands on a node.
pub proof fn lemma_pick_in_range(ns: Seq<Node>, init_age: u8, dist: DropDist, r: int, i: int)
    requires
        0 <= i <= ns.len(),
        0 <= r < spec_total_weight(ns, init_age, dist, i),
    ensures
        i <= spec_pick_from(ns, init_age, dist, r, i) < ns.len(),
    decreases ns.len() - i,
{
    lemma_total_weight_bounds(ns, init_age, dist, i);
    if i < ns.len() && r >= spec_weight(ns[i].age, init_age, dist) {
        lemma_pick_in_range(ns, init_age, dist, r - spec_weight(ns[i].age, init_age, dist), i + 1);
    }
}

/// Select the node a weighted draw falls on.
pub fn pick_weighted(ns: &Vec<Node>, init_age: u8, dist: DropDist, draw: u128) -> (idx: usize)
    requires
        (draw as int) < spec_total_weight(ns@, init_age, dist, 0),
    ensures
        idx as int == spec_pick_from(ns@, init_age, dist, draw as int, 0),
        idx < ns@.len(),
{
    proof {
        lemma_pick_in_range(ns@, init_age, dist, draw as int, 0);
    }
    let n = ns.len();
    let mut rem = draw;
    let mut i: usize = 0;
    loop
        invariant
            0 <= i < n,
            n == ns@.len(),
            rem <= draw,
            0 <= rem as int,
            (rem as int) < spec_total_weight(ns@, init_age, dist, i as int),
            spec_pick_from(ns@, init_age, dist, draw as int, 0) == spec_pick_from(
                ns@,
                init_age,
                dist,
                rem as int,
                i as int,
            ),
        decreases n - i,
    {
        let w = weight(ns[i].age, init_age, dist);
        if rem < (w as u128) {
            return i;
        }
        proof {
            lemma_pick_in_range(ns@, init_age, dist, rem as int - w as int, i + 1);
        }
        rem = rem - (w as u128);
        i = i + 1;
    }
}

} // verus!
