//! The partition of the 64-bit address space into sections.
//!
//! A section owns the addresses that share its prefix: the interval
//! `[bits * 2^(64-len), (bits+1) * 2^(64-len))`. The tree keeps its sections
//! in address order, and its well-formedness says that those intervals tile
//! the whole space: every address belongs to exactly one section. Splitting
//! replaces a section by its two children; merging replaces two siblings by
//! their parent; both keep the tiling and the membership exactly.

use vstd::prelude::*;
use vstd::seq_lib::*;
use vstd::arithmetic::power2::{
    pow2, lemma_pow2_pos, lemma_pow2_adds, lemma_pow2_strictly_increases, lemma2_to64,
    lemma2_to64_rest,
};
use vstd::arithmetic::div_mod::{
    lemma_basic_div, lemma_fundamental_div_mod, lemma_fundamental_div_mod_converse,
};
use vstd::bits::lemma_u64_shr_is_div;

verus! {

/// Width of an address in bits.
pub const ADDR_BITS: u64 = 64;

/// An addressable identity with an age counter; pure data.
#[derive(Clone, Copy, Debug, PartialEq, Eq, Structural)]
pub struct Node {
    /// Fixed-width address, the node's position in the space.
    pub address: u64,
    /// Age counter: set to the configured initial age on join, rejoin and
    /// relocation, and never decreased otherwise.
    pub age: u8,
}

/// Number of addresses owned by a prefix of length `len`.
pub open spec fn sec_size(len: u64) -> nat
    recommends
        len <= ADDR_BITS,
{
    pow2((ADDR_BITS - len) as nat)
}

/// Whether address `a` matches the prefix `(len, bits)`: its top `len` bits,
/// read as an integer, equal `bits`.
pub open spec fn covers(len: u64, bits: u64, a: u64) -> bool
    recommends
        len <= ADDR_BITS,
{
    a as int / sec_size(len) as int == bits as int
}

/// A set of nodes sharing an address prefix.
#[derive(Clone, Debug)]
pub struct Section {
    /// Length of the owning prefix, in bits.
    pub prefix_len: u64,
    /// The prefix itself, as an integer of `prefix_len` bits.
    pub prefix_bits: u64,
    /// The members, unique by address, each matching the prefix.
    pub members: Vec<Node>,
}

impl Section {
    /// First address owned by this section.
    pub open spec fn lo(&self) -> int {
        self.prefix_bits * sec_size(self.prefix_len)
    }

    /// One past the last address owned by this section.
    pub open spec fn hi(&self) -> int {
        self.lo() + sec_size(self.prefix_len)
    }

    /// The prefix denotes a real slice of the space.
    pub open spec fn prefix_wf(&self) -> bool {
        &&& self.prefix_len <= ADDR_BITS
        &&& (self.prefix_bits as nat) < pow2(self.prefix_len as nat)
    }

    /// Every member matches the prefix, and no address occurs twice.
    pub open spec fn members_wf(&self) -> bool {
        &&& forall|i: int|
            0 <= i < self.members@.len() ==> covers(
                self.prefix_len,
                self.prefix_bits,
                (#[trigger] self.members@[i]).address,
            )
        &&& forall|i: int, j: int|
            0 <= i < j < self.members@.len() ==> (#[trigger] self.members@[i]).address != (
            #[trigger] self.members@[j]).address
    }

    pub open spec fn wf(&self) -> bool {
        self.prefix_wf() && self.members_wf()
    }

    /// Index of the first member with address `a`, if any.
    pub open spec fn spec_find(ms: Seq<Node>, a: u64, i: int) -> Option<int>
        decreases ms.len() - i,
    {
        if i < 0 || i >= ms.len() {
            None
        } else if ms[i].address == a {
            Some(i)
        } else {
            Section::spec_find(ms, a, i + 1)
        }
    }

    /// Whether some member carries address `a`.
    pub open spec fn has_address(ms: Seq<Node>, a: u64) -> bool {
        exists|i: int| 0 <= i < ms.len() && (#[trigger] ms[i]).address == a
    }

    /// What `spec_find` finds: the first member with the address, or a
    /// certificate that none has it.
    pub proof fn lemma_find(ms: Seq<Node>, a: u64, i: int)
        requires
            0 <= i <= ms.len(),
        ensures
            match Section::spec_find(ms, a, i) {
                Some(k) => i <= k < ms.len() && ms[k].address == a,
                None => forall|k: int| i <= k < ms.len() ==> (#[trigger] ms[k]).address != a,
            },
        decreases ms.len() - i,
    {
        if i < ms.len() && ms[i].address != a {
            Section::lemma_find(ms, a, i + 1);
        }
    }

    /// Look up a member by address (the first match, which under
    /// well-formedness is the only one).
    pub fn find(&self, a: u64) -> (r: Option<usize>)
        ensures
            match r {
                Some(k) => Section::spec_find(self.members@, a, 0) == Some(k as int),
                None => Section::spec_find(self.members@, a, 0) == None::<int>,
            },
            r is Some <==> Section::has_address(self.members@, a),
    {
        proof {
            Section::lemma_find(self.members@, a, 0);
        }
        let n = self.members.len();
        let mut i: usize = 0;
        while i < n
            invariant
                0 <= i <= n,
                n == self.members@.len(),
                Section::spec_find(self.members@, a, 0) == Section::spec_find(
                    self.members@,
                    a,
                    i as int,
                ),
            decreases n - i,
        {
            if self.members[i].address == a {
                return Some(i);
            }
            i = i + 1;
        }
        None
    }

    /// Number of young members: those whose age has not yet passed `boundary`.
    pub open spec fn spec_count_young(ms: Seq<Node>, boundary: u8, i: int) -> int
        decreases ms.len() - i,
    {
        if i < 0 || i >= ms.len() {
            0
        } else {
            (if ms[i].age <= boundary {
                1int
            } else {
                0int
            }) + Section::spec_count_young(ms, boundary, i + 1)
        }
    }

    /// Count the members whose age is at most `boundary` (the young ones);
    /// the rest are mature.
    pub fn count_young(&self, boundary: u8) -> (r: usize)
        ensures
            r == Section::spec_count_young(self.members@, boundary, 0),
            r <= self.members@.len(),
    {
        proof {
            Section::lemma_count_young_bounds(self.members@, boundary, 0);
        }
        let n = self.members.len();
        let mut i: usize = 0;
        let mut acc: usize = 0;
        while i < n
            invariant
                0 <= i <= n,
                n == self.members@.len(),
                acc <= i,
                acc + Section::spec_count_young(self.members@, boundary, i as int)
                    == Section::spec_count_young(self.members@, boundary, 0),
            decreases n - i,
        {
            proof {
                Section::lemma_count_young_bounds(self.members@, boundary, i + 1);
            }
            if self.members[i].age <= boundary {
                acc = acc + 1;
            }
            i = i + 1;
        }
        acc
    }

    /// The young count lies between 0 and the number of members considered.
    pub proof fn lemma_count_young_bounds(ms: Seq<Node>, boundary: u8, i: int)
        requires
            0 <= i <= ms.len(),
        ensures
            0 <= Section::spec_count_young(ms, boundary, i) <= ms.len() - i,
        decreases ms.len() - i,
    {
        if i < ms.len() {
            Section::lemma_count_young_bounds(ms, boundary, i + 1);
        }
    }
}

/// An address matches a prefix exactly when it lies in the prefix's interval.
pub proof fn lemma_covers_iff_interval(len: u64, bits: u64, a: u64)
    requires
        len <= ADDR_BITS,
        (bits as nat) < pow2(len as nat),
    ensures
        covers(len, bits, a) <==> (bits * sec_size(len) <= a as int && (a as int) < bits
            * sec_size(len) + sec_size(len)),
{
    let sz = sec_size(len) as int;
    lemma_pow2_pos((ADDR_BITS - len) as nat);
    if covers(len, bits, a) {
        lemma_fundamental_div_mod(a as int, sz);
        assert(a as int == sz * (a as int / sz) + (a as int % sz));
        assert(bits * sz == sz * (a as int / sz)) by (nonlinear_arith)
            requires
                a as int / sz == bits as int,
        ;
    }
    if bits * sz <= a as int && (a as int) < bits * sz + sz {
        lemma_fundamental_div_mod_converse(a as int, sz, bits as int, a as int - bits * sz);
    }
}

/// Two distinct values of the top bits own disjoint intervals, so a single
/// address never matches both.
pub proof fn lemma_covers_unique_bits(len: u64, b1: u64, b2: u64, a: u64)
    requires
        len <= ADDR_BITS,
        covers(len, b1, a),
        covers(len, b2, a),
    ensures
        b1 == b2,
{
}

/// The whole space is `pow2(64)` addresses, and every `u64` is one of them.
pub proof fn lemma_addr_in_space(a: u64)
    ensures
        0 <= a as int && (a as int) < pow2(ADDR_BITS as nat),
{
    lemma2_to64_rest();
}

/// Decide whether address `a` matches the prefix `(len, bits)`.
pub fn prefix_matches(len: u64, bits: u64, a: u64) -> (r: bool)
    requires
        len <= ADDR_BITS,
        (bits as nat) < pow2(len as nat),
    ensures
        r == covers(len, bits, a),
{
    if len == 0 {
        proof {
            lemma2_to64();
            lemma2_to64_rest();
            lemma_basic_div(a as int, sec_size(0) as int);
        }
        true
    } else {
        let shift = ADDR_BITS - len;
        let q = a >> shift;
        proof {
            lemma_u64_shr_is_div(a, shift);
        }
        q == bits
    }
}

/// A child's quotient: matching a prefix means matching exactly one of its
/// two one-bit extensions.
pub proof fn lemma_child_covers(len: u64, bits: u64, a: u64)
    requires
        len < ADDR_BITS,
        covers(len, bits, a),
    ensures
        covers((len + 1) as u64, (2 * bits) as u64, a) <==> !covers(
            (len + 1) as u64,
            (2 * bits + 1) as u64,
            a,
        ),
        covers((len + 1) as u64, (2 * bits) as u64, a) || covers(
            (len + 1) as u64,
            (2 * bits + 1) as u64,
            a,
        ),
{
    let szc = sec_size((len + 1) as u64) as int;
    lemma_pow2_pos((ADDR_BITS - len - 1) as nat);
    lemma_pow2_adds((ADDR_BITS - len - 1) as nat, 1);
    lemma2_to64();
    assert(sec_size(len) as int == szc * 2);
    lemma_div_denominator_local(a as int, szc, 2);
    let q = a as int / szc;
    lemma_fundamental_div_mod(q, 2);
    assert(q == 2 * bits || q == 2 * bits + 1);
}

/// Folding a one-bit extension back: matching a child prefix means matching
/// the parent prefix.
pub proof fn lemma_parent_covers(len: u64, bits: u64, a: u64)
    requires
        0 < len <= ADDR_BITS,
        covers(len, bits, a),
    ensures
        covers((len - 1) as u64, (bits / 2) as u64, a),
{
    let szc = sec_size(len) as int;
    lemma_pow2_pos((ADDR_BITS - len) as nat);
    lemma_pow2_adds((ADDR_BITS - len) as nat, 1);
    lemma2_to64();
    assert(sec_size((len - 1) as u64) as int == szc * 2);
    lemma_div_denominator_local(a as int, szc, 2);
}

/// `x / (c * d) == (x / c) / d` for positive divisors.
proof fn lemma_div_denominator_local(x: int, c: int, d: int)
    requires
        0 <= x,
        0 < c,
        0 < d,
    ensures
        (x / c) / d == x / (c * d),
{
    vstd::arithmetic::div_mod::lemma_div_denominator(x, c, d);
}

/// Sections in address order whose intervals tile the whole space.
pub open spec fn tiling(secs: Seq<Section>) -> bool {
    &&& secs.len() >= 1
    &&& secs[0].lo() == 0
    &&& forall|i: int| 1 <= i < secs.len() ==> (#[trigger] secs[i]).lo() == secs[i - 1].hi()
    &&& secs[secs.len() - 1].hi() == pow2(ADDR_BITS as nat)
}

/// Every section of the sequence is well-formed.
pub open spec fn all_wf(secs: Seq<Section>) -> bool {
    forall|i: int| 0 <= i < secs.len() ==> (#[trigger] secs[i]).wf()
}

/// Total number of live nodes over a sequence of sections.
pub open spec fn total_nodes(secs: Seq<Section>) -> int
    decreases secs.len(),
{
    if secs.len() == 0 {
        0
    } else {
        secs[0].members@.len() + total_nodes(secs.drop_first())
    }
}

/// Node totals add over concatenation.
pub proof fn lemma_total_concat(s: Seq<Section>, t: Seq<Section>)
    ensures
        total_nodes(s + t) == total_nodes(s) + total_nodes(t),
    decreases s.len(),
{
    if s.len() == 0 {
        assert(s + t =~= t);
    } else {
        assert((s + t).drop_first() =~= s.drop_first() + t);
        lemma_total_concat(s.drop_first(), t);
    }
}

/// The total over a single section is its member count.
pub proof fn lemma_total_singleton(c: Section)
    ensures
        total_nodes(seq![c]) == c.members@.len(),
{
    assert(seq![c].drop_first() =~= Seq::<Section>::empty());
    assert(total_nodes(Seq::<Section>::empty()) == 0);
    assert(total_nodes(seq![c]) == c.members@.len() + total_nodes(seq![c].drop_first()));
}

/// A sequence splits at any point into the concatenation of its two parts.
pub proof fn lemma_split_parts(s: Seq<Section>, i: int)
    requires
        0 <= i <= s.len(),
    ensures
        s =~= s.subrange(0, i) + s.subrange(i, s.len() as int),
{
}

/// Intervals of a tiling are in increasing order: an earlier section ends at
/// or before a later one begins.
pub proof fn lemma_lo_ordered(secs: Seq<Section>, i: int, j: int)
    requires
        tiling(secs),
        all_wf(secs),
        0 <= i <= j < secs.len(),
    ensures
        secs[i].lo() <= secs[j].lo(),
        i < j ==> secs[i].hi() <= secs[j].lo(),
    decreases j - i,
{
    if i < j {
        lemma_lo_ordered(secs, i, j - 1);
        lemma_pow2_pos((ADDR_BITS - secs[j - 1].prefix_len) as nat);
        assert(secs[j].lo() == secs[j - 1].hi());
    }
}

/// In a tiling no two sections cover the same address.
pub proof fn lemma_cover_unique(secs: Seq<Section>, a: u64, i: int, j: int)
    requires
        tiling(secs),
        all_wf(secs),
        0 <= i < secs.len(),
        0 <= j < secs.len(),
        covers(secs[i].prefix_len, secs[i].prefix_bits, a),
        covers(secs[j].prefix_len, secs[j].prefix_bits, a),
    ensures
        i == j,
{
    lemma_covers_iff_interval(secs[i].prefix_len, secs[i].prefix_bits, a);
    lemma_covers_iff_interval(secs[j].prefix_len, secs[j].prefix_bits, a);
    if i < j {
        lemma_lo_ordered(secs, i, j);
    }
    if j < i {
        lemma_lo_ordered(secs, j, i);
    }
}

/// Index of the first section covering `a`, scanning from `i`.
pub open spec fn spec_locate(secs: Seq<Section>, a: u64, i: int) -> int
    decreases secs.len() - i,
{
    if i < 0 || i >= secs.len() {
        secs.len() as int
    } else if covers(secs[i].prefix_len, secs[i].prefix_bits, a) {
        i
    } else {
        spec_locate(secs, a, i + 1)
    }
}

/// In a tiling the scan always lands on a covering section: the partition is
/// total.
pub proof fn lemma_locate_covers(secs: Seq<Section>, a: u64, i: int)
    requires
        tiling(secs),
        all_wf(secs),
        0 <= i < secs.len(),
        secs[i].lo() <= a as int,
    ensures
        i <= spec_locate(secs, a, i) < secs.len(),
        covers(
            secs[spec_locate(secs, a, i)].prefix_len,
            secs[spec_locate(secs, a, i)].prefix_bits,
            a,
        ),
    decreases secs.len() - i,
{
    let s = secs[i];
    lemma_covers_iff_interval(s.prefix_len, s.prefix_bits, a);
    if !covers(s.prefix_len, s.prefix_bits, a) {
        lemma_addr_in_space(a);
        assert(i < secs.len() - 1);
        assert(secs[i + 1].lo() == secs[i].hi());
        lemma_locate_covers(secs, a, i + 1);
    }
}

/// The partition of the address space: an ordered, tiling sequence of
/// sections owned by the network.
#[derive(Clone, Debug)]
pub struct AddressTree {
    /// The sections, in increasing address order.
    pub sections: Vec<Section>,
}

impl AddressTree {
    /// The partition invariant: the sections' intervals tile the space, each
    /// section is well-formed, so every address is owned by exactly one
    /// section and no address occurs twice in the whole network.
    pub open spec fn wf(&self) -> bool {
        &&& tiling(self.sections@)
        &&& all_wf(self.sections@)
    }

    /// Total number of live nodes in the network.
    pub open spec fn total(&self) -> int {
        total_nodes(self.sections@)
    }

    /// The initial partition: one root section with the empty prefix and no
    /// members.
    pub fn new() -> (r: AddressTree)
        ensures
            r.wf(),
            r.sections@.len() == 1,
            r.sections@[0].prefix_len == 0,
            r.sections@[0].members@.len() == 0,
            r.total() == 0,
    {
        let root = Section { prefix_len: 0, prefix_bits: 0, members: Vec::new() };
        let ghost g = root;
        let mut sections: Vec<Section> = Vec::new();
        sections.push(root);
        proof {
            lemma2_to64();
            let secs = sections@;
            assert(secs =~= seq![g]);
            assert(g.lo() == 0) by {
                assert(g.prefix_bits == 0);
            }
            lemma_total_singleton(g);
        }
        AddressTree { sections }
    }

    /// Find the section owning address `a`; under the partition invariant
    /// there is exactly one.
    pub fn locate(&self, a: u64) -> (idx: usize)
        requires
            self.wf(),
        ensures
            idx < self.sections@.len(),
            covers(
                self.sections@[idx as int].prefix_len,
                self.sections@[idx as int].prefix_bits,
                a,
            ),
            idx as int == spec_locate(self.sections@, a, 0),
    {
        let ghost secs = self.sections@;
        proof {
            lemma_locate_covers(secs, a, 0);
        }
        let n = self.sections.len();
        let mut i: usize = 0;
        loop
            invariant
                0 <= i < n,
                n == secs.len(),
                self.wf(),
                secs == self.sections@,
                spec_locate(secs, a, 0) == spec_locate(secs, a, i as int),
                secs[i as int].lo() <= a as int,
            decreases n - i,
        {
            let s = &self.sections[i];
            if prefix_matches(s.prefix_len, s.prefix_bits, a) {
                return i;
            }
            proof {
                lemma_covers_iff_interval(
                    secs[i as int].prefix_len,
                    secs[i as int].prefix_bits,
                    a,
                );
                lemma_addr_in_space(a);
                assert(secs[i as int].hi() <= a as int);
                assert(i < n - 1);
                assert(secs[i as int + 1].lo() == secs[i as int].hi());
            }
            i = i + 1;
        }
    }

    /// Add a member to section `idx`. The address must belong to that
    /// section and must not already be present anywhere: within the section
    /// by the precondition, elsewhere because the intervals are disjoint.
    pub fn add_member(&mut self, idx: usize, node: Node)
        requires
            old(self).wf(),
            idx < old(self).sections@.len(),
            covers(
                old(self).sections@[idx as int].prefix_len,
                old(self).sections@[idx as int].prefix_bits,
                node.address,
            ),
            !Section::has_address(old(self).sections@[idx as int].members@, node.address),
        ensures
            final(self).wf(),
            final(self).sections@.len() == old(self).sections@.len(),
            forall|k: int|
                0 <= k < old(self).sections@.len() && k != idx ==> final(self).sections@[k] == old(
                    self,
                ).sections@[k],
            final(self).sections@[idx as int].prefix_len == old(
                self,
            ).sections@[idx as int].prefix_len,
            final(self).sections@[idx as int].prefix_bits == old(
                self,
            ).sections@[idx as int].prefix_bits,
            final(self).sections@[idx as int].members@ == old(
                self,
            ).sections@[idx as int].members@.push(node),
            final(self).total() == old(self).total() + 1,
    {
        let ghost olds = self.sections@;
        let mut sec = self.sections.remove(idx);
        sec.members.push(node);
        self.sections.insert(idx, sec);
        proof {
            assert(final(self).sections@ =~= olds.update(
                idx as int,
                final(self).sections@[idx as int],
            ));
            lemma_total_point_update(olds, final(self).sections@, idx as int);
        }
    }

    /// Remove the member at position `mi` of section `idx`.
    pub fn remove_member(&mut self, idx: usize, mi: usize)
        requires
            old(self).wf(),
            idx < old(self).sections@.len(),
            mi < old(self).sections@[idx as int].members@.len(),
        ensures
            final(self).wf(),
            final(self).sections@.len() == old(self).sections@.len(),
            forall|k: int|
                0 <= k < old(self).sections@.len() && k != idx ==> final(self).sections@[k] == old(
                    self,
                ).sections@[k],
            final(self).sections@[idx as int].prefix_len == old(
                self,
            ).sections@[idx as int].prefix_len,
            final(self).sections@[idx as int].prefix_bits == old(
                self,
            ).sections@[idx as int].prefix_bits,
            final(self).sections@[idx as int].members@ == old(
                self,
            ).sections@[idx as int].members@.remove(mi as int),
            final(self).total() == old(self).total() - 1,
    {
        let ghost olds = self.sections@;
        let mut sec = self.sections.remove(idx);
        sec.members.remove(mi);
        self.sections.insert(idx, sec);
        proof {
            assert(final(self).sections@ =~= olds.update(
                idx as int,
                final(self).sections@[idx as int],
            ));
            lemma_total_point_update(olds, final(self).sections@, idx as int);
        }
    }

    /// Overwrite the age of the member at position `mi` of section `idx`,
    /// leaving its address alone.
    pub fn set_age(&mut self, idx: usize, mi: usize, age: u8)
        requires
            old(self).wf(),
            idx < old(self).sections@.len(),
            mi < old(self).sections@[idx as int].members@.len(),
        ensures
            final(self).wf(),
            final(self).sections@.len() == old(self).sections@.len(),
            forall|k: int|
                0 <= k < old(self).sections@.len() && k != idx ==> final(self).sections@[k] == old(
                    self,
                ).sections@[k],
            final(self).sections@[idx as int].prefix_len == old(
                self,
            ).sections@[idx as int].prefix_len,
            final(self).sections@[idx as int].prefix_bits == old(
                self,
            ).sections@[idx as int].prefix_bits,
            final(self).sections@[idx as int].members@ == old(
                self,
            ).sections@[idx as int].members@.update(
                mi as int,
                Node {
                    address: old(self).sections@[idx as int].members@[mi as int].address,
                    age: age,
                },
            ),
            final(self).total() == old(self).total(),
    {
        let ghost olds = self.sections@;
        let mut sec = self.sections.remove(idx);
        let addr = sec.members[mi].address;
        let updated = Node { address: addr, age: age };
        sec.members.remove(mi);
        sec.members.insert(mi, updated);
        self.sections.insert(idx, sec);
        proof {
            assert(final(self).sections@[idx as int].members@ =~= olds[idx as int].members@.update(
                mi as int,
                updated,
            ));
            assert(final(self).sections@ =~= olds.update(
                idx as int,
                final(self).sections@[idx as int],
            ));
            lemma_total_point_update(olds, final(self).sections@, idx as int);
        }
    }
}

/// What a survivor's age becomes when its section endures a departure.
pub open spec fn spec_bump(age: u8) -> u8 {
    if age < 255 {
        (age + 1) as u8
    } else {
        age
    }
}

impl AddressTree {
    /// Age every member of section `idx` by one step (saturating): the
    /// survivors of a departure grow older.
    pub fn bump_ages(&mut self, idx: usize)
        requires
            old(self).wf(),
            idx < old(self).sections@.len(),
        ensures
            final(self).wf(),
            final(self).sections@.len() == old(self).sections@.len(),
            forall|k: int|
                0 <= k < old(self).sections@.len() && k != idx ==> final(self).sections@[k] == old(
                    self,
                ).sections@[k],
            final(self).sections@[idx as int].prefix_len == old(
                self,
            ).sections@[idx as int].prefix_len,
            final(self).sections@[idx as int].prefix_bits == old(
                self,
            ).sections@[idx as int].prefix_bits,
            final(self).sections@[idx as int].members@.len() == old(
                self,
            ).sections@[idx as int].members@.len(),
            forall|k: int|
                0 <= k < old(self).sections@[idx as int].members@.len() ==> (#[trigger] final(self).sections@[idx as int].members@[k]) == (Node {
                    address: old(self).sections@[idx as int].members@[k].address,
                    age: spec_bump(old(self).sections@[idx as int].members@[k].age),
                }),
            final(self).total() == old(self).total(),
    {
        let ghost olds = self.sections@;
        let mut sec = self.sections.remove(idx);
        let ghost oldm = sec.members@;
        let n = sec.members.len();
        let mut aged: Vec<Node> = Vec::new();
        let mut i: usize = 0;
        while i < n
            invariant
                0 <= i <= n,
                n == oldm.len(),
                sec.members@ == oldm,
                aged@.len() == i,
                forall|k: int|
                    0 <= k < i ==> (#[trigger] aged@[k]) == (Node {
                        address: oldm[k].address,
                        age: spec_bump(oldm[k].age),
                    }),
            decreases n - i,
        {
            let node = sec.members[i];
            let age = if node.age < 255 {
                node.age + 1
            } else {
                node.age
            };
            aged.push(Node { address: node.address, age });
            i = i + 1;
        }
        sec.members = aged;
        self.sections.insert(idx, sec);
        proof {
            assert(final(self).sections@ =~= olds.update(
                idx as int,
                final(self).sections@[idx as int],
            ));
            lemma_total_point_update(olds, final(self).sections@, idx as int);
        }
    }

    /// First section carrying exactly the given prefix, if one is current.
    pub fn find_prefix(&self, plen: u64, pbits: u64) -> (r: Option<usize>)
        ensures
            match r {
                Some(i) => i as int == spec_find_prefix(self.sections@, plen, pbits, 0) && i
                    < self.sections@.len() && self.sections@[i as int].prefix_len == plen
                    && self.sections@[i as int].prefix_bits == pbits,
                None => spec_find_prefix(self.sections@, plen, pbits, 0)
                    == self.sections@.len() && forall|i: int|
                    0 <= i < self.sections@.len() ==> !((#[trigger] self.sections@[i]).prefix_len
                        == plen && self.sections@[i].prefix_bits == pbits),
            },
    {
        let n = self.sections.len();
        let mut i: usize = 0;
        while i < n
            invariant
                0 <= i <= n,
                n == self.sections@.len(),
                spec_find_prefix(self.sections@, plen, pbits, 0) == spec_find_prefix(
                    self.sections@,
                    plen,
                    pbits,
                    i as int,
                ),
                forall|k: int|
                    0 <= k < i ==> !((#[trigger] self.sections@[k]).prefix_len == plen
                        && self.sections@[k].prefix_bits == pbits),
            decreases n - i,
        {
            let s = &self.sections[i];
            if s.prefix_len == plen && s.prefix_bits == pbits {
                return Some(i);
            }
            i = i + 1;
        }
        None
    }
}

/// Index of the first section carrying exactly the prefix `(plen, pbits)`,
/// scanning from `k`; the sequence length when none does.
pub open spec fn spec_find_prefix(secs: Seq<Section>, plen: u64, pbits: u64, k: int) -> int
    decreases secs.len() - k,
{
    if k < 0 || k >= secs.len() {
        secs.len() as int
    } else if secs[k].prefix_len == plen && secs[k].prefix_bits == pbits {
        k
    } else {
        spec_find_prefix(secs, plen, pbits, k + 1)
    }
}

/// The membership test for a prefix, as a predicate on nodes.
pub open spec fn covers_pred(len: u64, bits: u64) -> spec_fn(Node) -> bool {
    |n: Node| covers(len, bits, n.address)
}

/// The complement of `covers_pred`.
pub open spec fn not_covers_pred(len: u64, bits: u64) -> spec_fn(Node) -> bool {
    |n: Node| !covers(len, bits, n.address)
}

/// Filtering by a prefix and by its complement loses nothing: the two parts
/// account for every node exactly once.
pub proof fn lemma_filter_complement_len(s: Seq<Node>, len: u64, bits: u64)
    ensures
        s.filter(covers_pred(len, bits)).len() + s.filter(not_covers_pred(len, bits)).len()
            == s.len(),
    decreases s.len(),
{
    reveal(Seq::filter);
    if s.len() > 0 {
        lemma_filter_complement_len(s.drop_last(), len, bits);
    }
}

/// Every element of a filtered sequence occurs in the original and satisfies
/// the predicate.
pub proof fn lemma_filter_sub(s: Seq<Node>, p: spec_fn(Node) -> bool)
    ensures
        forall|i: int|
            0 <= i < s.filter(p).len() ==> s.contains(#[trigger] s.filter(p)[i]) && p(
                s.filter(p)[i],
            ),
    decreases s.len(),
{
    reveal(Seq::filter);
    if s.len() > 0 {
        lemma_filter_sub(s.drop_last(), p);
        let f = s.filter(p);
        let fd = s.drop_last().filter(p);
        assert forall|i: int| 0 <= i < f.len() implies s.contains(f[i]) && p(f[i]) by {
            if p(s.last()) && i == f.len() - 1 {
                assert(f[i] == s.last());
                assert(s[s.len() - 1] == s.last());
                assert(s.contains(s.last()));
            } else {
                assert(f[i] == fd[i]);
                assert(s.drop_last().contains(fd[i]));
                let k = choose|k: int|
                    0 <= k < s.drop_last().len() && s.drop_last()[k] == fd[i];
                assert(s[k] == fd[i]);
            }
        }
    }
}

/// Filtering keeps addresses unique: no node is duplicated into the result.
pub proof fn lemma_filter_distinct(s: Seq<Node>, p: spec_fn(Node) -> bool)
    requires
        forall|i: int, j: int|
            0 <= i < j < s.len() ==> (#[trigger] s[i]).address != (#[trigger] s[j]).address,
    ensures
        forall|i: int, j: int|
            0 <= i < j < s.filter(p).len() ==> (#[trigger] s.filter(p)[i]).address != (
            #[trigger] s.filter(p)[j]).address,
    decreases s.len(),
{
    reveal(Seq::filter);
    if s.len() > 0 {
        assert(forall|i: int, j: int|
            0 <= i < j < s.drop_last().len() ==> (#[trigger] s.drop_last()[i]).address != (
            #[trigger] s.drop_last()[j]).address);
        lemma_filter_distinct(s.drop_last(), p);
        lemma_filter_sub(s.drop_last(), p);
        let f = s.filter(p);
        let fd = s.drop_last().filter(p);
        assert forall|i: int, j: int| 0 <= i < j < f.len() implies f[i].address != f[j].address by {
            if p(s.last()) && j == f.len() - 1 {
                assert(f[i] == fd[i]);
                assert(s.drop_last().contains(fd[i]));
                let k = choose|k: int|
                    0 <= k < s.drop_last().len() && s.drop_last()[k] == fd[i];
                assert(s[k] == fd[i]);
                assert(s[k].address != s.last().address);
            } else {
                assert(f[i] == fd[i] && f[j] == fd[j]);
            }
        }
    }
}

impl AddressTree {
    /// Split the section at `idx` into its two children: each former member
    /// lands in exactly one child (the one whose extended prefix it
    /// matches), no address is lost or duplicated, and the partition is
    /// still a tiling.
    #[verifier::rlimit(100)]
    pub fn split(&mut self, idx: usize)
        requires
            old(self).wf(),
            idx < old(self).sections@.len(),
            old(self).sections@[idx as int].prefix_len < ADDR_BITS,
        ensures
            final(self).wf(),
            final(self).sections@.len() == old(self).sections@.len() + 1,
            forall|k: int| 0 <= k < idx ==> final(self).sections@[k] == old(self).sections@[k],
            forall|k: int|
                idx < k < old(self).sections@.len() ==> final(self).sections@[k + 1] == old(
                    self,
                ).sections@[k],
            final(self).sections@[idx as int].prefix_len == old(
                self,
            ).sections@[idx as int].prefix_len + 1,
            final(self).sections@[idx + 1].prefix_len == old(
                self,
            ).sections@[idx as int].prefix_len + 1,
            final(self).sections@[idx as int].prefix_bits == 2 * old(
                self,
            ).sections@[idx as int].prefix_bits,
            final(self).sections@[idx + 1].prefix_bits == 2 * old(
                self,
            ).sections@[idx as int].prefix_bits + 1,
            final(self).sections@[idx as int].members@ == old(
                self,
            ).sections@[idx as int].members@.filter(
                covers_pred(
                    (old(self).sections@[idx as int].prefix_len + 1) as u64,
                    (2 * old(self).sections@[idx as int].prefix_bits) as u64,
                ),
            ),
            final(self).sections@[idx + 1].members@ == old(
                self,
            ).sections@[idx as int].members@.filter(
                not_covers_pred(
                    (old(self).sections@[idx as int].prefix_len + 1) as u64,
                    (2 * old(self).sections@[idx as int].prefix_bits) as u64,
                ),
            ),
            final(self).sections@[idx as int].members@.len() + final(self).sections@[idx
                + 1].members@.len() == old(self).sections@[idx as int].members@.len(),
            final(self).total() == old(self).total(),
    {
        let ghost olds = self.sections@;
        let parent = self.sections.remove(idx);
        let len = parent.prefix_len;
        let bits = parent.prefix_bits;
        proof {
            lemma2_to64();
            lemma2_to64_rest();
            if len < 63 {
                lemma_pow2_strictly_increases(len as nat, 63);
            }
            assert((bits as int) < pow2(63) as int);
        }
        let clen = len + 1;
        let b0 = 2 * bits;
        let b1 = b0 + 1;
        proof {
            lemma_pow2_adds(len as nat, 1);
            assert((b1 as nat) < pow2(clen as nat));
        }
        let ghost p0 = covers_pred(clen, b0);
        let ghost p1 = not_covers_pred(clen, b0);
        let n = parent.members.len();
        let mut m0: Vec<Node> = Vec::new();
        let mut m1: Vec<Node> = Vec::new();
        let mut i: usize = 0;
        while i < n
            invariant
                0 <= i <= n,
                n == parent.members@.len(),
                clen == len + 1,
                len < ADDR_BITS,
                b0 == 2 * bits,
                b1 == 2 * bits + 1,
                (bits as nat) < pow2(len as nat),
                (b0 as nat) < pow2(clen as nat),
                clen <= ADDR_BITS,
                p0 == covers_pred(clen, b0),
                p1 == not_covers_pred(clen, b0),
                m0@ == parent.members@.subrange(0, i as int).filter(p0),
                m1@ == parent.members@.subrange(0, i as int).filter(p1),
            decreases n - i,
        {
            let node = parent.members[i];
            proof {
                reveal(Seq::filter);
                let sub1 = parent.members@.subrange(0, i + 1);
                assert(sub1.drop_last() =~= parent.members@.subrange(0, i as int));
                assert(sub1.last() == node);
            }
            if prefix_matches(clen, b0, node.address) {
                m0.push(node);
            } else {
                m1.push(node);
            }
            i = i + 1;
        }
        proof {
            assert(parent.members@.subrange(0, n as int) =~= parent.members@);
        }
        let c0 = Section { prefix_len: clen, prefix_bits: b0, members: m0 };
        let c1 = Section { prefix_len: clen, prefix_bits: b1, members: m1 };
        let ghost g0 = c0;
        let ghost g1 = c1;
        self.sections.insert(idx, c1);
        self.sections.insert(idx, c0);
        proof {
            let news = self.sections@;
            assert(news =~= olds.subrange(0, idx as int) + seq![g0, g1] + olds.subrange(
                idx + 1,
                olds.len() as int,
            ));
            lemma_split_ok(olds, news, idx as int, g0, g1);
        }
    }

    /// Merge the sibling sections at `idx` and `idx + 1` into their parent:
    /// the merged membership is exactly the two memberships put together,
    /// with no duplicates, and the partition is still a tiling.
    #[verifier::rlimit(100)]
    pub fn merge(&mut self, idx: usize)
        requires
            old(self).wf(),
            idx + 1 < old(self).sections@.len(),
            old(self).sections@[idx as int].prefix_len == old(
                self,
            ).sections@[idx + 1].prefix_len,
            old(self).sections@[idx as int].prefix_len > 0,
            old(self).sections@[idx as int].prefix_bits % 2 == 0,
            old(self).sections@[idx + 1].prefix_bits == old(
                self,
            ).sections@[idx as int].prefix_bits + 1,
        ensures
            final(self).wf(),
            final(self).sections@.len() == old(self).sections@.len() - 1,
            forall|k: int| 0 <= k < idx ==> final(self).sections@[k] == old(self).sections@[k],
            forall|k: int|
                idx + 1 < k < old(self).sections@.len() ==> final(self).sections@[k - 1] == old(
                    self,
                ).sections@[k],
            final(self).sections@[idx as int].prefix_len == old(
                self,
            ).sections@[idx as int].prefix_len - 1,
            final(self).sections@[idx as int].prefix_bits == old(
                self,
            ).sections@[idx as int].prefix_bits / 2,
            final(self).sections@[idx as int].members@ == old(
                self,
            ).sections@[idx as int].members@ + old(self).sections@[idx + 1].members@,
            final(self).total() == old(self).total(),
    {
        let ghost olds = self.sections@;
        let a = self.sections.remove(idx);
        let b = self.sections.remove(idx);
        let len = a.prefix_len;
        let bits = a.prefix_bits;
        let mut members = a.members;
        let mut bm = b.members;
        members.append(&mut bm);
        let merged = Section { prefix_len: len - 1, prefix_bits: bits / 2, members };
        let ghost gm = merged;
        self.sections.insert(idx, merged);
        proof {
            let news = self.sections@;
            assert(news =~= olds.subrange(0, idx as int) + seq![gm] + olds.subrange(
                idx + 2,
                olds.len() as int,
            ));
            lemma_merge_ok(olds, news, idx as int, gm);
        }
    }
}

/// A merge keeps the partition well-formed and conserves the nodes: the
/// parent's membership is the concatenation of the two siblings'.
proof fn lemma_merge_ok(olds: Seq<Section>, news: Seq<Section>, idx: int, m: Section)
    requires
        tiling(olds),
        all_wf(olds),
        0 <= idx,
        idx + 1 < olds.len(),
        olds[idx].prefix_len == olds[idx + 1].prefix_len,
        olds[idx].prefix_len > 0,
        olds[idx].prefix_bits % 2 == 0,
        olds[idx + 1].prefix_bits == olds[idx].prefix_bits + 1,
        m.prefix_len == olds[idx].prefix_len - 1,
        m.prefix_bits == olds[idx].prefix_bits / 2,
        m.members@ == olds[idx].members@ + olds[idx + 1].members@,
        news =~= olds.subrange(0, idx) + seq![m] + olds.subrange(idx + 2, olds.len() as int),
    ensures
        tiling(news),
        all_wf(news),
        total_nodes(news) == total_nodes(olds),
{
    let len = olds[idx].prefix_len;
    let bits = olds[idx].prefix_bits;
    lemma_merge_tiling(olds, news, idx, m);
    let am = olds[idx].members@;
    let bmv = olds[idx + 1].members@;
    assert forall|k: int| 0 <= k < m.members@.len() implies covers(
        m.prefix_len,
        m.prefix_bits,
        (#[trigger] m.members@[k]).address,
    ) by {
        if k < am.len() {
            assert(m.members@[k] == am[k]);
            lemma_parent_covers(len, bits, am[k].address);
        } else {
            assert(m.members@[k] == bmv[k - am.len()]);
            lemma_parent_covers(len, (bits + 1) as u64, bmv[k - am.len()].address);
            assert((bits + 1) / 2 == bits / 2);
        }
    }
    assert forall|k1: int, k2: int| 0 <= k1 < k2 < m.members@.len() implies (
    #[trigger] m.members@[k1]).address != (#[trigger] m.members@[k2]).address by {
        if k1 < am.len() && k2 >= am.len() {
            assert(m.members@[k1] == am[k1]);
            assert(m.members@[k2] == bmv[k2 - am.len()]);
            assert(covers(len, bits, am[k1].address));
            assert(covers(len, (bits + 1) as u64, bmv[k2 - am.len()].address));
            if m.members@[k1].address == m.members@[k2].address {
                lemma_covers_unique_bits(len, bits, (bits + 1) as u64, m.members@[k1].address);
            }
        }
    }
    assert(all_wf(news)) by {
        assert forall|k: int| 0 <= k < news.len() implies (#[trigger] news[k]).wf() by {
            if k < idx {
                assert(news[k] == olds[k]);
            } else if k > idx {
                assert(news[k] == olds[k + 1]);
            }
        }
    }
    lemma_total_concat(olds.subrange(0, idx) + seq![m], olds.subrange(idx + 2, olds.len() as int));
    lemma_total_concat(olds.subrange(0, idx), seq![m]);
    lemma_total_singleton(m);
    lemma_split_parts(olds, idx);
    assert(olds.subrange(idx, olds.len() as int) =~= seq![olds[idx]] + (seq![olds[idx + 1]]
        + olds.subrange(idx + 2, olds.len() as int)));
    lemma_total_concat(olds.subrange(0, idx), olds.subrange(idx, olds.len() as int));
    lemma_total_concat(seq![olds[idx]], seq![olds[idx + 1]] + olds.subrange(
        idx + 2,
        olds.len() as int,
    ));
    lemma_total_concat(seq![olds[idx + 1]], olds.subrange(idx + 2, olds.len() as int));
    lemma_total_singleton(olds[idx]);
    lemma_total_singleton(olds[idx + 1]);
}

/// A split keeps the partition well-formed and conserves the nodes: the two
/// filtered child memberships account for every former member exactly once.
proof fn lemma_split_ok(olds: Seq<Section>, news: Seq<Section>, idx: int, c0: Section, c1: Section)
    requires
        tiling(olds),
        all_wf(olds),
        0 <= idx < olds.len(),
        olds[idx].prefix_len < ADDR_BITS,
        c0.prefix_len == olds[idx].prefix_len + 1,
        c1.prefix_len == olds[idx].prefix_len + 1,
        c0.prefix_bits == 2 * olds[idx].prefix_bits,
        c1.prefix_bits == 2 * olds[idx].prefix_bits + 1,
        c0.members@ == olds[idx].members@.filter(covers_pred(c0.prefix_len, c0.prefix_bits)),
        c1.members@ == olds[idx].members@.filter(not_covers_pred(c0.prefix_len, c0.prefix_bits)),
        news =~= olds.subrange(0, idx) + seq![c0, c1] + olds.subrange(idx + 1, olds.len() as int),
    ensures
        tiling(news),
        all_wf(news),
        total_nodes(news) == total_nodes(olds),
        c0.members@.len() + c1.members@.len() == olds[idx].members@.len(),
{
    let len = olds[idx].prefix_len;
    let bits = olds[idx].prefix_bits;
    let pm = olds[idx].members@;
    let p0 = covers_pred(c0.prefix_len, c0.prefix_bits);
    let p1 = not_covers_pred(c0.prefix_len, c0.prefix_bits);
    lemma_split_tiling(olds, news, idx, c0, c1);
    lemma_filter_complement_len(pm, c0.prefix_len, c0.prefix_bits);
    lemma_filter_sub(pm, p0);
    lemma_filter_sub(pm, p1);
    lemma_filter_distinct(pm, p0);
    lemma_filter_distinct(pm, p1);
    assert forall|k: int| 0 <= k < c0.members@.len() implies covers(
        c0.prefix_len,
        c0.prefix_bits,
        (#[trigger] c0.members@[k]).address,
    ) by {
        assert(p0(c0.members@[k]));
    }
    assert forall|k: int| 0 <= k < c1.members@.len() implies covers(
        c1.prefix_len,
        c1.prefix_bits,
        (#[trigger] c1.members@[k]).address,
    ) by {
        assert(p1(c1.members@[k]));
        let x = c1.members@[k];
        assert(pm.contains(x));
        let w = choose|w: int| 0 <= w < pm.len() && pm[w] == x;
        assert(covers(len, bits, x.address));
        lemma_child_covers(len, bits, x.address);
    }
    assert(all_wf(news)) by {
        assert forall|k: int| 0 <= k < news.len() implies (#[trigger] news[k]).wf() by {
            if k < idx {
                assert(news[k] == olds[k]);
            } else if k > idx + 1 {
                assert(news[k] == olds[k - 1]);
            }
        }
    }
    lemma_total_concat(olds.subrange(0, idx) + seq![c0, c1], olds.subrange(
        idx + 1,
        olds.len() as int,
    ));
    lemma_total_concat(olds.subrange(0, idx), seq![c0, c1]);
    lemma_total_concat(seq![c0], seq![c1]);
    assert(seq![c0] + seq![c1] =~= seq![c0, c1]);
    lemma_total_singleton(c0);
    lemma_total_singleton(c1);
    lemma_split_parts(olds, idx);
    assert(olds.subrange(idx, olds.len() as int) =~= seq![olds[idx]] + olds.subrange(
        idx + 1,
        olds.len() as int,
    ));
    lemma_total_concat(olds.subrange(0, idx), olds.subrange(idx, olds.len() as int));
    lemma_total_concat(seq![olds[idx]], olds.subrange(idx + 1, olds.len() as int));
    lemma_total_singleton(olds[idx]);
}

/// The children of a split tile exactly the parent's interval, so the whole
/// sequence still tiles the space.
proof fn lemma_split_tiling(olds: Seq<Section>, news: Seq<Section>, idx: int, c0: Section, c1: Section)
    requires
        tiling(olds),
        all_wf(olds),
        0 <= idx < olds.len(),
        olds[idx].prefix_len < ADDR_BITS,
        c0.prefix_len == olds[idx].prefix_len + 1,
        c1.prefix_len == olds[idx].prefix_len + 1,
        c0.prefix_bits == 2 * olds[idx].prefix_bits,
        c1.prefix_bits == 2 * olds[idx].prefix_bits + 1,
        news =~= olds.subrange(0, idx) + seq![c0, c1] + olds.subrange(idx + 1, olds.len() as int),
    ensures
        tiling(news),
        (c0.prefix_bits as nat) < pow2(c0.prefix_len as nat),
        (c1.prefix_bits as nat) < pow2(c1.prefix_len as nat),
        c0.prefix_wf(),
        c1.prefix_wf(),
{
    let p = olds[idx];
    let len = p.prefix_len;
    let bits = p.prefix_bits;
    let sz = sec_size(len) as int;
    let szc = sec_size((len + 1) as u64) as int;
    lemma_pow2_adds((ADDR_BITS - len - 1) as nat, 1);
    lemma_pow2_adds(len as nat, 1);
    lemma2_to64();
    assert(sz == szc * 2);
    assert(c0.lo() == p.lo()) by (nonlinear_arith)
        requires
            sz == szc * 2,
            c0.lo() == (2 * bits) * szc,
            p.lo() == bits * sz,
    ;
    assert(c0.hi() == c1.lo()) by (nonlinear_arith)
        requires
            c0.hi() == (2 * bits) * szc + szc,
            c1.lo() == (2 * bits + 1) * szc,
    ;
    assert(c1.hi() == p.hi()) by (nonlinear_arith)
        requires
            sz == szc * 2,
            c1.hi() == (2 * bits + 1) * szc + szc,
            p.hi() == bits * sz + sz,
    ;
    assert((c1.prefix_bits as int) < pow2((len + 1) as nat) as int) by (nonlinear_arith)
        requires
            (bits as int) < pow2(len as nat) as int,
            pow2((len + 1) as nat) == 2 * pow2(len as nat),
            c1.prefix_bits == 2 * bits + 1,
    ;
    assert forall|i: int| 1 <= i < news.len() implies (#[trigger] news[i]).lo() == news[i
        - 1].hi() by {
        if i < idx {
            assert(news[i] == olds[i] && news[i - 1] == olds[i - 1]);
        } else if i == idx {
            assert(news[i] == c0);
            if idx > 0 {
                assert(news[i - 1] == olds[idx - 1]);
            }
        } else if i == idx + 1 {
            assert(news[i] == c1 && news[i - 1] == c0);
        } else if i == idx + 2 {
            assert(news[i] == olds[idx + 1] && news[i - 1] == c1);
        } else {
            assert(news[i] == olds[i - 1] && news[i - 1] == olds[i - 2]);
        }
    }
    if idx == 0 {
        assert(news[0] == c0);
    } else {
        assert(news[0] == olds[0]);
    }
    assert(news[news.len() - 1].hi() == pow2(ADDR_BITS as nat)) by {
        if idx == olds.len() - 1 {
            assert(news[news.len() - 1] == c1);
        } else {
            assert(news[news.len() - 1] == olds[olds.len() - 1]);
        }
    }
}

/// The merged parent tiles exactly the two siblings' intervals, so the whole
/// sequence still tiles the space.
proof fn lemma_merge_tiling(olds: Seq<Section>, news: Seq<Section>, idx: int, m: Section)
    requires
        tiling(olds),
        all_wf(olds),
        0 <= idx,
        idx + 1 < olds.len(),
        olds[idx].prefix_len == olds[idx + 1].prefix_len,
        olds[idx].prefix_len > 0,
        olds[idx].prefix_bits % 2 == 0,
        olds[idx + 1].prefix_bits == olds[idx].prefix_bits + 1,
        m.prefix_len == olds[idx].prefix_len - 1,
        m.prefix_bits == olds[idx].prefix_bits / 2,
        news =~= olds.subrange(0, idx) + seq![m] + olds.subrange(idx + 2, olds.len() as int),
    ensures
        tiling(news),
        m.prefix_wf(),
{
    let a = olds[idx];
    let len = a.prefix_len;
    let bits = a.prefix_bits;
    let szc = sec_size(len) as int;
    lemma_pow2_adds((ADDR_BITS - len) as nat, 1);
    lemma_pow2_adds((len - 1) as nat, 1);
    lemma2_to64();
    assert(sec_size((len - 1) as u64) as int == szc * 2);
    assert(bits == 2 * (bits / 2));
    assert(m.lo() == a.lo()) by (nonlinear_arith)
        requires
            bits == 2 * (bits / 2),
            m.lo() == (bits / 2) * (szc * 2),
            a.lo() == bits * szc,
    ;
    assert(m.hi() == olds[idx + 1].hi()) by (nonlinear_arith)
        requires
            bits == 2 * (bits / 2),
            m.hi() == (bits / 2) * (szc * 2) + szc * 2,
            olds[idx + 1].hi() == (bits + 1) * szc + szc,
    ;
    assert((m.prefix_bits as int) < pow2((len - 1) as nat) as int) by (nonlinear_arith)
        requires
            (bits as int) < pow2(len as nat) as int,
            pow2(len as nat) == 2 * pow2((len - 1) as nat),
            m.prefix_bits == bits / 2,
            bits == 2 * (bits / 2),
    ;
    assert forall|i: int| 1 <= i < news.len() implies (#[trigger] news[i]).lo() == news[i
        - 1].hi() by {
        if i < idx {
            assert(news[i] == olds[i] && news[i - 1] == olds[i - 1]);
        } else if i == idx {
            assert(news[i] == m);
            if idx > 0 {
                assert(news[i - 1] == olds[idx - 1]);
            }
        } else if i == idx + 1 {
            assert(news[i] == olds[idx + 2] && news[i - 1] == m);
        } else {
            assert(news[i] == olds[i + 1] && news[i - 1] == olds[i]);
        }
    }
    if idx == 0 {
        assert(news[0] == m);
    } else {
        assert(news[0] == olds[0]);
    }
    assert(news[news.len() - 1].hi() == pow2(ADDR_BITS as nat)) by {
        if idx == olds.len() - 2 {
            assert(news[news.len() - 1] == m);
        } else {
            assert(news[news.len() - 1] == olds[olds.len() - 1]);
        }
    }
}

/// Replacing one section by another of equal prefix shifts the total by the
/// difference in their member counts.
pub proof fn lemma_total_point_update(s1: Seq<Section>, s2: Seq<Section>, idx: int)
    requires
        s1.len() == s2.len(),
        0 <= idx < s1.len(),
        forall|k: int| 0 <= k < s1.len() && k != idx ==> s2[k] == s1[k],
    ensures
        total_nodes(s2) == total_nodes(s1) + s2[idx].members@.len() - s1[idx].members@.len(),
    decreases s1.len(),
{
    if idx == 0 {
        assert(s2.drop_first() =~= s1.drop_first());
    } else {
        lemma_total_point_update(s1.drop_first(), s2.drop_first(), idx - 1);
    }
}

} // verus!
