//! Selection of availability bitfields and the availability predicate.

use vstd::prelude::*;

use crate::primitives::{copy_vec, AvailabilityBitfield, BitfieldView, CoreState};

verus! {

/// Number of set bits.
pub open spec fn popcount(bits: Seq<bool>) -> nat
    decreases bits.len(),
{
    if bits.len() == 0 {
        0
    } else {
        popcount(bits.drop_last()) + if bits.last() { 1nat } else { 0nat }
    }
}

/// No more bits are set than there are bits.
pub proof fn lemma_popcount_bound(bits: Seq<bool>)
    ensures
        popcount(bits) <= bits.len(),
    decreases bits.len(),
{
    if bits.len() > 0 {
        lemma_popcount_bound(bits.drop_last());
    }
}

/// Counts the set bits of `bits`.
pub fn count_ones(bits: &Vec<bool>) -> (r: usize)
    ensures
        r == popcount(bits@),
{
    let mut n: usize = 0;
    let mut i: usize = 0;
    while i < bits.len()
        invariant
            i <= bits.len(),
            n == popcount(bits@.subrange(0, i as int)),
        decreases bits.len() - i,
    {
        proof {
            let s = bits@.subrange(0, i as int + 1);
            assert(s.drop_last() == bits@.subrange(0, i as int));
            lemma_popcount_bound(bits@.subrange(0, i as int));
        }
        if bits[i] {
            n += 1;
        }
        i += 1;
    }
    assert(bits@.subrange(0, bits.len() as int) == bits@);
    n
}

/// A bitfield is well formed at a relay parent when it has one bit per core
/// and sets no bit of a core that holds no candidate.
pub open spec fn is_valid_bitfield(b: BitfieldView, cores: Seq<CoreState>) -> bool {
    &&& b.bits.len() == cores.len()
    &&& forall|c: int| 0 <= c < cores.len() && #[trigger] b.bits[c] ==> cores[c] is Occupied
}

/// Index `i` holds the bitfield kept for its validator: it is well formed,
/// no well-formed bitfield of the same validator has more bits set, and every
/// earlier one has fewer.
pub open spec fn is_selected(bs: Seq<BitfieldView>, cores: Seq<CoreState>, i: int) -> bool {
    &&& 0 <= i < bs.len()
    &&& is_valid_bitfield(bs[i], cores)
    &&& forall|j: int|
        0 <= j < bs.len() && is_valid_bitfield(#[trigger] bs[j], cores) && bs[j].validator_index
            == bs[i].validator_index ==> popcount(bs[j].bits) <= popcount(bs[i].bits) && (j < i
            ==> popcount(bs[j].bits) < popcount(bs[i].bits))
}

/// What the contracts see of each bitfield of `bs`.
pub open spec fn bitfield_views(bs: Seq<AvailabilityBitfield>) -> Seq<BitfieldView> {
    bs.map_values(|b: AvailabilityBitfield| b@)
}

/// `b` is one of the selected bitfields of `bs`.
pub open spec fn is_kept_from(b: BitfieldView, bs: Seq<BitfieldView>, cores: Seq<CoreState>) -> bool {
    exists|i: int| is_selected(bs, cores, i) && b == bs[i]
}

/// The bitfields kept from `bs`: exactly the selected ones, one per
/// validator.
pub open spec fn is_selection_of(
    out: Seq<BitfieldView>,
    bs: Seq<BitfieldView>,
    cores: Seq<CoreState>,
) -> bool {
    &&& forall|k: int| 0 <= k < out.len() ==> is_kept_from(#[trigger] out[k], bs, cores)
    &&& forall|i: int|
        is_selected(bs, cores, i) ==> exists|k: int| 0 <= k < out.len() && #[trigger] out[k] == bs[i]
    &&& forall|k1: int, k2: int|
        0 <= k1 < out.len() && 0 <= k2 < out.len() && k1 != k2 ==> #[trigger] out[k1].validator_index
            != #[trigger] out[k2].validator_index
}

/// Whether `b` is well formed against `cores`.
pub fn bitfield_is_valid(b: &AvailabilityBitfield, cores: &[CoreState]) -> (r: bool)
    ensures
        r == is_valid_bitfield(b@, cores@),
{
    if b.bits.len() != cores.len() {
        return false;
    }
    let mut c: usize = 0;
    while c < cores.len()
        invariant
            c <= cores.len(),
            b.bits@.len() == cores@.len(),
            forall|d: int| 0 <= d < c && #[trigger] b.bits@[d] ==> cores@[d] is Occupied,
        decreases cores.len() - c,
    {
        if b.bits[c] && !cores[c].is_occupied() {
            return false;
        }
        c += 1;
    }
    true
}


proof fn lemma_selected_kept(t: Seq<BitfieldView>, x: BitfieldView, cores: Seq<CoreState>, i: int)
    requires
        is_selected(t, cores, i),
        !(is_valid_bitfield(x, cores) && x.validator_index == t[i].validator_index && popcount(
            x.bits,
        ) > popcount(t[i].bits)),
    ensures
        is_selected(t.push(x), cores, i),
{
    let u = t.push(x);
    assert forall|j: int|
        0 <= j < u.len() && is_valid_bitfield(#[trigger] u[j], cores) && u[j].validator_index
            == u[i].validator_index implies popcount(u[j].bits) <= popcount(u[i].bits) && (j < i
        ==> popcount(u[j].bits) < popcount(u[i].bits)) by {
        if j < t.len() {
            assert(u[j] == t[j]);
        }
    }
}

proof fn lemma_selected_new(t: Seq<BitfieldView>, x: BitfieldView, cores: Seq<CoreState>)
    requires
        is_valid_bitfield(x, cores),
        forall|j: int|
            0 <= j < t.len() && is_valid_bitfield(#[trigger] t[j], cores) && t[j].validator_index
                == x.validator_index ==> popcount(t[j].bits) < popcount(x.bits),
    ensures
        is_selected(t.push(x), cores, t.len() as int),
{
    let u = t.push(x);
    assert forall|j: int|
        0 <= j < u.len() && is_valid_bitfield(#[trigger] u[j], cores) && u[j].validator_index
            == u[t.len() as int].validator_index implies popcount(u[j].bits) <= popcount(
        u[t.len() as int].bits,
    ) && (j < t.len() ==> popcount(u[j].bits) < popcount(u[t.len() as int].bits)) by {
        if j < t.len() {
            assert(u[j] == t[j]);
        }
    }
}

/// Two selected indices of the same validator are the same index.
pub proof fn lemma_selected_unique(bs: Seq<BitfieldView>, cores: Seq<CoreState>, i: int, j: int)
    requires
        is_selected(bs, cores, i),
        is_selected(bs, cores, j),
        bs[i].validator_index == bs[j].validator_index,
    ensures
        i == j,
{
    if i < j {
        assert(is_valid_bitfield(bs[i], cores));
        assert(popcount(bs[i].bits) < popcount(bs[j].bits));
        assert(is_valid_bitfield(bs[j], cores));
        assert(popcount(bs[j].bits) <= popcount(bs[i].bits));
    } else if j < i {
        assert(is_valid_bitfield(bs[j], cores));
        assert(popcount(bs[j].bits) < popcount(bs[i].bits));
        assert(is_valid_bitfield(bs[i], cores));
        assert(popcount(bs[i].bits) <= popcount(bs[j].bits));
    }
}

/// Picks at most one well-formed bitfield per validator: of a validator's
/// well-formed bitfields the one with the most bits set, the first of them
/// on a tie. A bitfield of the wrong length, or with a bit set for a core
/// that holds no candidate, is dropped.
pub fn select_availability_bitfields(
    cores: &[CoreState],
    bitfields: &[AvailabilityBitfield],
) -> (r: Vec<AvailabilityBitfield>)
    ensures
        is_selection_of(bitfield_views(r@), bitfield_views(bitfields@), cores@),
{
    let ghost bs = bitfield_views(bitfields@);
    let mut selected: Vec<AvailabilityBitfield> = Vec::new();
    let ghost mut idx: Seq<int> = Seq::empty();
    let mut n: usize = 0;
    while n < bitfields.len()
        invariant
            n <= bitfields.len(),
            bs == bitfield_views(bitfields@),
            bs.len() == bitfields@.len(),
            idx.len() == selected@.len(),
            forall|k: int|
                0 <= k < idx.len() ==> 0 <= #[trigger] idx[k] < n && selected@[k]@ == bs[idx[k]]
                    && is_selected(bs.take(n as int), cores@, idx[k]),
            forall|i: int|
                0 <= i < n && is_valid_bitfield(#[trigger] bs[i], cores@) ==> exists|k: int|
                    0 <= k < selected@.len() && #[trigger] selected@[k]@.validator_index
                        == bs[i].validator_index,
            forall|k1: int, k2: int|
                0 <= k1 < selected@.len() && 0 <= k2 < selected@.len() && k1 != k2
                    ==> #[trigger] selected@[k1]@.validator_index
                    != #[trigger] selected@[k2]@.validator_index,
        decreases bitfields.len() - n,
    {
        let b = &bitfields[n];
        let ghost t = bs.take(n as int);
        assert(bs.take(n as int + 1) == t.push(bs[n as int]));
        assert(bs[n as int] == b@);
        if !bitfield_is_valid(b, cores) {
            proof {
                assert forall|k: int| 0 <= k < idx.len() implies is_selected(
                    bs.take(n as int + 1),
                    cores@,
                    #[trigger] idx[k],
                ) by {
                    lemma_selected_kept(t, b@, cores@, idx[k]);
                }
            }
            n += 1;
            continue;
        }
        let mut k: usize = 0;
        let mut found = false;
        while k < selected.len()
            invariant_except_break
                !found,
            invariant
                k <= selected.len(),
                forall|m: int|
                    0 <= m < k ==> (#[trigger] selected@[m])@.validator_index
                        != b.validator_index,
            ensures
                found ==> k < selected.len() && selected@[k as int].validator_index
                    == b.validator_index,
                !found ==> k == selected.len(),
                forall|m: int|
                    0 <= m < k ==> (#[trigger] selected@[m])@.validator_index
                        != b.validator_index,
            decreases selected.len() - k,
        {
            if selected[k].validator_index == b.validator_index {
                found = true;
                break;
            }
            k += 1;
        }
        if found {
            let old_count = count_ones(&selected[k].bits);
            let new_count = count_ones(&b.bits);
            if old_count < new_count {
                let ghost old_selected = selected@;
                proof {
                    let ik = idx[k as int];
                    assert(t[ik] == bs[ik]);
                    assert forall|j: int|
                        0 <= j < t.len() && is_valid_bitfield(#[trigger] t[j], cores@)
                            && t[j].validator_index == b@.validator_index implies popcount(
                        t[j].bits,
                    ) < popcount(b@.bits) by {
                        assert(t[ik].validator_index == b@.validator_index);
                    }
                    lemma_selected_new(t, b@, cores@);
                    assert forall|m: int| 0 <= m < idx.len() && m != k implies is_selected(
                        bs.take(n as int + 1),
                        cores@,
                        #[trigger] idx[m],
                    ) by {
                        assert(t[idx[m]] == bs[idx[m]]);
                        lemma_selected_kept(t, b@, cores@, idx[m]);
                    }
                }
                selected.set(k, b.duplicate());
                proof {
                    idx = idx.update(k as int, n as int);
                    assert forall|i: int|
                        0 <= i < n + 1 && is_valid_bitfield(#[trigger] bs[i], cores@) implies exists|
                        m: int,
                    |
                        0 <= m < selected@.len() && #[trigger] selected@[m]@.validator_index
                            == bs[i].validator_index by {
                        if i < n {
                            let m0 = choose|m: int|
                                0 <= m < old_selected.len()
                                    && #[trigger] old_selected[m]@.validator_index
                                    == bs[i].validator_index;
                            assert(selected@[m0]@.validator_index == bs[i].validator_index);
                        } else {
                            assert(selected@[k as int]@.validator_index == bs[i].validator_index);
                        }
                    }
                }
            } else {
                proof {
                    let ik = idx[k as int];
                    assert(t[ik] == bs[ik]);
                    assert forall|m: int| 0 <= m < idx.len() implies is_selected(
                        bs.take(n as int + 1),
                        cores@,
                        #[trigger] idx[m],
                    ) by {
                        assert(t[idx[m]] == bs[idx[m]]);
                        lemma_selected_kept(t, b@, cores@, idx[m]);
                    }
                    assert forall|i: int|
                        0 <= i < n + 1 && is_valid_bitfield(#[trigger] bs[i], cores@) implies exists|
                        m: int,
                    |
                        0 <= m < selected@.len() && #[trigger] selected@[m]@.validator_index
                            == bs[i].validator_index by {
                        if i == n {
                            assert(selected@[k as int]@.validator_index == bs[i].validator_index);
                        }
                    }
                }
            }
        } else {
            let ghost old_selected = selected@;
            proof {
                assert forall|j: int|
                    0 <= j < t.len() && is_valid_bitfield(#[trigger] t[j], cores@)
                        && t[j].validator_index == b@.validator_index implies popcount(t[j].bits)
                    < popcount(b@.bits) by {
                    assert(t[j] == bs[j]);
                    let m0 = choose|m: int|
                        0 <= m < selected@.len() && #[trigger] selected@[m]@.validator_index
                            == bs[j].validator_index;
                    assert(selected@[m0]@.validator_index != b.validator_index);
                }
                lemma_selected_new(t, b@, cores@);
                assert forall|m: int| 0 <= m < idx.len() implies is_selected(
                    bs.take(n as int + 1),
                    cores@,
                    #[trigger] idx[m],
                ) by {
                    assert(t[idx[m]] == bs[idx[m]]);
                    lemma_selected_kept(t, b@, cores@, idx[m]);
                }
            }
            selected.push(b.duplicate());
            proof {
                idx = idx.push(n as int);
                assert forall|i: int|
                    0 <= i < n + 1 && is_valid_bitfield(#[trigger] bs[i], cores@) implies exists|
                    m: int,
                |
                    0 <= m < selected@.len() && #[trigger] selected@[m]@.validator_index
                        == bs[i].validator_index by {
                    if i < n {
                        let m0 = choose|m: int|
                            0 <= m < old_selected.len()
                                && #[trigger] old_selected[m]@.validator_index
                                == bs[i].validator_index;
                        assert(selected@[m0]@.validator_index == bs[i].validator_index);
                    } else {
                        assert(selected@[old_selected.len() as int]@.validator_index
                            == bs[i].validator_index);
                    }
                }
            }
        }
        n += 1;
    }
    proof {
        assert(bs.take(n as int) == bs);
        let out = bitfield_views(selected@);
        assert forall|k: int| 0 <= k < out.len() implies is_kept_from(#[trigger] out[k], bs, cores@) by {
            assert(out[k] == selected@[k]@);
            assert(is_selected(bs, cores@, idx[k]) && out[k] == bs[idx[k]]);
        }
        assert forall|i: int| is_selected(bs, cores@, i) implies exists|k: int|
            0 <= k < out.len() && #[trigger] out[k] == bs[i] by {
            let k0 = choose|k: int|
                0 <= k < selected@.len() && #[trigger] selected@[k]@.validator_index
                    == bs[i].validator_index;
            lemma_selected_unique(bs, cores@, i, idx[k0]);
            assert(out[k0] == selected@[k0]@);
        }
        assert forall|k1: int, k2: int|
            0 <= k1 < out.len() && 0 <= k2 < out.len() && k1 != k2 implies #[trigger] out[k1].validator_index
            != #[trigger] out[k2].validator_index by {
            assert(out[k1] == selected@[k1]@);
            assert(out[k2] == selected@[k2]@);
        }
        assert(is_selection_of(out, bs, cores@));
    }
    selected
}


/// Every kept bitfield is one of the inputs, unchanged, with one bit per
/// core and no bit set for a core that is free or only scheduled.
pub proof fn lemma_selection_well_formed(
    out: Seq<BitfieldView>,
    bs: Seq<BitfieldView>,
    cores: Seq<CoreState>,
)
    requires
        is_selection_of(out, bs, cores),
    ensures
        forall|k: int| 0 <= k < out.len() ==> bs.contains(#[trigger] out[k]),
        forall|k: int| 0 <= k < out.len() ==> (#[trigger] out[k]).bits.len() == cores.len(),
        forall|k: int, c: int|
            0 <= k < out.len() && 0 <= c < cores.len() && (#[trigger] out[k]).bits[c]
                ==> (#[trigger] cores[c]) is Occupied,
{
    assert forall|k: int| 0 <= k < out.len() implies bs.contains(#[trigger] out[k])
        && out[k].bits.len() == cores.len() && forall|c: int|
        0 <= c < cores.len() && out[k].bits[c] ==> (#[trigger] cores[c]) is Occupied by {
        assert(is_kept_from(out[k], bs, cores));
        let i = choose|i: int| is_selected(bs, cores, i) && out[k] == bs[i];
        assert(is_valid_bitfield(bs[i], cores));
        assert forall|c: int| 0 <= c < cores.len() && out[k].bits[c] implies (
        #[trigger] cores[c]) is Occupied by {
            assert(bs[i].bits[c]);
        }
    }
}

/// Of two well-formed bitfields of one validator with different numbers of
/// bits set, the one with fewer is never kept; the validator keeps exactly
/// one bitfield, with at least as many bits set as the better of the two, and
/// it is that better one when the validator sent no other well-formed
/// bitfield.
pub proof fn lemma_selection_prefers_more_bits(
    out: Seq<BitfieldView>,
    bs: Seq<BitfieldView>,
    cores: Seq<CoreState>,
    lo: int,
    hi: int,
)
    requires
        is_selection_of(out, bs, cores),
        0 <= lo < bs.len(),
        0 <= hi < bs.len(),
        is_valid_bitfield(bs[lo], cores),
        is_valid_bitfield(bs[hi], cores),
        bs[lo].validator_index == bs[hi].validator_index,
        popcount(bs[lo].bits) < popcount(bs[hi].bits),
    ensures
        exists|k: int| 0 <= k < out.len() && (#[trigger] out[k]).validator_index == bs[hi].validator_index,
        forall|k1: int, k2: int|
            0 <= k1 < out.len() && 0 <= k2 < out.len() && (#[trigger] out[k1]).validator_index
                == bs[hi].validator_index && (#[trigger] out[k2]).validator_index
                == bs[hi].validator_index ==> k1 == k2,
        forall|k: int|
            0 <= k < out.len() && (#[trigger] out[k]).validator_index == bs[hi].validator_index
                ==> out[k] != bs[lo] && popcount(out[k].bits) >= popcount(bs[hi].bits),
        (forall|m: int|
            0 <= m < bs.len() && is_valid_bitfield(#[trigger] bs[m], cores) && bs[m].validator_index
                == bs[hi].validator_index ==> m == lo || m == hi) ==> exists|k: int|
            0 <= k < out.len() && #[trigger] out[k] == bs[hi],
{
    let v = bs[hi].validator_index;
    // Some index of this validator is selected: one with the most bits set,
    // the earliest among those.
    let best = choose_best(bs, cores, v, hi);
    assert(is_selected(bs, cores, best));
    let k0 = choose|k: int| 0 <= k < out.len() && #[trigger] out[k] == bs[best];
    assert(out[k0].validator_index == v);
    assert forall|k: int|
        0 <= k < out.len() && (#[trigger] out[k]).validator_index == v implies out[k] != bs[lo]
        && popcount(out[k].bits) >= popcount(bs[hi].bits) by {
        assert(is_kept_from(out[k], bs, cores));
        let i = choose|i: int| is_selected(bs, cores, i) && out[k] == bs[i];
        assert(bs[i].validator_index == v);
        assert(popcount(bs[hi].bits) <= popcount(bs[i].bits));
    }
    if forall|m: int|
        0 <= m < bs.len() && is_valid_bitfield(#[trigger] bs[m], cores) && bs[m].validator_index
            == v ==> m == lo || m == hi {
        assert(best == lo || best == hi);
        if best == lo {
            assert(popcount(bs[hi].bits) <= popcount(bs[lo].bits));
        }
        assert(out[k0] == bs[hi]);
    }
}

/// Among the well-formed bitfields of validator `v` (of which `i` is one),
/// the first with the most bits set.
proof fn choose_best(bs: Seq<BitfieldView>, cores: Seq<CoreState>, v: u32, i: int) -> (best: int)
    requires
        0 <= i < bs.len(),
        is_valid_bitfield(bs[i], cores),
        bs[i].validator_index == v,
    ensures
        is_selected(bs, cores, best),
        bs[best].validator_index == v,
    decreases (cores.len() - popcount(bs[i].bits)) * (bs.len() + 1) + i,
{
    lemma_popcount_bound(bs[i].bits);
    if exists|j: int|
        0 <= j < bs.len() && is_valid_bitfield(#[trigger] bs[j], cores) && bs[j].validator_index
            == v && (popcount(bs[j].bits) > popcount(bs[i].bits) || (j < i && popcount(bs[j].bits)
            == popcount(bs[i].bits))) {
        let j = choose|j: int|
            0 <= j < bs.len() && is_valid_bitfield(#[trigger] bs[j], cores) && bs[j].validator_index
                == v && (popcount(bs[j].bits) > popcount(bs[i].bits) || (j < i && popcount(
                bs[j].bits,
            ) == popcount(bs[i].bits)));
        lemma_popcount_bound(bs[j].bits);
        let n = bs.len() as int;
        let c = cores.len() as int;
        let pi = popcount(bs[i].bits) as int;
        let pj = popcount(bs[j].bits) as int;
        assert((c - pj) * (n + 1) + j < (c - pi) * (n + 1) + i) by (nonlinear_arith)
            requires
                0 <= i < n,
                0 <= j < n,
                pi <= c,
                pj <= c,
                pj > pi || (j < i && pj == pi),
        {
            if pj > pi {
                assert((c - pj) * (n + 1) + (n + 1) <= (c - pi) * (n + 1));
            }
        }
        assert(0 <= (c - pj) * (n + 1) + j) by (nonlinear_arith)
            requires
                0 <= j,
                pj <= c,
                0 <= n,
        ;
        choose_best(bs, cores, v, j)
    } else {
        i
    }
}


/// Validator `v` sent one of `bs` with the bit of core `core_idx` set.
pub open spec fn attests(bs: Seq<BitfieldView>, core_idx: int, v: int) -> bool {
    exists|j: int| 0 <= j < bs.len() && bs[j].validator_index == v && #[trigger] bs[j].bits[core_idx]
}

/// A core's on-chain availability bits with the bit for that core of every
/// bitfield in `bs` or-ed into its validator's position.
pub open spec fn folded_availability(
    core_idx: int,
    bs: Seq<BitfieldView>,
    availability: Seq<bool>,
) -> Seq<bool> {
    Seq::new(availability.len(), |v: int| availability[v] || attests(bs, core_idx, v))
}

/// At least two thirds of the bits are set.
pub open spec fn is_supermajority(bits: Seq<bool>) -> bool {
    3 * popcount(bits) >= 2 * bits.len()
}

/// Every bitfield of `bs` comes from a validator below `n`.
pub open spec fn validators_in_range(bs: Seq<BitfieldView>, n: nat) -> bool {
    forall|j: int| 0 <= j < bs.len() ==> (#[trigger] bs[j]).validator_index < n
}

/// Whether the candidate on core `core_idx` counts as available: every
/// bitfield's validator has a position in `availability`, and the folded
/// bits reach a two-thirds supermajority.
pub open spec fn core_available(core_idx: int, bs: Seq<BitfieldView>, availability: Seq<bool>) -> bool {
    validators_in_range(bs, availability.len()) && is_supermajority(
        folded_availability(core_idx, bs, availability),
    )
}

/// Decides whether the candidate on core `core_idx`, whose validators'
/// on-chain availability bits are `availability`, is available once the
/// bitfields' bits for that core are counted. A bitfield from a validator
/// without a position in `availability` makes the answer `false`.
pub fn bitfields_indicate_availability(
    core_idx: usize,
    bitfields: &[AvailabilityBitfield],
    availability: &Vec<bool>,
) -> (r: bool)
    requires
        forall|j: int| 0 <= j < bitfields@.len() ==> core_idx < (#[trigger] bitfields@[j]).bits@.len(),
    ensures
        r == core_available(core_idx as int, bitfield_views(bitfields@), availability@),
{
    let ghost bs = bitfield_views(bitfields@);
    let ghost n = availability@.len();
    let mut folded = copy_vec(availability);
    let mut j: usize = 0;
    while j < bitfields.len()
        invariant
            j <= bitfields.len(),
            bs == bitfield_views(bitfields@),
            n == availability@.len(),
            forall|jj: int| 0 <= jj < bitfields@.len() ==> core_idx < (#[trigger] bitfields@[jj]).bits@.len(),
            validators_in_range(bs.take(j as int), n),
            folded@ == folded_availability(core_idx as int, bs.take(j as int), availability@),
        decreases bitfields.len() - j,
    {
        let ghost t = bs.take(j as int);
        let ghost u = bs.take(j as int + 1);
        assert(u == t.push(bs[j as int]));
        assert(bs[j as int] == bitfields@[j as int]@);
        let v = bitfields[j].validator_index as usize;
        if v >= folded.len() {
            proof {
                assert(!validators_in_range(bs, n)) by {
                    assert(bs[j as int].validator_index >= n);
                }
            }
            return false;
        }
        let bit = bitfields[j].bits[core_idx];
        let ghost before = folded@;
        if bit {
            folded.set(v, true);
        }
        proof {
            assert forall|w: int| 0 <= w < n implies #[trigger] folded@[w] == (availability@[w]
                || attests(u, core_idx as int, w)) by {
                if attests(t, core_idx as int, w) {
                    let jj = choose|jj: int|
                        0 <= jj < t.len() && t[jj].validator_index == w
                            && #[trigger] t[jj].bits[core_idx as int];
                    assert(u[jj] == t[jj]);
                }
                if attests(u, core_idx as int, w) {
                    let jj = choose|jj: int|
                        0 <= jj < u.len() && u[jj].validator_index == w
                            && #[trigger] u[jj].bits[core_idx as int];
                    if jj < t.len() {
                        assert(u[jj] == t[jj]);
                    }
                }
                if bit && w == v {
                    assert(u[j as int].bits[core_idx as int]);
                }
            }
            assert(folded@ =~= folded_availability(core_idx as int, u, availability@));
            assert forall|jj: int| 0 <= jj < u.len() implies (#[trigger] u[jj]).validator_index < n by {
                if jj < t.len() {
                    assert(u[jj] == t[jj]);
                }
            }
        }
        j += 1;
    }
    proof {
        assert(bs.take(j as int) == bs);
        lemma_popcount_bound(folded@);
    }
    let ones = count_ones(&folded);
    3 * (ones as u128) >= 2 * (folded.len() as u128)
}


/// A core with `n` validators is available exactly when at least
/// `ceil(2n / 3)` of its folded bits are set; one bit fewer is not enough.
pub proof fn lemma_availability_threshold(core_idx: int, bs: Seq<BitfieldView>, availability: Seq<bool>)
    requires
        validators_in_range(bs, availability.len()),
    ensures
        core_available(core_idx, bs, availability) <==> popcount(
            folded_availability(core_idx, bs, availability),
        ) >= (2 * availability.len() + 2) / 3,
{
    let bits = folded_availability(core_idx, bs, availability);
    let n = bits.len() as int;
    let p = popcount(bits) as int;
    let q = (2 * n + 2) / 3;
    let r = (2 * n + 2) % 3;
    vstd::arithmetic::div_mod::lemma_fundamental_div_mod(2 * n + 2, 3);
    assert(3 * p >= 2 * n ==> p >= q) by (nonlinear_arith)
        requires
            2 * n + 2 == 3 * q + r,
            0 <= r < 3,
    ;
    assert(p >= q ==> 3 * p >= 2 * n) by (nonlinear_arith)
        requires
            2 * n + 2 == 3 * q + r,
            0 <= r < 3,
    ;
}

} // verus!
