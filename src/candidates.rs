//! Planning of backable-candidate requests per parachain, and merging of the
//! backed candidates that come back.

use vstd::prelude::*;

use crate::bitfields::{bitfield_views, bitfields_indicate_availability, core_available};
use crate::primitives::{
    AvailabilityBitfield, BackedCandidate, BitfieldView, BlockNumber, CandidateHash, CoreState,
    ParaId, ScheduledCore, H256,
};

verus! {

/// What one availability core contributes to the request plan: a candidate
/// that stays in its parachain's chain context, and a parachain that gets a
/// new slot.
#[derive(Clone, Copy, Debug)]
pub struct CoreDecision {
    pub ancestor: Option<(ParaId, CandidateHash)>,
    pub new_slot: Option<ParaId>,
}

/// The parachain of a scheduled core, if any.
pub open spec fn scheduled_para(s: Option<ScheduledCore>) -> Option<ParaId> {
    match s {
        Some(c) => Some(c.para_id),
        None => None,
    }
}

/// An occupied core's candidate times out when the block under construction,
/// `block_number + 1`, reaches its timeout.
pub open spec fn is_timed_out(time_out_at: BlockNumber, block_number: BlockNumber) -> bool {
    time_out_at <= block_number + 1
}

/// The contribution of core `k` in state `core` at a relay parent of number
/// `block_number`, given the selected bitfields `bs`.
pub open spec fn core_decision(
    core: CoreState,
    k: int,
    bs: Seq<BitfieldView>,
    block_number: BlockNumber,
) -> CoreDecision {
    match core {
        CoreState::Free => CoreDecision { ancestor: None, new_slot: None },
        CoreState::Scheduled(s) => CoreDecision { ancestor: None, new_slot: Some(s.para_id) },
        CoreState::Occupied(o) => if core_available(k, bs, o.availability@) {
            CoreDecision {
                ancestor: Some((o.para_id, o.candidate_hash)),
                new_slot: scheduled_para(o.next_up_on_available),
            }
        } else if is_timed_out(o.time_out_at, block_number) {
            CoreDecision { ancestor: None, new_slot: scheduled_para(o.next_up_on_time_out) }
        } else {
            CoreDecision { ancestor: Some((o.para_id, o.candidate_hash)), new_slot: None }
        },
    }
}

/// The contributions of all cores, by core index.
pub open spec fn core_decisions(
    cores: Seq<CoreState>,
    bs: Seq<BitfieldView>,
    block_number: BlockNumber,
) -> Seq<CoreDecision> {
    Seq::new(cores.len(), |k: int| core_decision(cores[k], k, bs, block_number))
}

/// Number of new slots that `ds` gives parachain `p`.
pub open spec fn slot_count(ds: Seq<CoreDecision>, p: ParaId) -> nat
    decreases ds.len(),
{
    if ds.len() == 0 {
        0
    } else {
        slot_count(ds.drop_last(), p) + if ds.last().new_slot == Some(p) { 1nat } else { 0nat }
    }
}

/// The candidates that `ds` keeps in parachain `p`'s chain context.
pub open spec fn ancestor_set(ds: Seq<CoreDecision>, p: ParaId) -> Set<CandidateHash> {
    Set::new(|h: CandidateHash| exists|i: int| 0 <= i < ds.len() && (#[trigger] ds[i]).ancestor == Some((p, h)))
}

/// One query for the candidate-chain tracker: up to `count` backable
/// candidates of `para_id` that build on `ancestors`.
#[derive(Debug)]
pub struct CandidateRequest {
    pub para_id: ParaId,
    pub ancestors: Vec<CandidateHash>,
    pub count: usize,
}

/// Decides what core `k` contributes.
pub fn decide_core(
    core: &CoreState,
    k: usize,
    bitfields: &[AvailabilityBitfield],
    block_number: BlockNumber,
) -> (r: CoreDecision)
    requires
        forall|j: int| 0 <= j < bitfields@.len() ==> k < (#[trigger] bitfields@[j]).bits@.len(),
    ensures
        r == core_decision(*core, k as int, bitfield_views(bitfields@), block_number),
{
    match core {
        CoreState::Free => CoreDecision { ancestor: None, new_slot: None },
        CoreState::Scheduled(s) => CoreDecision { ancestor: None, new_slot: Some(s.para_id) },
        CoreState::Occupied(o) => {
            if bitfields_indicate_availability(k, bitfields, &o.availability) {
                let next = match o.next_up_on_available {
                    Some(c) => Some(c.para_id),
                    None => None,
                };
                CoreDecision { ancestor: Some((o.para_id, o.candidate_hash)), new_slot: next }
            } else if (o.time_out_at as u64) <= (block_number as u64) + 1 {
                let next = match o.next_up_on_time_out {
                    Some(c) => Some(c.para_id),
                    None => None,
                };
                CoreDecision { ancestor: None, new_slot: next }
            } else {
                CoreDecision { ancestor: Some((o.para_id, o.candidate_hash)), new_slot: None }
            }
        },
    }
}

proof fn lemma_slot_count_bound(ds: Seq<CoreDecision>, p: ParaId)
    ensures
        slot_count(ds, p) <= ds.len(),
        slot_count(ds, p) > 0 <==> exists|i: int| 0 <= i < ds.len() && (#[trigger] ds[i]).new_slot == Some(p),
    decreases ds.len(),
{
    if ds.len() > 0 {
        let t = ds.drop_last();
        lemma_slot_count_bound(t, p);
        if exists|i: int| 0 <= i < t.len() && (#[trigger] t[i]).new_slot == Some(p) {
            let i = choose|i: int| 0 <= i < t.len() && (#[trigger] t[i]).new_slot == Some(p);
            assert(ds[i] == t[i]);
        }
        if exists|i: int| 0 <= i < ds.len() && (#[trigger] ds[i]).new_slot == Some(p) {
            let i = choose|i: int| 0 <= i < ds.len() && (#[trigger] ds[i]).new_slot == Some(p);
            if i < t.len() {
                assert(t[i] == ds[i]);
            }
        }
    }
}

/// Counts the slots that `ds` gives parachain `p`.
fn count_slots(ds: &Vec<CoreDecision>, p: ParaId) -> (r: usize)
    ensures
        r == slot_count(ds@, p),
{
    let mut n: usize = 0;
    let mut i: usize = 0;
    while i < ds.len()
        invariant
            i <= ds.len(),
            n == slot_count(ds@.take(i as int), p),
        decreases ds.len() - i,
    {
        proof {
            assert(ds@.take(i as int + 1).drop_last() == ds@.take(i as int));
            lemma_slot_count_bound(ds@.take(i as int), p);
        }
        if ds[i].new_slot == Some(p) {
            n += 1;
        }
        i += 1;
    }
    assert(ds@.take(i as int) == ds@);
    n
}

/// Whether `h` is among `v`.
fn contains_hash(v: &Vec<CandidateHash>, h: CandidateHash) -> (r: bool)
    ensures
        r == v@.contains(h),
{
    let mut i: usize = 0;
    while i < v.len()
        invariant
            i <= v.len(),
            forall|j: int| 0 <= j < i ==> v@[j] != h,
        decreases v.len() - i,
    {
        if v[i] == h {
            return true;
        }
        i += 1;
    }
    false
}

/// The candidates that `ds` keeps in parachain `p`'s chain context, each
/// once.
fn collect_ancestors(ds: &Vec<CoreDecision>, p: ParaId) -> (r: Vec<CandidateHash>)
    ensures
        r@.no_duplicates(),
        forall|h: CandidateHash| r@.contains(h) <==> #[trigger] ancestor_set(ds@, p).contains(h),
{
    let mut out: Vec<CandidateHash> = Vec::new();
    let mut i: usize = 0;
    while i < ds.len()
        invariant
            i <= ds.len(),
            out@.no_duplicates(),
            forall|h: CandidateHash|
                out@.contains(h) <==> exists|j: int| 0 <= j < i && (#[trigger] ds@[j]).ancestor == Some((p, h)),
        decreases ds.len() - i,
    {
        let ghost prev = out@;
        assert(forall|h: CandidateHash|
            prev.contains(h) <==> exists|j: int| 0 <= j < i && (#[trigger] ds@[j]).ancestor == Some((p, h)));
        if let Some((q, h0)) = ds[i].ancestor {
            if q == p && !contains_hash(&out, h0) {
                out.push(h0);
                proof {
                    assert forall|h: CandidateHash| out@.contains(h) <==> (prev.contains(h) || h == h0) by {
                        if prev.contains(h) {
                            let j = choose|j: int| 0 <= j < prev.len() && prev[j] == h;
                            assert(out@[j] == prev[j]);
                        }
                        if h == h0 {
                            assert(out@[prev.len() as int] == h0);
                        }
                        if out@.contains(h) {
                            let j = choose|j: int| 0 <= j < out@.len() && out@[j] == h;
                            if j < prev.len() {
                                assert(prev[j] == h);
                            }
                        }
                    }
                }
            }
        }
        proof {
            assert forall|h: CandidateHash|
                out@.contains(h) <==> exists|j: int| 0 <= j < i + 1 && (#[trigger] ds@[j]).ancestor == Some((p, h)) by {
                if out@ == prev {
                    if ds@[i as int].ancestor == Some((p, h)) {
                        assert(prev.contains(h));
                    }
                } else {
                    assert(ds@[i as int].ancestor is Some);
                    let pair = ds@[i as int].ancestor->0;
                    let h0 = pair.1;
                    assert(ds@[i as int].ancestor == Some((p, h0)));
                    assert(out@.contains(h) <==> (prev.contains(h) || h == h0));
                }
            }
        }
        i += 1;
    }
    out
}

/// Plans the candidate-chain tracker queries for one relay parent: one
/// request per parachain that gets new slots, with the number of slots and
/// the candidates that stay in its chain context. `bitfields` are the
/// selected bitfields, one bit per core.
///
/// Per core: a scheduled core gives its parachain a slot; an occupied core
/// whose candidate is available keeps that candidate as an ancestor and gives
/// a slot to the parachain scheduled next on availability; one that timed out
/// gives a slot to the parachain scheduled next on time-out; one still
/// pending keeps its candidate as an ancestor.
pub fn backable_candidate_requests(
    cores: &[CoreState],
    bitfields: &[AvailabilityBitfield],
    block_number: BlockNumber,
) -> (r: Vec<CandidateRequest>)
    requires
        forall|j: int| 0 <= j < bitfields@.len() ==> (#[trigger] bitfields@[j]).bits@.len() == cores@.len(),
    ensures
        forall|i: int|
            0 <= i < r@.len() ==> (#[trigger] r@[i]).count == slot_count(
                core_decisions(cores@, bitfield_views(bitfields@), block_number),
                r@[i].para_id,
            ) && r@[i].count > 0,
        forall|i: int|
            0 <= i < r@.len() ==> (#[trigger] r@[i]).ancestors@.no_duplicates(),
        forall|i: int, h: CandidateHash|
            0 <= i < r@.len() ==> ((#[trigger] r@[i]).ancestors@.contains(h) <==> #[trigger] ancestor_set(
                core_decisions(cores@, bitfield_views(bitfields@), block_number),
                r@[i].para_id,
            ).contains(h)),
        forall|p: ParaId|
            #[trigger] slot_count(core_decisions(cores@, bitfield_views(bitfields@), block_number), p)
                > 0 ==> exists|i: int| 0 <= i < r@.len() && (#[trigger] r@[i]).para_id == p,
        forall|i: int, j: int|
            0 <= i < r@.len() && 0 <= j < r@.len() && i != j ==> (#[trigger] r@[i]).para_id
                != (#[trigger] r@[j]).para_id,
{
    let ghost bs = bitfield_views(bitfields@);
    let ghost spec_ds = core_decisions(cores@, bs, block_number);
    let mut ds: Vec<CoreDecision> = Vec::with_capacity(cores.len());
    let mut k: usize = 0;
    while k < cores.len()
        invariant
            k <= cores.len(),
            bs == bitfield_views(bitfields@),
            spec_ds == core_decisions(cores@, bs, block_number),
            forall|j: int| 0 <= j < bitfields@.len() ==> (#[trigger] bitfields@[j]).bits@.len() == cores@.len(),
            ds@ == spec_ds.take(k as int),
        decreases cores.len() - k,
    {
        let d = decide_core(&cores[k], k, bitfields, block_number);
        ds.push(d);
        k += 1;
    }
    assert(ds@ == spec_ds);
    let mut out: Vec<CandidateRequest> = Vec::new();
    let mut k: usize = 0;
    while k < ds.len()
        invariant
            k <= ds.len(),
            ds@ == spec_ds,
            forall|i: int|
                0 <= i < out@.len() ==> (#[trigger] out@[i]).count == slot_count(spec_ds, out@[i].para_id)
                    && out@[i].count > 0,
            forall|i: int| 0 <= i < out@.len() ==> (#[trigger] out@[i]).ancestors@.no_duplicates(),
            forall|i: int, h: CandidateHash|
                0 <= i < out@.len() ==> ((#[trigger] out@[i]).ancestors@.contains(h) <==> #[trigger] ancestor_set(
                    spec_ds,
                    out@[i].para_id,
                ).contains(h)),
            forall|kk: int|
                0 <= kk < k && (#[trigger] spec_ds[kk]).new_slot is Some ==> exists|i: int|
                    0 <= i < out@.len() && spec_ds[kk].new_slot == Some((#[trigger] out@[i]).para_id),
            forall|i: int, j: int|
                0 <= i < out@.len() && 0 <= j < out@.len() && i != j ==> (#[trigger] out@[i]).para_id
                    != (#[trigger] out@[j]).para_id,
        decreases ds.len() - k,
    {
        if let Some(q) = ds[k].new_slot {
            let mut present = false;
            let mut i: usize = 0;
            while i < out.len()
                invariant_except_break
                    !present,
                invariant
                    i <= out.len(),
                    forall|m: int| 0 <= m < i ==> (#[trigger] out@[m]).para_id != q,
                ensures
                    present ==> i < out.len() && out@[i as int].para_id == q,
                    !present ==> forall|m: int| 0 <= m < out.len() ==> (#[trigger] out@[m]).para_id != q,
                decreases out.len() - i,
            {
                if out[i].para_id == q {
                    present = true;
                    break;
                }
                i += 1;
            }
            if !present {
                let count = count_slots(&ds, q);
                let ancestors = collect_ancestors(&ds, q);
                proof {
                    lemma_slot_count_bound(spec_ds, q);
                    assert(spec_ds[k as int].new_slot == Some(q));
                }
                let ghost old_out = out@;
                out.push(CandidateRequest { para_id: q, ancestors, count });
                proof {
                    assert forall|kk: int|
                        0 <= kk < k + 1 && (#[trigger] spec_ds[kk]).new_slot is Some implies exists|i: int|
                        0 <= i < out@.len() && spec_ds[kk].new_slot == Some((#[trigger] out@[i]).para_id) by {
                        if kk < k {
                            let i0 = choose|i: int| 0 <= i < old_out.len() && spec_ds[kk].new_slot == Some((#[trigger] old_out[i]).para_id);
                            assert(out@[i0] == old_out[i0]);
                        } else {
                            assert(spec_ds[kk].new_slot == Some(out@[old_out.len() as int].para_id));
                        }
                    }
                }
            } else {
                proof {
                    assert forall|kk: int|
                        0 <= kk < k + 1 && (#[trigger] spec_ds[kk]).new_slot is Some implies exists|m: int|
                        0 <= m < out@.len() && spec_ds[kk].new_slot == Some((#[trigger] out@[m]).para_id) by {
                        if kk == k {
                            assert(spec_ds[kk].new_slot == Some(out@[i as int].para_id));
                        }
                    }
                }
            }
        }
        k += 1;
    }
    proof {
        assert forall|p: ParaId| #[trigger] slot_count(spec_ds, p) > 0 implies exists|i: int|
            0 <= i < out@.len() && (#[trigger] out@[i]).para_id == p by {
            lemma_slot_count_bound(spec_ds, p);
            let kk = choose|kk: int| 0 <= kk < spec_ds.len() && (#[trigger] spec_ds[kk]).new_slot == Some(p);
            assert(spec_ds[kk].new_slot is Some);
        }
    }
    out
}

/// The tracker's answers in `s` that name at least one candidate, in order.
pub open spec fn nonempty_only(
    s: Seq<(ParaId, Vec<(CandidateHash, H256)>)>,
) -> Seq<(ParaId, Vec<(CandidateHash, H256)>)>
    decreases s.len(),
{
    if s.len() == 0 {
        Seq::empty()
    } else if s.last().1@.len() > 0 {
        nonempty_only(s.drop_last()).push(s.last())
    } else {
        nonempty_only(s.drop_last())
    }
}

/// The tracker's answers with the empty ones left out: a parachain without
/// backable candidates gets no entry.
pub fn nonempty_backable_candidates(
    responses: Vec<(ParaId, Vec<(CandidateHash, H256)>)>,
) -> (r: Vec<(ParaId, Vec<(CandidateHash, H256)>)>)
    ensures
        r@ == nonempty_only(responses@),
{
    let ghost orig = responses@;
    let mut rest = responses;
    let mut out: Vec<(ParaId, Vec<(CandidateHash, H256)>)> = Vec::new();
    let ghost mut i: int = 0;
    while rest.len() > 0
        invariant
            0 <= i,
            i + rest@.len() == orig.len(),
            rest@ == orig.subrange(i, orig.len() as int),
            out@ == nonempty_only(orig.take(i)),
        decreases rest@.len(),
    {
        let ghost before = rest@;
        let x = rest.remove(0);
        proof {
            assert(before[0] == orig[i]);
            assert(rest@ =~= orig.subrange(i + 1, orig.len() as int));
            assert(orig.take(i + 1).drop_last() == orig.take(i));
        }
        if x.1.len() > 0 {
            out.push(x);
        }
        proof { i = i + 1; }
    }
    assert(orig.take(i) == orig);
    out
}

/// All candidates of `per_para`, parachain by parachain, each parachain's in
/// its own order.
pub open spec fn flatten_candidates(per_para: Seq<(ParaId, Vec<BackedCandidate>)>) -> Seq<BackedCandidate>
    decreases per_para.len(),
{
    if per_para.len() == 0 {
        Seq::empty()
    } else {
        flatten_candidates(per_para.drop_last()) + per_para.last().1@
    }
}

/// Some candidate of `s` upgrades its validation code.
pub open spec fn has_upgrade(s: Seq<BackedCandidate>) -> bool {
    exists|i: int| 0 <= i < s.len() && (#[trigger] s[i]).spec_has_code_upgrade()
}

/// `s` without every code-upgrading candidate after the first one.
pub open spec fn keep_first_upgrade(s: Seq<BackedCandidate>) -> Seq<BackedCandidate>
    decreases s.len(),
{
    if s.len() == 0 {
        Seq::empty()
    } else if s.last().spec_has_code_upgrade() && has_upgrade(s.drop_last()) {
        keep_first_upgrade(s.drop_last())
    } else {
        keep_first_upgrade(s.drop_last()).push(s.last())
    }
}

proof fn lemma_has_upgrade_push(s: Seq<BackedCandidate>, c: BackedCandidate)
    ensures
        has_upgrade(s.push(c)) == (has_upgrade(s) || c.spec_has_code_upgrade()),
{
    let u = s.push(c);
    if has_upgrade(s) {
        let i = choose|i: int| 0 <= i < s.len() && (#[trigger] s[i]).spec_has_code_upgrade();
        assert(u[i] == s[i]);
    }
    if c.spec_has_code_upgrade() {
        assert(u[s.len() as int] == c);
    }
    if has_upgrade(u) {
        let i = choose|i: int| 0 <= i < u.len() && (#[trigger] u[i]).spec_has_code_upgrade();
        if i < s.len() {
            assert(u[i] == s[i]);
        }
    }
}

/// Merges the backed candidates of all parachains into one list, parachain
/// by parachain, and keeps at most one candidate that upgrades validation
/// code: the first; every later one is left out, the rest stay.
pub fn merge_candidates(per_para: Vec<(ParaId, Vec<BackedCandidate>)>) -> (r: Vec<BackedCandidate>)
    ensures
        r@ == keep_first_upgrade(flatten_candidates(per_para@)),
{
    let ghost orig = per_para@;
    let mut rest = per_para;
    let mut out: Vec<BackedCandidate> = Vec::new();
    let mut seen = false;
    let ghost mut i: int = 0;
    while rest.len() > 0
        invariant
            0 <= i,
            i + rest@.len() == orig.len(),
            rest@ == orig.subrange(i, orig.len() as int),
            out@ == keep_first_upgrade(flatten_candidates(orig.take(i))),
            seen == has_upgrade(flatten_candidates(orig.take(i))),
        decreases rest@.len(),
    {
        let ghost before = rest@;
        let (para, cands) = rest.remove(0);
        proof {
            assert(before[0] == orig[i]);
            assert(rest@ =~= orig.subrange(i + 1, orig.len() as int));
        }
        let ghost head = flatten_candidates(orig.take(i));
        let ghost all = cands@;
        proof {
            assert(orig.take(i + 1).drop_last() == orig.take(i));
            assert(orig[i] == (para, cands));
            assert(flatten_candidates(orig.take(i + 1)) == head + all);
            assert(head + all.take(0) == head);
        }
        let mut cands = cands;
        let ghost mut j: int = 0;
        while cands.len() > 0
            invariant
                0 <= j,
                j + cands@.len() == all.len(),
                cands@ == all.subrange(j, all.len() as int),
                out@ == keep_first_upgrade(head + all.take(j)),
                seen == has_upgrade(head + all.take(j)),
            decreases cands@.len(),
        {
            let ghost before_c = cands@;
            let c = cands.remove(0);
            proof {
                assert(before_c[0] == all[j]);
                assert(cands@ =~= all.subrange(j + 1, all.len() as int));
                let s = head + all.take(j);
                assert(head + all.take(j + 1) == s.push(c));
                assert(s.push(c).drop_last() == s);
                lemma_has_upgrade_push(s, c);
            }
            let up = c.has_code_upgrade();
            if !(up && seen) {
                out.push(c);
            }
            seen = seen || up;
            proof { j = j + 1; }
        }
        proof {
            assert(all.take(j) == all);
        }
        proof { i = i + 1; }
    }
    assert(orig.take(i) == orig);
    out
}

/// Number of code-upgrading candidates in `s`.
pub open spec fn upgrade_count(s: Seq<BackedCandidate>) -> nat
    decreases s.len(),
{
    if s.len() == 0 {
        0
    } else {
        upgrade_count(s.drop_last()) + if s.last().spec_has_code_upgrade() { 1nat } else { 0nat }
    }
}

/// `i` is the first code-upgrading candidate of `s`.
pub open spec fn is_first_upgrade(s: Seq<BackedCandidate>, i: int) -> bool {
    &&& 0 <= i < s.len()
    &&& s[i].spec_has_code_upgrade()
    &&& forall|j: int| 0 <= j < i ==> !(#[trigger] s[j]).spec_has_code_upgrade()
}

proof fn lemma_upgrade_count_positive(s: Seq<BackedCandidate>)
    ensures
        has_upgrade(s) <==> upgrade_count(s) > 0,
    decreases s.len(),
{
    if s.len() > 0 {
        let t = s.drop_last();
        lemma_upgrade_count_positive(t);
        assert(s == t.push(s.last()));
        lemma_has_upgrade_push(t, s.last());
    }
}

/// Of `k >= 1` code-upgrading candidates the merge keeps exactly one, the
/// first in merge order, and drops the other `k - 1`; everything else stays.
pub proof fn lemma_single_code_upgrade(s: Seq<BackedCandidate>)
    requires
        upgrade_count(s) >= 1,
    ensures
        upgrade_count(keep_first_upgrade(s)) == 1,
        keep_first_upgrade(s).len() == s.len() - (upgrade_count(s) - 1),
        forall|k: int|
            0 <= k < keep_first_upgrade(s).len() && (#[trigger] keep_first_upgrade(s)[k]).spec_has_code_upgrade()
                ==> exists|i: int| is_first_upgrade(s, i) && s[i] == keep_first_upgrade(s)[k],
    decreases s.len(),
{
    lemma_keep_first_upgrade(s);
}

proof fn lemma_keep_first_upgrade(s: Seq<BackedCandidate>)
    ensures
        upgrade_count(keep_first_upgrade(s)) == if upgrade_count(s) > 0 { 1nat } else { 0nat },
        keep_first_upgrade(s).len() + upgrade_count(s) == s.len() + if upgrade_count(s) > 0 { 1nat } else { 0nat },
        forall|k: int|
            0 <= k < keep_first_upgrade(s).len() && (#[trigger] keep_first_upgrade(s)[k]).spec_has_code_upgrade()
                ==> exists|i: int| is_first_upgrade(s, i) && s[i] == keep_first_upgrade(s)[k],
    decreases s.len(),
{
    if s.len() > 0 {
        let t = s.drop_last();
        let c = s.last();
        lemma_keep_first_upgrade(t);
        lemma_upgrade_count_positive(t);
        let kt = keep_first_upgrade(t);
        let ks = keep_first_upgrade(s);
        if c.spec_has_code_upgrade() && has_upgrade(t) {
            assert(ks == kt);
            assert forall|k: int|
                0 <= k < ks.len() && (#[trigger] ks[k]).spec_has_code_upgrade() implies exists|i: int|
                is_first_upgrade(s, i) && s[i] == ks[k] by {
                let i = choose|i: int| is_first_upgrade(t, i) && t[i] == kt[k];
                assert(s[i] == t[i]);
                assert forall|j: int| 0 <= j < i implies !(#[trigger] s[j]).spec_has_code_upgrade() by {
                    assert(s[j] == t[j]);
                }
                assert(is_first_upgrade(s, i));
            }
        } else {
            assert(ks == kt.push(c));
            assert(kt.push(c).drop_last() == kt);
            assert forall|k: int|
                0 <= k < ks.len() && (#[trigger] ks[k]).spec_has_code_upgrade() implies exists|i: int|
                is_first_upgrade(s, i) && s[i] == ks[k] by {
                if k < kt.len() {
                    assert(ks[k] == kt[k]);
                    let i = choose|i: int| is_first_upgrade(t, i) && t[i] == kt[k];
                    assert(s[i] == t[i]);
                    assert forall|j: int| 0 <= j < i implies !(#[trigger] s[j]).spec_has_code_upgrade() by {
                        assert(s[j] == t[j]);
                    }
                    assert(is_first_upgrade(s, i));
                } else {
                    assert(ks[k] == c);
                    assert(!has_upgrade(t));
                    assert forall|j: int| 0 <= j < t.len() implies !(#[trigger] s[j]).spec_has_code_upgrade() by {
                        assert(s[j] == t[j]);
                    }
                    assert(is_first_upgrade(s, t.len() as int));
                }
            }
        }
    }
}

} // verus!
