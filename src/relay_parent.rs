//! The per-relay-parent state machine: it collects bitfields for each active
//! leaf, holds back inherent-data requests until the leaf's pre-propose delay
//! has passed, and says when to assemble inherent data and for whom.
//!
//! The event loop that runs it feeds in leaf updates, requests, provisionable
//! data and expired delays, and carries out what each step returns.

use vstd::prelude::*;

use crate::bitfields::bitfield_views;
use crate::primitives::{AvailabilityBitfield, BitfieldView, LeafInfo, H256};

verus! {

/// Identifies one caller waiting for inherent data.
pub type RequesterId = u64;

/// The state kept for one active leaf.
#[derive(Debug)]
pub struct PerRelayParent {
    pub leaf: LeafInfo,
    pub signed_bitfields: Vec<AvailabilityBitfield>,
    pub is_inherent_ready: bool,
    pub awaiting_inherent: Vec<RequesterId>,
}

/// What the contracts see of a relay parent's state.
pub struct RelayParentView {
    pub leaf: LeafInfo,
    pub bitfields: Seq<BitfieldView>,
    pub ready: bool,
    pub awaiting: Seq<RequesterId>,
}

impl View for PerRelayParent {
    type V = RelayParentView;

    open spec fn view(&self) -> RelayParentView {
        RelayParentView {
            leaf: self.leaf,
            bitfields: bitfield_views(self.signed_bitfields@),
            ready: self.is_inherent_ready,
            awaiting: self.awaiting_inherent@,
        }
    }
}

/// The state of a leaf just activated.
pub open spec fn fresh_view(leaf: LeafInfo) -> RelayParentView {
    RelayParentView { leaf, bitfields: Seq::empty(), ready: false, awaiting: Seq::empty() }
}

impl PerRelayParent {
    /// State for a newly activated leaf: no bitfields, not ready, nobody
    /// waiting.
    pub fn new(leaf: LeafInfo) -> (r: Self)
        ensures
            r@ == fresh_view(leaf),
    {
        let r = PerRelayParent {
            leaf,
            signed_bitfields: Vec::new(),
            is_inherent_ready: false,
            awaiting_inherent: Vec::new(),
        };
        assert(r@.bitfields =~= Seq::empty());
        r
    }
}

/// Data offered to the provisioner for a relay parent.
#[derive(Debug)]
pub enum ProvisionableData {
    /// A signed bitfield, with the index of the core it was gossiped for.
    Bitfield(u32, AvailabilityBitfield),
    /// A report of validator misbehaviour.
    MisbehaviorReport,
    /// A dispute vote.
    Dispute,
}

/// The relay parent after `data` arrived: a bitfield is appended, anything
/// else is ignored.
pub open spec fn after_data(s: RelayParentView, data: ProvisionableData) -> RelayParentView {
    match data {
        ProvisionableData::Bitfield(_, b) => RelayParentView { bitfields: s.bitfields.push(b@), ..s },
        _ => s,
    }
}

/// Records `provisionable_data` for the relay parent. Only bitfields are
/// kept: misbehaviour is dealt with through peer reputation, and disputes
/// are raised after inclusion, not here.
pub fn note_provisionable_data(per_relay_parent: &mut PerRelayParent, provisionable_data: ProvisionableData)
    ensures
        final(per_relay_parent)@ == after_data(old(per_relay_parent)@, provisionable_data),
{
    let ghost d = provisionable_data;
    match provisionable_data {
        ProvisionableData::Bitfield(_, signed_bitfield) => {
            let ghost before = per_relay_parent.signed_bitfields@;
            per_relay_parent.signed_bitfields.push(signed_bitfield);
            proof {
                assert(bitfield_views(per_relay_parent.signed_bitfields@) =~= bitfield_views(before).push(
                    signed_bitfield@,
                ));
            }
        },
        ProvisionableData::MisbehaviorReport => {},
        ProvisionableData::Dispute => {},
    }
}

/// No two entries of `s` are for the same leaf.
pub open spec fn unique_leaves(s: Seq<PerRelayParent>) -> bool {
    forall|i: int, j: int|
        0 <= i < s.len() && 0 <= j < s.len() && i != j ==> (#[trigger] s[i]).leaf.hash
            != (#[trigger] s[j]).leaf.hash
}

/// Some entry of `s` is for leaf `h`.
pub open spec fn has_leaf(s: Seq<PerRelayParent>, h: H256) -> bool {
    exists|i: int| 0 <= i < s.len() && (#[trigger] s[i]).leaf.hash == h
}

/// The entries of `s`, keyed by leaf hash.
pub open spec fn entries_view(s: Seq<PerRelayParent>) -> Map<H256, RelayParentView> {
    Map::new(
        |h: H256| has_leaf(s, h),
        |h: H256| s[choose|i: int| 0 <= i < s.len() && (#[trigger] s[i]).leaf.hash == h]@,
    )
}

proof fn lemma_entries_lookup(s: Seq<PerRelayParent>, i: int)
    requires
        unique_leaves(s),
        0 <= i < s.len(),
    ensures
        entries_view(s).contains_key(s[i].leaf.hash),
        entries_view(s)[s[i].leaf.hash] == s[i]@,
{
    let h = s[i].leaf.hash;
    assert(has_leaf(s, h));
    let j = choose|j: int| 0 <= j < s.len() && (#[trigger] s[j]).leaf.hash == h;
    assert(i == j);
}

proof fn lemma_entries_remove(s: Seq<PerRelayParent>, i: int)
    requires
        unique_leaves(s),
        0 <= i < s.len(),
    ensures
        unique_leaves(s.remove(i)),
        entries_view(s.remove(i)) == entries_view(s).remove(s[i].leaf.hash),
{
    let t = s.remove(i);
    let h = s[i].leaf.hash;
    assert forall|a: int, b: int|
        0 <= a < t.len() && 0 <= b < t.len() && a != b implies (#[trigger] t[a]).leaf.hash
        != (#[trigger] t[b]).leaf.hash by {
        let a2 = if a < i { a } else { a + 1 };
        let b2 = if b < i { b } else { b + 1 };
        assert(t[a] == s[a2]);
        assert(t[b] == s[b2]);
    }
    assert forall|k: H256| has_leaf(t, k) <==> (has_leaf(s, k) && k != h) by {
        if has_leaf(t, k) {
            let a = choose|a: int| 0 <= a < t.len() && (#[trigger] t[a]).leaf.hash == k;
            let a2 = if a < i { a } else { a + 1 };
            assert(t[a] == s[a2]);
        }
        if has_leaf(s, k) && k != h {
            let a = choose|a: int| 0 <= a < s.len() && (#[trigger] s[a]).leaf.hash == k;
            let a2 = if a < i { a } else { a - 1 };
            assert(t[a2] == s[a]);
        }
    }
    assert forall|k: H256| #[trigger] entries_view(t).contains_key(k) implies entries_view(t)[k]
        == entries_view(s)[k] by {
        let a = choose|a: int| 0 <= a < t.len() && (#[trigger] t[a]).leaf.hash == k;
        let a2 = if a < i { a } else { a + 1 };
        assert(t[a] == s[a2]);
        lemma_entries_lookup(t, a);
        lemma_entries_lookup(s, a2);
    }
    assert(entries_view(t) =~= entries_view(s).remove(h));
}

proof fn lemma_entries_push(s: Seq<PerRelayParent>, e: PerRelayParent)
    requires
        unique_leaves(s),
        !has_leaf(s, e.leaf.hash),
    ensures
        unique_leaves(s.push(e)),
        entries_view(s.push(e)) == entries_view(s).insert(e.leaf.hash, e@),
{
    let t = s.push(e);
    let h = e.leaf.hash;
    assert forall|a: int, b: int|
        0 <= a < t.len() && 0 <= b < t.len() && a != b implies (#[trigger] t[a]).leaf.hash
        != (#[trigger] t[b]).leaf.hash by {
        if a < s.len() {
            assert(t[a] == s[a]);
        }
        if b < s.len() {
            assert(t[b] == s[b]);
        }
    }
    assert forall|k: H256| has_leaf(t, k) <==> (has_leaf(s, k) || k == h) by {
        if has_leaf(t, k) {
            let a = choose|a: int| 0 <= a < t.len() && (#[trigger] t[a]).leaf.hash == k;
            if a < s.len() {
                assert(t[a] == s[a]);
            }
        }
        if has_leaf(s, k) {
            let a = choose|a: int| 0 <= a < s.len() && (#[trigger] s[a]).leaf.hash == k;
            assert(t[a] == s[a]);
        }
        if k == h {
            assert(t[s.len() as int] == e);
        }
    }
    assert forall|k: H256| #[trigger] entries_view(t).contains_key(k) implies entries_view(t)[k]
        == entries_view(s).insert(h, e@)[k] by {
        let a = choose|a: int| 0 <= a < t.len() && (#[trigger] t[a]).leaf.hash == k;
        lemma_entries_lookup(t, a);
        if a < s.len() {
            assert(t[a] == s[a]);
            lemma_entries_lookup(s, a);
        } else {
            assert(t[a] == e);
        }
    }
    assert(entries_view(t) =~= entries_view(s).insert(h, e@));
}

/// The provisioner's state: one entry per active leaf.
#[derive(Debug)]
pub struct ProvisionerState {
    entries: Vec<PerRelayParent>,
}

/// The work of assembling inherent data for one relay parent and sending it
/// to every requester listed, all from this one snapshot.
#[derive(Debug)]
pub struct InherentJob {
    pub leaf: LeafInfo,
    pub bitfields: Vec<AvailabilityBitfield>,
    pub requesters: Vec<RequesterId>,
}

/// What becomes of a request for inherent data.
#[derive(Debug)]
pub enum RequestOutcome {
    /// The relay parent is not an active leaf: the request is dropped.
    UnknownRelayParent,
    /// The leaf's delay has not passed: the requester waits.
    Queued,
    /// The leaf is ready: assemble and answer now.
    Assemble(InherentJob),
}

/// `job` is a snapshot of relay parent `s` for the requesters `requesters`.
pub open spec fn is_job_for(job: InherentJob, s: RelayParentView, requesters: Seq<RequesterId>) -> bool {
    &&& job.leaf == s.leaf
    &&& bitfield_views(job.bitfields@) == s.bitfields
    &&& job.requesters@ == requesters
}

/// The state after a leaf update: the deactivated leaves are dropped, then
/// the activated one starts afresh.
pub open spec fn after_leaves_update(
    m: Map<H256, RelayParentView>,
    activated: Option<LeafInfo>,
    deactivated: Seq<H256>,
) -> Map<H256, RelayParentView> {
    let kept = m.remove_keys(deactivated.to_set());
    match activated {
        Some(leaf) => kept.insert(leaf.hash, fresh_view(leaf)),
        None => kept,
    }
}

/// The state after `requester` asked for the inherent data of `rp`: it joins
/// the waiting list when the leaf is known and not ready yet.
pub open spec fn after_request(
    m: Map<H256, RelayParentView>,
    rp: H256,
    requester: RequesterId,
) -> Map<H256, RelayParentView> {
    if m.contains_key(rp) && !m[rp].ready {
        m.insert(rp, RelayParentView { awaiting: m[rp].awaiting.push(requester), ..m[rp] })
    } else {
        m
    }
}

/// The state after the delay of leaf `h` passed: it is ready and nobody is
/// left waiting.
pub open spec fn after_delay(m: Map<H256, RelayParentView>, h: H256) -> Map<H256, RelayParentView> {
    if m.contains_key(h) {
        m.insert(h, RelayParentView { ready: true, awaiting: Seq::empty(), ..m[h] })
    } else {
        m
    }
}

/// The state after `data` arrived for `rp`.
pub open spec fn after_provisionable(
    m: Map<H256, RelayParentView>,
    rp: H256,
    data: ProvisionableData,
) -> Map<H256, RelayParentView> {
    if m.contains_key(rp) {
        m.insert(rp, after_data(m[rp], data))
    } else {
        m
    }
}

impl ProvisionerState {
    /// Well formed: at most one entry per leaf. `new` establishes it and
    /// every step keeps it.
    pub closed spec fn wf(&self) -> bool {
        unique_leaves(self.entries@)
    }

    /// The state of each active leaf, by leaf hash.
    pub closed spec fn view(&self) -> Map<H256, RelayParentView> {
        entries_view(self.entries@)
    }

    /// No active leaves.
    pub fn new() -> (r: Self)
        ensures
            r.wf(),
            r.view() == Map::<H256, RelayParentView>::empty(),
    {
        let r = ProvisionerState { entries: Vec::new() };
        assert(r.view() =~= Map::<H256, RelayParentView>::empty());
        r
    }

    fn find(&self, h: H256) -> (r: Option<usize>)
        requires
            self.wf(),
        ensures
            match r {
                Some(i) => i < self.entries@.len() && self.entries@[i as int].leaf.hash == h,
                None => !has_leaf(self.entries@, h),
            },
            r is Some <==> self.view().contains_key(h),
    {
        let mut i: usize = 0;
        while i < self.entries.len()
            invariant
                i <= self.entries@.len(),
                forall|j: int| 0 <= j < i ==> (#[trigger] self.entries@[j]).leaf.hash != h,
            decreases self.entries@.len() - i,
        {
            if self.entries[i].leaf.hash == h {
                return Some(i);
            }
            i += 1;
        }
        None
    }

    /// Whether `h` is an active leaf.
    pub fn is_active(&self, h: H256) -> (r: bool)
        requires
            self.wf(),
        ensures
            r == self.view().contains_key(h),
    {
        self.find(h).is_some()
    }

    fn remove_leaf(&mut self, h: H256)
        requires
            old(self).wf(),
        ensures
            final(self).wf(),
            final(self).view() == old(self).view().remove(h),
            !has_leaf(final(self).entries@, h),
    {
        match self.find(h) {
            Some(i) => {
                proof {
                    lemma_entries_remove(self.entries@, i as int);
                }
                self.entries.remove(i);
            },
            None => {
                assert(self.view() =~= self.view().remove(h));
            },
        }
        assert(!self.view().contains_key(h));
    }

    /// Applies a leaf update: forgets every deactivated leaf, with whatever
    /// it had collected and whoever was waiting on it, then starts the
    /// activated leaf afresh. Returns the leaf whose pre-propose delay must
    /// now be armed.
    pub fn handle_active_leaves_update(
        &mut self,
        activated: Option<LeafInfo>,
        deactivated: &[H256],
    ) -> (r: Option<H256>)
        requires
            old(self).wf(),
        ensures
            final(self).wf(),
            final(self).view() == after_leaves_update(old(self).view(), activated, deactivated@),
            r == match activated {
                Some(leaf) => Some(leaf.hash),
                None => None::<H256>,
            },
    {
        let ghost m0 = self.view();
        let mut i: usize = 0;
        while i < deactivated.len()
            invariant
                i <= deactivated@.len(),
                self.wf(),
                self.view() == m0.remove_keys(deactivated@.take(i as int).to_set()),
            decreases deactivated@.len() - i,
        {
            self.remove_leaf(deactivated[i]);
            proof {
                assert(deactivated@.take(i as int + 1) == deactivated@.take(i as int).push(deactivated@[i as int]));
                deactivated@.take(i as int).lemma_push_to_set_commute(deactivated@[i as int]);
                assert(self.view() =~= m0.remove_keys(deactivated@.take(i as int + 1).to_set()));
            }
            i += 1;
        }
        assert(deactivated@.take(i as int) == deactivated@);
        match activated {
            Some(leaf) => {
                self.remove_leaf(leaf.hash);
                let e = PerRelayParent::new(leaf);
                proof {
                    lemma_entries_push(self.entries@, e);
                }
                self.entries.push(e);
                assert(self.view() =~= after_leaves_update(m0, activated, deactivated@));
                Some(leaf.hash)
            },
            None => None,
        }
    }

    /// Takes entry `i` out, to be put back with `put_back`.
    fn take_entry(&mut self, i: usize) -> (e: PerRelayParent)
        requires
            old(self).wf(),
            i < old(self).entries@.len(),
        ensures
            e == old(self).entries@[i as int],
            old(self).view().contains_key(e.leaf.hash),
            old(self).view()[e.leaf.hash] == e@,
            final(self).wf(),
            !has_leaf(final(self).entries@, e.leaf.hash),
            final(self).view() == old(self).view().remove(e.leaf.hash),
    {
        proof {
            lemma_entries_lookup(self.entries@, i as int);
            lemma_entries_remove(self.entries@, i as int);
        }
        let e = self.entries.remove(i);
        proof {
            if has_leaf(self.entries@, e.leaf.hash) {
                assert(entries_view(self.entries@).contains_key(e.leaf.hash));
            }
        }
        e
    }

    fn put_back(&mut self, e: PerRelayParent)
        requires
            old(self).wf(),
            !has_leaf(old(self).entries@, e.leaf.hash),
        ensures
            final(self).wf(),
            final(self).view() == old(self).view().insert(e.leaf.hash, e@),
    {
        proof {
            lemma_entries_push(self.entries@, e);
        }
        self.entries.push(e);
    }

    /// A request for the inherent data of `relay_parent`. Before the leaf's
    /// delay has passed the requester is queued and gets no answer yet;
    /// after it, the data is assembled for this requester at once. A request
    /// for a relay parent that is not an active leaf is dropped.
    pub fn handle_request_inherent_data(&mut self, relay_parent: H256, requester: RequesterId) -> (r:
        RequestOutcome)
        requires
            old(self).wf(),
        ensures
            final(self).wf(),
            final(self).view() == after_request(old(self).view(), relay_parent, requester),
            !old(self).view().contains_key(relay_parent) <==> r is UnknownRelayParent,
            old(self).view().contains_key(relay_parent) && !old(self).view()[relay_parent].ready
                <==> r is Queued,
            r matches RequestOutcome::Assemble(job) ==> old(self).view().contains_key(relay_parent)
                && old(self).view()[relay_parent].ready && is_job_for(
                job,
                old(self).view()[relay_parent],
                seq![requester],
            ),
    {
        let ghost m0 = self.view();
        match self.find(relay_parent) {
            None => {
                RequestOutcome::UnknownRelayParent
            },
            Some(i) => {
                let mut e = self.take_entry(i);
                if e.is_inherent_ready {
                    let job = InherentJob {
                        leaf: e.leaf,
                        bitfields: copy_bitfields(&e.signed_bitfields),
                        requesters: vec![requester],
                    };
                    self.put_back(e);
                    assert(self.view() =~= m0);
                    assert(job.requesters@ =~= seq![requester]);
                    RequestOutcome::Assemble(job)
                } else {
                    e.awaiting_inherent.push(requester);
                    self.put_back(e);
                    assert(self.view() =~= after_request(m0, relay_parent, requester));
                    RequestOutcome::Queued
                }
            },
        }
    }

    /// Provisionable data for `relay_parent`; ignored when that relay parent
    /// is not an active leaf.
    pub fn handle_provisionable_data(&mut self, relay_parent: H256, data: ProvisionableData)
        requires
            old(self).wf(),
        ensures
            final(self).wf(),
            final(self).view() == after_provisionable(old(self).view(), relay_parent, data),
    {
        let ghost m0 = self.view();
        match self.find(relay_parent) {
            None => {},
            Some(i) => {
                let mut e = self.take_entry(i);
                note_provisionable_data(&mut e, data);
                self.put_back(e);
                assert(self.view() =~= after_provisionable(m0, relay_parent, data));
            },
        }
    }

    /// The pre-propose delay of leaf `h` has passed: the leaf becomes ready,
    /// and everyone who was waiting is answered from one assembly. Nothing
    /// happens for a leaf that is no longer active.
    pub fn handle_inherent_delay(&mut self, h: H256) -> (r: Option<InherentJob>)
        requires
            old(self).wf(),
        ensures
            final(self).wf(),
            final(self).view() == after_delay(old(self).view(), h),
            r is Some <==> old(self).view().contains_key(h) && old(self).view()[h].awaiting.len() > 0,
            r matches Some(job) ==> is_job_for(job, old(self).view()[h], old(self).view()[h].awaiting),
    {
        let ghost m0 = self.view();
        match self.find(h) {
            None => {
                None
            },
            Some(i) => {
                let e = self.take_entry(i);
                let PerRelayParent { leaf, signed_bitfields, is_inherent_ready: _, awaiting_inherent } = e;
                let r = if awaiting_inherent.len() > 0 {
                    Some(InherentJob { leaf, bitfields: copy_bitfields(&signed_bitfields), requesters: awaiting_inherent })
                } else {
                    None
                };
                let e = PerRelayParent { leaf, signed_bitfields, is_inherent_ready: true, awaiting_inherent: Vec::new() };
                assert(e@.awaiting =~= Seq::<RequesterId>::empty());
                self.put_back(e);
                assert(self.view() =~= after_delay(m0, h));
                r
            },
        }
    }
}

/// Copies of `bs`, in order.
fn copy_bitfields(bs: &Vec<AvailabilityBitfield>) -> (r: Vec<AvailabilityBitfield>)
    ensures
        bitfield_views(r@) == bitfield_views(bs@),
{
    let mut r: Vec<AvailabilityBitfield> = Vec::with_capacity(bs.len());
    let mut i: usize = 0;
    while i < bs.len()
        invariant
            i <= bs@.len(),
            bitfield_views(r@) == bitfield_views(bs@).take(i as int),
        decreases bs@.len() - i,
    {
        let ghost before = r@;
        r.push(bs[i].duplicate());
        proof {
            assert(bitfield_views(r@) =~= bitfield_views(before).push(bs@[i as int]@));
            assert(bitfield_views(bs@).take(i as int + 1) =~= bitfield_views(bs@).take(i as int).push(
                bs@[i as int]@,
            ));
        }
        i += 1;
    }
    assert(bitfield_views(bs@).take(i as int) =~= bitfield_views(bs@));
    r
}

/// The state after `requesters` asked, in order, for the inherent data of
/// `rp`.
pub open spec fn after_requests(
    m: Map<H256, RelayParentView>,
    rp: H256,
    requesters: Seq<RequesterId>,
) -> Map<H256, RelayParentView>
    decreases requesters.len(),
{
    if requesters.len() == 0 {
        m
    } else {
        after_request(after_requests(m, rp, requesters.drop_last()), rp, requesters.last())
    }
}

/// Requests made before a leaf's delay passes are all queued, none answered,
/// and they leave the leaf's snapshot alone; when the delay passes, the one
/// job that the leaf's step returns serves every one of them, in order,
/// after those already waiting, and the leaf is left ready with nobody
/// waiting.
pub proof fn lemma_readiness_debounce(
    m: Map<H256, RelayParentView>,
    rp: H256,
    requesters: Seq<RequesterId>,
)
    requires
        m.contains_key(rp),
        !m[rp].ready,
    ensures
        forall|i: int|
            0 <= i <= requesters.len() ==> (#[trigger] after_requests(m, rp, requesters.take(i))).contains_key(rp)
                && !after_requests(m, rp, requesters.take(i))[rp].ready,
        after_requests(m, rp, requesters)[rp].awaiting == m[rp].awaiting + requesters,
        after_requests(m, rp, requesters)[rp].leaf == m[rp].leaf,
        after_requests(m, rp, requesters)[rp].bitfields == m[rp].bitfields,
        after_delay(after_requests(m, rp, requesters), rp)[rp].ready,
        after_delay(after_requests(m, rp, requesters), rp)[rp].awaiting.len() == 0,
    decreases requesters.len(),
{
    if requesters.len() > 0 {
        let t = requesters.drop_last();
        lemma_readiness_debounce(m, rp, t);
        assert(t.take(t.len() as int) == t);
        assert forall|i: int|
            0 <= i <= requesters.len() implies (#[trigger] after_requests(m, rp, requesters.take(i))).contains_key(rp)
            && !after_requests(m, rp, requesters.take(i))[rp].ready by {
            if i < requesters.len() {
                assert(requesters.take(i) == t.take(i));
            } else {
                assert(requesters.take(i) == requesters);
            }
        }
        assert(m[rp].awaiting + requesters == (m[rp].awaiting + t).push(requesters.last()));
    } else {
        assert(requesters.take(0) == requesters);
        assert(m[rp].awaiting + requesters == m[rp].awaiting);
    }
}

/// Once leaf `r` is deactivated (and not activated again by the same update)
/// nothing is kept for it: an expired delay, a request or data for it later
/// leaves the state as it is, and the request is dropped.
pub proof fn lemma_leaf_teardown(
    m: Map<H256, RelayParentView>,
    activated: Option<LeafInfo>,
    deactivated: Seq<H256>,
    r: H256,
    requester: RequesterId,
    data: ProvisionableData,
)
    requires
        deactivated.contains(r),
        activated matches Some(leaf) ==> leaf.hash != r,
    ensures
        !after_leaves_update(m, activated, deactivated).contains_key(r),
        after_delay(after_leaves_update(m, activated, deactivated), r) == after_leaves_update(
            m,
            activated,
            deactivated,
        ),
        after_request(after_leaves_update(m, activated, deactivated), r, requester)
            == after_leaves_update(m, activated, deactivated),
        after_provisionable(after_leaves_update(m, activated, deactivated), r, data)
            == after_leaves_update(m, activated, deactivated),
{
    assert(deactivated.to_set().contains(r));
}

} // verus!
