//! The ingestion orchestrator: one pass over a parent collection's
//! partitions, skipping the ones the completion tracker counts as done,
//! paginating and committing the rest, one batch per partition.

use vstd::prelude::*;

use crate::ceil_div;
use crate::msg::{MsgView, views};
use crate::paginate::{paginate_channel, RemoteChannel};
use crate::store::{count_in_partition, spec_commit, Store};

verus! {

/// The mathematical image of a remote partition: its key and its records,
/// newest first.
pub ghost struct ChanView {
    pub channel_id: u64,
    pub msgs: Seq<MsgView>,
}

impl View for RemoteChannel {
    type V = ChanView;

    open spec fn view(&self) -> ChanView {
        ChanView { channel_id: self.channel_id, msgs: views(self.msgs@) }
    }
}

/// The views of a sequence of remote partitions.
pub open spec fn chan_views(s: Seq<RemoteChannel>) -> Seq<ChanView> {
    s.map_values(|c: RemoteChannel| c@)
}

/// The simulated remote parent collection: its partitions in enumeration
/// order.
pub struct RemoteGuild {
    pub guild_id: u64,
    pub channels: Vec<RemoteChannel>,
}

impl RemoteGuild {
    /// Well-formed: every partition is.
    pub open spec fn wf(&self) -> bool {
        forall|i: int|
            0 <= i < self.channels@.len() ==> (#[trigger] self.channels@[i]).wf()
    }
}

/// What one orchestrator pass does at one partition: skip it when the
/// tracker counts it done; otherwise commit its whole history as one batch,
/// which fails and clears the fault if one is pending.
pub open spec fn gather_step(
    s: Seq<MsgView>,
    fault: bool,
    c: ChanView,
    parent: u64,
) -> (Seq<MsgView>, bool) {
    if count_in_partition(s, c.channel_id) > 0 {
        (s, fault)
    } else if fault {
        (s, false)
    } else {
        (spec_commit(s, c.channel_id, parent, c.msgs), false)
    }
}

/// A whole orchestrator pass, first partition first.
pub open spec fn spec_gather(
    s: Seq<MsgView>,
    fault: bool,
    chans: Seq<ChanView>,
    parent: u64,
) -> (Seq<MsgView>, bool)
    decreases chans.len(),
{
    if chans.len() == 0 {
        (s, fault)
    } else {
        let st = gather_step(s, fault, chans[0], parent);
        spec_gather(st.0, st.1, chans.drop_first(), parent)
    }
}

/// A pass over one more partition is the pass, then that partition's step.
pub proof fn lemma_gather_snoc(
    s: Seq<MsgView>,
    fault: bool,
    chans: Seq<ChanView>,
    c: ChanView,
    parent: u64,
)
    ensures
        spec_gather(s, fault, chans.push(c), parent) == gather_step(
            spec_gather(s, fault, chans, parent).0,
            spec_gather(s, fault, chans, parent).1,
            c,
            parent,
        ),
    decreases chans.len(),
{
    if chans.len() == 0 {
        assert(chans.push(c).drop_first() =~= Seq::<ChanView>::empty());
        assert(chans.push(c)[0] == c);
        let st = gather_step(s, fault, c, parent);
        assert(spec_gather(s, fault, chans.push(c), parent) == spec_gather(
            st.0,
            st.1,
            chans.push(c).drop_first(),
            parent,
        ));
        assert(spec_gather(st.0, st.1, chans.push(c).drop_first(), parent) == (st.0, st.1));
        assert((st.0, st.1) == st);
        assert(spec_gather(s, fault, chans, parent) == (s, fault));
    } else {
        assert(chans.push(c).drop_first() =~= chans.drop_first().push(c));
        assert(chans.push(c)[0] == chans[0]);
        let st = gather_step(s, fault, chans[0], parent);
        lemma_gather_snoc(st.0, st.1, chans.drop_first(), c, parent);
        assert(spec_gather(s, fault, chans.push(c), parent) == spec_gather(
            st.0,
            st.1,
            chans.drop_first().push(c),
            parent,
        ));
        assert(spec_gather(s, fault, chans, parent) == spec_gather(
            st.0,
            st.1,
            chans.drop_first(),
            parent,
        ));
    }
}

/// What the orchestrator reports of one partition.
pub struct ChannelReport {
    pub channel_id: u64,
    /// The tracker counted the partition done; nothing was fetched.
    pub skipped: bool,
    /// The batch commit failed; nothing of this partition became visible.
    pub failed: bool,
    /// Fetch calls made against the remote source for this partition.
    pub fetch_calls: usize,
    /// Records retrieved by the pagination walk.
    pub records: usize,
}

/// Appending a record can only raise a partition's count.
proof fn lemma_count_push(s: Seq<MsgView>, m: MsgView, p: u64)
    ensures
        count_in_partition(s.push(m), p) == count_in_partition(s, p) + if m.channel_id
            == p {
            1nat
        } else {
            0nat
        },
{
    assert(s.push(m).drop_last() =~= s);
    assert(s.push(m).last() == m);
}

/// A batch commit never lowers any partition's count.
pub proof fn lemma_commit_count_monotone(
    s: Seq<MsgView>,
    partition: u64,
    parent: u64,
    batch: Seq<MsgView>,
    p: u64,
)
    ensures
        count_in_partition(spec_commit(s, partition, parent, batch), p)
            >= count_in_partition(s, p),
    decreases batch.len(),
{
    if batch.len() > 0 {
        let s1 = crate::store::commit_one(s, partition, parent, batch[0]);
        if !crate::store::has_id(s, batch[0].message_id) {
            lemma_count_push(s, crate::store::keyed(batch[0], partition, parent), p);
        }
        lemma_commit_count_monotone(s1, partition, parent, batch.drop_first(), p);
    }
}

/// An orchestrator pass never lowers any partition's count.
pub proof fn lemma_gather_count_monotone(
    s: Seq<MsgView>,
    fault: bool,
    chans: Seq<ChanView>,
    parent: u64,
    p: u64,
)
    ensures
        count_in_partition(spec_gather(s, fault, chans, parent).0, p)
            >= count_in_partition(s, p),
    decreases chans.len(),
{
    if chans.len() > 0 {
        let st = gather_step(s, fault, chans[0], parent);
        lemma_commit_count_monotone(s, chans[0].channel_id, parent, chans[0].msgs, p);
        lemma_gather_count_monotone(st.0, st.1, chans.drop_first(), parent, p);
    }
}

/// Completion is monotone: once a partition has a stored record, no later
/// orchestrator pass fetches it again — whenever the pass reaches a
/// partition with that key, the tracker already counts it done.
pub proof fn lemma_never_refetched(
    s: Seq<MsgView>,
    fault: bool,
    chans: Seq<ChanView>,
    parent: u64,
    p: u64,
)
    requires
        count_in_partition(s, p) > 0,
    ensures
        forall|j: int|
            0 <= j < chans.len() && (#[trigger] chans[j]).channel_id == p
                ==> count_in_partition(
                spec_gather(s, fault, chans.take(j), parent).0,
                p,
            ) > 0,
{
    assert forall|j: int|
        0 <= j < chans.len() && (#[trigger] chans[j]).channel_id == p
            implies count_in_partition(
            spec_gather(s, fault, chans.take(j), parent).0,
            p,
        ) > 0 by {
        lemma_gather_count_monotone(s, fault, chans.take(j), parent, p);
    }
}

/// One orchestrator pass over a parent collection. Partitions are visited
/// in enumeration order; a partition the tracker counts as done is skipped
/// with no fetch at all; every other partition is paginated in full and
/// committed as one batch, and a commit failure is reported, not hidden,
/// while the pass goes on to the next partition.
pub fn gather_guild(store: &mut Store, remote: &RemoteGuild, batch: usize) -> (reports: Vec<
    ChannelReport,
>)
    requires
        old(store).wf(),
        remote.wf(),
        batch >= 1,
    ensures
        final(store).wf(),
        final(store)@ == spec_gather(
            old(store)@,
            old(store).fault_pending(),
            chan_views(remote.channels@),
            remote.guild_id,
        ).0,
        final(store).fault_pending() == spec_gather(
            old(store)@,
            old(store).fault_pending(),
            chan_views(remote.channels@),
            remote.guild_id,
        ).1,
        reports@.len() == remote.channels@.len(),
        forall|j: int|
            0 <= j < reports@.len() ==> {
                let cv = chan_views(remote.channels@);
                let pre = spec_gather(
                    old(store)@,
                    old(store).fault_pending(),
                    cv.take(j),
                    remote.guild_id,
                );
                let r = #[trigger] reports@[j];
                &&& r.channel_id == cv[j].channel_id
                &&& r.skipped == (count_in_partition(pre.0, cv[j].channel_id) > 0)
                &&& r.failed == (!r.skipped && pre.1)
                &&& r.fetch_calls == if r.skipped {
                    0int
                } else {
                    ceil_div(cv[j].msgs.len(), batch as nat) + 1int
                }
                &&& r.records == if r.skipped {
                    0int
                } else {
                    cv[j].msgs.len() as int
                }
            },
{
    let ghost s0 = store@;
    let ghost f0 = store.fault_pending();
    let ghost cv = chan_views(remote.channels@);
    let parent = remote.guild_id;
    let mut reports: Vec<ChannelReport> = Vec::new();
    let mut i: usize = 0;
    while i < remote.channels.len()
        invariant
            remote.wf(),
            batch >= 1,
            parent == remote.guild_id,
            s0 == old(store)@,
            f0 == old(store).fault_pending(),
            cv == chan_views(remote.channels@),
            i <= remote.channels@.len(),
            store.wf(),
            store@ == spec_gather(s0, f0, cv.take(i as int), parent).0,
            store.fault_pending() == spec_gather(s0, f0, cv.take(i as int), parent).1,
            reports@.len() == i,
            forall|j: int|
                0 <= j < i ==> {
                    let pre = spec_gather(s0, f0, cv.take(j), parent);
                    let r = #[trigger] reports@[j];
                    &&& r.channel_id == cv[j].channel_id
                    &&& r.skipped == (count_in_partition(pre.0, cv[j].channel_id) > 0)
                    &&& r.failed == (!r.skipped && pre.1)
                    &&& r.fetch_calls == if r.skipped {
                        0int
                    } else {
                        ceil_div(cv[j].msgs.len(), batch as nat) + 1int
                    }
                    &&& r.records == if r.skipped {
                        0int
                    } else {
                        cv[j].msgs.len() as int
                    }
                },
        decreases remote.channels@.len() - i,
    {
        let ch = &remote.channels[i];
        proof {
            assert(remote.channels@[i as int].wf());
            assert(cv.take(i + 1) =~= cv.take(i as int).push(cv[i as int]));
            lemma_gather_snoc(s0, f0, cv.take(i as int), cv[i as int], parent);
        }
        let done = store.is_partition_done(ch.channel_id);
        if done {
            reports.push(
                ChannelReport {
                    channel_id: ch.channel_id,
                    skipped: true,
                    failed: false,
                    fetch_calls: 0,
                    records: 0,
                },
            );
        } else {
            let fetched = paginate_channel(ch, batch);
            let n_records = fetched.0.len();
            let calls = fetched.1;
            let res = store.commit_batch(ch.channel_id, parent, &fetched.0);
            let failed = match res {
                Ok(_) => false,
                Err(_) => true,
            };
            reports.push(
                ChannelReport {
                    channel_id: ch.channel_id,
                    skipped: false,
                    failed,
                    fetch_calls: calls,
                    records: n_records,
                },
            );
        }
        i += 1;
    }
    proof {
        assert(cv.take(remote.channels@.len() as int) =~= cv);
    }
    reports
}

} // verus!
