//! The cursor paginator: a backward walk over a partition's history.
//!
//! The walk starts with a probe for the single most recent record, then
//! repeatedly asks for a page of records strictly older than the oldest one
//! seen so far, using that record's identity as an exclusive cursor. A page
//! shorter than the batch size — the empty page included — means the history
//! is exhausted. The decisions live in the [`Paginator`] state machine; a
//! caller performs each requested fetch and hands the page back. For a
//! remote source modelled as a [`RemoteChannel`], [`paginate_channel`] runs
//! the machine to completion and is proved to return the whole history in
//! `ceil_div(n, batch) + 1` fetches.

use vstd::prelude::*;

use crate::ceil_div;
use crate::msg::{Msg, MsgView, views};
use crate::store::all_ts_valid;

verus! {

/// Identities strictly decrease along the sequence: newest record first.
pub open spec fn ids_desc(s: Seq<MsgView>) -> bool {
    forall|a: int, b: int|
        0 <= a < b < s.len() ==> s[a].message_id > s[b].message_id
}

/// One partition of the simulated remote source: its records newest first.
pub struct RemoteChannel {
    pub channel_id: u64,
    pub name: String,
    pub msgs: Vec<Msg>,
}

impl RemoteChannel {
    /// Well-formed: newest first with strictly decreasing identities,
    /// interpretable timestamps, and enough headroom to count fetches.
    pub open spec fn wf(&self) -> bool {
        &&& ids_desc(views(self.msgs@))
        &&& all_ts_valid(views(self.msgs@))
        &&& self.msgs@.len() + 2 < usize::MAX
    }
}

/// The first position whose record is strictly older than the cursor.
pub open spec fn first_below(s: Seq<MsgView>, cursor: u64) -> int
    decreases s.len(),
{
    if s.len() == 0 {
        0
    } else if s[0].message_id < cursor {
        0
    } else {
        1 + first_below(s.drop_first(), cursor)
    }
}

/// The page a fetch below `cursor` returns: the records strictly older than
/// the cursor, newest first, at most `limit` of them.
pub open spec fn spec_page_before(s: Seq<MsgView>, cursor: u64, limit: nat) -> Seq<MsgView> {
    let fb = first_below(s, cursor);
    let m = if limit <= s.len() - fb {
        limit as int
    } else {
        s.len() - fb
    };
    s.subrange(fb, fb + m)
}

/// Positions scanned up to the first old-enough record characterize
/// `first_below`.
proof fn lemma_first_below_at(s: Seq<MsgView>, cursor: u64, idx: int)
    requires
        0 <= idx <= s.len(),
        forall|j: int| 0 <= j < idx ==> s[j].message_id >= cursor,
        idx < s.len() ==> s[idx].message_id < cursor,
    ensures
        first_below(s, cursor) == idx,
    decreases s.len(),
{
    if s.len() > 0 && idx > 0 {
        assert(s[0].message_id >= cursor);
        assert forall|j: int| 0 <= j < idx - 1 implies s.drop_first()[j].message_id
            >= cursor by {
            assert(s.drop_first()[j] == s[j + 1]);
        }
        assert(idx - 1 < s.drop_first().len() ==> s.drop_first()[idx - 1].message_id
            < cursor);
        lemma_first_below_at(s.drop_first(), cursor, idx - 1);
    }
}

/// Fetches the single most recent record of the partition, or nothing if it
/// has none. This models the probe call of the remote API.
pub fn fetch_newest(ch: &RemoteChannel) -> (page: Vec<Msg>)
    ensures
        views(page@) == views(ch.msgs@).take(if ch.msgs@.len() == 0 { 0int } else { 1int }),
{
    let mut page: Vec<Msg> = Vec::new();
    if ch.msgs.len() > 0 {
        page.push(ch.msgs[0].clone());
        proof {
            assert(views(page@) =~= views(ch.msgs@).take(1));
        }
    } else {
        proof {
            assert(views(page@) =~= views(ch.msgs@).take(0));
        }
    }
    page
}

/// Fetches up to `limit` records strictly older than the cursor, newest
/// first. This models the paged call of the remote API.
pub fn fetch_page_before(ch: &RemoteChannel, cursor: u64, limit: usize) -> (page: Vec<Msg>)
    ensures
        views(page@) == spec_page_before(views(ch.msgs@), cursor, limit as nat),
{
    let ghost s = views(ch.msgs@);
    let mut idx: usize = 0;
    while idx < ch.msgs.len() && ch.msgs[idx].message_id >= cursor
        invariant
            s == views(ch.msgs@),
            idx <= ch.msgs@.len(),
            forall|j: int| 0 <= j < idx ==> s[j].message_id >= cursor,
        decreases ch.msgs@.len() - idx,
    {
        assert(s[idx as int].message_id >= cursor);
        idx += 1;
    }
    proof {
        lemma_first_below_at(s, cursor, idx as int);
    }
    let mut page: Vec<Msg> = Vec::new();
    let mut t: usize = idx;
    while t < ch.msgs.len() && page.len() < limit
        invariant
            s == views(ch.msgs@),
            idx <= t <= ch.msgs@.len(),
            page@.len() == t - idx,
            page@.len() <= limit,
            views(page@) == s.subrange(idx as int, t as int),
        decreases ch.msgs@.len() - t,
    {
        page.push(ch.msgs[t].clone());
        proof {
            assert(views(page@) =~= s.subrange(idx as int, t + 1));
        }
        t += 1;
    }
    proof {
        assert(views(page@) =~= spec_page_before(s, cursor, limit as nat));
    }
    page
}

/// Where the paginator stands.
pub enum Phase {
    /// Before the probe for the most recent record.
    Probe,
    /// Walking pages backward from the oldest record seen.
    Paging,
    /// The walk is over: the history was exhausted or the caller aborted.
    Drained,
}

/// What the paginator asks its caller to do next.
pub enum FetchRequest {
    /// Fetch the single most recent record of the partition.
    Newest,
    /// Fetch up to the given number of records strictly older than the
    /// record with the given identity.
    Before(u64, usize),
    /// Nothing: the walk is over.
    Done,
}

/// The cursor paginator's state machine. The caller alternates
/// [`Paginator::request`], the fetch itself, and [`Paginator::deliver`];
/// a transport failure is reported with [`Paginator::abort`], which ends
/// the walk but keeps the records accumulated so far — fail-open, with the
/// failure left visible through [`Paginator::has_failed`].
pub struct Paginator {
    batch: usize,
    collected: Vec<Msg>,
    phase: Phase,
    failed: bool,
}

impl Paginator {
    /// The page size of the walk.
    pub closed spec fn batch_size(&self) -> usize {
        self.batch
    }

    /// The records accumulated so far, newest first.
    pub closed spec fn collected_view(&self) -> Seq<MsgView> {
        views(self.collected@)
    }

    /// Probing for the most recent record.
    pub closed spec fn probing(&self) -> bool {
        self.phase is Probe
    }

    /// Walking pages backward.
    pub closed spec fn paging(&self) -> bool {
        self.phase is Paging
    }

    /// The walk is over.
    pub closed spec fn drained(&self) -> bool {
        self.phase is Drained
    }

    /// The walk ended by [`Paginator::abort`] rather than by exhaustion.
    pub closed spec fn failed_spec(&self) -> bool {
        self.failed
    }

    /// Well-formed: a positive batch size, and a cursor to walk from
    /// whenever pages are still requested.
    pub closed spec fn wf(&self) -> bool {
        self.batch >= 1 && (self.phase is Paging ==> self.collected@.len() > 0)
    }

    /// A paginator about to probe the partition.
    pub fn new(batch: usize) -> (p: Paginator)
        requires
            batch >= 1,
        ensures
            p.wf(),
            p.probing(),
            !p.drained(),
            !p.paging(),
            !p.failed_spec(),
            p.batch_size() == batch,
            p.collected_view() == Seq::<MsgView>::empty(),
    {
        let p = Paginator { batch, collected: Vec::new(), phase: Phase::Probe, failed: false };
        proof {
            assert(p.collected_view() =~= Seq::<MsgView>::empty());
        }
        p
    }

    /// What the caller should fetch next.
    pub fn request(&self) -> (r: FetchRequest)
        requires
            self.wf(),
        ensures
            self.probing() ==> r == FetchRequest::Newest,
            self.paging() ==> r == FetchRequest::Before(
                self.collected_view().last().message_id,
                self.batch_size(),
            ),
            self.drained() ==> r == FetchRequest::Done,
    {
        match self.phase {
            Phase::Probe => FetchRequest::Newest,
            Phase::Paging => {
                let last = &self.collected[self.collected.len() - 1];
                FetchRequest::Before(last.message_id, self.batch)
            },
            Phase::Drained => FetchRequest::Done,
        }
    }

    /// Hands the paginator the page the last request produced. The records
    /// are appended; a page shorter than requested — for the probe, an
    /// empty one — ends the walk.
    pub fn deliver(&mut self, page: Vec<Msg>)
        requires
            old(self).wf(),
            !old(self).drained(),
        ensures
            final(self).wf(),
            final(self).batch_size() == old(self).batch_size(),
            final(self).failed_spec() == old(self).failed_spec(),
            final(self).collected_view() == old(self).collected_view() + views(page@),
            old(self).probing() ==> if page@.len() == 0 {
                final(self).drained()
            } else {
                final(self).paging()
            },
            old(self).paging() ==> if page@.len() < old(self).batch_size() {
                final(self).drained()
            } else {
                final(self).paging()
            },
            final(self).probing() == false,
    {
        let short = match self.phase {
            Phase::Probe => page.len() == 0,
            Phase::Paging => page.len() < self.batch,
            Phase::Drained => true,
        };
        let mut page = page;
        let ghost oldc = self.collected@;
        let ghost addc = page@;
        self.collected.append(&mut page);
        proof {
            assert(views(self.collected@) =~= views(oldc) + views(addc));
        }
        self.phase = if short {
            Phase::Drained
        } else {
            Phase::Paging
        };
    }

    /// Records a transport failure: the walk ends, what was accumulated is
    /// kept, and the failure stays visible to the caller.
    pub fn abort(&mut self)
        ensures
            old(self).wf() ==> final(self).wf(),
            final(self).drained(),
            final(self).failed_spec(),
            final(self).batch_size() == old(self).batch_size(),
            final(self).collected_view() == old(self).collected_view(),
    {
        self.phase = Phase::Drained;
        self.failed = true;
    }

    /// Whether the walk is over.
    pub fn is_done(&self) -> (r: bool)
        ensures
            r == self.drained(),
    {
        match self.phase {
            Phase::Drained => true,
            _ => false,
        }
    }

    /// Whether the walk ended in a transport failure.
    pub fn has_failed(&self) -> (r: bool)
        ensures
            r == self.failed_spec(),
    {
        self.failed
    }

    /// The progress signal: how many records have been accumulated.
    pub fn count(&self) -> (n: usize)
        ensures
            n == self.collected_view().len(),
    {
        self.collected.len()
    }

    /// The accumulated records, newest first.
    pub fn into_records(self) -> (r: Vec<Msg>)
        ensures
            views(r@) == self.collected_view(),
    {
        self.collected
    }
}

/// Runs a full pagination walk against a simulated remote partition.
/// Returns every record of the partition, newest first, and the number of
/// fetch calls made: the initial probe plus `ceil_div(n, batch)` page
/// fetches, ending on the first page shorter than the batch size.
pub fn paginate_channel(ch: &RemoteChannel, batch: usize) -> (r: (Vec<Msg>, usize))
    requires
        ch.wf(),
        batch >= 1,
    ensures
        views(r.0@) == views(ch.msgs@),
        r.1 == ceil_div(ch.msgs@.len() as nat, batch as nat) + 1,
{
    let ghost s = views(ch.msgs@);
    let ghost n = s.len();
    let mut pg = Paginator::new(batch);
    let mut calls: usize = 0;
    while !pg.is_done()
        invariant
            ch.wf(),
            s == views(ch.msgs@),
            n == s.len(),
            pg.wf(),
            pg.batch_size() == batch,
            batch >= 1,
            !pg.failed_spec(),
            pg.collected_view() == s.take(pg.collected_view().len() as int),
            pg.collected_view().len() <= n,
            pg.probing() ==> pg.collected_view().len() == 0 && calls == 0,
            pg.paging() ==> {
                let k = pg.collected_view().len() as int;
                &&& 1 <= k <= n
                &&& (k - 1) % (batch as int) == 0
                &&& calls == 1 + (k - 1) / (batch as int)
            },
            pg.drained() ==> pg.collected_view().len() == n && calls == ceil_div(
                n,
                batch as nat,
            ) + 1,
            calls <= n + 1,
        decreases n - pg.collected_view().len(), (if pg.drained() { 0int } else if pg.paging() { 1int } else { 2int }),
    {
        let ghost k = pg.collected_view().len() as int;
        proof {
            if pg.paging() {
                vstd::arithmetic::div_mod::lemma_div_nonincreasing(k - 1, batch as int);
            }
        }
        let req = pg.request();
        match req {
            FetchRequest::Newest => {
                let page = fetch_newest(ch);
                calls += 1;
                proof {
                    if n == 0 {
                        vstd::arithmetic::div_mod::lemma_basic_div(
                            batch as int - 1,
                            batch as int,
                        );
                        assert(ceil_div(0, batch as nat) == 0);
                    } else {
                        vstd::arithmetic::div_mod::lemma_basic_div(0, batch as int);
                        assert(s.take(0int) + views(page@) =~= s.take(1int));
                    }
                }
                pg.deliver(page);
            },
            FetchRequest::Before(cursor, limit) => {
                proof {
                    assert(s.take(k).last() == s[k - 1]);
                    assert forall|j: int| 0 <= j < k implies s[j].message_id >= cursor by {
                        if j < k - 1 {
                            assert(s[j].message_id > s[k - 1].message_id);
                        }
                    }
                    if k < n {
                        assert(s[k].message_id < s[k - 1].message_id);
                    }
                    lemma_first_below_at(s, cursor, k);
                }
                let page = fetch_page_before(ch, cursor, limit);
                let ghost m = page@.len() as int;
                calls += 1;
                proof {
                    assert(s.take(k) + views(page@) =~= s.take(k + m));
                    let b = batch as int;
                    let j = (k - 1) / b;
                    vstd::arithmetic::div_mod::lemma_fundamental_div_mod(k - 1, b);
                    assert(k - 1 == b * j);
                    if m < b {
                        assert(m == n - k);
                        assert(n + b - 1 == (j + 1) * b + m) by (nonlinear_arith)
                            requires
                                k - 1 == b * j,
                                n == k + m,
                        ;
                        vstd::arithmetic::div_mod::lemma_fundamental_div_mod_converse(
                            n + b - 1,
                            b,
                            j + 1,
                            m,
                        );
                        assert(ceil_div(n as nat, batch as nat) == j + 1);
                    } else {
                        assert(m == b);
                        let k2 = k + m;
                        assert(k2 - 1 == b * (j + 1) + 0) by (nonlinear_arith)
                            requires
                                k - 1 == b * j,
                                m == b,
                                k2 == k + m,
                        ;
                        vstd::arithmetic::div_mod::lemma_fundamental_div_mod_converse(
                            k2 - 1,
                            b,
                            j + 1,
                            0,
                        );
                    }
                }
                pg.deliver(page);
            },
            FetchRequest::Done => {
                proof {
                    assert(false);
                }
            },
        }
    }
    proof {
        assert(pg.collected_view() == s.take(n as int));
        assert(s.take(n as int) =~= s);
    }
    let records = pg.into_records();
    (records, calls)
}

} // verus!
