//! The record store: keyed storage with idempotent inserts, atomic batch
//! commits, per-partition counting, and the weekly word-occurrence query.

use vstd::prelude::*;

use crate::msg::{Msg, MsgView, views};
use crate::text::{contains_sub, contains_str};
use crate::weeks::{
    iso_week_of, iso_week_parts, key_before, key_lt, ts_valid, week_label, week_label_of,
};

verus! {

/// Some stored record carries this identity.
pub open spec fn has_id(s: Seq<MsgView>, id: u64) -> bool {
    exists|i: int| 0 <= i < s.len() && s[i].message_id == id
}

/// No two stored records share an identity.
pub open spec fn unique_ids(s: Seq<MsgView>) -> bool {
    forall|i: int, j: int|
        0 <= i < j < s.len() ==> s[i].message_id != s[j].message_id
}

/// Every stored timestamp is a calendar date this library can interpret.
pub open spec fn all_ts_valid(s: Seq<MsgView>) -> bool {
    forall|i: int| 0 <= i < s.len() ==> ts_valid(#[trigger] s[i].timestamp)
}

/// The record as stored: its partition and parent keys are the ones the
/// commit was made under.
pub open spec fn keyed(m: MsgView, partition: u64, parent: u64) -> MsgView {
    MsgView { channel_id: partition, guild_id: parent, ..m }
}

/// One record committed to the store: ignored if its identity is already
/// present, appended otherwise.
pub open spec fn commit_one(
    s: Seq<MsgView>,
    partition: u64,
    parent: u64,
    m: MsgView,
) -> Seq<MsgView> {
    if has_id(s, m.message_id) {
        s
    } else {
        s.push(keyed(m, partition, parent))
    }
}

/// A whole batch committed to the store, first record first.
pub open spec fn spec_commit(
    s: Seq<MsgView>,
    partition: u64,
    parent: u64,
    batch: Seq<MsgView>,
) -> Seq<MsgView>
    decreases batch.len(),
{
    if batch.len() == 0 {
        s
    } else {
        spec_commit(
            commit_one(s, partition, parent, batch[0]),
            partition,
            parent,
            batch.drop_first(),
        )
    }
}

/// How many stored records belong to a partition.
pub open spec fn count_in_partition(s: Seq<MsgView>, partition: u64) -> nat
    decreases s.len(),
{
    if s.len() == 0 {
        0
    } else {
        count_in_partition(s.drop_last(), partition) + if s.last().channel_id
            == partition {
            1nat
        } else {
            0nat
        }
    }
}

/// A batch commit failed; the store is left exactly as it was.
#[derive(Clone, Copy, Debug, PartialEq, Eq, Structural)]
pub enum StoreError {
    Write,
}

/// The record store. Records are kept in commit order; identities are
/// unique; re-committing an identity is a silent no-op. A batch is applied
/// atomically: on a write fault nothing of it becomes visible.
pub struct Store {
    msgs: Vec<Msg>,
    fault: bool,
}

impl View for Store {
    type V = Seq<MsgView>;

    closed spec fn view(&self) -> Seq<MsgView> {
        views(self.msgs@)
    }
}

impl Store {
    /// A write fault has been injected and will fail the next commit.
    pub closed spec fn fault_pending(&self) -> bool {
        self.fault
    }

    /// Well-formed: unique identities, interpretable timestamps.
    pub open spec fn wf(&self) -> bool {
        unique_ids(self@) && all_ts_valid(self@)
    }

    /// An empty store.
    pub fn new() -> (s: Store)
        ensures
            s.wf(),
            s@ == Seq::<MsgView>::empty(),
            !s.fault_pending(),
    {
        let s = Store { msgs: Vec::new(), fault: false };
        proof {
            assert(s@ =~= Seq::<MsgView>::empty());
        }
        s
    }

    /// Simulates a failure of the backing medium: the next batch commit
    /// fails and leaves the store untouched.
    pub fn inject_write_fault(&mut self)
        ensures
            final(self)@ == old(self)@,
            final(self).fault_pending(),
            final(self).wf() == old(self).wf(),
    {
        self.fault = true;
    }

    /// How many records the store holds in all.
    pub fn len(&self) -> (n: usize)
        ensures
            n == self@.len(),
    {
        self.msgs.len()
    }

    /// Whether a record with this identity is stored.
    fn contains_id(&self, id: u64) -> (r: bool)
        ensures
            r == has_id(self@, id),
    {
        let mut i: usize = 0;
        while i < self.msgs.len()
            invariant
                i <= self.msgs.len(),
                forall|j: int| 0 <= j < i ==> self@[j].message_id != id,
            decreases self.msgs.len() - i,
        {
            if self.msgs[i].message_id == id {
                assert(self@[i as int].message_id == id);
                return true;
            }
            i += 1;
        }
        false
    }

    /// Commits a batch of records under a partition and parent key, all or
    /// nothing. Records whose identity is already stored are ignored, never
    /// duplicated and never an error. If a write fault is pending, the
    /// commit fails, the store is unchanged, and the fault is cleared.
    pub fn commit_batch(
        &mut self,
        partition: u64,
        parent: u64,
        records: &Vec<Msg>,
    ) -> (r: Result<(), StoreError>)
        requires
            old(self).wf(),
            all_ts_valid(views(records@)),
        ensures
            final(self).wf(),
            !final(self).fault_pending(),
            old(self).fault_pending() ==> r == Err::<(), StoreError>(StoreError::Write)
                && final(self)@ == old(self)@,
            !old(self).fault_pending() ==> r == Ok::<(), StoreError>(())
                && final(self)@ == spec_commit(old(self)@, partition, parent, views(records@)),
    {
        if self.fault {
            self.fault = false;
            return Err(StoreError::Write);
        }
        let ghost all = views(records@);
        let mut i: usize = 0;
        while i < records.len()
            invariant
                i <= records.len(),
                all == views(records@),
                all_ts_valid(all),
                self.wf(),
                !self.fault,
                self@ == spec_commit(old(self)@, partition, parent, all.take(i as int)),
            decreases records.len() - i,
        {
            let m = &records[i];
            proof {
                assert(all.take(i + 1) =~= all.take(i as int).push(all[i as int]));
                lemma_commit_snoc(old(self)@, partition, parent, all.take(i as int), all[i as int]);
            }
            if !self.contains_id(m.message_id) {
                let mut c = m.clone();
                c.channel_id = partition;
                c.guild_id = parent;
                proof {
                    assert(c@ == keyed(all[i as int], partition, parent));
                    assert(views(self.msgs@.push(c)) =~= self@.push(c@));
                    assert(all_ts_valid(self@.push(c@)));
                    assert(unique_ids(self@.push(c@)));
                }
                self.msgs.push(c);
            }
            i += 1;
        }
        proof {
            assert(all.take(records.len() as int) =~= all);
        }
        Ok(())
    }

    /// How many stored records belong to the partition.
    pub fn count_by_partition(&self, partition: u64) -> (n: usize)
        ensures
            n == count_in_partition(self@, partition),
    {
        let mut i: usize = 0;
        let mut n: usize = 0;
        while i < self.msgs.len()
            invariant
                i <= self.msgs.len(),
                n <= i,
                n == count_in_partition(self@.take(i as int), partition),
            decreases self.msgs.len() - i,
        {
            proof {
                assert(self@.take(i + 1).drop_last() =~= self@.take(i as int));
                assert(self@.take(i + 1).last() == self@[i as int]);
            }
            if self.msgs[i].channel_id == partition {
                n += 1;
            }
            i += 1;
        }
        proof {
            assert(self@.take(self.msgs@.len() as int) =~= self@);
        }
        n
    }

    /// The completion tracker's predicate: a partition counts as fully
    /// fetched exactly when at least one of its records is stored.
    pub fn is_partition_done(&self, partition: u64) -> (r: bool)
        ensures
            r == (count_in_partition(self@, partition) > 0),
    {
        self.count_by_partition(partition) > 0
    }
}

/// The ISO week key of a stored record.
pub open spec fn wkey(m: MsgView) -> (int, int) {
    iso_week_of(m.timestamp)
}

/// The record's content contains the word, case-sensitively.
pub open spec fn week_match(m: MsgView, word: Seq<char>) -> bool {
    contains_sub(m.content, word)
}

/// How many stored records match the word and fall in the week `k`.
pub open spec fn count_week(s: Seq<MsgView>, word: Seq<char>, k: (int, int)) -> nat
    decreases s.len(),
{
    if s.len() == 0 {
        0
    } else {
        count_week(s.drop_last(), word, k) + if week_match(s.last(), word)
            && wkey(s.last()) == k {
            1nat
        } else {
            0nat
        }
    }
}

/// A week has a positive match count exactly when some record matches in it.
pub proof fn lemma_count_week_pos(s: Seq<MsgView>, word: Seq<char>, k: (int, int))
    ensures
        (count_week(s, word, k) > 0) <==> exists|i: int|
            0 <= i < s.len() && week_match(#[trigger] s[i], word) && wkey(s[i]) == k,
    decreases s.len(),
{
    if s.len() > 0 {
        lemma_count_week_pos(s.drop_last(), word, k);
        if count_week(s, word, k) > 0 {
            if week_match(s.last(), word) && wkey(s.last()) == k {
                assert(week_match(s[s.len() - 1], word) && wkey(s[s.len() - 1]) == k);
            } else {
                let w = choose|i: int|
                    0 <= i < s.drop_last().len() && week_match(
                        #[trigger] s.drop_last()[i],
                        word,
                    ) && wkey(s.drop_last()[i]) == k;
                assert(week_match(s[w], word) && wkey(s[w]) == k);
            }
        }
        if exists|i: int|
            0 <= i < s.len() && week_match(#[trigger] s[i], word) && wkey(s[i]) == k {
            let w = choose|i: int|
                0 <= i < s.len() && week_match(#[trigger] s[i], word) && wkey(s[i]) == k;
            if w < s.len() - 1 {
                assert(week_match(s.drop_last()[w], word) && wkey(s.drop_last()[w]) == k);
            }
        }
    }
}

/// One row of the weekly aggregation: an ISO week key, its printable label,
/// and how many matching records fell in that week.
pub struct WeekRow {
    pub iso_year: i32,
    pub iso_week: u32,
    pub label: String,
    pub count: usize,
}

/// The week key a row stands for.
pub open spec fn row_key(r: WeekRow) -> (int, int) {
    (r.iso_year as int, r.iso_week as int)
}

/// Some row carries this week key.
pub open spec fn rows_have_key(rows: Seq<WeekRow>, k: (int, int)) -> bool {
    exists|j: int| 0 <= j < rows.len() && row_key(#[trigger] rows[j]) == k
}

/// The week key of a year-week pair.
pub open spec fn key_of(p: (i32, u32)) -> (int, int) {
    (p.0 as int, p.1 as int)
}

/// The keys are in strictly increasing chronological order.
pub open spec fn sorted_keys(s: Seq<(i32, u32)>) -> bool {
    forall|a: int, b: int|
        0 <= a < b < s.len() ==> key_lt(key_of(#[trigger] s[a]), key_of(#[trigger] s[b]))
}

/// Some pair in the sequence carries this week key.
pub open spec fn in_keys(s: Seq<(i32, u32)>, k: (int, int)) -> bool {
    exists|j: int| 0 <= j < s.len() && key_of(#[trigger] s[j]) == k
}

/// Inserts a week key into a sorted key list, keeping it sorted and
/// duplicate-free.
fn insert_key_sorted(keys: &mut Vec<(i32, u32)>, y: i32, w: u32)
    requires
        sorted_keys(old(keys)@),
    ensures
        sorted_keys(final(keys)@),
        forall|k: (int, int)|
            #[trigger] in_keys(final(keys)@, k) <==> (in_keys(old(keys)@, k) || k == (
                y as int,
                w as int,
            )),
{
    let ghost kk = (y as int, w as int);
    let mut idx: usize = 0;
    while idx < keys.len() && key_before(keys[idx].0, keys[idx].1, y, w)
        invariant
            kk == (y as int, w as int),
            sorted_keys(keys@),
            keys@ == old(keys)@,
            idx <= keys@.len(),
            forall|j: int| 0 <= j < idx ==> key_lt(key_of(#[trigger] keys@[j]), kk),
        decreases keys@.len() - idx,
    {
        idx += 1;
    }
    if idx < keys.len() && keys[idx].0 == y && keys[idx].1 == w {
        proof {
            assert(key_of(keys@[idx as int]) == kk);
            assert forall|k: (int, int)| #[trigger]
                in_keys(keys@, k) <==> (in_keys(old(keys)@, k) || k == kk) by {
                if k == kk {
                    assert(key_of(keys@[idx as int]) == k);
                }
            }
        }
        return ;
    }
    proof {
        if idx < keys@.len() {
            assert(!key_lt(key_of(keys@[idx as int]), kk));
            assert(key_of(keys@[idx as int]) != kk);
            assert(key_lt(kk, key_of(keys@[idx as int])));
        }
    }
    keys.insert(idx, (y, w));
    proof {
        let new = keys@;
        let oldk = old(keys)@;
        assert forall|j: int| 0 <= j < idx implies new[j] == oldk[j] by {
            assert(new == oldk.insert(idx as int, (y, w)));
        }
        assert(new[idx as int] == (y, w));
        assert forall|j: int| idx < j < new.len() implies new[j] == oldk[j - 1] by {
            assert(new == oldk.insert(idx as int, (y, w)));
        }
        assert forall|a: int, b: int| 0 <= a < b < new.len() implies key_lt(
            key_of(new[a]),
            key_of(new[b]),
        ) by {
            if b == idx {
                assert(key_lt(key_of(oldk[a]), kk));
            } else if a == idx {
                assert(key_lt(kk, key_of(oldk[b - 1])));
            }
        }
        assert forall|k: (int, int)| #[trigger]
            in_keys(new, k) <==> (in_keys(oldk, k) || k == kk) by {
            if in_keys(new, k) {
                let j = choose|j: int| 0 <= j < new.len() && key_of(#[trigger] new[j]) == k;
                if j < idx {
                    assert(key_of(oldk[j]) == k);
                } else if j > idx {
                    assert(key_of(oldk[j - 1]) == k);
                }
            }
            if in_keys(oldk, k) {
                let j = choose|j: int|
                    0 <= j < oldk.len() && key_of(#[trigger] oldk[j]) == k;
                if j < idx {
                    assert(key_of(new[j]) == k);
                } else {
                    assert(key_of(new[j + 1]) == k);
                }
            }
            if k == kk {
                assert(key_of(new[idx as int]) == k);
            }
        }
    }
}

impl Store {
    /// How many stored records contain the word and fall in the given ISO
    /// week.
    pub fn count_week_matches(&self, word: &str, y: i32, w: u32) -> (n: usize)
        requires
            self.wf(),
        ensures
            n == count_week(self@, word@, (y as int, w as int)),
    {
        let ghost kk = (y as int, w as int);
        let mut i: usize = 0;
        let mut n: usize = 0;
        while i < self.msgs.len()
            invariant
                kk == (y as int, w as int),
                self.wf(),
                i <= self.msgs.len(),
                n <= i,
                n == count_week(self@.take(i as int), word@, kk),
            decreases self.msgs.len() - i,
        {
            proof {
                assert(self@.take(i + 1).drop_last() =~= self@.take(i as int));
                assert(self@.take(i + 1).last() == self@[i as int]);
                assert(ts_valid(self@[i as int].timestamp));
            }
            let m = &self.msgs[i];
            if contains_str(m.content.as_str(), word) {
                let parts = iso_week_parts(m.timestamp);
                proof {
                    assert(self@[i as int].timestamp == m.timestamp);
                    assert(wkey(self@[i as int]).0 == parts.0 as int);
                    assert(wkey(self@[i as int]).1 == parts.1 as int);
                }
                if parts.0 == y && parts.1 == w {
                    assert(wkey(self@[i as int]) =~= kk);
                    n += 1;
                } else {
                    assert(wkey(self@[i as int]) != kk);
                }
            }
            i += 1;
        }
        proof {
            assert(self@.take(self.msgs@.len() as int) =~= self@);
        }
        n
    }

    /// The weekly word-occurrence aggregation: one row per ISO week in
    /// which at least one stored record contains the word, in chronological
    /// order, each row carrying that week's match count and label. Weeks
    /// without a match get no row.
    pub fn query_weekly_matches(&self, word: &str) -> (rows: Vec<WeekRow>)
        requires
            self.wf(),
        ensures
            forall|a: int, b: int|
                0 <= a < b < rows@.len() ==> key_lt(
                    row_key(#[trigger] rows@[a]),
                    row_key(#[trigger] rows@[b]),
                ),
            forall|j: int|
                0 <= j < rows@.len() ==> (#[trigger] rows@[j]).count == count_week(
                    self@,
                    word@,
                    row_key(rows@[j]),
                ) && rows@[j].count > 0 && rows@[j].label@ == week_label_of(
                    row_key(rows@[j]),
                ),
            forall|i: int|
                0 <= i < self@.len() && week_match(#[trigger] self@[i], word@)
                    ==> rows_have_key(rows@, wkey(self@[i])),
    {
        let mut keys: Vec<(i32, u32)> = Vec::new();
        let mut i: usize = 0;
        while i < self.msgs.len()
            invariant
                self.wf(),
                i <= self.msgs.len(),
                sorted_keys(keys@),
                forall|k: (int, int)| #[trigger]
                    in_keys(keys@, k) <==> exists|ii: int|
                        0 <= ii < i && week_match(#[trigger] self@[ii], word@) && wkey(
                            self@[ii],
                        ) == k,
            decreases self.msgs.len() - i,
        {
            proof {
                assert(ts_valid(self@[i as int].timestamp));
            }
            let m = &self.msgs[i];
            let ghost prev = keys@;
            if contains_str(m.content.as_str(), word) {
                let parts = iso_week_parts(m.timestamp);
                insert_key_sorted(&mut keys, parts.0, parts.1);
                proof {
                    assert forall|k: (int, int)| #[trigger]
                        in_keys(keys@, k) <==> exists|ii: int|
                            0 <= ii < i + 1 && week_match(#[trigger] self@[ii], word@)
                                && wkey(self@[ii]) == k by {
                        if in_keys(keys@, k) {
                            if in_keys(prev, k) {
                                let ii = choose|ii: int|
                                    0 <= ii < i && week_match(#[trigger] self@[ii], word@)
                                        && wkey(self@[ii]) == k;
                                assert(0 <= ii < i + 1 && week_match(self@[ii], word@)
                                    && wkey(self@[ii]) == k);
                            } else {
                                assert(k == wkey(self@[i as int]));
                                assert(week_match(self@[i as int], word@));
                            }
                        }
                        if exists|ii: int|
                            0 <= ii < i + 1 && week_match(#[trigger] self@[ii], word@)
                                && wkey(self@[ii]) == k {
                            let ii = choose|ii: int|
                                0 <= ii < i + 1 && week_match(#[trigger] self@[ii], word@)
                                    && wkey(self@[ii]) == k;
                            if ii < i {
                                assert(in_keys(prev, k));
                            } else {
                                assert(k == (parts.0 as int, parts.1 as int));
                            }
                        }
                    }
                }
            } else {
                proof {
                    assert forall|k: (int, int)| #[trigger]
                        in_keys(keys@, k) <==> exists|ii: int|
                            0 <= ii < i + 1 && week_match(#[trigger] self@[ii], word@)
                                && wkey(self@[ii]) == k by {
                        if exists|ii: int|
                            0 <= ii < i + 1 && week_match(#[trigger] self@[ii], word@)
                                && wkey(self@[ii]) == k {
                            let ii = choose|ii: int|
                                0 <= ii < i + 1 && week_match(#[trigger] self@[ii], word@)
                                    && wkey(self@[ii]) == k;
                            assert(ii < i);
                        }
                    }
                }
            }
            i += 1;
        }
        let mut rows: Vec<WeekRow> = Vec::new();
        let mut j: usize = 0;
        while j < keys.len()
            invariant
                self.wf(),
                j <= keys@.len(),
                rows@.len() == j,
                sorted_keys(keys@),
                forall|k: (int, int)| #[trigger]
                    in_keys(keys@, k) <==> exists|ii: int|
                        0 <= ii < self@.len() && week_match(#[trigger] self@[ii], word@)
                            && wkey(self@[ii]) == k,
                forall|jj: int|
                    0 <= jj < j ==> row_key(#[trigger] rows@[jj]) == key_of(keys@[jj]),
                forall|jj: int|
                    0 <= jj < j ==> (#[trigger] rows@[jj]).count == count_week(
                        self@,
                        word@,
                        key_of(keys@[jj]),
                    ) && rows@[jj].count > 0 && rows@[jj].label@ == week_label_of(
                        key_of(keys@[jj]),
                    ),
            decreases keys@.len() - j,
        {
            let y = keys[j].0;
            let w = keys[j].1;
            let c = self.count_week_matches(word, y, w);
            proof {
                assert(in_keys(keys@, key_of(keys@[j as int]))) by {
                    assert(key_of(keys@[j as int]) == key_of(keys@[j as int]));
                }
                lemma_count_week_pos(self@, word@, (y as int, w as int));
            }
            let label = week_label(y, w);
            rows.push(WeekRow { iso_year: y, iso_week: w, label, count: c });
            j += 1;
        }
        proof {
            assert forall|i2: int|
                0 <= i2 < self@.len() && week_match(#[trigger] self@[i2], word@)
                    implies rows_have_key(rows@, wkey(self@[i2])) by {
                assert(in_keys(keys@, wkey(self@[i2])));
                let jj = choose|jj: int|
                    0 <= jj < keys@.len() && key_of(#[trigger] keys@[jj]) == wkey(
                        self@[i2],
                    );
                assert(row_key(rows@[jj]) == wkey(self@[i2]));
            }
        }
        rows
    }
}

/// Committing a batch extended by one more record is committing the batch,
/// then that record.
pub proof fn lemma_commit_snoc(
    s: Seq<MsgView>,
    partition: u64,
    parent: u64,
    batch: Seq<MsgView>,
    m: MsgView,
)
    ensures
        spec_commit(s, partition, parent, batch.push(m)) == commit_one(
            spec_commit(s, partition, parent, batch),
            partition,
            parent,
            m,
        ),
    decreases batch.len(),
{
    if batch.len() == 0 {
        assert(batch.push(m).drop_first() =~= Seq::<MsgView>::empty());
        assert(batch.push(m)[0] == m);
        assert(spec_commit(s, partition, parent, batch.push(m)) == spec_commit(
            commit_one(s, partition, parent, m),
            partition,
            parent,
            batch.push(m).drop_first(),
        ));
    } else {
        assert(batch.push(m).drop_first() =~= batch.drop_first().push(m));
        assert(batch.push(m)[0] == batch[0]);
        lemma_commit_snoc(
            commit_one(s, partition, parent, batch[0]),
            partition,
            parent,
            batch.drop_first(),
            m,
        );
        assert(spec_commit(s, partition, parent, batch.push(m)) == spec_commit(
            commit_one(s, partition, parent, batch[0]),
            partition,
            parent,
            batch.drop_first().push(m),
        ));
        assert(spec_commit(s, partition, parent, batch) == spec_commit(
            commit_one(s, partition, parent, batch[0]),
            partition,
            parent,
            batch.drop_first(),
        ));
    }
}

/// A commit can only add identities: everything present stays present, and
/// exactly the batch's identities are added.
pub proof fn lemma_commit_ids(
    s: Seq<MsgView>,
    partition: u64,
    parent: u64,
    batch: Seq<MsgView>,
    id: u64,
)
    ensures
        has_id(spec_commit(s, partition, parent, batch), id) <==> (has_id(s, id)
            || has_id(batch, id)),
    decreases batch.len(),
{
    if batch.len() > 0 {
        let s1 = commit_one(s, partition, parent, batch[0]);
        lemma_commit_ids(s1, partition, parent, batch.drop_first(), id);
        assert(has_id(s1, id) <==> (has_id(s, id) || batch[0].message_id == id)) by {
            if !has_id(s, batch[0].message_id) {
                let pushed = s.push(keyed(batch[0], partition, parent));
                if has_id(s, id) {
                    let w = choose|i: int| 0 <= i < s.len() && s[i].message_id == id;
                    assert(pushed[w].message_id == id);
                }
                if batch[0].message_id == id {
                    assert(pushed[s.len() as int].message_id == id);
                }
                if has_id(pushed, id) {
                    let w = choose|i: int|
                        0 <= i < pushed.len() && pushed[i].message_id == id;
                    if w < s.len() {
                        assert(s[w].message_id == id);
                    }
                }
            }
        }
        assert(has_id(batch, id) <==> (batch[0].message_id == id || has_id(
            batch.drop_first(),
            id,
        ))) by {
            if has_id(batch, id) {
                let w = choose|i: int|
                    0 <= i < batch.len() && batch[i].message_id == id;
                if w > 0 {
                    assert(batch.drop_first()[w - 1].message_id == id);
                }
            }
            if has_id(batch.drop_first(), id) {
                let w = choose|i: int|
                    0 <= i < batch.drop_first().len() && batch.drop_first()[i].message_id
                        == id;
                assert(batch[w + 1].message_id == id);
            }
        }
    }
}

/// Committing a batch whose identities are all already stored changes
/// nothing.
pub proof fn lemma_commit_noop(
    s: Seq<MsgView>,
    partition: u64,
    parent: u64,
    batch: Seq<MsgView>,
)
    requires
        forall|i: int| 0 <= i < batch.len() ==> has_id(s, #[trigger] batch[i].message_id),
    ensures
        spec_commit(s, partition, parent, batch) == s,
    decreases batch.len(),
{
    if batch.len() > 0 {
        assert(has_id(s, batch[0].message_id));
        assert(forall|i: int|
            0 <= i < batch.drop_first().len() ==> has_id(
                s,
                #[trigger] batch.drop_first()[i].message_id,
            ));
        lemma_commit_noop(s, partition, parent, batch.drop_first());
    }
}

/// Idempotent commit: committing the same batch twice leaves the store as
/// one commit leaves it, whatever was stored before.
pub proof fn lemma_commit_idempotent(
    s: Seq<MsgView>,
    partition: u64,
    parent: u64,
    batch: Seq<MsgView>,
)
    ensures
        spec_commit(
            spec_commit(s, partition, parent, batch),
            partition,
            parent,
            batch,
        ) == spec_commit(s, partition, parent, batch),
{
    let once = spec_commit(s, partition, parent, batch);
    assert forall|i: int| 0 <= i < batch.len() implies has_id(
        once,
        #[trigger] batch[i].message_id,
    ) by {
        assert(has_id(batch, batch[i].message_id));
        lemma_commit_ids(s, partition, parent, batch, batch[i].message_id);
    }
    lemma_commit_noop(once, partition, parent, batch);
}

} // verus!
