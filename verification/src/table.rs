//! The coalescing table: an in-memory mapping from coalescing key to the
//! pending group of fragments accumulated for that key. The table owns all
//! mutation of pending groups; the scheduler drives it with `upsert` and
//! `take_ready` and sizes its waits with `earliest_deadline`.
//!
//! A group's window slides: every new arrival for the key refreshes
//! `last_update`, so a group becomes due only after a full window of silence.
//! A key that keeps receiving traffic faster than the window therefore never
//! becomes due; the table places no cap on a group's age.

use vstd::prelude::*;

use crate::embed::Embed;

verus! {

/// The pending state for one coalescing key: the fragments accumulated so
/// far, in arrival order, and the time of the latest arrival.
#[derive(Debug)]
pub struct PendingGroup {
    /// Time of the most recent arrival for this key.
    pub last_update: u64,
    /// Accumulated fragments, in arrival order.
    pub items: Vec<Embed>,
}

/// One table slot: a key and its pending group.
#[derive(Debug)]
pub struct TableEntry {
    pub key: String,
    pub group: PendingGroup,
}

/// The mathematical value of one table slot.
pub struct EntryModel {
    pub key: Seq<char>,
    pub last_update: u64,
    pub items: Seq<Embed>,
}

impl View for TableEntry {
    type V = EntryModel;

    open spec fn view(&self) -> EntryModel {
        EntryModel { key: self.key@, last_update: self.group.last_update, items: self.group.items@ }
    }
}

/// The mathematical value of a sequence of slots.
pub open spec fn models(entries: Seq<TableEntry>) -> Seq<EntryModel> {
    entries.map_values(|e: TableEntry| e@)
}

/// No two slots share a key.
pub open spec fn keys_distinct(entries: Seq<EntryModel>) -> bool {
    forall|i: int, j: int|
        0 <= i < j < entries.len() ==> entries[i].key != entries[j].key
}

/// Every pending group holds at least one fragment.
pub open spec fn groups_nonempty(entries: Seq<EntryModel>) -> bool {
    forall|i: int| 0 <= i < entries.len() ==> #[trigger] entries[i].items.len() >= 1
}

/// The table invariant: at most one group per key, and no empty group.
pub open spec fn table_wf(entries: Seq<EntryModel>) -> bool {
    keys_distinct(entries) && groups_nonempty(entries)
}

/// Whether some slot carries key `k`.
pub open spec fn has_key(entries: Seq<EntryModel>, k: Seq<char>) -> bool {
    exists|i: int| 0 <= i < entries.len() && entries[i].key == k
}

/// The index of the slot carrying key `k` (meaningful when `has_key` holds
/// and keys are distinct).
pub open spec fn index_of_key(entries: Seq<EntryModel>, k: Seq<char>) -> int {
    choose|i: int| 0 <= i < entries.len() && entries[i].key == k
}

pub proof fn lemma_index_of_key(entries: Seq<EntryModel>, k: Seq<char>, i: int)
    requires
        keys_distinct(entries),
        0 <= i < entries.len(),
        entries[i].key == k,
    ensures
        has_key(entries, k),
        index_of_key(entries, k) == i,
{
    assert(has_key(entries, k));
    let j = index_of_key(entries, k);
    if j != i {
        if j < i {
            assert(entries[j].key != entries[i].key);
        } else {
            assert(entries[i].key != entries[j].key);
        }
    }
}

/// What `upsert` does to the table's value: extend the group under `k`, or
/// append a fresh single-fragment group if `k` has none.
pub open spec fn upsert_model(
    entries: Seq<EntryModel>,
    k: Seq<char>,
    item: Embed,
    now: u64,
) -> Seq<EntryModel> {
    if has_key(entries, k) {
        let i = index_of_key(entries, k);
        entries.update(
            i,
            EntryModel { key: k, last_update: now, items: entries[i].items.push(item) },
        )
    } else {
        entries.push(EntryModel { key: k, last_update: now, items: seq![item] })
    }
}

/// A group is due once a full window has passed since its last update.
pub open spec fn is_due(e: EntryModel, now: u64, window: u64) -> bool {
    e.last_update + window <= now
}

/// The due slots, in table order.
pub open spec fn due_of(entries: Seq<EntryModel>, now: u64, window: u64) -> Seq<EntryModel>
    decreases entries.len(),
{
    if entries.len() == 0 {
        Seq::empty()
    } else {
        let rest = due_of(entries.drop_first(), now, window);
        if is_due(entries[0], now, window) {
            seq![entries[0]] + rest
        } else {
            rest
        }
    }
}

/// The slots that stay, in table order.
pub open spec fn kept_of(entries: Seq<EntryModel>, now: u64, window: u64) -> Seq<EntryModel>
    decreases entries.len(),
{
    if entries.len() == 0 {
        Seq::empty()
    } else {
        let rest = kept_of(entries.drop_first(), now, window);
        if is_due(entries[0], now, window) {
            rest
        } else {
            seq![entries[0]] + rest
        }
    }
}

pub proof fn lemma_due_of_push(entries: Seq<EntryModel>, e: EntryModel, now: u64, window: u64)
    ensures
        due_of(entries.push(e), now, window) == due_of(entries, now, window) + (if is_due(
            e,
            now,
            window,
        ) {
            seq![e]
        } else {
            Seq::<EntryModel>::empty()
        }),
    decreases entries.len(),
{
    let tail = if is_due(e, now, window) {
        seq![e]
    } else {
        Seq::<EntryModel>::empty()
    };
    if entries.len() == 0 {
        assert(entries.push(e).drop_first() =~= Seq::<EntryModel>::empty());
        assert(due_of(Seq::<EntryModel>::empty(), now, window) == Seq::<EntryModel>::empty());
        assert(due_of(entries.push(e), now, window) =~= due_of(entries, now, window) + tail);
    } else {
        assert(entries.push(e).drop_first() =~= entries.drop_first().push(e));
        lemma_due_of_push(entries.drop_first(), e, now, window);
        assert(due_of(entries.push(e), now, window) =~= due_of(entries, now, window) + tail);
    }
}

pub proof fn lemma_kept_of_push(entries: Seq<EntryModel>, e: EntryModel, now: u64, window: u64)
    ensures
        kept_of(entries.push(e), now, window) == kept_of(entries, now, window) + (if is_due(
            e,
            now,
            window,
        ) {
            Seq::<EntryModel>::empty()
        } else {
            seq![e]
        }),
    decreases entries.len(),
{
    let tail = if is_due(e, now, window) {
        Seq::<EntryModel>::empty()
    } else {
        seq![e]
    };
    if entries.len() == 0 {
        assert(entries.push(e).drop_first() =~= Seq::<EntryModel>::empty());
        assert(kept_of(Seq::<EntryModel>::empty(), now, window) == Seq::<EntryModel>::empty());
        assert(kept_of(entries.push(e), now, window) =~= kept_of(entries, now, window) + tail);
    } else {
        assert(entries.push(e).drop_first() =~= entries.drop_first().push(e));
        lemma_kept_of_push(entries.drop_first(), e, now, window);
        assert(kept_of(entries.push(e), now, window) =~= kept_of(entries, now, window) + tail);
    }
}

proof fn lemma_cons_has_key(head: EntryModel, s: Seq<EntryModel>, k: Seq<char>)
    ensures
        has_key(seq![head] + s, k) <==> (head.key == k || has_key(s, k)),
{
    let c = seq![head] + s;
    if has_key(c, k) {
        let i = choose|i: int| 0 <= i < c.len() && c[i].key == k;
        if i == 0 {
            assert(head.key == k);
        } else {
            assert(c[i] == s[i - 1]);
            assert(has_key(s, k));
        }
    }
    if head.key == k {
        assert(c[0].key == k);
        assert(has_key(c, k));
    }
    if has_key(s, k) {
        let i = choose|i: int| 0 <= i < s.len() && s[i].key == k;
        assert(c[i + 1] == s[i]);
        assert(has_key(c, k));
    }
}

proof fn lemma_cons_distinct(head: EntryModel, s: Seq<EntryModel>)
    requires
        keys_distinct(s),
        !has_key(s, head.key),
    ensures
        keys_distinct(seq![head] + s),
{
    let c = seq![head] + s;
    assert forall|i: int, j: int| 0 <= i < j < c.len() implies c[i].key != c[j].key by {
        if i == 0 {
            assert(c[j] == s[j - 1]);
            if c[0].key == c[j].key {
                assert(s[j - 1].key == head.key);
                assert(has_key(s, head.key));
            }
        } else {
            assert(c[i] == s[i - 1] && c[j] == s[j - 1]);
        }
    }
}

/// Flushing partitions the table: every slot goes to exactly one side, due
/// slots are exactly the slots whose window has elapsed, both sides keep
/// distinct keys, and no key is flushed and kept at once. In particular a due
/// group leaves the table in exactly one flush.
pub proof fn lemma_flush_partition(entries: Seq<EntryModel>, now: u64, window: u64)
    requires
        keys_distinct(entries),
    ensures
        keys_distinct(due_of(entries, now, window)),
        keys_distinct(kept_of(entries, now, window)),
        forall|i: int|
            0 <= i < due_of(entries, now, window).len() ==> (exists|j: int|
                0 <= j < entries.len() && #[trigger] due_of(entries, now, window)[i] == entries[j]
                    && is_due(entries[j], now, window)),
        forall|i: int|
            0 <= i < kept_of(entries, now, window).len() ==> (exists|j: int|
                0 <= j < entries.len() && #[trigger] kept_of(entries, now, window)[i] == entries[j]
                    && !is_due(entries[j], now, window)),
        forall|k: Seq<char>|
            #![trigger has_key(due_of(entries, now, window), k)]
            #![trigger has_key(kept_of(entries, now, window), k)]
            {
                &&& (has_key(due_of(entries, now, window), k) || has_key(
                    kept_of(entries, now, window),
                    k,
                ) <==> has_key(entries, k))
                &&& !(has_key(due_of(entries, now, window), k) && has_key(
                    kept_of(entries, now, window),
                    k,
                ))
            },
    decreases entries.len(),
{
    let due = due_of(entries, now, window);
    let kept = kept_of(entries, now, window);
    if entries.len() == 0 {
    } else {
        let head = entries[0];
        let rest = entries.drop_first();
        assert(keys_distinct(rest)) by {
            assert(forall|i: int, j: int|
                0 <= i < j < rest.len() ==> rest[i] == entries[i + 1] && rest[j] == entries[j + 1]);
        }
        lemma_flush_partition(rest, now, window);
        let due_rest = due_of(rest, now, window);
        let kept_rest = kept_of(rest, now, window);
        assert(!has_key(rest, head.key)) by {
            assert(forall|i: int| 0 <= i < rest.len() ==> rest[i] == entries[i + 1]);
        }
        assert(!has_key(due_rest, head.key));
        assert(!has_key(kept_rest, head.key));
        assert(forall|i: int| 0 <= i < rest.len() ==> rest[i] == entries[i + 1]);
        if is_due(head, now, window) {
            assert(due =~= seq![head] + due_rest);
            assert(kept =~= kept_rest);
            lemma_cons_distinct(head, due_rest);
        } else {
            assert(kept =~= seq![head] + kept_rest);
            assert(due =~= due_rest);
            lemma_cons_distinct(head, kept_rest);
        }
        assert forall|i: int| 0 <= i < due.len() implies (exists|j: int|
            0 <= j < entries.len() && #[trigger] due[i] == entries[j] && is_due(
                entries[j],
                now,
                window,
            )) by {
            if is_due(head, now, window) && i == 0 {
                assert(due[0] == entries[0] && is_due(entries[0], now, window));
            } else {
                let i_r: int = if is_due(head, now, window) {
                    i - 1
                } else {
                    i
                };
                assert(due[i] == due_rest[i_r]);
                let j_r = choose|j: int|
                    0 <= j < rest.len() && #[trigger] due_rest[i_r] == rest[j] && is_due(
                        rest[j],
                        now,
                        window,
                    );
                assert(due[i] == entries[j_r + 1] && is_due(entries[j_r + 1], now, window));
            }
        }
        assert forall|i: int| 0 <= i < kept.len() implies (exists|j: int|
            0 <= j < entries.len() && #[trigger] kept[i] == entries[j] && !is_due(
                entries[j],
                now,
                window,
            )) by {
            if !is_due(head, now, window) && i == 0 {
                assert(kept[0] == entries[0] && !is_due(entries[0], now, window));
            } else {
                let i_r: int = if !is_due(head, now, window) {
                    i - 1
                } else {
                    i
                };
                assert(kept[i] == kept_rest[i_r]);
                let j_r = choose|j: int|
                    0 <= j < rest.len() && #[trigger] kept_rest[i_r] == rest[j] && !is_due(
                        rest[j],
                        now,
                        window,
                    );
                assert(kept[i] == entries[j_r + 1] && !is_due(entries[j_r + 1], now, window));
            }
        }
        assert(entries =~= seq![head] + rest);
        assert forall|k: Seq<char>|
            {
                &&& (has_key(due, k) || has_key(kept, k) <==> has_key(entries, k))
                &&& !(has_key(due, k) && has_key(kept, k))
            } by {
            lemma_cons_has_key(head, rest, k);
            lemma_cons_has_key(head, due_rest, k);
            lemma_cons_has_key(head, kept_rest, k);
            assert(has_key(due_rest, k) || has_key(kept_rest, k) <==> has_key(rest, k));
            assert(!(has_key(due_rest, k) && has_key(kept_rest, k)));
        }
    }
}

/// Timestamps never decrease along the table: each slot was updated no
/// later than the slots after it.
pub open spec fn times_sorted(entries: Seq<EntryModel>) -> bool {
    forall|i: int, j: int|
        0 <= i < j < entries.len() ==> entries[i].last_update <= entries[j].last_update
}

/// In a table whose timestamps never decrease, the due slots are exactly a
/// prefix: whatever became due first was updated first. Returns the length
/// of that prefix.
pub proof fn lemma_due_prefix(entries: Seq<EntryModel>, now: u64, window: u64) -> (m: int)
    requires
        times_sorted(entries),
    ensures
        0 <= m <= entries.len(),
        due_of(entries, now, window) == entries.take(m),
        kept_of(entries, now, window) == entries.skip(m),
        forall|i: int| 0 <= i < m ==> is_due(#[trigger] entries[i], now, window),
        forall|i: int| m <= i < entries.len() ==> !is_due(#[trigger] entries[i], now, window),
    decreases entries.len(),
{
    if entries.len() == 0 {
        assert(due_of(entries, now, window) =~= entries.take(0));
        assert(kept_of(entries, now, window) =~= entries.skip(0));
        0
    } else {
        let head = entries[0];
        let rest = entries.drop_first();
        assert(forall|i: int| 0 <= i < rest.len() ==> rest[i] == entries[i + 1]);
        assert(times_sorted(rest));
        let m_r = lemma_due_prefix(rest, now, window);
        if is_due(head, now, window) {
            assert(due_of(entries, now, window) =~= entries.take(m_r + 1)) by {
                assert(due_of(entries, now, window) =~= seq![head] + rest.take(m_r));
            }
            assert(kept_of(entries, now, window) =~= entries.skip(m_r + 1)) by {
                assert(kept_of(entries, now, window) =~= rest.skip(m_r));
            }
            assert forall|i: int| 0 <= i < m_r + 1 implies is_due(
                #[trigger] entries[i],
                now,
                window,
            ) by {
                if i > 0 {
                    assert(entries[i] == rest[i - 1]);
                    assert(is_due(rest[i - 1], now, window));
                }
            }
            assert forall|i: int| m_r + 1 <= i < entries.len() implies !is_due(
                #[trigger] entries[i],
                now,
                window,
            ) by {
                assert(entries[i] == rest[i - 1]);
                assert(!is_due(rest[i - 1], now, window));
            }
            m_r + 1
        } else {
            // The head is not due, and every later slot was updated no
            // earlier, so nothing is due.
            assert forall|i: int| 0 <= i < rest.len() implies !is_due(
                #[trigger] rest[i],
                now,
                window,
            ) by {
                assert(rest[i] == entries[i + 1]);
                assert(entries[0].last_update <= entries[i + 1].last_update);
            }
            assert(m_r == 0) by {
                if m_r > 0 {
                    assert(is_due(rest[0], now, window));
                }
            }
            assert(due_of(entries, now, window) =~= entries.take(0)) by {
                assert(due_of(entries, now, window) =~= rest.take(0));
            }
            assert(kept_of(entries, now, window) =~= entries.skip(0)) by {
                assert(kept_of(entries, now, window) =~= seq![head] + rest.skip(0));
            }
            assert forall|i: int| 0 <= i < entries.len() implies !is_due(
                #[trigger] entries[i],
                now,
                window,
            ) by {
                if i > 0 {
                    assert(entries[i] == rest[i - 1]);
                }
            }
            0
        }
    }
}

/// The deadline at which a group becomes due, saturating at the largest
/// representable time.
pub open spec fn deadline_of(e: EntryModel, window: u64) -> u64 {
    if e.last_update + window > u64::MAX {
        u64::MAX
    } else {
        (e.last_update + window) as u64
    }
}

/// In-memory mapping from coalescing key to its pending group. At most one
/// group per key; every group nonempty.
#[derive(Debug)]
pub struct CoalescingTable {
    pub entries: Vec<TableEntry>,
}

impl View for CoalescingTable {
    type V = Seq<EntryModel>;

    open spec fn view(&self) -> Seq<EntryModel> {
        models(self.entries@)
    }
}

impl CoalescingTable {
    pub open spec fn wf(self) -> bool {
        table_wf(self@)
    }

    /// An empty table.
    pub fn new() -> (t: Self)
        ensures
            t@ == Seq::<EntryModel>::empty(),
            t.wf(),
    {
        let t = CoalescingTable { entries: Vec::new() };
        proof {
            assert(t@ =~= Seq::<EntryModel>::empty());
        }
        t
    }

    /// How many groups are pending.
    pub fn len(&self) -> (n: usize)
        ensures
            n == self@.len(),
    {
        self.entries.len()
    }

    /// Whether no group is pending.
    pub fn is_empty(&self) -> (r: bool)
        ensures
            r == (self@.len() == 0),
    {
        self.entries.is_empty()
    }

    /// Whether a group is pending under `key`.
    pub fn contains_key(&self, key: &String) -> (r: bool)
        ensures
            r == has_key(self@, key@),
    {
        let mut i: usize = 0;
        while i < self.entries.len()
            invariant
                i <= self.entries@.len(),
                forall|j: int| 0 <= j < i ==> self@[j].key != key@,
            decreases self.entries@.len() - i,
        {
            if self.entries[i].key == *key {
                assert(self@[i as int].key == key@);
                return true;
            }
            i = i + 1;
        }
        false
    }

    /// Record one fragment under `key` at time `now`: append to the pending
    /// group for `key`, refreshing its window, or open a new single-fragment
    /// group if none is pending.
    pub fn upsert(&mut self, key: String, item: Embed, now: u64)
        requires
            old(self).wf(),
        ensures
            final(self).wf(),
            final(self)@ == upsert_model(old(self)@, key@, item, now),
    {
        let ghost m0 = self@;
        let mut i: usize = 0;
        while i < self.entries.len()
            invariant
                self@ == m0,
                m0 == old(self)@,
                i <= self.entries@.len(),
                forall|j: int| 0 <= j < i ==> m0[j].key != key@,
                table_wf(m0),
            decreases self.entries@.len() - i,
        {
            if self.entries[i].key == key {
                proof {
                    lemma_index_of_key(m0, key@, i as int);
                }
                let mut entry = self.entries.remove(i);
                entry.group.items.push(item);
                entry.group.last_update = now;
                self.entries.insert(i, entry);
                proof {
                    let updated = EntryModel {
                        key: key@,
                        last_update: now,
                        items: m0[i as int].items.push(item),
                    };
                    assert(self@ =~= m0.update(i as int, updated));
                    assert(self@ == upsert_model(m0, key@, item, now));
                    assert(groups_nonempty(self@));
                    assert(keys_distinct(self@));
                }
                return ;
            }
            i = i + 1;
        }
        assert(!has_key(m0, key@));
        let mut items: Vec<Embed> = Vec::new();
        items.push(item);
        let ghost fresh = EntryModel { key: key@, last_update: now, items: seq![item] };
        self.entries.push(TableEntry { key, group: PendingGroup { last_update: now, items } });
        proof {
            assert(self@ =~= m0.push(fresh));
            assert(groups_nonempty(self@));
            assert(keys_distinct(self@));
        }
    }

    /// Remove and return every group whose window has elapsed at `now`,
    /// leaving all others in place, both sides in table order.
    pub fn take_ready(&mut self, now: u64, window: u64) -> (flushed: Vec<TableEntry>)
        requires
            old(self).wf(),
        ensures
            final(self).wf(),
            final(self)@ == kept_of(old(self)@, now, window),
            models(flushed@) == due_of(old(self)@, now, window),
    {
        let ghost m0 = self@;
        let mut work: Vec<TableEntry> = Vec::new();
        core::mem::swap(&mut self.entries, &mut work);
        let mut kept: Vec<TableEntry> = Vec::new();
        let mut flushed: Vec<TableEntry> = Vec::new();
        let ghost mut done: Seq<EntryModel> = Seq::empty();
        proof {
            assert(done + models(work@) =~= m0);
        }
        while work.len() > 0
            invariant
                done + models(work@) == m0,
                models(flushed@) == due_of(done, now, window),
                models(kept@) == kept_of(done, now, window),
            decreases work@.len(),
        {
            let ghost work0 = work@;
            let e = work.remove(0);
            proof {
                assert(models(work@) =~= models(work0).drop_first());
                assert(done.push(e@) + models(work@) =~= m0);
                lemma_due_of_push(done, e@, now, window);
                lemma_kept_of_push(done, e@, now, window);
            }
            let due = e.group.last_update <= now && now - e.group.last_update >= window;
            assert(due == is_due(e@, now, window));
            if due {
                flushed.push(e);
                proof {
                    assert(models(flushed@) =~= due_of(done.push(e@), now, window));
                    assert(models(kept@) =~= kept_of(done.push(e@), now, window));
                }
            } else {
                kept.push(e);
                proof {
                    assert(models(flushed@) =~= due_of(done.push(e@), now, window));
                    assert(models(kept@) =~= kept_of(done.push(e@), now, window));
                }
            }
            proof {
                done = done.push(e@);
            }
        }
        proof {
            assert(done =~= m0);
        }
        self.entries = kept;
        proof {
            lemma_flush_partition(m0, now, window);
            assert(groups_nonempty(kept_of(m0, now, window))) by {
                assert(groups_nonempty(m0));
            }
        }
        flushed
    }

    /// The earliest deadline among the pending groups, or none if the table
    /// is empty. The scheduler sizes its next wait with this.
    pub fn earliest_deadline(&self, window: u64) -> (r: Option<u64>)
        ensures
            match r {
                Option::Some(d) => self@.len() > 0 && (exists|i: int|
                    0 <= i < self@.len() && d == deadline_of(self@[i], window)) && (forall|i: int|
                    0 <= i < self@.len() ==> d <= deadline_of(#[trigger] self@[i], window)),
                Option::None => self@.len() == 0,
            },
    {
        if self.entries.len() == 0 {
            return Option::None;
        }
        let mut best: u64 = self.entries[0].group.last_update.saturating_add(window);
        assert(best == deadline_of(self@[0], window));
        let mut i: usize = 1;
        while i < self.entries.len()
            invariant
                1 <= i <= self.entries@.len(),
                self.entries@.len() == self@.len(),
                exists|j: int| 0 <= j < i && best == deadline_of(self@[j], window),
                forall|j: int| 0 <= j < i ==> best <= deadline_of(#[trigger] self@[j], window),
            decreases self.entries@.len() - i,
        {
            let d = self.entries[i].group.last_update.saturating_add(window);
            assert(d == deadline_of(self@[i as int], window));
            if d < best {
                best = d;
            }
            i = i + 1;
        }
        Option::Some(best)
    }
}

} // verus!
