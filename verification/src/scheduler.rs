//! The decision core of the control loop that owns the coalescing table.
//!
//! The loop around this core (driven by the caller) blocks on exactly one
//! point: the race between the next incoming event and the earliest flush
//! deadline. Whichever wins is handed to [`Scheduler::step`] as a
//! [`SchedulerEvent`]; `step` mutates the table and returns the groups to
//! flush, in table order. The caller builds one notification per returned
//! group and fans it out; delivery outcomes never feed back into the table,
//! so a failed delivery cannot resurrect a flushed group.

use vstd::prelude::*;

use crate::embed::Embed;
use crate::table::CoalescingTable;
use crate::table::EntryModel;
use crate::table::PendingGroup;
use crate::table::TableEntry;
use crate::table::deadline_of;
use crate::table::due_of;
use crate::table::has_key;
use crate::table::index_of_key;
use crate::table::is_due;
use crate::table::kept_of;
use crate::table::keys_distinct;
use crate::table::lemma_flush_partition;
use crate::table::lemma_index_of_key;
use crate::table::models;
use crate::table::table_wf;
use crate::table::times_sorted;
use crate::table::lemma_due_prefix;
use crate::table::upsert_model;

verus! {

/// One wake-up of the control loop: a new event arrived, the earliest flush
/// deadline passed, or the ingestion queue closed for good.
#[derive(Debug)]
pub enum SchedulerEvent {
    /// An event with its coalescing key and fragment arrived at time `now`.
    /// An empty key means: do not coalesce, flush at once.
    Arrival { key: String, item: Embed, now: u64 },
    /// The clock reached the earliest flush deadline; `now` is the current
    /// time.
    DeadlineReached { now: u64 },
    /// The ingestion queue closed; every pending group must still be
    /// flushed before the loop terminates.
    Shutdown,
}

/// The table state after one step.
pub open spec fn step_table(
    entries: Seq<EntryModel>,
    window: u64,
    ev: SchedulerEvent,
) -> Seq<EntryModel> {
    match ev {
        SchedulerEvent::Arrival { key, item, now } => if key@.len() == 0 {
            kept_of(entries, now, window)
        } else {
            kept_of(upsert_model(entries, key@, item, now), now, window)
        },
        SchedulerEvent::DeadlineReached { now } => kept_of(entries, now, window),
        SchedulerEvent::Shutdown => Seq::empty(),
    }
}

/// The groups one step flushes, in order. An empty-key arrival flushes as a
/// fresh singleton group ahead of whatever else is due; a keyed arrival
/// first extends its group, then everything due (which includes that group
/// when the window is zero) is flushed; a deadline flushes everything due;
/// shutdown flushes the whole table.
pub open spec fn step_flushed(
    entries: Seq<EntryModel>,
    window: u64,
    ev: SchedulerEvent,
) -> Seq<EntryModel> {
    match ev {
        SchedulerEvent::Arrival { key, item, now } => if key@.len() == 0 {
            seq![EntryModel { key: key@, last_update: now, items: seq![item] }] + due_of(
                entries,
                now,
                window,
            )
        } else {
            due_of(upsert_model(entries, key@, item, now), now, window)
        },
        SchedulerEvent::DeadlineReached { now } => due_of(entries, now, window),
        SchedulerEvent::Shutdown => entries,
    }
}

/// The table state after a whole sequence of steps.
pub open spec fn run_table(
    entries: Seq<EntryModel>,
    window: u64,
    evs: Seq<SchedulerEvent>,
) -> Seq<EntryModel>
    decreases evs.len(),
{
    if evs.len() == 0 {
        entries
    } else {
        run_table(step_table(entries, window, evs[0]), window, evs.drop_first())
    }
}

/// Everything a sequence of steps flushes, concatenated in step order.
pub open spec fn run_flushed(
    entries: Seq<EntryModel>,
    window: u64,
    evs: Seq<SchedulerEvent>,
) -> Seq<EntryModel>
    decreases evs.len(),
{
    if evs.len() == 0 {
        Seq::empty()
    } else {
        step_flushed(entries, window, evs[0]) + run_flushed(
            step_table(entries, window, evs[0]),
            window,
            evs.drop_first(),
        )
    }
}

/// The scheduler: the coalescing table plus the configured debounce window,
/// advanced one wake-up at a time.
#[derive(Debug)]
pub struct Scheduler {
    pub table: CoalescingTable,
    /// The debounce window: how long a key must stay silent before its
    /// group is flushed. Zero disables coalescing.
    pub window: u64,
}

impl Scheduler {
    pub open spec fn wf(self) -> bool {
        self.table.wf()
    }

    /// A scheduler with an empty table and the given debounce window.
    pub fn new(window: u64) -> (s: Self)
        ensures
            s.wf(),
            s.table@ == Seq::<EntryModel>::empty(),
            s.window == window,
    {
        Scheduler { table: CoalescingTable::new(), window }
    }

    /// The deadline the loop should wake at, or none when the table is
    /// empty and the loop should block on the queue alone.
    pub fn next_deadline(&self) -> (r: Option<u64>)
        ensures
            match r {
                Option::Some(d) => self.table@.len() > 0 && (exists|i: int|
                    0 <= i < self.table@.len() && d == deadline_of(self.table@[i], self.window))
                    && (forall|i: int|
                    0 <= i < self.table@.len() ==> d <= deadline_of(
                        #[trigger] self.table@[i],
                        self.window,
                    )),
                Option::None => self.table@.len() == 0,
            },
    {
        self.table.earliest_deadline(self.window)
    }

    /// Advance by one wake-up: mutate the table as the event demands and
    /// return the groups to flush, in table order.
    pub fn step(&mut self, ev: SchedulerEvent) -> (flushed: Vec<TableEntry>)
        requires
            old(self).wf(),
        ensures
            final(self).wf(),
            final(self).window == old(self).window,
            final(self).table@ == step_table(old(self).table@, old(self).window, ev),
            models(flushed@) == step_flushed(old(self).table@, old(self).window, ev),
    {
        let ghost entries0 = self.table@;
        match ev {
            SchedulerEvent::Arrival { key, item, now } => {
                if key.as_str().is_empty() {
                    let ghost singleton = EntryModel { key: key@, last_update: now, items: seq![item] };
                    let mut items: Vec<Embed> = Vec::new();
                    items.push(item);
                    let mut flushed: Vec<TableEntry> = Vec::new();
                    flushed.push(TableEntry { key, group: PendingGroup { last_update: now, items } });
                    proof {
                        assert(models(flushed@) =~= seq![singleton]);
                    }
                    let mut rest = self.table.take_ready(now, self.window);
                    flushed.append(&mut rest);
                    proof {
                        assert(models(flushed@) =~= seq![singleton] + due_of(
                            entries0,
                            now,
                            self.window,
                        ));
                    }
                    flushed
                } else {
                    self.table.upsert(key, item, now);
                    self.table.take_ready(now, self.window)
                }
            },
            SchedulerEvent::DeadlineReached { now } => self.table.take_ready(now, self.window),
            SchedulerEvent::Shutdown => {
                let mut all: Vec<TableEntry> = Vec::new();
                core::mem::swap(&mut self.table.entries, &mut all);
                proof {
                    assert(self.table@ =~= Seq::<EntryModel>::empty());
                    assert(table_wf(self.table@));
                }
                all
            },
        }
    }
}

/// The table slot that an arrival alone creates: a single-fragment group
/// stamped with the arrival time.
pub open spec fn arrival_entry(ev: SchedulerEvent) -> EntryModel {
    EntryModel {
        key: ev->Arrival_key@,
        last_update: ev->Arrival_now,
        items: seq![ev->Arrival_item],
    }
}

/// The single-fragment slots of a sequence of arrivals, in order.
pub open spec fn arrival_entries(evs: Seq<SchedulerEvent>) -> Seq<EntryModel> {
    evs.map_values(|e: SchedulerEvent| arrival_entry(e))
}

/// The fragments a sequence of arrivals carries, in order.
pub open spec fn arrival_items(evs: Seq<SchedulerEvent>) -> Seq<Embed> {
    evs.map_values(|e: SchedulerEvent| e->Arrival_item)
}

/// The slot a keyed arrival leaves under its key right after the upsert:
/// the previous group extended by the new fragment, or a fresh
/// single-fragment group.
pub open spec fn upserted_entry(entries: Seq<EntryModel>, ev: SchedulerEvent) -> EntryModel {
    let k = ev->Arrival_key@;
    if has_key(entries, k) {
        EntryModel {
            key: k,
            last_update: ev->Arrival_now,
            items: entries[index_of_key(entries, k)].items.push(ev->Arrival_item),
        }
    } else {
        arrival_entry(ev)
    }
}

/// Splitting a run of the scheduler: the flushes of the whole run are the
/// flushes of its first part followed by the flushes of the rest, started
/// from the table the first part leaves.
pub proof fn lemma_run_append(
    entries: Seq<EntryModel>,
    window: u64,
    a: Seq<SchedulerEvent>,
    b: Seq<SchedulerEvent>,
)
    ensures
        run_table(entries, window, a + b) == run_table(
            run_table(entries, window, a),
            window,
            b,
        ),
        run_flushed(entries, window, a + b) == run_flushed(entries, window, a) + run_flushed(
            run_table(entries, window, a),
            window,
            b,
        ),
    decreases a.len(),
{
    if a.len() == 0 {
        assert(a + b =~= b);
        assert(run_flushed(entries, window, a) + run_flushed(entries, window, b) =~= run_flushed(
            entries,
            window,
            b,
        ));
    } else {
        assert((a + b)[0] == a[0]);
        assert((a + b).drop_first() =~= a.drop_first() + b);
        let entries1 = step_table(entries, window, a[0]);
        lemma_run_append(entries1, window, a.drop_first(), b);
        assert(run_flushed(entries, window, a + b) =~= run_flushed(entries, window, a)
            + run_flushed(run_table(entries, window, a), window, b));
    }
}

proof fn lemma_sweep_empty(now: u64, window: u64)
    ensures
        due_of(Seq::<EntryModel>::empty(), now, window) == Seq::<EntryModel>::empty(),
        kept_of(Seq::<EntryModel>::empty(), now, window) == Seq::<EntryModel>::empty(),
{
}

proof fn lemma_sweep_single(e: EntryModel, now: u64, window: u64)
    ensures
        is_due(e, now, window) ==> due_of(seq![e], now, window) == seq![e] && kept_of(
            seq![e],
            now,
            window,
        ) == Seq::<EntryModel>::empty(),
        !is_due(e, now, window) ==> due_of(seq![e], now, window) == Seq::<EntryModel>::empty()
            && kept_of(seq![e], now, window) == seq![e],
{
    lemma_sweep_empty(now, window);
    assert(seq![e].drop_first() =~= Seq::<EntryModel>::empty());
    assert(seq![e][0] == e);
    if is_due(e, now, window) {
        assert(due_of(seq![e], now, window) =~= seq![e]);
    } else {
        assert(kept_of(seq![e], now, window) =~= seq![e]);
    }
}

/// An event with an empty coalescing key bypasses the table: the very step
/// that receives it flushes it as a fresh single-fragment group, ahead of
/// whatever else happens to be due, without waiting for any window. The
/// table keeps no trace of the event.
pub proof fn lemma_empty_key_flushes_now(
    entries: Seq<EntryModel>,
    window: u64,
    ev: SchedulerEvent,
)
    requires
        ev is Arrival,
        ev->Arrival_key@.len() == 0,
    ensures
        step_flushed(entries, window, ev).len() >= 1,
        step_flushed(entries, window, ev)[0] == arrival_entry(ev),
        arrival_entry(ev).items == seq![ev->Arrival_item],
        step_table(entries, window, ev) == kept_of(entries, ev->Arrival_now, window),
{
}

/// A zero debounce window disables coalescing: the step that receives a
/// keyed arrival flushes the group under that key at once — with the new
/// fragment as its last item — and leaves nothing pending under the key.
/// From an empty table, the step flushes exactly the arrival itself.
pub proof fn lemma_zero_window_flushes_now(entries: Seq<EntryModel>, ev: SchedulerEvent)
    requires
        table_wf(entries),
        ev is Arrival,
        ev->Arrival_key@.len() > 0,
    ensures
        !has_key(step_table(entries, 0, ev), ev->Arrival_key@),
        exists|i: int|
            0 <= i < step_flushed(entries, 0, ev).len() && #[trigger] step_flushed(entries, 0, ev)[i]
                == upserted_entry(entries, ev),
        upserted_entry(entries, ev).items.len() >= 1,
        upserted_entry(entries, ev).items.last() == ev->Arrival_item,
        entries.len() == 0 ==> step_flushed(entries, 0, ev) == seq![arrival_entry(ev)]
            && step_table(entries, 0, ev) == Seq::<EntryModel>::empty(),
{
    let k = ev->Arrival_key@;
    let now = ev->Arrival_now;
    let item = ev->Arrival_item;
    let up = upsert_model(entries, k, item, now);
    let target = upserted_entry(entries, ev);
    if has_key(entries, k) {
        let j = index_of_key(entries, k);
        assert(0 <= j < entries.len() && entries[j].key == k);
        assert(up == entries.update(j, EntryModel { key: k, last_update: now, items: entries[j].items.push(item) }));
        assert(up[j] == target);
        assert(keys_distinct(up)) by {
            assert(forall|i: int| 0 <= i < up.len() && i != j ==> up[i] == entries[i]);
            assert(up[j].key == entries[j].key);
        }
        lemma_index_of_key(up, k, j);
    } else {
        assert(up == entries.push(target));
        assert(up[entries.len() as int] == target);
        assert(keys_distinct(up)) by {
            assert(forall|i: int| 0 <= i < entries.len() ==> up[i] == entries[i]);
            assert forall|i: int, j2: int| 0 <= i < j2 < up.len() implies up[i].key != up[j2].key by {
                if j2 == entries.len() {
                    assert(up[i] == entries[i]);
                    if up[i].key == k {
                        assert(has_key(entries, k));
                    }
                }
            }
        }
        lemma_index_of_key(up, k, entries.len() as int);
    }
    let j = index_of_key(up, k);
    assert(up[j] == target);
    assert(is_due(up[j], now, 0));
    lemma_flush_partition(up, now, 0);
    let due = due_of(up, now, 0);
    let kept = kept_of(up, now, 0);
    // The key cannot be on the kept side: its slot is due.
    if has_key(kept, k) {
        let i = choose|i: int| 0 <= i < kept.len() && kept[i].key == k;
        let j2 = choose|j2: int|
            0 <= j2 < up.len() && kept[i] == up[j2] && !is_due(up[j2], now, 0);
        assert(up[j2].key == k);
        lemma_index_of_key(up, k, j2);
        assert(false);
    }
    assert(has_key(up, k));
    assert(has_key(due, k));
    // And the due slot under the key is exactly the upserted slot.
    let i = choose|i: int| 0 <= i < due.len() && due[i].key == k;
    let j3 = choose|j3: int| 0 <= j3 < up.len() && due[i] == up[j3] && is_due(up[j3], now, 0);
    assert(up[j3].key == k);
    lemma_index_of_key(up, k, j3);
    assert(due[i] == target);
    assert(step_flushed(entries, 0, ev) == due);
    assert(0 <= i < step_flushed(entries, 0, ev).len() && step_flushed(entries, 0, ev)[i]
        == upserted_entry(entries, ev));
    if entries.len() == 0 {
        assert(up =~= seq![target]);
        lemma_sweep_single(target, now, 0);
        assert(target == arrival_entry(ev));
    }
}

proof fn lemma_feed_same_key(window: u64, k: Seq<char>, cur: EntryModel, evs: Seq<SchedulerEvent>)
    requires
        k.len() > 0,
        cur.key == k,
        forall|i: int|
            0 <= i < evs.len() ==> (#[trigger] evs[i]) is Arrival && evs[i]->Arrival_key@ == k,
        forall|i: int|
            0 <= i < evs.len() - 1 ==> (#[trigger] evs[i])->Arrival_now
                <= evs[i + 1]->Arrival_now,
        forall|i: int|
            0 <= i < evs.len() - 1 ==> (#[trigger] evs[i + 1])->Arrival_now < evs[i]->Arrival_now
                + window,
        evs.len() > 0 ==> cur.last_update <= evs[0]->Arrival_now < cur.last_update + window,
    ensures
        run_flushed(seq![cur], window, evs) == Seq::<EntryModel>::empty(),
        run_table(seq![cur], window, evs) == seq![
            EntryModel {
                key: k,
                last_update: if evs.len() == 0 {
                    cur.last_update
                } else {
                    evs[evs.len() - 1]->Arrival_now
                },
                items: cur.items + arrival_items(evs),
            },
        ],
    decreases evs.len(),
{
    if evs.len() == 0 {
        assert(cur.items + arrival_items(evs) =~= cur.items);
        assert(EntryModel { key: k, last_update: cur.last_update, items: cur.items + arrival_items(evs) } == cur);
        assert(run_table(seq![cur], window, evs) =~= seq![cur]);
        assert(run_flushed(seq![cur], window, evs) =~= Seq::<EntryModel>::empty());
    } else {
        let ev0 = evs[0];
        let now = ev0->Arrival_now;
        let item = ev0->Arrival_item;
        assert(window >= 1);
        assert(keys_distinct(seq![cur]));
        lemma_index_of_key(seq![cur], k, 0);
        let cur1 = EntryModel { key: k, last_update: now, items: cur.items.push(item) };
        assert(upsert_model(seq![cur], k, item, now) =~= seq![cur1]);
        assert(!is_due(cur1, now, window));
        lemma_sweep_single(cur1, now, window);
        assert(step_table(seq![cur], window, ev0) == seq![cur1]);
        assert(step_flushed(seq![cur], window, ev0) == Seq::<EntryModel>::empty());
        let rest = evs.drop_first();
        assert(forall|i: int| 0 <= i < rest.len() ==> rest[i] == evs[i + 1]);
        lemma_feed_same_key(window, k, cur1, rest);
        let last_t = evs[evs.len() - 1]->Arrival_now;
        assert(run_table(seq![cur], window, evs) == run_table(seq![cur1], window, rest));
        assert(run_flushed(seq![cur], window, evs) =~= run_flushed(seq![cur1], window, rest));
        if rest.len() == 0 {
            assert(last_t == now);
        } else {
            assert(rest[rest.len() - 1] == evs[evs.len() - 1]);
        }
        assert(cur1.items + arrival_items(rest) =~= cur.items + arrival_items(evs)) by {
            assert(arrival_items(evs).len() == evs.len());
            assert(arrival_items(rest).len() == rest.len());
            assert(arrival_items(evs)[0] == item);
            assert(forall|i: int|
                0 <= i < rest.len() ==> arrival_items(rest)[i] == arrival_items(evs)[i + 1]);
        }
    }
}

/// Events that share one nonempty key and arrive strictly within the
/// debounce window of one another coalesce completely: the run that
/// receives them flushes nothing until the window lapses after the last of
/// them, and then exactly one group, holding every fragment in arrival
/// order under that key, stamped with the last arrival time.
proof fn lemma_same_key_zero_window(window: u64, k: Seq<char>, evs: Seq<SchedulerEvent>, fin: u64)
    requires
        evs.len() >= 1,
        k.len() > 0,
        forall|i: int|
            0 <= i < evs.len() ==> (#[trigger] evs[i]) is Arrival && evs[i]->Arrival_key@ == k,
        forall|i: int|
            0 <= i < evs.len() - 1 ==> (#[trigger] evs[i])->Arrival_now
                <= evs[i + 1]->Arrival_now,
        forall|i: int|
            0 <= i < evs.len() - 1 ==> (#[trigger] evs[i + 1])->Arrival_now < evs[i]->Arrival_now
                + window,
        evs[evs.len() - 1]->Arrival_now + window <= fin,
        window == 0,
    ensures
        run_table(
            Seq::<EntryModel>::empty(),
            window,
            evs.push(SchedulerEvent::DeadlineReached { now: fin }),
        ) == Seq::<EntryModel>::empty(),
        run_flushed(
            Seq::<EntryModel>::empty(),
            window,
            evs.push(SchedulerEvent::DeadlineReached { now: fin }),
        ) == seq![
            EntryModel {
                key: k,
                last_update: evs[evs.len() - 1]->Arrival_now,
                items: arrival_items(evs),
            },
        ],
{
    let none = Seq::<EntryModel>::empty();
    let dl = SchedulerEvent::DeadlineReached { now: fin };
    let all = evs.push(dl);
    let ev0 = evs[0];
    let t0 = ev0->Arrival_now;
    let item0 = ev0->Arrival_item;
    let e0 = arrival_entry(ev0);
    assert(!has_key(none, k));
    assert(upsert_model(none, k, item0, t0) =~= seq![e0]);
    lemma_sweep_empty(fin, window);
    assert(run_table(none, window, Seq::<SchedulerEvent>::empty()) == none);
    assert(run_flushed(none, window, Seq::<SchedulerEvent>::empty()) == Seq::<EntryModel>::empty());

        if evs.len() >= 2 {
            assert(evs[0]->Arrival_now <= evs[1]->Arrival_now);
            assert(evs[1]->Arrival_now < evs[0]->Arrival_now + 0);
            assert(false);
        }
        assert(is_due(e0, t0, 0));
        lemma_sweep_single(e0, t0, 0);
        assert(step_table(none, 0, ev0) == none);
        assert(step_flushed(none, 0, ev0) == seq![e0]);
        assert(all =~= seq![ev0, dl]);
        assert(all.drop_first() =~= seq![dl]);
        assert(seq![dl].drop_first() =~= Seq::<SchedulerEvent>::empty());
        assert(step_table(none, 0, dl) == none);
        assert(step_flushed(none, 0, dl) == none);
        assert(seq![dl][0] == dl);
        assert(run_table(none, window, seq![dl]) == none);
        assert(run_flushed(none, window, seq![dl]) =~= none);
        assert(all[0] == ev0);
        assert(run_table(none, window, all) == none);
        assert(run_flushed(none, window, all) =~= seq![e0]);
        assert(e0.items =~= arrival_items(evs)) by {
            assert(arrival_items(evs).len() == 1);
            assert(arrival_items(evs)[0] == item0);
        }
        assert(seq![e0] =~= seq![
            EntryModel {
                key: k,
                last_update: evs[evs.len() - 1]->Arrival_now,
                items: arrival_items(evs),
            },
        ]);
}

#[verifier::rlimit(80)]
proof fn lemma_same_key_positive_window(window: u64, k: Seq<char>, evs: Seq<SchedulerEvent>, fin: u64)
    requires
        evs.len() >= 1,
        k.len() > 0,
        forall|i: int|
            0 <= i < evs.len() ==> (#[trigger] evs[i]) is Arrival && evs[i]->Arrival_key@ == k,
        forall|i: int|
            0 <= i < evs.len() - 1 ==> (#[trigger] evs[i])->Arrival_now
                <= evs[i + 1]->Arrival_now,
        forall|i: int|
            0 <= i < evs.len() - 1 ==> (#[trigger] evs[i + 1])->Arrival_now < evs[i]->Arrival_now
                + window,
        evs[evs.len() - 1]->Arrival_now + window <= fin,
        window >= 1,
    ensures
        run_table(
            Seq::<EntryModel>::empty(),
            window,
            evs.push(SchedulerEvent::DeadlineReached { now: fin }),
        ) == Seq::<EntryModel>::empty(),
        run_flushed(
            Seq::<EntryModel>::empty(),
            window,
            evs.push(SchedulerEvent::DeadlineReached { now: fin }),
        ) == seq![
            EntryModel {
                key: k,
                last_update: evs[evs.len() - 1]->Arrival_now,
                items: arrival_items(evs),
            },
        ],
{
    let none = Seq::<EntryModel>::empty();
    let dl = SchedulerEvent::DeadlineReached { now: fin };
    let all = evs.push(dl);
    let ev0 = evs[0];
    let t0 = ev0->Arrival_now;
    let item0 = ev0->Arrival_item;
    let e0 = arrival_entry(ev0);
    assert(!has_key(none, k));
    assert(upsert_model(none, k, item0, t0) =~= seq![e0]);
    lemma_sweep_empty(fin, window);
    assert(run_table(none, window, Seq::<SchedulerEvent>::empty()) == none);
    assert(run_flushed(none, window, Seq::<SchedulerEvent>::empty()) == Seq::<EntryModel>::empty());

        assert(!is_due(e0, t0, window));
        lemma_sweep_single(e0, t0, window);
        assert(step_table(none, window, ev0) == seq![e0]);
        assert(step_flushed(none, window, ev0) == none);
        let rest = evs.drop_first();
        assert(forall|i: int| 0 <= i < rest.len() ==> rest[i] == evs[i + 1]);
        lemma_feed_same_key(window, k, e0, rest);
        let t_last = evs[evs.len() - 1]->Arrival_now;
        let merged = EntryModel { key: k, last_update: t_last, items: arrival_items(evs) };
        assert(run_table(seq![e0], window, rest) == seq![merged]) by {
            if rest.len() == 0 {
                assert(t_last == t0);
            } else {
                assert(rest[rest.len() - 1] == evs[evs.len() - 1]);
            }
            assert(e0.items + arrival_items(rest) =~= arrival_items(evs)) by {
                assert(arrival_items(evs).len() == evs.len());
                assert(arrival_items(evs)[0] == item0);
                assert(forall|i: int|
                    0 <= i < rest.len() ==> arrival_items(rest)[i] == arrival_items(evs)[i + 1]);
            }
        }
        assert(run_flushed(seq![e0], window, rest) == none);
        // The final deadline flushes the single coalesced group.
        assert(is_due(merged, fin, window));
        lemma_sweep_single(merged, fin, window);
        assert(step_table(seq![merged], window, dl) == none);
        assert(step_flushed(seq![merged], window, dl) == seq![merged]);
        // Stitch the three phases of the run together.
        assert(all =~= seq![ev0] + (rest + seq![dl]));
        lemma_run_append(none, window, seq![ev0], rest + seq![dl]);
        assert(seq![ev0].drop_first() =~= Seq::<SchedulerEvent>::empty());
        assert(seq![ev0][0] == ev0);
        assert(run_table(seq![e0], window, Seq::<SchedulerEvent>::empty()) == seq![e0]);
        assert(run_flushed(seq![e0], window, Seq::<SchedulerEvent>::empty())
            == Seq::<EntryModel>::empty());
        assert(run_table(none, window, seq![ev0]) == seq![e0]);
        assert(run_flushed(none, window, seq![ev0]) =~= none);
        lemma_run_append(seq![e0], window, rest, seq![dl]);
        assert(seq![dl].drop_first() =~= Seq::<SchedulerEvent>::empty());
        assert(seq![dl][0] == dl);
        assert(run_table(seq![merged], window, seq![dl]) == none);
        assert(run_flushed(none, window, Seq::<SchedulerEvent>::empty())
            == Seq::<EntryModel>::empty());
        assert(run_flushed(seq![merged], window, seq![dl]) =~= seq![merged]);
        assert(run_table(none, window, all) == none);
        assert(run_flushed(none, window, all) =~= seq![merged]);
}

/// Events that share one nonempty key and arrive strictly within the
/// debounce window of one another coalesce completely: the run that
/// receives them flushes nothing until the window lapses after the last of
/// them, and then exactly one group, holding every fragment in arrival
/// order under that key, stamped with the last arrival time.
pub proof fn lemma_same_key_one_flush(
    window: u64,
    k: Seq<char>,
    evs: Seq<SchedulerEvent>,
    fin: u64,
)
    requires
        evs.len() >= 1,
        k.len() > 0,
        forall|i: int|
            0 <= i < evs.len() ==> (#[trigger] evs[i]) is Arrival && evs[i]->Arrival_key@ == k,
        forall|i: int|
            0 <= i < evs.len() - 1 ==> (#[trigger] evs[i])->Arrival_now
                <= evs[i + 1]->Arrival_now,
        forall|i: int|
            0 <= i < evs.len() - 1 ==> (#[trigger] evs[i + 1])->Arrival_now < evs[i]->Arrival_now
                + window,
        evs[evs.len() - 1]->Arrival_now + window <= fin,
    ensures
        run_table(
            Seq::<EntryModel>::empty(),
            window,
            evs.push(SchedulerEvent::DeadlineReached { now: fin }),
        ) == Seq::<EntryModel>::empty(),
        run_flushed(
            Seq::<EntryModel>::empty(),
            window,
            evs.push(SchedulerEvent::DeadlineReached { now: fin }),
        ) == seq![
            EntryModel {
                key: k,
                last_update: evs[evs.len() - 1]->Arrival_now,
                items: arrival_items(evs),
            },
        ],
{
    if window == 0 {
        lemma_same_key_zero_window(window, k, evs, fin);
    } else {
        lemma_same_key_positive_window(window, k, evs, fin);
    }
}

proof fn lemma_feed_distinct(window: u64, pending: Seq<EntryModel>, evs: Seq<SchedulerEvent>)
    requires
        keys_distinct(pending),
        times_sorted(pending),
        forall|i: int|
            0 <= i < evs.len() ==> (#[trigger] evs[i]) is Arrival && evs[i]->Arrival_key@.len()
                > 0,
        forall|i: int, j: int|
            0 <= i < j < evs.len() ==> (#[trigger] evs[i])->Arrival_key@ != (
            #[trigger] evs[j])->Arrival_key@,
        forall|i: int, j: int|
            0 <= i < pending.len() && 0 <= j < evs.len() ==> (#[trigger] pending[i]).key != (
            #[trigger] evs[j])->Arrival_key@,
        forall|i: int, j: int|
            0 <= i < j < evs.len() ==> (#[trigger] evs[i])->Arrival_now <= (
            #[trigger] evs[j])->Arrival_now,
        forall|i: int, j: int|
            0 <= i < pending.len() && 0 <= j < evs.len() ==> (#[trigger] pending[i]).last_update
                <= (#[trigger] evs[j])->Arrival_now,
    ensures
        run_table(pending, window, evs.push(SchedulerEvent::Shutdown))
            == Seq::<EntryModel>::empty(),
        run_flushed(pending, window, evs.push(SchedulerEvent::Shutdown)) == pending
            + arrival_entries(evs),
    decreases evs.len(),
{
    let sd = SchedulerEvent::Shutdown;
    let all = evs.push(sd);
    if evs.len() == 0 {
        assert(all =~= seq![sd]);
        assert(seq![sd][0] == sd);
        assert(seq![sd].drop_first() =~= Seq::<SchedulerEvent>::empty());
        assert(step_table(pending, window, sd) == Seq::<EntryModel>::empty());
        assert(step_flushed(pending, window, sd) == pending);
        assert(run_table(Seq::<EntryModel>::empty(), window, Seq::<SchedulerEvent>::empty())
            == Seq::<EntryModel>::empty());
        assert(run_flushed(Seq::<EntryModel>::empty(), window, Seq::<SchedulerEvent>::empty())
            == Seq::<EntryModel>::empty());
        assert(run_table(pending, window, all) == Seq::<EntryModel>::empty());
        assert(run_flushed(pending, window, all) =~= pending + arrival_entries(evs));
    } else {
        let ev0 = evs[0];
        let k0 = ev0->Arrival_key@;
        let t0 = ev0->Arrival_now;
        let item0 = ev0->Arrival_item;
        let e0 = arrival_entry(ev0);
        assert(!has_key(pending, k0)) by {
            if has_key(pending, k0) {
                let i = choose|i: int| 0 <= i < pending.len() && pending[i].key == k0;
                assert(pending[i].key != evs[0]->Arrival_key@);
            }
        }
        assert(upsert_model(pending, k0, item0, t0) =~= pending.push(e0));
        let newp = pending.push(e0);
        assert(keys_distinct(newp)) by {
            assert forall|i: int, j: int| 0 <= i < j < newp.len() implies newp[i].key
                != newp[j].key by {
                if j == pending.len() {
                    assert(newp[i] == pending[i]);
                    assert(pending[i].key != evs[0]->Arrival_key@);
                } else {
                    assert(newp[i] == pending[i] && newp[j] == pending[j]);
                }
            }
        }
        assert(times_sorted(newp)) by {
            assert forall|i: int, j: int| 0 <= i < j < newp.len() implies newp[i].last_update
                <= newp[j].last_update by {
                if j == pending.len() {
                    assert(newp[i] == pending[i]);
                    assert(pending[i].last_update <= evs[0]->Arrival_now);
                } else {
                    assert(newp[i] == pending[i] && newp[j] == pending[j]);
                }
            }
        }
        let m = lemma_due_prefix(newp, t0, window);
        assert(step_table(pending, window, ev0) == newp.skip(m));
        assert(step_flushed(pending, window, ev0) == newp.take(m));
        let rest = evs.drop_first();
        let pending1 = newp.skip(m);
        assert(forall|i: int| 0 <= i < rest.len() ==> rest[i] == evs[i + 1]);
        assert(forall|i: int| 0 <= i < pending1.len() ==> pending1[i] == newp[m + i]);
        assert(keys_distinct(pending1));
        assert(times_sorted(pending1));
        assert forall|i: int, j: int|
            0 <= i < pending1.len() && 0 <= j < rest.len() implies pending1[i].key != (
        rest[j])->Arrival_key@ && pending1[i].last_update <= (rest[j])->Arrival_now by {
            assert(pending1[i] == newp[m + i]);
            assert(rest[j] == evs[j + 1]);
            if m + i < pending.len() {
                assert(newp[m + i] == pending[m + i]);
                assert(pending[m + i].key != evs[j + 1]->Arrival_key@);
                assert(pending[m + i].last_update <= evs[j + 1]->Arrival_now);
            } else {
                assert(newp[m + i] == e0);
                assert(evs[0]->Arrival_key@ != evs[j + 1]->Arrival_key@);
                assert(evs[0]->Arrival_now <= evs[j + 1]->Arrival_now);
            }
        }
        lemma_feed_distinct(window, pending1, rest);
        assert(all[0] == ev0);
        assert(all.drop_first() =~= rest.push(sd));
        assert(run_table(pending, window, all) == Seq::<EntryModel>::empty());
        assert(run_flushed(pending, window, all) =~= pending + arrival_entries(evs)) by {
            assert(run_flushed(pending, window, all) == newp.take(m) + (pending1
                + arrival_entries(rest)));
            assert(newp.take(m) + pending1 =~= newp);
            assert(arrival_entries(evs).len() == evs.len());
            assert(arrival_entries(rest).len() == rest.len());
            assert(arrival_entries(evs)[0] == e0);
            assert(forall|i: int|
                0 <= i < rest.len() ==> arrival_entries(rest)[i] == arrival_entries(evs)[i + 1]);
        }
    }
}

/// Events with pairwise distinct (nonempty) keys never merge: however they
/// interleave in time, a run that receives them in time order and then
/// shuts down flushes exactly one single-fragment group per event, in
/// arrival order, each holding only its own fragment.
pub proof fn lemma_distinct_keys_independent(window: u64, evs: Seq<SchedulerEvent>)
    requires
        forall|i: int|
            0 <= i < evs.len() ==> (#[trigger] evs[i]) is Arrival && evs[i]->Arrival_key@.len()
                > 0,
        forall|i: int, j: int|
            0 <= i < j < evs.len() ==> (#[trigger] evs[i])->Arrival_key@ != (
            #[trigger] evs[j])->Arrival_key@,
        forall|i: int, j: int|
            0 <= i < j < evs.len() ==> (#[trigger] evs[i])->Arrival_now <= (
            #[trigger] evs[j])->Arrival_now,
    ensures
        run_table(Seq::<EntryModel>::empty(), window, evs.push(SchedulerEvent::Shutdown))
            == Seq::<EntryModel>::empty(),
        run_flushed(Seq::<EntryModel>::empty(), window, evs.push(SchedulerEvent::Shutdown))
            == arrival_entries(evs),
        forall|i: int|
            0 <= i < evs.len() ==> (#[trigger] arrival_entries(evs)[i]).items == seq![
                evs[i]->Arrival_item,
            ],
{
    lemma_feed_distinct(window, Seq::<EntryModel>::empty(), evs);
    assert(Seq::<EntryModel>::empty() + arrival_entries(evs) =~= arrival_entries(evs));
}

} // verus!
