use plex_discord_webhook::builder::build;
use plex_discord_webhook::embed::Embed;
use plex_discord_webhook::scheduler::Scheduler;
use plex_discord_webhook::scheduler::SchedulerEvent;

fn fragment(desc: &str) -> Embed {
    let mut em = Embed::default();
    em.description = Some(desc.to_string());
    em.title = Some("New episode added: Show".to_string());
    em
}

fn arrival(key: &str, desc: &str, now: u64) -> SchedulerEvent {
    SchedulerEvent::Arrival { key: key.to_string(), item: fragment(desc), now }
}

#[test]
fn single_event_waits_for_window() {
    let mut sched = Scheduler::new(5);
    let flushed = sched.step(arrival("A", "ep1", 0));
    assert_eq!(flushed.len(), 0);
    assert_eq!(sched.next_deadline(), Some(5));
}

#[test]
fn window_slides_on_each_arrival() {
    let mut sched = Scheduler::new(5);
    sched.step(arrival("A", "ep1", 0));
    assert_eq!(sched.next_deadline(), Some(5));
    sched.step(arrival("A", "ep2", 2));
    assert_eq!(sched.next_deadline(), Some(7));
}

#[test]
fn two_events_one_key_merge_in_arrival_order() {
    // Debounce window of five; events for key "A" at t=0 and t=2; silence
    // afterwards. Nothing may flush at t=5; at t=7 exactly one group with
    // both fragments flushes.
    let mut sched = Scheduler::new(5);
    let flushed = sched.step(arrival("A", "ep1", 0));
    assert_eq!(flushed.len(), 0);
    let flushed = sched.step(arrival("A", "ep2", 2));
    assert_eq!(flushed.len(), 0);
    let flushed = sched.step(SchedulerEvent::DeadlineReached { now: 5 });
    assert_eq!(flushed.len(), 0);
    let mut flushed = sched.step(SchedulerEvent::DeadlineReached { now: 7 });
    assert_eq!(flushed.len(), 1);
    let entry = flushed.remove(0);
    assert_eq!(entry.key, "A".to_string());
    assert_eq!(entry.group.last_update, 2);
    assert_eq!(entry.group.items.len(), 2);
    assert_eq!(entry.group.items[0].description, Some("ep1".to_string()));
    assert_eq!(entry.group.items[1].description, Some("ep2".to_string()));
    assert_eq!(sched.table.len(), 0);
    let notification = build(entry.group);
    assert_eq!(notification.description, Some("ep1\nep2".to_string()));
    assert_eq!(notification.title, Some("New episode added: Show".to_string()));
}

#[test]
fn arrival_on_the_window_boundary_still_merges() {
    // The window slides before due groups are collected, so an arrival at
    // exactly the pending deadline refreshes the group instead of letting
    // it flush.
    let mut sched = Scheduler::new(5);
    sched.step(arrival("A", "ep1", 0));
    let flushed = sched.step(arrival("A", "ep2", 5));
    assert_eq!(flushed.len(), 0);
    assert_eq!(sched.next_deadline(), Some(10));
    let flushed = sched.step(SchedulerEvent::DeadlineReached { now: 10 });
    assert_eq!(flushed.len(), 1);
    assert_eq!(flushed[0].group.items.len(), 2);
}

#[test]
fn continued_traffic_keeps_extending_the_wait() {
    let mut sched = Scheduler::new(5);
    sched.step(arrival("A", "ep1", 0));
    sched.step(arrival("A", "ep2", 4));
    sched.step(arrival("A", "ep3", 8));
    // The first two deadlines have been overtaken by fresh arrivals.
    let flushed = sched.step(SchedulerEvent::DeadlineReached { now: 12 });
    assert_eq!(flushed.len(), 0);
    let flushed = sched.step(SchedulerEvent::DeadlineReached { now: 13 });
    assert_eq!(flushed.len(), 1);
    assert_eq!(flushed[0].group.items.len(), 3);
}

#[test]
fn distinct_keys_flush_independently() {
    let mut sched = Scheduler::new(5);
    sched.step(arrival("A", "a1", 0));
    sched.step(arrival("B", "b1", 1));
    let flushed = sched.step(SchedulerEvent::DeadlineReached { now: 5 });
    assert_eq!(flushed.len(), 1);
    assert_eq!(flushed[0].key, "A".to_string());
    assert_eq!(flushed[0].group.items.len(), 1);
    assert_eq!(flushed[0].group.items[0].description, Some("a1".to_string()));
    assert!(sched.table.contains_key(&"B".to_string()));
    let flushed = sched.step(SchedulerEvent::DeadlineReached { now: 6 });
    assert_eq!(flushed.len(), 1);
    assert_eq!(flushed[0].key, "B".to_string());
    assert_eq!(flushed[0].group.items[0].description, Some("b1".to_string()));
    assert_eq!(sched.table.len(), 0);
}

#[test]
fn empty_key_flushes_as_singleton_at_once() {
    let mut sched = Scheduler::new(5);
    sched.step(arrival("A", "a1", 0));
    let flushed = sched.step(arrival("", "solo", 1));
    // The keyless event flushes on this very step, ahead of anything due,
    // and key "A" keeps waiting for its window.
    assert_eq!(flushed.len(), 1);
    assert_eq!(flushed[0].key, "".to_string());
    assert_eq!(flushed[0].group.items.len(), 1);
    assert_eq!(flushed[0].group.items[0].description, Some("solo".to_string()));
    assert_eq!(sched.table.len(), 1);
    assert!(sched.table.contains_key(&"A".to_string()));
}

#[test]
fn zero_window_disables_coalescing() {
    let mut sched = Scheduler::new(0);
    let flushed = sched.step(arrival("A", "one", 3));
    assert_eq!(flushed.len(), 1);
    assert_eq!(flushed[0].key, "A".to_string());
    assert_eq!(flushed[0].group.items.len(), 1);
    assert_eq!(sched.table.len(), 0);
    let flushed = sched.step(arrival("A", "two", 3));
    assert_eq!(flushed.len(), 1);
    assert_eq!(flushed[0].group.items.len(), 1);
    assert_eq!(flushed[0].group.items[0].description, Some("two".to_string()));
    assert_eq!(sched.table.len(), 0);
}

#[test]
fn shutdown_flushes_pending_groups() {
    // The queue closes at t=1 while key "C" (window five, last update t=0)
    // is still pending: the group must be flushed, not dropped.
    let mut sched = Scheduler::new(5);
    sched.step(arrival("C", "c1", 0));
    let flushed = sched.step(SchedulerEvent::Shutdown);
    assert_eq!(flushed.len(), 1);
    assert_eq!(flushed[0].key, "C".to_string());
    assert_eq!(flushed[0].group.items.len(), 1);
    assert_eq!(flushed[0].group.items[0].description, Some("c1".to_string()));
    assert_eq!(sched.table.len(), 0);
}

#[test]
fn shutdown_on_empty_table_flushes_nothing() {
    let mut sched = Scheduler::new(5);
    let flushed = sched.step(SchedulerEvent::Shutdown);
    assert_eq!(flushed.len(), 0);
}

#[test]
fn deadline_is_earliest_over_all_keys() {
    let mut sched = Scheduler::new(10);
    assert_eq!(sched.next_deadline(), None);
    sched.step(arrival("A", "a", 7));
    sched.step(arrival("B", "b", 3));
    assert_eq!(sched.next_deadline(), Some(13));
}

#[test]
fn deadline_saturates_at_the_largest_time() {
    let mut sched = Scheduler::new(10);
    sched.step(arrival("A", "a", u64::MAX - 3));
    assert_eq!(sched.next_deadline(), Some(u64::MAX));
}

#[test]
fn late_event_after_flush_starts_a_fresh_group() {
    let mut sched = Scheduler::new(5);
    sched.step(arrival("A", "old", 0));
    let flushed = sched.step(SchedulerEvent::DeadlineReached { now: 5 });
    assert_eq!(flushed.len(), 1);
    let flushed = sched.step(arrival("A", "new", 6));
    assert_eq!(flushed.len(), 0);
    let flushed = sched.step(SchedulerEvent::DeadlineReached { now: 11 });
    assert_eq!(flushed.len(), 1);
    assert_eq!(flushed[0].group.items.len(), 1);
    assert_eq!(flushed[0].group.items[0].description, Some("new".to_string()));
}
