use plex_discord_webhook::builder::build;
use plex_discord_webhook::dispatch::fanout_jobs;
use plex_discord_webhook::dispatch::is_success_status;
use plex_discord_webhook::dispatch::tally_outcomes;
use plex_discord_webhook::embed::Embed;
use plex_discord_webhook::scheduler::Scheduler;
use plex_discord_webhook::scheduler::SchedulerEvent;

fn notification(desc: &str) -> Embed {
    let mut em = Embed::default();
    em.title = Some("New media added".to_string());
    em.description = Some(desc.to_string());
    em
}

#[test]
fn fanout_plans_one_job_per_endpoint_in_order() {
    let urls = vec![
        "https://hooks.example/1".to_string(),
        "https://hooks.example/2".to_string(),
        "https://hooks.example/3".to_string(),
    ];
    let jobs = fanout_jobs(&notification("x"), &urls);
    assert_eq!(jobs.len(), 3);
    for (job, url) in jobs.iter().zip(urls.iter()) {
        assert_eq!(&job.url, url);
        assert_eq!(job.notification.description, Some("x".to_string()));
        assert_eq!(job.notification.title, Some("New media added".to_string()));
    }
}

#[test]
fn fanout_of_no_endpoints_is_empty() {
    let urls: Vec<String> = vec![];
    let jobs = fanout_jobs(&notification("x"), &urls);
    assert_eq!(jobs.len(), 0);
}

#[test]
fn tally_counts_every_attempt_and_every_failure() {
    let report = tally_outcomes(&vec![false, true, false, false]);
    assert_eq!(report.attempted, 4);
    assert_eq!(report.failed, 3);
    let report = tally_outcomes(&vec![true, true]);
    assert_eq!(report.attempted, 2);
    assert_eq!(report.failed, 0);
    let report = tally_outcomes(&vec![]);
    assert_eq!(report.attempted, 0);
    assert_eq!(report.failed, 0);
}

#[test]
fn failing_endpoint_does_not_curtail_the_fanout_or_refetch_the_group() {
    // Window five, endpoints E1 (always fails) and E2 (always succeeds),
    // one event for key "B" at t=0. At t=5 exactly one attempt per
    // endpoint is planned, the failure is counted, and the group is gone
    // from the table for good.
    let mut sched = Scheduler::new(5);
    let mut item = Embed::default();
    item.description = Some("b1".to_string());
    sched.step(SchedulerEvent::Arrival { key: "B".to_string(), item, now: 0 });
    let mut flushed = sched.step(SchedulerEvent::DeadlineReached { now: 5 });
    assert_eq!(flushed.len(), 1);
    let entry = flushed.remove(0);
    assert_eq!(entry.key, "B".to_string());
    let merged = build(entry.group);
    let urls = vec!["https://hooks.example/e1".to_string(), "https://hooks.example/e2".to_string()];
    let jobs = fanout_jobs(&merged, &urls);
    assert_eq!(jobs.len(), 2);
    assert_eq!(jobs[0].url, urls[0]);
    assert_eq!(jobs[1].url, urls[1]);
    // E1 fails, E2 succeeds; both were attempted exactly once.
    let report = tally_outcomes(&vec![false, true]);
    assert_eq!(report.attempted, 2);
    assert_eq!(report.failed, 1);
    // The failure never reaches the table: "B" stays flushed.
    assert!(!sched.table.contains_key(&"B".to_string()));
    let flushed = sched.step(SchedulerEvent::DeadlineReached { now: 20 });
    assert_eq!(flushed.len(), 0);
}

#[test]
fn success_statuses_are_the_two_hundreds() {
    assert!(is_success_status(200));
    assert!(is_success_status(204));
    assert!(is_success_status(299));
    assert!(!is_success_status(199));
    assert!(!is_success_status(300));
    assert!(!is_success_status(404));
    assert!(!is_success_status(500));
}
