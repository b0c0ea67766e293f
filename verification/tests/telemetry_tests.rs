use metatron_qso::telemetry::{Config, Job, JobStatus, TelemetryLog, MAX_HISTORY, MAX_JOBS};

fn job(id: u128, started_at: i64) -> Job<u32> {
    Job {
        id,
        job_type: "calibration".to_string(),
        status: JobStatus::Pending,
        started_at,
        completed_at: None,
        metrics: 0,
    }
}

#[test]
fn default_config() {
    let config = Config::default();
    assert_eq!(config.server.host, "127.0.0.1");
    assert_eq!(config.server.port, 8080);
    assert_eq!(config.static_dir, "metatron_telemetry/static");
}

#[test]
fn job_list_keeps_the_most_recent_hundred() {
    let mut log: TelemetryLog<u32, u32> = TelemetryLog::new();
    for id in 0..105u128 {
        log.add_job(job(id, id as i64));
    }
    let all = log.jobs(None);
    assert_eq!(all.len(), MAX_JOBS);
    assert_eq!(all[0].id, 5);
    assert_eq!(all[99].id, 104);
    assert!(log.job(4).is_none());
    assert_eq!(log.job(5).unwrap().started_at, 5);
}

#[test]
fn jobs_limit_returns_the_newest() {
    let mut log: TelemetryLog<u32, u32> = TelemetryLog::new();
    for id in 1..=4u128 {
        log.add_job(job(id, 0));
    }
    let ids: Vec<u128> = log.jobs(Some(2)).iter().map(|j| j.id).collect();
    assert_eq!(ids, vec![3, 4]);
    assert_eq!(log.jobs(Some(10)).len(), 4);
    assert!(log.jobs(Some(0)).is_empty());
}

#[test]
fn updating_a_job_sets_status_metrics_and_completion() {
    let mut log: TelemetryLog<u32, u32> = TelemetryLog::new();
    log.add_job(job(7, 100));
    log.add_job(job(8, 200));
    log.update_job(7, JobStatus::Running, None, 150);
    let j = log.job(7).unwrap();
    assert_eq!(j.status, JobStatus::Running);
    assert_eq!(j.completed_at, None);
    assert_eq!(j.metrics, 0);
    log.update_job(7, JobStatus::Completed, Some(42), 300);
    let j = log.job(7).unwrap();
    assert_eq!(j.status, JobStatus::Completed);
    assert_eq!(j.completed_at, Some(300));
    assert_eq!(j.metrics, 42);
    log.update_job(8, JobStatus::Failed, None, 400);
    assert_eq!(log.job(8).unwrap().completed_at, Some(400));
    // an unknown identifier changes nothing
    log.update_job(99, JobStatus::Failed, Some(1), 500);
    assert_eq!(log.jobs(None).len(), 2);
    assert_eq!(log.job(7).unwrap().metrics, 42);
}

#[test]
fn history_is_bounded_and_limited() {
    let mut log: TelemetryLog<u32, u32> = TelemetryLog::new();
    for p in 0..1005u32 {
        log.add_history_point(p);
    }
    let all = log.history(None);
    assert_eq!(all.len(), MAX_HISTORY);
    assert_eq!(all[0], 5);
    assert_eq!(*all.last().unwrap(), 1004);
    assert_eq!(log.history(Some(3)), vec![1002, 1003, 1004]);
    assert_eq!(log.history(Some(5000)).len(), 1000);
    assert!(log.jobs(None).is_empty());
}

#[test]
fn added_job_is_found() {
    let mut log: TelemetryLog<u32, u32> = TelemetryLog::new();
    for id in 0..150u128 {
        log.add_job(job(id, 0));
    }
    let mut fresh = job(1000, 77);
    fresh.metrics = 5;
    log.add_job(fresh);
    let found = log.job(1000).unwrap();
    assert_eq!(found.started_at, 77);
    assert_eq!(found.metrics, 5);
    assert_eq!(log.jobs(None).last().unwrap().id, 1000);
}
