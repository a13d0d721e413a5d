use parls::config::{apply_defaults, banner, get_cli, Banner, ConfigError, ParLsCfg};
use parls::orchestrator::{step, Action, Event, Phase};
use parls::worker_queue::{FinishStep, QueueError};

fn settings(dir: &str) -> ParLsCfg {
    ParLsCfg {
        dir: dir.as_bytes().to_vec(),
        usage_mode: false,
        list_files: false,
        limit: 10,
        delimiter: '|',
        no_threads: 0,
        file_newer_than: None,
        file_older_than: None,
        re: None,
        exclude_re: None,
        verbose: 0,
        ticker_interval: 200,
        progress: false,
        t_status_interval: false,
        t_status_on_key: false,
        write_thread_cpu_time: false,
        update_status: false,
        long_help: false,
    }
}

#[test]
fn defaults_are_filled_in() {
    let r = apply_defaults(settings("/data/"), 16);
    assert_eq!(r.no_threads, 16);
    assert!(r.usage_mode);
    assert!(!r.list_files);
    assert!(!r.update_status);
    assert_eq!(r.dir, b"/data".to_vec());
    assert_eq!(r.limit, 10);
    assert_eq!(r.delimiter, '|');
    assert_eq!(r.ticker_interval, 200);
}

#[test]
fn at_least_four_workers() {
    assert_eq!(apply_defaults(settings("/"), 1).no_threads, 4);
    assert_eq!(apply_defaults(settings("/"), 4).no_threads, 4);
    assert_eq!(apply_defaults(settings("/"), 5).no_threads, 5);
    let mut one = settings("/");
    one.no_threads = 1;
    assert_eq!(apply_defaults(one, 64).no_threads, 1);
}

#[test]
fn a_mode_that_was_asked_for_stays() {
    let mut list = settings("/x");
    list.list_files = true;
    let r = apply_defaults(list, 8);
    assert!(r.list_files);
    assert!(!r.usage_mode);
    let mut both = settings("/x");
    both.list_files = true;
    both.usage_mode = true;
    let r = apply_defaults(both, 8);
    assert!(r.list_files && r.usage_mode);
}

#[test]
fn showing_the_status_makes_threads_keep_it() {
    let mut a = settings("/x");
    a.t_status_on_key = true;
    assert!(apply_defaults(a, 8).update_status);
    let mut b = settings("/x");
    b.t_status_interval = true;
    assert!(apply_defaults(b, 8).update_status);
}

#[test]
fn defaults_for_this_machine() {
    let r = get_cli(settings("/data"));
    assert!(r.no_threads >= 4);
    assert!(r.usage_mode);
    let mut three = settings("/data");
    three.no_threads = 3;
    assert_eq!(get_cli(three).no_threads, 3);
}

#[test]
fn filters_of_the_settings() {
    let mut s = settings("/x");
    s.re = Some("a".to_string());
    s.exclude_re = Some("b".to_string());
    s.file_newer_than = Some(5);
    s.file_older_than = Some(9);
    let f = s.filters();
    assert_eq!(f.re, Some("a".to_string()));
    assert_eq!(f.exclude_re, Some("b".to_string()));
    assert_eq!(f.age.newer_than, Some(5));
    assert_eq!(f.age.older_than, Some(9));
    assert_eq!(s.age_filter().newer_than, Some(5));
    assert!(f.passes(&b"xa".to_vec(), 7));
    assert!(!f.passes(&b"xab".to_vec(), 7));
    assert!(!f.passes(&b"xa".to_vec(), 9));
}

#[test]
fn what_a_scan_announces() {
    assert_eq!(banner(true, true), Ok(Banner::ListAndUsage));
    assert_eq!(banner(false, true), Ok(Banner::Usage));
    assert_eq!(banner(true, false), Ok(Banner::List));
    assert_eq!(banner(false, false), Err(ConfigError::NoMode));
}

#[test]
fn the_course_of_a_scan() {
    let n = 4;
    let (p, a) = step(Phase::Starting, n, Event::Begin);
    assert_eq!((p, a), (Phase::Scanning, Action::Start { workers: 4 }));
    let (p, a) = step(p, n, Event::Looked(Ok(FinishStep::TimedOut)));
    assert_eq!((p, a), (Phase::Scanning, Action::WaitForWork));
    let (p, a) = step(p, n, Event::Looked(Ok(FinishStep::Wait)));
    assert_eq!((p, a), (Phase::Scanning, Action::WaitForWork));
    let (p, a) = step(p, n, Event::Looked(Ok(FinishStep::Quiescent(4))));
    assert_eq!((p, a), (Phase::StoppingWorkers, Action::ReleaseWorkers { sentinels: 4 }));
    let (p, a) = step(p, n, Event::Joined);
    assert_eq!((p, a), (Phase::Draining, Action::WaitForBatches));
    let (p, a) = step(p, n, Event::Looked(Ok(FinishStep::Wait)));
    assert_eq!((p, a), (Phase::Draining, Action::WaitForBatches));
    let (p, a) = step(p, n, Event::Looked(Ok(FinishStep::Quiescent(1))));
    assert_eq!((p, a), (Phase::StoppingAggregator, Action::ReleaseAggregator));
    let (p, a) = step(p, n, Event::Joined);
    assert_eq!((p, a), (Phase::Finished, Action::Finish));
    assert_eq!(step(p, n, Event::Joined), (Phase::Failed, Action::Refuse));
}

#[test]
fn a_scan_gives_up_on_a_failed_queue() {
    let e = QueueError::Dead { dead: 2 };
    assert_eq!(step(Phase::Scanning, 4, Event::Looked(Err(e))), (Phase::Failed, Action::Fail(e)));
    let s = QueueError::Stuck { len: 3, pushers: 4 };
    assert_eq!(step(Phase::Draining, 4, Event::Looked(Err(s))), (Phase::Failed, Action::Fail(s)));
}

#[test]
fn what_cannot_follow_is_refused() {
    assert_eq!(step(Phase::Starting, 4, Event::Joined), (Phase::Failed, Action::Refuse));
    assert_eq!(step(Phase::Scanning, 4, Event::Begin), (Phase::Failed, Action::Refuse));
    assert_eq!(step(Phase::Scanning, 4, Event::Joined), (Phase::Failed, Action::Refuse));
    assert_eq!(step(Phase::StoppingWorkers, 4, Event::Looked(Ok(FinishStep::Quiescent(4)))), (Phase::Failed, Action::Refuse));
    assert_eq!(step(Phase::Failed, 4, Event::Begin), (Phase::Failed, Action::Refuse));
}
