use clog_core::thread_groups::{classify, ThreadGroup, ThreadGroupMask};

#[test]
fn classifies_play_request_workers() {
    assert_eq!(classify(b"play-thread-1"), ThreadGroup::Requests);
    assert_eq!(classify(b"play-thread-20"), ThreadGroup::Requests);
}

#[test]
fn classifies_play_job_workers() {
    assert_eq!(classify(b"jobs-thread-1"), ThreadGroup::Jobs);
    assert_eq!(classify(b"jobs-thread-8"), ThreadGroup::Jobs);
}

#[test]
fn classifies_quartz_workers() {
    assert_eq!(classify(b"DefaultQuartzScheduler_Worker-10"), ThreadGroup::Scheduler);
    assert_eq!(classify(b"quartz-scheduler-1"), ThreadGroup::Scheduler);
    assert_eq!(classify(b"MyQuartzScheduler_Worker-3"), ThreadGroup::Scheduler);
}

#[test]
fn classifies_system_threads() {
    assert_eq!(classify(b"main"), ThreadGroup::System);
    assert_eq!(classify(b"Thread-16"), ThreadGroup::System);
    assert_eq!(classify(b"Thread-1"), ThreadGroup::System);
}

#[test]
fn classifies_infra_threads() {
    assert_eq!(classify(b"pool-3-thread-1"), ThreadGroup::Infra);
    assert_eq!(classify(b"pool-6-thread-1"), ThreadGroup::Infra);
    assert_eq!(classify(b"New I/O worker #1"), ThreadGroup::Infra);
    assert_eq!(classify(b"New I/O worker #63"), ThreadGroup::Infra);
    assert_eq!(classify(b"New I/O boss #132"), ThreadGroup::Infra);
    assert_eq!(classify(b"I/O dispatcher 1"), ThreadGroup::Infra);
    assert_eq!(classify(b"jgroups-12,solo.prod,solo-webapp-001-27322"), ThreadGroup::Infra);
    assert_eq!(
        classify(b"Memcached IO over {MemcachedConnection to /127.0.0.1:11211} - SHUTTING DOWN"),
        ThreadGroup::Infra
    );
}

#[test]
fn classifies_unknown_as_other() {
    assert_eq!(classify(b""), ThreadGroup::Other);
    assert_eq!(classify(b"some-other-thread"), ThreadGroup::Other);
    assert_eq!(classify(b"play-thread-"), ThreadGroup::Other);
    assert_eq!(classify(b"play-thread-abc"), ThreadGroup::Other);
    assert_eq!(classify(b"jobs-thread-1a"), ThreadGroup::Other);
    assert_eq!(classify(b"\xff\xfe\x00"), ThreadGroup::Other);
}

#[test]
fn first_match_wins_does_not_mis_route_main_substring() {
    assert_eq!(classify(b"main-pool-worker-2"), ThreadGroup::Other);
}

#[test]
fn mask_round_trip() {
    let m = ThreadGroupMask::all().with(ThreadGroup::Requests, false);
    assert!(!m.allows(ThreadGroup::Requests));
    assert!(m.allows(ThreadGroup::Jobs));
    let m2 = m.with(ThreadGroup::Requests, true);
    assert_eq!(m2, ThreadGroupMask::all());
}

#[test]
fn mask_all_is_0x3f() {
    assert_eq!(ThreadGroupMask::all().0, 0x3F);
}
