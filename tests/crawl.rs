use hopper::dispatcher::ID_SPACE;
use hopper::host::{hosts_match, same_host};
use hopper::links::{discarded, has_prefix, link_for, links_from_hrefs, resolve_path, scan_page};
use hopper::message::{worker_reports, worker_step};
use hopper::{Command, Dispatcher, JobStatus, Message, WorkerStatus, WorkerStep};

fn s(x: &str) -> String {
    x.to_string()
}

fn job_urls(d: &Dispatcher) -> Vec<String> {
    d.jobs.iter().map(|j| j.url.clone()).collect()
}

#[test]
fn scenario_anchor_filtering() {
    let root = "http://ex.com/";
    let body = "<html><body><a href=\"/about\">a</a><a href=\"mailto:x@ex.com\">m</a>\
                <a href=\"http://other.com/\">o</a><a href=\"#top\">t</a></body></html>";
    let (links, size) = scan_page(root, body);
    assert_eq!(links, vec![s("http://ex.com/about")]);
    assert_eq!(size, body.len());

    let mut d = Dispatcher::new(s(root), 1);
    for link in links {
        let cmds = d.handle(Message::CONTENT(0, s(root), link));
        assert!(cmds.is_empty());
    }
    assert_eq!(job_urls(&d), vec![s(root), s("http://ex.com/about")]);
    assert_eq!(d.jobs[1].status, JobStatus::QUEUED);
}

#[test]
fn scenario_seed_fetch_fails() {
    let mut d = Dispatcher::new(s("http://ex.com/"), 1);
    let cmds = d.handle(Message::WAITING(0));
    assert_eq!(cmds.len(), 1);
    assert!(matches!(&cmds[0], Command::Assign(0, u) if u == "http://ex.com/"));
    assert_eq!(d.jobs[0].status, JobStatus::INPROGRESS(0));

    let cmds = d.handle(Message::ERROR(0, s("http://ex.com/")));
    assert_eq!(cmds.len(), 2);
    assert!(matches!(cmds[0], Command::Remove(0)));
    assert!(matches!(cmds[1], Command::Spawn(1)));
    assert_eq!(d.workers.len(), 1);
    assert_eq!(d.workers[0].id, 1);

    let cmds = d.handle(Message::WAITING(1));
    assert!(cmds.is_empty());
    let cmds = d.sweep();
    assert!(cmds.is_empty());
    assert!(d.is_complete());
    assert_eq!(d.jobs[0].status, JobStatus::INPROGRESS(0));
    assert!(d.finished.is_empty());
}

#[test]
fn same_host_compares_hosts() {
    assert!(same_host("http://ex.com/", "http://ex.com/a/b"));
    assert!(same_host("http://ex.com/x", "https://ex.com/y?q=1"));
    assert!(!same_host("http://ex.com/", "http://other.com/"));
    assert!(!same_host("http://ex.com/", "/relative"));
    assert!(!same_host("not a url", "http://ex.com/"));
    assert!(!same_host("http://ex.com/", "mailto:x@ex.com"));
}

#[test]
fn hosts_match_needs_both() {
    assert!(hosts_match(&Some(s("a.com")), &Some(s("a.com"))));
    assert!(!hosts_match(&Some(s("a.com")), &Some(s("b.com"))));
    assert!(!hosts_match(&None, &None));
    assert!(!hosts_match(&Some(s("a.com")), &None));
}

#[test]
fn prefixes_and_discards() {
    assert!(has_prefix("mailto:x", "mailto:"));
    assert!(!has_prefix("mail", "mailto:"));
    assert!(has_prefix("", ""));
    assert!(discarded("mailto:x@ex.com"));
    assert!(discarded("javascript:void(0)"));
    assert!(discarded("tel:123"));
    assert!(discarded("#top"));
    assert!(!discarded("http://ex.com/"));
    assert!(!discarded("/about"));
}

#[test]
fn relative_paths_resolve_against_root() {
    assert_eq!(resolve_path("http://ex.com/", "/about"), s("http://ex.com/about"));
    assert_eq!(resolve_path("http://ex.com", "/about"), s("http://ex.com/about"));
    assert_eq!(resolve_path("", "/a"), s("/a"));
}

#[test]
fn link_for_each_kind() {
    let root = "http://ex.com/";
    assert_eq!(link_for(root, &None), None);
    assert_eq!(link_for(root, &Some(s("/a"))), Some(s("http://ex.com/a")));
    assert_eq!(link_for(root, &Some(s("tel:1"))), None);
    assert_eq!(link_for(root, &Some(s("http://ex.com/b"))), Some(s("http://ex.com/b")));
    assert_eq!(link_for(root, &Some(s("http://else.org/b"))), None);
    assert_eq!(link_for(root, &Some(s("garbage"))), None);
}

#[test]
fn links_keep_document_order() {
    let hrefs = vec![Some(s("/x")), None, Some(s("http://ex.com/y")), Some(s("#f")), Some(s("/z"))];
    assert_eq!(
        links_from_hrefs("http://ex.com/", &hrefs),
        vec![s("http://ex.com/x"), s("http://ex.com/y"), s("http://ex.com/z")]
    );
    assert!(links_from_hrefs("http://ex.com/", &Vec::new()).is_empty());
}

#[test]
fn scan_page_counts_bytes_and_skips_anchors_without_href() {
    let body = "<a name=\"n\">x</a><a href=\"/é\">é</a>";
    let (links, size) = scan_page("http://ex.com", body);
    assert_eq!(links, vec![s("http://ex.com/é")]);
    assert_eq!(size, body.len());
    assert!(size > body.chars().count());
}

#[test]
fn worker_step_per_message() {
    assert!(matches!(worker_step(Message::DONE(0, s("Done"), 0)), WorkerStep::Stop));
    assert!(matches!(worker_step(Message::ERROR(0, s("u"))), WorkerStep::Stop));
    assert!(matches!(worker_step(Message::WAITING(0)), WorkerStep::Skip));
    assert!(matches!(worker_step(Message::BUSY(0, s("u"))), WorkerStep::Skip));
    assert!(matches!(worker_step(Message::CONTENT(0, s("r"), s("u"))), WorkerStep::Skip));
    match worker_step(Message::JOB(3, s("r"), s("u"))) {
        WorkerStep::Fetch(root, url) => {
            assert_eq!(root, s("r"));
            assert_eq!(url, s("u"));
        }
        _ => panic!("expected a fetch"),
    }
}

#[test]
fn worker_reports_success_and_failure() {
    let url = s("http://ex.com/");
    let ok: Result<(Vec<String>, usize), String> = Ok((vec![s("http://ex.com/a"), s("http://ex.com/b")], 42));
    let msgs = worker_reports(7, &url, &ok);
    assert_eq!(msgs.len(), 3);
    assert!(matches!(&msgs[0], Message::CONTENT(7, u, l) if u == &url && l == "http://ex.com/a"));
    assert!(matches!(&msgs[1], Message::CONTENT(7, u, l) if u == &url && l == "http://ex.com/b"));
    assert!(matches!(&msgs[2], Message::DONE(7, u, 42) if u == &url));

    let err: Result<(Vec<String>, usize), String> = Err(s("boom"));
    let msgs = worker_reports(7, &url, &err);
    assert_eq!(msgs.len(), 1);
    assert!(matches!(&msgs[0], Message::ERROR(7, u) if u == &url));
}

#[test]
fn new_dispatcher_registers_workers() {
    let d = Dispatcher::new(s("http://ex.com/"), 3);
    assert_eq!(job_urls(&d), vec![s("http://ex.com/")]);
    assert_eq!(d.workers.len(), 3);
    for (i, w) in d.workers.iter().enumerate() {
        assert_eq!(w.id as usize, i);
        assert!(matches!(w.status, WorkerStatus::WAITING));
    }
    assert_eq!(d.next_id, 3);
    assert_eq!(d.total_bytes, 0);
    assert!(d.is_complete());
}

#[test]
fn done_moves_url_to_finished_and_counts_bytes() {
    let mut d = Dispatcher::new(s("http://ex.com/"), 1);
    d.handle(Message::WAITING(0));
    d.handle(Message::CONTENT(0, s("http://ex.com/"), s("http://ex.com/a")));
    let cmds = d.handle(Message::DONE(0, s("http://ex.com/"), 100));
    assert_eq!(d.total_bytes, 100);
    assert_eq!(d.finished, vec![s("http://ex.com/")]);
    assert_eq!(job_urls(&d), vec![s("http://ex.com/a")]);
    assert_eq!(cmds.len(), 1);
    assert!(matches!(&cmds[0], Command::Assign(0, u) if u == "http://ex.com/a"));
    assert!(matches!(&d.workers[0].status, WorkerStatus::BUSY(u) if u == "http://ex.com/a"));

    let cmds = d.handle(Message::DONE(0, s("http://ex.com/a"), 5));
    assert!(cmds.is_empty());
    assert_eq!(d.total_bytes, 105);
    assert!(d.jobs.is_empty());
    assert!(matches!(d.workers[0].status, WorkerStatus::WAITING));
}

#[test]
fn done_from_unknown_worker_still_finishes() {
    let mut d = Dispatcher::new(s("http://ex.com/"), 1);
    let cmds = d.handle(Message::DONE(9, s("http://ex.com/"), 3));
    assert!(cmds.is_empty());
    assert_eq!(d.finished, vec![s("http://ex.com/")]);
    assert!(d.jobs.is_empty());
}

#[test]
fn discovery_is_deduplicated() {
    let mut d = Dispatcher::new(s("http://ex.com/"), 2);
    d.handle(Message::CONTENT(0, s("r"), s("http://ex.com/a")));
    d.handle(Message::CONTENT(1, s("r"), s("http://ex.com/a")));
    d.handle(Message::CONTENT(1, s("r"), s("http://ex.com/")));
    assert_eq!(job_urls(&d), vec![s("http://ex.com/"), s("http://ex.com/a")]);

    let first = d.sweep();
    assert_eq!(first.len(), 2);
    d.handle(Message::DONE(0, s("http://ex.com/"), 1));
    d.handle(Message::CONTENT(1, s("r"), s("http://ex.com/")));
    assert_eq!(job_urls(&d), vec![s("http://ex.com/a")]);
    let again = d.sweep();
    assert!(again.is_empty());
}

#[test]
fn busy_and_job_messages_change_nothing() {
    let mut d = Dispatcher::new(s("http://ex.com/"), 1);
    assert!(d.handle(Message::BUSY(0, s("x"))).is_empty());
    assert!(d.handle(Message::JOB(0, s("x"), s("y"))).is_empty());
    assert_eq!(job_urls(&d), vec![s("http://ex.com/")]);
    assert_eq!(d.jobs[0].status, JobStatus::QUEUED);
}

#[test]
fn sweep_assigns_in_registry_order() {
    let mut d = Dispatcher::new(s("http://ex.com/"), 3);
    d.handle(Message::CONTENT(0, s("r"), s("http://ex.com/a")));
    let cmds = d.sweep();
    assert_eq!(cmds.len(), 2);
    assert!(matches!(&cmds[0], Command::Assign(0, u) if u == "http://ex.com/"));
    assert!(matches!(&cmds[1], Command::Assign(1, u) if u == "http://ex.com/a"));
    assert!(matches!(d.workers[2].status, WorkerStatus::WAITING));
    assert!(!d.is_complete());
}

#[test]
fn replacing_failed_workers_keeps_pool_size() {
    let mut d = Dispatcher::new(s("http://ex.com/"), 3);
    for id in 0..3u8 {
        let cmds = d.handle(Message::ERROR(id, s("u")));
        assert_eq!(cmds.len(), 2);
        assert!(matches!(cmds[1], Command::Spawn(n) if n == 3 + id));
        assert_eq!(d.workers.len(), 3);
    }
    let ids: Vec<u8> = d.workers.iter().map(|w| w.id).collect();
    assert_eq!(ids, vec![3, 4, 5]);
}

#[test]
fn ids_run_out() {
    let mut d = Dispatcher::new(s("http://ex.com/"), 255);
    let cmds = d.handle(Message::ERROR(0, s("u")));
    assert!(matches!(cmds[1], Command::Spawn(255)));
    assert_eq!(d.next_id, ID_SPACE);
    let cmds = d.handle(Message::ERROR(1, s("u")));
    assert_eq!(cmds.len(), 1);
    assert!(matches!(cmds[0], Command::Remove(1)));
    assert_eq!(d.workers.len(), 254);
}

#[test]
fn crawl_of_a_small_site_terminates() {
    // page -> links on it
    let site: Vec<(&str, Vec<&str>)> = vec![
        ("http://ex.com/", vec!["http://ex.com/a", "http://ex.com/b"]),
        ("http://ex.com/a", vec!["http://ex.com/b", "http://ex.com/"]),
        ("http://ex.com/b", vec!["http://ex.com/a"]),
    ];
    let mut d = Dispatcher::new(s("http://ex.com/"), 2);
    let mut inbox: Vec<Message> = vec![Message::WAITING(0), Message::WAITING(1)];
    let mut fetched: Vec<String> = Vec::new();
    let mut last_bytes = 0;
    let mut rounds = 0;
    loop {
        rounds += 1;
        assert!(rounds < 100);
        let mut cmds = Vec::new();
        for m in inbox.drain(..) {
            cmds.extend(d.handle(m));
        }
        cmds.extend(d.sweep());
        assert!(d.total_bytes >= last_bytes);
        for job in &d.jobs {
            assert!(!d.finished.contains(&job.url));
        }
        last_bytes = d.total_bytes;
        for c in cmds {
            if let Command::Assign(w, url) = c {
                assert!(!fetched.contains(&url));
                fetched.push(url.clone());
                let links = site.iter().find(|p| p.0 == url).map(|p| p.1.clone()).unwrap_or_default();
                let links: Vec<String> = links.into_iter().map(String::from).collect();
                inbox.extend(worker_reports(w, &url, &Ok((links, 10))));
            }
        }
        if inbox.is_empty() && d.is_complete() {
            break;
        }
    }
    let mut done = d.finished.clone();
    done.sort();
    assert_eq!(done, vec![s("http://ex.com/"), s("http://ex.com/a"), s("http://ex.com/b")]);
    assert_eq!(d.total_bytes, 30);
    assert!(d.jobs.is_empty());
}
