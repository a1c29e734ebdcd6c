use kerai::scheduler::{
    parse_command, parser_for_extension, pool_size, pool_start, pool_step, skip_entry, FileParser, ParseCounts,
    PoolAction, PoolEvent, WorkerHandle, WorkerResult,
};

#[test]
fn skipped_directories() {
    assert!(skip_entry(".git"));
    assert!(skip_entry("target"));
    assert!(skip_entry("tgt"));
    assert!(skip_entry("node_modules"));
    assert!(skip_entry("vendor"));
    assert!(!skip_entry("src"));
    assert!(!skip_entry("targets"));
}

#[test]
fn parsers_by_extension() {
    assert_eq!(parser_for_extension("rs"), Some(FileParser::Rust));
    assert_eq!(parser_for_extension("h"), Some(FileParser::C));
    assert_eq!(parser_for_extension("sty"), Some(FileParser::Latex));
    assert_eq!(parser_for_extension("bib"), Some(FileParser::Bibtex));
    assert_eq!(parser_for_extension("md"), Some(FileParser::Markdown));
    assert_eq!(parser_for_extension("go"), Some(FileParser::Go));
    assert_eq!(parser_for_extension("txt"), None);
}

#[test]
fn commands_quote_paths() {
    assert_eq!(
        parse_command(FileParser::Rust, "/x/it's.rs", "it's.rs"),
        "SELECT kerai.parse_source(pg_read_file('/x/it''s.rs'), 'it''s.rs')"
    );
    assert_eq!(parse_command(FileParser::Go, "/a/b.go", "b.go"), "SELECT kerai.parse_go_file('/a/b.go')");
    assert_eq!(parse_command(FileParser::C, "/a/b.c", "b.c"), "SELECT kerai.parse_c_file('/a/b.c')");
}

#[test]
fn pool_size_is_capped() {
    assert_eq!(pool_size(0, 8, 16), 8);
    assert_eq!(pool_size(4, 8, 16), 4);
    assert_eq!(pool_size(32, 8, 16), 16);
    assert_eq!(pool_size(-1, 32, 16), 16);
}

/// Runs the pool to the end, answering each launch as `launch` says and each collect
/// with counts; checks the number in flight never exceeds the pool size.
fn run(total: u64, size: usize, launch: impl Fn(u64) -> bool) -> (kerai::scheduler::PoolState, Vec<u64>) {
    let (mut s, mut a) = pool_start(total, size);
    let mut order = Vec::new();
    loop {
        assert!(s.inflight.len() <= size);
        let e = match a {
            PoolAction::Launch { job } => {
                order.push(job);
                if launch(job) {
                    PoolEvent::Started { pid: job as i32, cookie: 0 }
                } else {
                    PoolEvent::LaunchFailed
                }
            }
            PoolAction::Collect { handle } => PoolEvent::Finished { counts: ParseCounts { nodes: handle.job + 1, edges: 1 } },
            PoolAction::Finish => break,
        };
        a = pool_step(&mut s, e);
    }
    (s, order)
}

#[test]
fn pool_runs_every_job_in_order() {
    let (s, order) = run(5, 2, |_| true);
    assert_eq!(order, vec![0, 1, 2, 3, 4]);
    assert_eq!(s.launched, 5);
    assert_eq!(s.failed_launches, 0);
    assert_eq!(s.total_nodes, 1 + 2 + 3 + 4 + 5);
    assert_eq!(s.total_edges, 5);
    assert_eq!(s.results.len(), 5);
    assert!(s.queue.is_empty() && s.inflight.is_empty());
}

#[test]
fn failed_replacement_stops_launching() {
    // jobs 0 and 1 fill the window; job 2 fails as a replacement: 2, 3, 4 are abandoned
    let (s, order) = run(5, 2, |j| j != 2);
    assert_eq!(order, vec![0, 1, 2]);
    assert_eq!(s.launched, 2);
    // the failed job 2 and the queued 3 and 4 are reported: results plus failures cover all
    assert_eq!(s.failed_launches, 3);
    assert_eq!(s.results.len() + s.failed_launches as usize, 5);
    assert_eq!(s.results, vec![
        WorkerResult { job: 0, counts: Some(ParseCounts { nodes: 1, edges: 1 }) },
        WorkerResult { job: 1, counts: Some(ParseCounts { nodes: 2, edges: 1 }) },
    ]);
}

#[test]
fn failed_initial_launch_is_counted_and_skipped() {
    let (s, order) = run(3, 4, |j| j != 0);
    assert_eq!(order, vec![0, 1, 2]);
    assert_eq!(s.launched, 2);
    assert_eq!(s.failed_launches, 1);
}

#[test]
fn mismatched_event_repeats_the_request() {
    let (mut s, a) = pool_start(1, 1);
    assert_eq!(a, PoolAction::Launch { job: 0 });
    assert_eq!(pool_step(&mut s, PoolEvent::NoResult), PoolAction::Launch { job: 0 });
    let a = pool_step(&mut s, PoolEvent::Started { pid: 5, cookie: 6 });
    assert_eq!(a, PoolAction::Collect { handle: WorkerHandle { job: 0, pid: 5, cookie: 6 } });
    assert_eq!(pool_step(&mut s, PoolEvent::NoResult), PoolAction::Finish);
    assert_eq!(s.results, vec![WorkerResult { job: 0, counts: None }]);
    let (_, a) = pool_start(0, 4);
    assert_eq!(a, PoolAction::Finish);
}
