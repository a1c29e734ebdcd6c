//! Parallel parsing of a directory tree: which files are parsed and by which command,
//! and the sliding-window pool that keeps a fixed number of background workers busy
//! without ever running more than that number.
//!
//! The pool is a state machine: `pool_start` and `pool_step` decide the next action
//! (launch a job, collect a worker, finish) from the state and the outcome of the last
//! action, which the caller performs.

use vstd::prelude::*;
use crate::text::{chars_of, push_char, spec_sql_escape, sql_escape, str_is, push_str};

verus! {

/// A directory entry is skipped when it is hidden or is a build or dependency folder.
pub open spec fn skipped_name(name: Seq<char>) -> bool {
    ||| (name.len() > 0 && name[0] == '.')
    ||| name == "target"@
    ||| name == "tgt"@
    ||| name == "node_modules"@
    ||| name == "vendor"@
}

/// The build and dependency folders the walk leaves out.
pub open spec fn skipped_folders() -> Seq<Seq<char>> {
    seq!["target"@, "tgt"@, "node_modules"@, "vendor"@]
}

/// The walk skips exactly the hidden entries (a name starting with `.`) and the build
/// and dependency folders `target`, `tgt`, `node_modules` and `vendor`.
pub proof fn law_skipped_entries(name: Seq<char>)
    ensures
        skipped_name(name) <==> ((name.len() > 0 && name[0] == '.') || skipped_folders().contains(name)),
{
    let l = skipped_folders();
    if l.contains(name) {
        let i = choose|i: int| 0 <= i < l.len() && l[i] == name;
        assert(i == 0 || i == 1 || i == 2 || i == 3);
    }
    if name == "target"@ { assert(l[0] == name); }
    if name == "tgt"@ { assert(l[1] == name); }
    if name == "node_modules"@ { assert(l[2] == name); }
    if name == "vendor"@ { assert(l[3] == name); }
}

/// Whether the walk skips a directory entry of this name.
pub fn skip_entry(name: &str) -> (b: bool)
    ensures
        b == skipped_name(name@),
{
    let cs = chars_of(name);
    if cs.len() > 0 && cs[0] == '.' {
        return true;
    }
    str_is(name, "target") || str_is(name, "tgt") || str_is(name, "node_modules") || str_is(name, "vendor")
}

/// The parser a file goes to, by extension.
#[derive(Clone, Copy, Debug, PartialEq, Eq, Structural)]
pub enum FileParser {
    Rust,
    Go,
    C,
    Markdown,
    Latex,
    Bibtex,
}

pub open spec fn parser_for(ext: Seq<char>) -> Option<FileParser> {
    if ext == "rs"@ {
        Some(FileParser::Rust)
    } else if ext == "go"@ {
        Some(FileParser::Go)
    } else if ext == "c"@ || ext == "h"@ {
        Some(FileParser::C)
    } else if ext == "md"@ {
        Some(FileParser::Markdown)
    } else if ext == "tex"@ || ext == "sty"@ || ext == "cls"@ {
        Some(FileParser::Latex)
    } else if ext == "bib"@ {
        Some(FileParser::Bibtex)
    } else {
        None
    }
}

/// The parser for a file extension; `None` for files that are not parsed.
pub fn parser_for_extension(ext: &str) -> (p: Option<FileParser>)
    ensures
        p == parser_for(ext@),
{
    if str_is(ext, "rs") {
        Some(FileParser::Rust)
    } else if str_is(ext, "go") {
        Some(FileParser::Go)
    } else if str_is(ext, "c") || str_is(ext, "h") {
        Some(FileParser::C)
    } else if str_is(ext, "md") {
        Some(FileParser::Markdown)
    } else if str_is(ext, "tex") || str_is(ext, "sty") || str_is(ext, "cls") {
        Some(FileParser::Latex)
    } else if str_is(ext, "bib") {
        Some(FileParser::Bibtex)
    } else {
        None
    }
}

/// The file extensions the walk parses.
pub open spec fn parsed_extensions() -> Seq<Seq<char>> {
    seq!["rs"@, "go"@, "c"@, "h"@, "md"@, "tex"@, "sty"@, "cls"@, "bib"@]
}

/// Every extension the walk lists has a parser and no other does; each parser takes
/// exactly its own extensions: Rust `rs`, Go `go`, C both `c` and `h`, Markdown `md`,
/// LaTeX `tex`, `sty` and `cls`, BibTeX `bib`.
pub proof fn law_parser_by_extension(ext: Seq<char>)
    ensures
        parser_for(ext) is Some <==> parsed_extensions().contains(ext),
        parser_for(ext) == Some(FileParser::Rust) <==> ext == "rs"@,
        parser_for(ext) == Some(FileParser::Go) <==> ext == "go"@,
        parser_for(ext) == Some(FileParser::C) <==> (ext == "c"@ || ext == "h"@),
        parser_for(ext) == Some(FileParser::Markdown) <==> ext == "md"@,
        parser_for(ext) == Some(FileParser::Latex) <==> (ext == "tex"@ || ext == "sty"@ || ext == "cls"@),
        parser_for(ext) == Some(FileParser::Bibtex) <==> ext == "bib"@,
{
    reveal_strlit("rs");
    reveal_strlit("go");
    reveal_strlit("c");
    reveal_strlit("h");
    reveal_strlit("md");
    reveal_strlit("tex");
    reveal_strlit("sty");
    reveal_strlit("cls");
    reveal_strlit("bib");
    let lits = seq!["rs"@, "go"@, "md"@, "c"@, "h"@, "tex"@, "sty"@, "cls"@, "bib"@];
    assert forall|i: int, j: int| 0 <= i < j < 9 implies lits[i] != lits[j] by {
        if lits[i].len() == lits[j].len() {
            assert(lits[i][0] != lits[j][0]);
        }
    }
    assert("rs"@ != "go"@ && "rs"@ != "md"@ && "go"@ != "md"@) by {
        assert(lits[0] != lits[1] && lits[0] != lits[2] && lits[1] != lits[2]);
    }
    assert("c"@ != "h"@) by { assert(lits[3] != lits[4]); }
    assert("tex"@ != "sty"@ && "tex"@ != "cls"@ && "tex"@ != "bib"@ && "sty"@ != "cls"@ && "sty"@ != "bib"@ && "cls"@ != "bib"@) by {
        assert(lits[5] != lits[6] && lits[5] != lits[7] && lits[5] != lits[8]);
        assert(lits[6] != lits[7] && lits[6] != lits[8] && lits[7] != lits[8]);
    }
    let l = parsed_extensions();
    if l.contains(ext) {
        let i = choose|i: int| 0 <= i < l.len() && l[i] == ext;
        assert(i == 0 || i == 1 || i == 2 || i == 3 || i == 4 || i == 5 || i == 6 || i == 7 || i == 8);
    }
    if parser_for(ext) is Some {
        if ext == "rs"@ { assert(l[0] == ext); }
        else if ext == "go"@ { assert(l[1] == ext); }
        else if ext == "c"@ { assert(l[2] == ext); }
        else if ext == "h"@ { assert(l[3] == ext); }
        else if ext == "md"@ { assert(l[4] == ext); }
        else if ext == "tex"@ { assert(l[5] == ext); }
        else if ext == "sty"@ { assert(l[6] == ext); }
        else if ext == "cls"@ { assert(l[7] == ext); }
        else { assert(l[8] == ext); }
    }
}

/// A C source or header is parsed with the C parser: its command calls
/// `kerai.parse_c_file` on the quoted path.
pub proof fn law_c_files_use_c_parser(ext: Seq<char>, abs_path: Seq<char>, filename: Seq<char>)
    requires
        ext == "c"@ || ext == "h"@,
    ensures
        parser_for(ext) == Some(FileParser::C),
        spec_parse_command(parser_for(ext)->0, abs_path, filename)
            == "SELECT kerai.parse_c_file('"@ + spec_sql_escape(abs_path) + "')"@,
{
    law_parser_by_extension(ext);
}

/// The SQL a worker runs for a file. The path and the name are quoted as SQL literals.
pub open spec fn spec_parse_command(p: FileParser, abs_path: Seq<char>, filename: Seq<char>) -> Seq<char> {
    let path = spec_sql_escape(abs_path);
    let name = spec_sql_escape(filename);
    match p {
        FileParser::Rust => "SELECT kerai.parse_source(pg_read_file('"@ + path + "'), '"@ + name + "')"@,
        FileParser::Go => "SELECT kerai.parse_go_file('"@ + path + "')"@,
        FileParser::C => "SELECT kerai.parse_c_file('"@ + path + "')"@,
        FileParser::Markdown => "SELECT kerai.parse_markdown(pg_read_file('"@ + path + "'), '"@ + name + "')"@,
        FileParser::Latex => "SELECT kerai.parse_latex_source(pg_read_file('"@ + path + "'), '"@ + name + "')"@,
        FileParser::Bibtex => "SELECT kerai.parse_bibtex_source(pg_read_file('"@ + path + "'), '"@ + name + "')"@,
    }
}

/// Each parser's command calls its own SQL function: Rust `kerai.parse_source`, Go
/// `kerai.parse_go_file`, C `kerai.parse_c_file`, Markdown `kerai.parse_markdown`, LaTeX
/// `kerai.parse_latex_source`, BibTeX `kerai.parse_bibtex_source`. Go and C files are read
/// by the function from their path; the others are read with `pg_read_file` and passed
/// with their file name.
pub proof fn law_parse_command_function(p: FileParser, abs_path: Seq<char>, filename: Seq<char>)
    ensures
        ({
            let path = spec_sql_escape(abs_path);
            let name = spec_sql_escape(filename);
            let read = "pg_read_file('"@ + path + "'), '"@ + name + "')"@;
            spec_parse_command(p, abs_path, filename) == match p {
                FileParser::Rust => "SELECT kerai.parse_source("@ + read,
                FileParser::Go => "SELECT kerai.parse_go_file('"@ + path + "')"@,
                FileParser::C => "SELECT kerai.parse_c_file('"@ + path + "')"@,
                FileParser::Markdown => "SELECT kerai.parse_markdown("@ + read,
                FileParser::Latex => "SELECT kerai.parse_latex_source("@ + read,
                FileParser::Bibtex => "SELECT kerai.parse_bibtex_source("@ + read,
            }
        }),
{
    reveal_strlit("SELECT kerai.parse_source(pg_read_file('");
    reveal_strlit("SELECT kerai.parse_source(");
    reveal_strlit("SELECT kerai.parse_markdown(pg_read_file('");
    reveal_strlit("SELECT kerai.parse_markdown(");
    reveal_strlit("SELECT kerai.parse_latex_source(pg_read_file('");
    reveal_strlit("SELECT kerai.parse_latex_source(");
    reveal_strlit("SELECT kerai.parse_bibtex_source(pg_read_file('");
    reveal_strlit("SELECT kerai.parse_bibtex_source(");
    reveal_strlit("pg_read_file('");
    let path = spec_sql_escape(abs_path);
    let name = spec_sql_escape(filename);
    let read = "pg_read_file('"@ + path + "'), '"@ + name + "')"@;
    match p {
        FileParser::Rust => {
            assert("SELECT kerai.parse_source(pg_read_file('"@ =~= "SELECT kerai.parse_source("@ + "pg_read_file('"@);
            assert("SELECT kerai.parse_source(pg_read_file('"@ + path + "'), '"@ + name + "')"@
                =~= "SELECT kerai.parse_source("@ + read);
        },
        FileParser::Markdown => {
            assert("SELECT kerai.parse_markdown(pg_read_file('"@ =~= "SELECT kerai.parse_markdown("@ + "pg_read_file('"@);
            assert("SELECT kerai.parse_markdown(pg_read_file('"@ + path + "'), '"@ + name + "')"@
                =~= "SELECT kerai.parse_markdown("@ + read);
        },
        FileParser::Latex => {
            assert("SELECT kerai.parse_latex_source(pg_read_file('"@ =~= "SELECT kerai.parse_latex_source("@ + "pg_read_file('"@);
            assert("SELECT kerai.parse_latex_source(pg_read_file('"@ + path + "'), '"@ + name + "')"@
                =~= "SELECT kerai.parse_latex_source("@ + read);
        },
        FileParser::Bibtex => {
            assert("SELECT kerai.parse_bibtex_source(pg_read_file('"@ =~= "SELECT kerai.parse_bibtex_source("@ + "pg_read_file('"@);
            assert("SELECT kerai.parse_bibtex_source(pg_read_file('"@ + path + "'), '"@ + name + "')"@
                =~= "SELECT kerai.parse_bibtex_source("@ + read);
        },
        _ => {},
    }
}

/// The command that parses a file with the given parser.
pub fn parse_command(p: FileParser, abs_path: &str, filename: &str) -> (cmd: String)
    ensures
        cmd@ == spec_parse_command(p, abs_path@, filename@),
{
    let path = sql_escape(abs_path);
    let name = sql_escape(filename);
    let mut cmd = String::new();
    match p {
        FileParser::Rust => {
            push_str(&mut cmd, "SELECT kerai.parse_source(pg_read_file('");
            push_str(&mut cmd, path.as_str());
            push_str(&mut cmd, "'), '");
            push_str(&mut cmd, name.as_str());
            push_str(&mut cmd, "')");
        },
        FileParser::Go => {
            push_str(&mut cmd, "SELECT kerai.parse_go_file('");
            push_str(&mut cmd, path.as_str());
            push_str(&mut cmd, "')");
        },
        FileParser::C => {
            push_str(&mut cmd, "SELECT kerai.parse_c_file('");
            push_str(&mut cmd, path.as_str());
            push_str(&mut cmd, "')");
        },
        FileParser::Markdown => {
            push_str(&mut cmd, "SELECT kerai.parse_markdown(pg_read_file('");
            push_str(&mut cmd, path.as_str());
            push_str(&mut cmd, "'), '");
            push_str(&mut cmd, name.as_str());
            push_str(&mut cmd, "')");
        },
        FileParser::Latex => {
            push_str(&mut cmd, "SELECT kerai.parse_latex_source(pg_read_file('");
            push_str(&mut cmd, path.as_str());
            push_str(&mut cmd, "'), '");
            push_str(&mut cmd, name.as_str());
            push_str(&mut cmd, "')");
        },
        FileParser::Bibtex => {
            push_str(&mut cmd, "SELECT kerai.parse_bibtex_source(pg_read_file('");
            push_str(&mut cmd, path.as_str());
            push_str(&mut cmd, "'), '");
            push_str(&mut cmd, name.as_str());
            push_str(&mut cmd, "')");
        },
    }
    assert(cmd@ =~= spec_parse_command(p, abs_path@, filename@));
    cmd
}

/// The number of workers: the requested number when positive, else the number of CPUs,
/// and never more than the background-worker limit.
pub fn pool_size(max_workers: i32, num_cpus: usize, worker_limit: usize) -> (n: usize)
    ensures
        n == (if max_workers > 0 {
            if (max_workers as int) < worker_limit { max_workers as int } else { worker_limit as int }
        } else {
            if num_cpus < worker_limit { num_cpus as int } else { worker_limit as int }
        }),
{
    let wanted: usize = if max_workers > 0 { max_workers as usize } else { num_cpus };
    if wanted < worker_limit { wanted } else { worker_limit }
}

/// A running background worker: the job it runs and the handle to wait on.
#[derive(Clone, Copy, Debug, PartialEq, Eq, Structural)]
pub struct WorkerHandle {
    pub job: u64,
    pub pid: i32,
    pub cookie: i64,
}

/// Node and edge counts that a worker reported.
#[derive(Clone, Copy, Debug, PartialEq, Eq, Structural)]
pub struct ParseCounts {
    pub nodes: u64,
    pub edges: u64,
}

/// What came of a collected worker: its counts, or `None` when it gave no result.
#[derive(Clone, Copy, Debug, PartialEq, Eq, Structural)]
pub struct WorkerResult {
    pub job: u64,
    pub counts: Option<ParseCounts>,
}

/// What the pool waits for.
#[derive(Clone, Copy, Debug, PartialEq, Eq, Structural)]
pub enum Pending {
    /// The launch of a job while the window is first filled.
    Fill { job: u64 },
    /// The launch of a job that replaces a collected worker.
    Refill { job: u64 },
    /// The result of a worker.
    Collect { handle: WorkerHandle },
    /// Nothing: the pool is finished.
    Done,
}

/// The next thing to do.
#[derive(Clone, Copy, Debug, PartialEq, Eq, Structural)]
pub enum PoolAction {
    Launch { job: u64 },
    Collect { handle: WorkerHandle },
    Finish,
}

/// The outcome of the last action.
#[derive(Clone, Copy, Debug, PartialEq, Eq, Structural)]
pub enum PoolEvent {
    Started { pid: i32, cookie: i64 },
    LaunchFailed,
    Finished { counts: ParseCounts },
    NoResult,
}

/// The worker pool. Jobs are numbered `0..total` and launched in that order.
pub struct PoolState {
    /// Jobs not launched yet; the next one is at the end.
    pub queue: Vec<u64>,
    /// Running workers, oldest first.
    pub inflight: std::collections::VecDeque<WorkerHandle>,
    /// Collected workers, in collection order.
    pub results: Vec<WorkerResult>,
    pub pool_size: usize,
    pub total: u64,
    /// Whether the window is still being filled for the first time.
    pub filling: bool,
    pub pending: Pending,
    pub launched: u64,
    pub failed_launches: u64,
    pub total_nodes: u64,
    pub total_edges: u64,
}

/// The pool as plain values.
pub struct PoolView {
    pub queue: Seq<u64>,
    pub inflight: Seq<WorkerHandle>,
    pub results: Seq<WorkerResult>,
    pub pool_size: nat,
    pub total: nat,
    pub filling: bool,
    pub pending: Pending,
    pub launched: nat,
    pub failed_launches: nat,
    pub total_nodes: nat,
    pub total_edges: nat,
}

impl View for PoolState {
    type V = PoolView;

    open spec fn view(&self) -> PoolView {
        PoolView {
            queue: self.queue@,
            inflight: self.inflight@,
            results: self.results@,
            pool_size: self.pool_size as nat,
            total: self.total as nat,
            filling: self.filling,
            pending: self.pending,
            launched: self.launched as nat,
            failed_launches: self.failed_launches as nat,
            total_nodes: self.total_nodes as nat,
            total_edges: self.total_edges as nat,
        }
    }
}

/// Whether a launch is awaited.
pub open spec fn launching(p: Pending) -> bool {
    p is Fill || p is Refill
}

/// The pool's invariant. Besides what keeps the counters in range:
/// - never more workers in flight than the pool size, counting one being launched or
///   collected;
/// - every launched worker is in flight, being collected, or collected;
/// - every job is accounted for exactly once: launched, failed to launch, queued, or
///   being launched;
/// - the pool is finished only with nothing in flight, and nothing queued unless the pool
///   has no workers at all.
pub open spec fn pool_wf(v: PoolView) -> bool {
    &&& v.inflight.len() + (if launching(v.pending) || v.pending is Collect { 1int } else { 0int }) <= v.pool_size
    &&& v.launched == v.results.len() + v.inflight.len() + (if v.pending is Collect { 1int } else { 0int })
    &&& v.launched + v.failed_launches + v.queue.len() + (if launching(v.pending) { 1int } else { 0int }) == v.total
    &&& v.total + 2 <= u64::MAX
    &&& v.total_nodes <= u64::MAX
    &&& v.total_edges <= u64::MAX
    &&& v.pending is Fill ==> v.filling
    &&& v.pending is Done ==> v.inflight.len() == 0 && (v.queue.len() == 0 || v.pool_size == 0)
}

/// The next decision once the window is filled: collect the oldest worker, or finish.
pub open spec fn decide_drain(v: PoolView) -> (PoolView, PoolAction) {
    if v.inflight.len() > 0 {
        let h = v.inflight[0];
        (PoolView { inflight: v.inflight.subrange(1, v.inflight.len() as int), filling: false, pending: Pending::Collect { handle: h }, ..v },
         PoolAction::Collect { handle: h })
    } else {
        (PoolView { filling: false, pending: Pending::Done, ..v }, PoolAction::Finish)
    }
}

/// The next decision while filling: launch the next job while there is room and work,
/// else start draining.
pub open spec fn decide_fill(v: PoolView) -> (PoolView, PoolAction) {
    if v.filling && v.inflight.len() < v.pool_size && v.queue.len() > 0 {
        let job = v.queue.last();
        (PoolView { queue: v.queue.drop_last(), pending: Pending::Fill { job }, ..v }, PoolAction::Launch { job })
    } else {
        decide_drain(v)
    }
}

/// The action that answers the pending wait.
pub open spec fn pending_action(p: Pending) -> PoolAction {
    match p {
        Pending::Fill { job } => PoolAction::Launch { job },
        Pending::Refill { job } => PoolAction::Launch { job },
        Pending::Collect { handle } => PoolAction::Collect { handle },
        Pending::Done => PoolAction::Finish,
    }
}

/// The queue with all jobs, the first job last.
pub open spec fn initial_queue(total: nat) -> Seq<u64> {
    Seq::new(total, |i: int| (total - 1 - i) as u64)
}

/// A new pool for `total` jobs, and its first action.
pub open spec fn spec_start(total: nat, pool_size: nat) -> (PoolView, PoolAction) {
    decide_fill(PoolView {
        queue: initial_queue(total),
        inflight: Seq::empty(),
        results: Seq::empty(),
        pool_size,
        total,
        filling: true,
        pending: Pending::Done,
        launched: 0,
        failed_launches: 0,
        total_nodes: 0,
        total_edges: 0,
    })
}

/// One step: record the outcome of the pending action, then decide the next one.
/// An outcome that does not answer the pending action changes nothing, and the pending
/// action is asked again.
pub open spec fn spec_step(v: PoolView, e: PoolEvent) -> (PoolView, PoolAction) {
    match (v.pending, e) {
        (Pending::Fill { job }, PoolEvent::Started { pid, cookie }) => decide_fill(PoolView {
            inflight: v.inflight.push(WorkerHandle { job, pid, cookie }),
            launched: v.launched + 1,
            ..v
        }),
        (Pending::Fill { job }, PoolEvent::LaunchFailed) => decide_fill(PoolView {
            failed_launches: v.failed_launches + 1,
            ..v
        }),
        (Pending::Refill { job }, PoolEvent::Started { pid, cookie }) => decide_drain(PoolView {
            inflight: v.inflight.push(WorkerHandle { job, pid, cookie }),
            launched: v.launched + 1,
            ..v
        }),
        // A failed replacement stops all further launches: the job and everything still
        // queued are reported as failed launches.
        (Pending::Refill { job }, PoolEvent::LaunchFailed) => decide_drain(PoolView {
            queue: Seq::empty(),
            failed_launches: v.failed_launches + v.queue.len() + 1,
            ..v
        }),
        (Pending::Collect { handle }, PoolEvent::Finished { counts }) => after_collect(PoolView {
            results: v.results.push(WorkerResult { job: handle.job, counts: Some(counts) }),
            total_nodes: v.total_nodes + counts.nodes as nat,
            total_edges: v.total_edges + counts.edges as nat,
            ..v
        }),
        (Pending::Collect { handle }, PoolEvent::NoResult) => after_collect(PoolView {
            results: v.results.push(WorkerResult { job: handle.job, counts: None }),
            ..v
        }),
        _ => (v, pending_action(v.pending)),
    }
}

/// After a worker is collected: launch a replacement when work is queued, else go on
/// draining.
pub open spec fn after_collect(v: PoolView) -> (PoolView, PoolAction) {
    if v.queue.len() > 0 {
        let job = v.queue.last();
        (PoolView { queue: v.queue.drop_last(), pending: Pending::Refill { job }, ..v }, PoolAction::Launch { job })
    } else {
        decide_drain(v)
    }
}

/// Whether an outcome's counts can be added without overflow.
pub open spec fn counts_fit(v: PoolView, e: PoolEvent) -> bool {
    e matches PoolEvent::Finished { counts } ==> v.total_nodes + counts.nodes <= u64::MAX
        && v.total_edges + counts.edges <= u64::MAX
}

fn drain(s: &mut PoolState) -> (a: PoolAction)
    ensures
        (final(s)@, a) == decide_drain(old(s)@),
{
    match s.inflight.pop_front() {
        Some(h) => {
            s.filling = false;
            s.pending = Pending::Collect { handle: h };
            PoolAction::Collect { handle: h }
        },
        None => {
            s.filling = false;
            s.pending = Pending::Done;
            PoolAction::Finish
        },
    }
}

fn fill(s: &mut PoolState) -> (a: PoolAction)
    ensures
        (final(s)@, a) == decide_fill(old(s)@),
{
    if s.filling && s.inflight.len() < s.pool_size && s.queue.len() > 0 {
        match s.queue.pop() {
            Some(job) => {
                s.pending = Pending::Fill { job };
                PoolAction::Launch { job }
            },
            None => drain(s),
        }
    } else {
        drain(s)
    }
}

fn collect_next(s: &mut PoolState) -> (a: PoolAction)
    ensures
        (final(s)@, a) == after_collect(old(s)@),
{
    match s.queue.pop() {
        Some(job) => {
            s.pending = Pending::Refill { job };
            PoolAction::Launch { job }
        },
        None => drain(s),
    }
}

/// A new pool for `total` jobs with `pool_size` workers, and its first action.
pub fn pool_start(total: u64, pool_size: usize) -> (r: (PoolState, PoolAction))
    requires
        total + 2 <= u64::MAX,
    ensures
        (r.0@, r.1) == spec_start(total as nat, pool_size as nat),
        pool_wf(r.0@),
{
    proof {
        law_start_wf(total as nat, pool_size as nat);
    }
    let mut queue: Vec<u64> = Vec::new();
    let mut k: u64 = total;
    while k > 0
        invariant
            k <= total,
            queue@.len() == total - k,
            forall|i: int| 0 <= i < queue@.len() ==> queue@[i] == (total - 1 - i) as u64,
        decreases k,
    {
        k = k - 1;
        queue.push(k);
    }
    assert(queue@ =~= initial_queue(total as nat));
    let mut s = PoolState {
        queue,
        inflight: std::collections::VecDeque::new(),
        results: Vec::new(),
        pool_size,
        total,
        filling: true,
        pending: Pending::Done,
        launched: 0,
        failed_launches: 0,
        total_nodes: 0,
        total_edges: 0,
    };
    let a = fill(&mut s);
    (s, a)
}

/// Record the outcome of the pending action and decide the next one.
pub fn pool_step(s: &mut PoolState, e: PoolEvent) -> (a: PoolAction)
    requires
        pool_wf(old(s)@),
        counts_fit(old(s)@, e),
    ensures
        (final(s)@, a) == spec_step(old(s)@, e),
        pool_wf(final(s)@),
{
    proof {
        law_step_keeps_wf(s@, e);
    }
    match (s.pending, e) {
        (Pending::Fill { job }, PoolEvent::Started { pid, cookie }) => {
            s.inflight.push_back(WorkerHandle { job, pid, cookie });
            s.launched = s.launched + 1;
            fill(s)
        },
        (Pending::Fill { job }, PoolEvent::LaunchFailed) => {
            s.failed_launches = s.failed_launches + 1;
            fill(s)
        },
        (Pending::Refill { job }, PoolEvent::Started { pid, cookie }) => {
            s.inflight.push_back(WorkerHandle { job, pid, cookie });
            s.launched = s.launched + 1;
            drain(s)
        },
        (Pending::Refill { job }, PoolEvent::LaunchFailed) => {
            let n = s.queue.len() as u64;
            s.failed_launches = s.failed_launches + n + 1;
            s.queue.clear();
            drain(s)
        },
        (Pending::Collect { handle }, PoolEvent::Finished { counts }) => {
            s.results.push(WorkerResult { job: handle.job, counts: Some(counts) });
            s.total_nodes = s.total_nodes + counts.nodes;
            s.total_edges = s.total_edges + counts.edges;
            collect_next(s)
        },
        (Pending::Collect { handle }, PoolEvent::NoResult) => {
            s.results.push(WorkerResult { job: handle.job, counts: None });
            collect_next(s)
        },
        (Pending::Fill { job }, _) => PoolAction::Launch { job },
        (Pending::Refill { job }, _) => PoolAction::Launch { job },
        (Pending::Collect { handle }, _) => PoolAction::Collect { handle },
        (Pending::Done, _) => PoolAction::Finish,
    }
}

proof fn lemma_drain_wf(v: PoolView)
    requires
        v.inflight.len() <= v.pool_size,
        v.launched == v.results.len() + v.inflight.len(),
        v.launched + v.failed_launches + v.queue.len() == v.total,
        v.total + 2 <= u64::MAX,
        v.total_nodes <= u64::MAX,
        v.total_edges <= u64::MAX,
        v.inflight.len() == 0 ==> v.queue.len() == 0 || v.pool_size == 0,
    ensures
        pool_wf(decide_drain(v).0),
{
}

proof fn lemma_fill_wf(v: PoolView)
    requires
        v.inflight.len() <= v.pool_size,
        v.launched == v.results.len() + v.inflight.len(),
        v.launched + v.failed_launches + v.queue.len() == v.total,
        v.total + 2 <= u64::MAX,
        v.total_nodes <= u64::MAX,
        v.total_edges <= u64::MAX,
        v.filling,
    ensures
        pool_wf(decide_fill(v).0),
{
    if !(v.inflight.len() < v.pool_size && v.queue.len() > 0) {
        if v.inflight.len() == 0 && v.queue.len() > 0 {
            assert(v.pool_size == 0);
        }
    }
}

/// The pool's invariant holds from the start: the first window never exceeds the pool
/// size.
pub proof fn law_start_wf(total: nat, pool_size: nat)
    requires
        total + 2 <= u64::MAX,
    ensures
        pool_wf(spec_start(total, pool_size).0),
{
    let v = PoolView {
        queue: initial_queue(total),
        inflight: Seq::empty(),
        results: Seq::empty(),
        pool_size,
        total,
        filling: true,
        pending: Pending::Done,
        launched: 0,
        failed_launches: 0,
        total_nodes: 0,
        total_edges: 0,
    };
    if !(pool_size > 0 && total > 0) {
        if total > 0 {
            assert(pool_size == 0);
        }
    }
    lemma_fill_wf(v);
}

/// Every step keeps the pool's invariant: never more workers than the pool size, every
/// launched worker accounted for, and finished only when nothing is queued or running.
pub proof fn law_step_keeps_wf(v: PoolView, e: PoolEvent)
    requires
        pool_wf(v),
        counts_fit(v, e),
    ensures
        pool_wf(spec_step(v, e).0),
{
    match (v.pending, e) {
        (Pending::Fill { job }, PoolEvent::Started { pid, cookie }) => {
            lemma_fill_wf(PoolView {
                inflight: v.inflight.push(WorkerHandle { job, pid, cookie }),
                launched: v.launched + 1,
                ..v
            });
        },
        (Pending::Fill { job }, PoolEvent::LaunchFailed) => {
            lemma_fill_wf(PoolView { failed_launches: v.failed_launches + 1, ..v });
        },
        (Pending::Refill { job }, PoolEvent::Started { pid, cookie }) => {
            lemma_drain_wf(PoolView {
                inflight: v.inflight.push(WorkerHandle { job, pid, cookie }),
                launched: v.launched + 1,
                ..v
            });
        },
        (Pending::Refill { job }, PoolEvent::LaunchFailed) => {
            lemma_drain_wf(PoolView {
                queue: Seq::empty(),
                failed_launches: v.failed_launches + v.queue.len() + 1,
                ..v
            });
        },
        (Pending::Collect { handle }, PoolEvent::Finished { counts }) => {
            let w = PoolView {
                results: v.results.push(WorkerResult { job: handle.job, counts: Some(counts) }),
                total_nodes: v.total_nodes + counts.nodes as nat,
                total_edges: v.total_edges + counts.edges as nat,
                ..v
            };
            if w.queue.len() == 0 {
                lemma_drain_wf(w);
            }
        },
        (Pending::Collect { handle }, PoolEvent::NoResult) => {
            let w = PoolView {
                results: v.results.push(WorkerResult { job: handle.job, counts: None }),
                ..v
            };
            if w.queue.len() == 0 {
                lemma_drain_wf(w);
            }
        },
        _ => {},
    }
}

/// The pool finishes only when every launched worker has been collected and, unless the
/// pool has no workers, nothing is left to launch: every job then has a result or was
/// reported as a failed launch, exactly once.
pub proof fn law_finish_means_drained(v: PoolView, e: PoolEvent)
    requires
        pool_wf(v),
        counts_fit(v, e),
        spec_step(v, e).1 == PoolAction::Finish,
    ensures
        v.pool_size > 0 ==> spec_step(v, e).0.queue.len() == 0,
        spec_step(v, e).0.inflight.len() == 0,
        spec_step(v, e).0.launched == spec_step(v, e).0.results.len(),
        v.pool_size > 0 ==> spec_step(v, e).0.results.len() + spec_step(v, e).0.failed_launches == v.total,
{
    law_step_keeps_wf(v, e);
}

} // verus!
