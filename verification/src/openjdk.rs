//! The OpenJDK/HotSpot dialect parser: a line-oriented state machine that
//! recognizes quoted thread headers, separate `java.lang.Thread.State:`
//! lines, `at `-prefixed stack frames, and the `Full thread dump ...` version
//! header.

use vstd::prelude::*;
use vstd::string::*;
use crate::analyzer::{categorize_frame, determine_thread_category, spec_categorize_frame,
    spec_thread_category};
use crate::clock::now_millis;
use crate::models::{CategorizedFrame, FrameView, NormalizedThread, ThreadCategory, ThreadDump,
    ThreadState, ThreadView, frame_views, thread_views};
use crate::text::{build_num_at, build_num_at_exec, build_num_end, build_num_end_exec,
    contains_seq, contains_str, find_from, find_str, has_prefix, lemma_find_from, match_at,
    match_at_exec, name_between_quotes, name_between_quotes_exec, second_token,
    second_token_exec, spec_lines, spec_trim, split_lines, starts_with_str, str_eq, trim_str};

verus! {

/// Normalized state read from one `java.lang.Thread.State:` line: the second
/// whitespace-delimited token selects the state, except that a WAITING line
/// annotated `(parking)` or `(on object monitor)` counts as BLOCKED.
pub open spec fn spec_parse_thread_state(line: Seq<char>) -> ThreadState {
    let tok = second_token(line);
    if tok == "RUNNABLE"@ {
        ThreadState::Runnable
    } else if tok == "BLOCKED"@ {
        ThreadState::Blocked
    } else if tok == "WAITING"@ {
        if contains_seq(line, "(parking)"@) || contains_seq(line, "(on object monitor)"@) {
            ThreadState::Blocked
        } else {
            ThreadState::Waiting
        }
    } else if tok == "TIMED_WAITING"@ {
        ThreadState::TimedWaiting
    } else {
        ThreadState::Unknown
    }
}

/// Reads the normalized thread state from a `java.lang.Thread.State:` line.
pub fn parse_thread_state(state_line: &str) -> (r: ThreadState)
    ensures
        r == spec_parse_thread_state(state_line@),
{
    let tok = second_token_exec(state_line);
    if str_eq(tok.as_str(), "RUNNABLE") {
        ThreadState::Runnable
    } else if str_eq(tok.as_str(), "BLOCKED") {
        ThreadState::Blocked
    } else if str_eq(tok.as_str(), "WAITING") {
        if contains_str(state_line, "(parking)") || contains_str(state_line, "(on object monitor)")
        {
            ThreadState::Blocked
        } else {
            ThreadState::Waiting
        }
    } else if str_eq(tok.as_str(), "TIMED_WAITING") {
        ThreadState::TimedWaiting
    } else {
        ThreadState::Unknown
    }
}

/// A ` (` at `j` opens a numeric build id (`digits.digits.digits+digits`)
/// whose digits end early enough to leave the closing `):` at the line's end.
pub open spec fn oj_paren_build_at(rest: Seq<char>, j: int) -> bool {
    &&& match_at(rest, " ("@, j)
    &&& build_num_at(rest, j + 2)
    &&& build_num_end(rest, j + 2) <= rest.len() - 2
}

/// The rightmost candidate position at or below `j` where the build id's
/// opening ` (` stands.
pub open spec fn oj_build_start(rest: Seq<char>, j: int) -> Option<int>
    decreases j + 1,
{
    if j < 0 {
        None
    } else if oj_paren_build_at(rest, j) {
        Some(j)
    } else {
        oj_build_start(rest, j - 1)
    }
}

/// A found build start is a valid one.
proof fn lemma_oj_build_start(rest: Seq<char>, j: int)
    ensures
        match oj_build_start(rest, j) {
            Some(k) => 0 <= k <= j && oj_paren_build_at(rest, k),
            None => true,
        },
    decreases j + 1,
{
    if j >= 0 && !oj_paren_build_at(rest, j) {
        lemma_oj_build_start(rest, j - 1);
    }
}

/// Version string extracted from one line of the form
/// `...Full thread dump <name> (<build>...):`, as `<name> (<build>)` with the
/// name trimmed; `None` when the line has no such shape.
pub open spec fn oj_version_of_line(line: Seq<char>) -> Option<Seq<char>> {
    match find_from(line, "Full thread dump "@, 0) {
        None => None,
        Some(i) => {
            let rest = line.subrange(i + "Full thread dump "@.len(), line.len() as int);
            if rest.len() >= 2 && rest[rest.len() - 2] == ')' && rest[rest.len() - 1] == ':' {
                match oj_build_start(rest, rest.len() - 1) {
                    None => None,
                    Some(j) => Some(
                        spec_trim(rest.subrange(0, j)) + " ("@ + rest.subrange(
                            j + 2,
                            build_num_end(rest, j + 2),
                        ) + ")"@,
                    ),
                }
            } else {
                None
            }
        },
    }
}

/// Finds the rightmost build-id start in `rest`.
fn oj_build_start_exec(rest: &str) -> (r: Option<usize>)
    ensures
        match r {
            Some(j) => oj_build_start(rest@, rest@.len() - 1) == Some(j as int),
            None => oj_build_start(rest@, rest@.len() - 1) is None,
        },
{
    let rlen = rest.unicode_len();
    if rlen == 0 {
        return None;
    }
    let mut j: usize = rlen - 1;
    loop
        invariant
            j < rlen,
            rlen == rest@.len(),
            oj_build_start(rest@, rlen - 1) == oj_build_start(rest@, j as int),
        decreases j,
    {
        if oj_paren_build_at_exec(rest, j) {
            return Some(j);
        }
        if j == 0 {
            proof {
                assert(oj_build_start(rest@, -1) is None);
                assert(oj_build_start(rest@, 0) is None);
            }
            return None;
        }
        j = j - 1;
    }
}

/// Whether a build id opens at `j` in `rest`.
fn oj_paren_build_at_exec(rest: &str, j: usize) -> (r: bool)
    ensures
        r == oj_paren_build_at(rest@, j as int),
{
    let rlen = rest.unicode_len();
    proof {
        reveal_strlit(" (");
    }
    if !match_at_exec(rest, " (", j) {
        return false;
    }
    if !build_num_at_exec(rest, j + 2) {
        return false;
    }
    let e = build_num_end_exec(rest, j + 2);
    rlen >= 2 && e <= rlen - 2
}

/// Extracts the version string from one line, when the line carries the
/// OpenJDK version header.
pub fn extract_openjdk_version(line: &str) -> (r: Option<String>)
    ensures
        match r {
            Some(v) => oj_version_of_line(line@) == Some(v@),
            None => oj_version_of_line(line@) is None,
        },
{
    let marker = "Full thread dump ";
    let len = line.unicode_len();
    match find_str(line, marker, 0) {
        None => None,
        Some(i) => {
            proof {
                lemma_find_from(line@, marker@, 0);
            }
            let mlen = marker.unicode_len();
            let rest = line.substring_char(i + mlen, len);
            let rlen = rest.unicode_len();
            if rlen >= 2 && rest.get_char(rlen - 2) == ')' && rest.get_char(rlen - 1) == ':' {
                match oj_build_start_exec(rest) {
                    None => None,
                    Some(j) => {
                        proof {
                            lemma_oj_build_start(rest@, rest@.len() - 1);
                            reveal_strlit(" (");
                        }
                        let e = build_num_end_exec(rest, j + 2);
                        let mut v = trim_str(rest.substring_char(0, j));
                        v.append(" (");
                        v.append(rest.substring_char(j + 2, e));
                        v.append(")");
                        Some(v)
                    },
                }
            } else {
                None
            }
        },
    }
}

/// Parser state of the OpenJDK state machine after some prefix of the lines:
/// finished threads, the thread whose block is open, the most recent unused
/// state line, and the version header's first match.
#[verifier::ext_equal]
pub ghost struct OjState {
    pub threads: Seq<ThreadView>,
    pub cur: Option<ThreadView>,
    pub pending: Option<Seq<char>>,
    pub version: Option<Seq<char>>,
}

/// State before any line is read.
pub open spec fn oj_init() -> OjState {
    OjState { threads: Seq::empty(), cur: None, pending: None, version: None }
}

/// Finalizes an open thread: resolve its state from the pending state line,
/// if any, and derive its category from its frames.
pub open spec fn finish_thread(t: ThreadView, pending: Option<Seq<char>>) -> ThreadView {
    ThreadView {
        state: match pending {
            Some(l) => spec_parse_thread_state(l),
            None => t.state,
        },
        category: spec_thread_category(t.frames),
        ..t
    }
}

/// Closes the open thread, if any. A pending state line is consumed by the
/// thread being closed; when no thread is open it is dropped, so a state
/// line never carries over into a thread whose block it does not belong to.
pub open spec fn oj_close(
    threads: Seq<ThreadView>,
    cur: Option<ThreadView>,
    pending: Option<Seq<char>>,
) -> (Seq<ThreadView>, Option<Seq<char>>) {
    match cur {
        None => (threads, None),
        Some(t) => (threads.push(finish_thread(t, pending)), None),
    }
}

/// An OpenJDK thread header: the line opens with a quote and carries a native
/// thread id token.
pub open spec fn oj_is_header(line: Seq<char>) -> bool {
    line.len() > 0 && line[0] == '"' && contains_seq(line, "nid="@)
}

/// One step of the OpenJDK state machine.
pub open spec fn oj_step(st: OjState, line: Seq<char>) -> OjState {
    let version = if st.version is None {
        oj_version_of_line(line)
    } else {
        st.version
    };
    if oj_is_header(line) {
        let (threads, pending) = oj_close(st.threads, st.cur, st.pending);
        OjState {
            threads,
            cur: Some(
                ThreadView {
                    name: name_between_quotes(line),
                    state: ThreadState::Unknown,
                    category: ThreadCategory::Unknown,
                    frames: Seq::empty(),
                },
            ),
            pending,
            version,
        }
    } else if has_prefix(spec_trim(line), "java.lang.Thread.State:"@) {
        OjState { pending: Some(spec_trim(line)), version, ..st }
    } else if st.cur is Some && has_prefix(spec_trim(line), "at "@) {
        let t = st.cur->Some_0;
        let f = FrameView {
            line: spec_trim(line),
            category: spec_categorize_frame(spec_trim(line)),
        };
        OjState { cur: Some(ThreadView { frames: t.frames.push(f), ..t }), version, ..st }
    } else {
        OjState { version, ..st }
    }
}

/// The machine's state after all lines.
pub open spec fn oj_run(lines: Seq<Seq<char>>) -> OjState
    decreases lines.len(),
{
    if lines.len() == 0 {
        oj_init()
    } else {
        oj_step(oj_run(lines.drop_last()), lines.last())
    }
}

/// The threads an OpenJDK parse of `text` yields, in order of appearance.
pub open spec fn oj_parse_threads(text: Seq<char>) -> Seq<ThreadView> {
    let st = oj_run(spec_lines(text));
    oj_close(st.threads, st.cur, st.pending).0
}

/// The version label an OpenJDK parse of `text` yields.
pub open spec fn oj_parse_version(text: Seq<char>) -> Seq<char> {
    match oj_run(spec_lines(text)).version {
        Some(v) => v,
        None => "OpenJDK (Unknown Version)"@,
    }
}

/// View of an optional open thread.
pub open spec fn opt_thread_view(o: Option<NormalizedThread>) -> Option<ThreadView> {
    match o {
        Some(t) => Some(t@),
        None => None,
    }
}

/// View of an optional string.
pub open spec fn opt_str_view(o: Option<String>) -> Option<Seq<char>> {
    match o {
        Some(s) => Some(s@),
        None => None,
    }
}

/// Every thread the machine has finished carries the category derived from
/// its frames.
pub proof fn lemma_oj_run_threads_categorized(lines: Seq<Seq<char>>)
    ensures
        forall|i: int|
            0 <= i < oj_run(lines).threads.len() ==> (#[trigger] oj_run(lines).threads[i]).category
                == spec_thread_category(oj_run(lines).threads[i].frames),
    decreases lines.len(),
{
    if lines.len() > 0 {
        lemma_oj_run_threads_categorized(lines.drop_last());
        let st = oj_run(lines.drop_last());
        let st2 = oj_run(lines);
        if oj_is_header(lines.last()) {
            match st.cur {
                None => {},
                Some(t) => {
                    assert(st2.threads == st.threads.push(finish_thread(t, st.pending)));
                },
            }
        }
    }
}

/// A run over lines none of which carries the version header records no
/// version.
pub proof fn lemma_oj_run_no_version(lines: Seq<Seq<char>>)
    requires
        forall|i: int|
            0 <= i < lines.len() ==> oj_version_of_line(#[trigger] lines[i]) is None,
    ensures
        oj_run(lines).version is None,
    decreases lines.len(),
{
    if lines.len() > 0 {
        assert(forall|i: int|
            0 <= i < lines.drop_last().len() ==> oj_version_of_line(
                #[trigger] lines.drop_last()[i],
            ) is None);
        lemma_oj_run_no_version(lines.drop_last());
        assert(oj_version_of_line(lines.last()) is None);
    }
}

/// A run over lines none of which is a thread header finishes no thread and
/// opens none.
pub proof fn lemma_oj_run_no_headers(lines: Seq<Seq<char>>)
    requires
        forall|i: int| 0 <= i < lines.len() ==> !oj_is_header(#[trigger] lines[i]),
    ensures
        oj_run(lines).threads == Seq::<ThreadView>::empty(),
        oj_run(lines).cur is None,
    decreases lines.len(),
{
    if lines.len() > 0 {
        assert(forall|i: int|
            0 <= i < lines.drop_last().len() ==> !oj_is_header(#[trigger] lines.drop_last()[i]));
        lemma_oj_run_no_headers(lines.drop_last());
        assert(!oj_is_header(lines.last()));
    }
}

/// Unfolding `oj_run` by one line.
proof fn lemma_oj_run_step(lines: Seq<Seq<char>>, i: int)
    requires
        0 <= i < lines.len(),
    ensures
        oj_run(lines.take(i + 1)) == oj_step(oj_run(lines.take(i)), lines[i]),
{
    assert(lines.take(i + 1).drop_last() =~= lines.take(i));
    assert(lines.take(i + 1).last() == lines[i]);
}

/// Parses one OpenJDK/HotSpot-style dump. Total: every input yields a
/// snapshot whose threads and version label are exactly those of the
/// dialect's state machine run over the input's lines.
pub fn parse_jstack_output_openjdk(output: &str) -> (r: Result<ThreadDump, String>)
    ensures
        r matches Ok(d) && d@.threads == oj_parse_threads(output@) && d@.jvm_version
            == oj_parse_version(output@),
{
    let lines = split_lines(output);
    let ghost ls = lines.deep_view();
    let mut threads: Vec<NormalizedThread> = Vec::new();
    let mut cur: Option<NormalizedThread> = None;
    let mut pending: Option<String> = None;
    let mut version: Option<String> = None;
    let mut li: usize = 0;
    proof {
        assert(ls.take(0) =~= Seq::<Seq<char>>::empty());
        assert(thread_views(threads@) =~= oj_run(ls.take(0)).threads);
    }
    while li < lines.len()
        invariant
            li <= lines@.len(),
            ls == lines.deep_view(),
            ls == spec_lines(output@),
            ls.len() == lines@.len(),
            thread_views(threads@) == oj_run(ls.take(li as int)).threads,
            opt_thread_view(cur) == oj_run(ls.take(li as int)).cur,
            opt_str_view(pending) == oj_run(ls.take(li as int)).pending,
            opt_str_view(version) == oj_run(ls.take(li as int)).version,
        decreases lines@.len() - li,
    {
        let ghost st = oj_run(ls.take(li as int));
        let ghost line_v = ls[li as int];
        proof {
            lemma_oj_run_step(ls, li as int);
            assert(lines@[li as int]@ == ls[li as int]);
        }
        let line = &lines[li];

        if version.is_none() {
            match extract_openjdk_version(line.as_str()) {
                Some(v) => { version = Some(v) },
                None => {},
            }
        }
        proof {
            assert(opt_str_view(version) == oj_step(st, line_v).version);
        }

        let l = line.as_str();
        let llen = l.unicode_len();
        let is_header = llen > 0 && l.get_char(0) == '"' && contains_str(l, "nid=");
        proof {
            assert(is_header == oj_is_header(line_v));
        }
        if is_header {
            let prev = cur;
            cur = None;
            match prev {
                Some(mut th) => {
                    let ghost th0 = th@;
                    let pl = pending;
                    pending = None;
                    match pl {
                        Some(sl) => { th.state = parse_thread_state(sl.as_str()) },
                        None => {},
                    }
                    th.category = determine_thread_category(th.frames.as_slice());
                    proof {
                        assert(th@ =~= finish_thread(th0, st.pending));
                    }
                    threads.push(th);
                    proof {
                        assert(thread_views(threads@) =~= oj_step(st, line_v).threads);
                    }
                },
                None => {
                    // A state line seen outside any thread's block is dropped.
                    pending = None;
                },
            }
            let name = name_between_quotes_exec(l);
            cur = Some(
                NormalizedThread {
                    name,
                    state: ThreadState::Unknown,
                    category: ThreadCategory::Unknown,
                    frames: Vec::new(),
                },
            );
            proof {
                assert(opt_thread_view(cur)->Some_0 =~= oj_step(st, line_v).cur->Some_0);
            }
        } else {
            let trimmed = trim_str(l);
            if starts_with_str(trimmed.as_str(), "java.lang.Thread.State:") {
                pending = Some(trimmed);
            } else {
                let prev = cur;
                cur = None;
                match prev {
                    Some(mut th) => {
                        let ghost th0 = th@;
                        if starts_with_str(trimmed.as_str(), "at ") {
                            let cat = categorize_frame(trimmed.as_str());
                            th.frames.push(CategorizedFrame { line: trimmed, category: cat });
                            proof {
                                assert(frame_views(th.frames@) =~= th0.frames.push(
                                    oj_step(st, line_v).cur->Some_0.frames.last(),
                                ));
                                assert(th@ =~= oj_step(st, line_v).cur->Some_0);
                            }
                        }
                        cur = Some(th);
                    },
                    None => {},
                }
            }
        }
        li = li + 1;
        proof {
            assert(thread_views(threads@) == oj_run(ls.take(li as int)).threads);
            assert(opt_thread_view(cur) == oj_run(ls.take(li as int)).cur);
            assert(opt_str_view(pending) == oj_run(ls.take(li as int)).pending);
            assert(opt_str_view(version) == oj_run(ls.take(li as int)).version);
        }
    }
    proof {
        assert(ls.take(lines@.len() as int) =~= ls);
    }

    let ghost st = oj_run(spec_lines(output@));
    let prev = cur;
    match prev {
        Some(mut th) => {
            let ghost th0 = th@;
            let pl = pending;
            match pl {
                Some(sl) => { th.state = parse_thread_state(sl.as_str()) },
                None => {},
            }
            th.category = determine_thread_category(th.frames.as_slice());
            proof {
                assert(th@ =~= finish_thread(th0, st.pending));
            }
            threads.push(th);
            proof {
                assert(thread_views(threads@) =~= oj_close(st.threads, st.cur, st.pending).0);
            }
        },
        None => {},
    }

    let jvm_version = match version {
        Some(v) => v,
        None => String::from_str("OpenJDK (Unknown Version)"),
    };
    Ok(ThreadDump { jvm_version, timestamp: now_millis(), threads })
}

} // verus!
