//! The IBM Semeru/OpenJ9 dialect parser: a line-oriented state machine whose
//! thread headers carry both the priority and thread-id markers, with the
//! thread state encoded on the header line itself.

use vstd::prelude::*;
use vstd::string::*;
use crate::analyzer::{categorize_frame, determine_thread_category, spec_categorize_frame,
    spec_thread_category};
use crate::clock::now_millis;
use crate::models::{CategorizedFrame, FrameView, NormalizedThread, ThreadCategory, ThreadDump,
    ThreadState, ThreadView, frame_views, thread_views};
use crate::openjdk::{opt_str_view, opt_thread_view};
use crate::text::{build_num_end, build_num_end_exec, contains_seq, contains_str, find_from,
    find_str, has_prefix, lemma_find_from, name_between_quotes, name_between_quotes_exec,
    quad_num_at, quad_num_at_exec, spec_lines, spec_trim, split_lines, starts_with_str, trim_str};

verus! {

/// Normalized state read from an IBM thread header line.
pub open spec fn ibm_state_of_header(line: Seq<char>) -> ThreadState {
    if contains_seq(line, " BLOCKED"@) || contains_seq(line, "state:B"@) {
        ThreadState::Blocked
    } else if contains_seq(line, " RUNNABLE"@) || contains_seq(line, "state:R"@) {
        ThreadState::Runnable
    } else if contains_seq(line, " WAITING"@) || contains_seq(line, "PARKED"@) {
        ThreadState::Waiting
    } else if contains_seq(line, " TIMED_WAITING"@) || contains_seq(line, "SLEEPING"@) {
        ThreadState::TimedWaiting
    } else {
        ThreadState::Unknown
    }
}

/// Reads the normalized thread state from an IBM header line.
pub fn parse_ibm_header_state(line: &str) -> (r: ThreadState)
    ensures
        r == ibm_state_of_header(line@),
{
    if contains_str(line, " BLOCKED") || contains_str(line, "state:B") {
        ThreadState::Blocked
    } else if contains_str(line, " RUNNABLE") || contains_str(line, "state:R") {
        ThreadState::Runnable
    } else if contains_str(line, " WAITING") || contains_str(line, "PARKED") {
        ThreadState::Waiting
    } else if contains_str(line, " TIMED_WAITING") || contains_str(line, "SLEEPING") {
        ThreadState::TimedWaiting
    } else {
        ThreadState::Unknown
    }
}

/// Start of the leftmost occurrence, at or after `from`, of the Semeru
/// version marker that is followed by a version quadruple.
pub open spec fn ibm_version_start(line: Seq<char>, from: int) -> Option<int>
    decreases line.len() - from + 1,
{
    if from < 0 || from > line.len() {
        None
    } else {
        match find_from(line, "Full thread dump IBM Semeru Runtime Open Edition "@, from) {
            None => None,
            Some(i) => if quad_num_at(
                line,
                i + "Full thread dump IBM Semeru Runtime Open Edition "@.len(),
            ) {
                Some(i)
            } else {
                ibm_version_start(line, from + 1)
            },
        }
    }
}

/// Version string extracted from one line naming the Semeru runtime followed
/// by a version quadruple; `None` when the line has no such shape.
pub open spec fn ibm_version_of_line(line: Seq<char>) -> Option<Seq<char>> {
    match ibm_version_start(line, 0) {
        None => None,
        Some(i) => {
            let p = i + "Full thread dump IBM Semeru Runtime Open Edition "@.len();
            Some("IBM Semeru Runtime Open Edition "@ + line.subrange(p, build_num_end(line, p)))
        },
    }
}

/// Extracts the version string from one line, when the line carries the IBM
/// version header.
pub fn extract_ibm_version(line: &str) -> (r: Option<String>)
    ensures
        match r {
            Some(v) => ibm_version_of_line(line@) == Some(v@),
            None => ibm_version_of_line(line@) is None,
        },
{
    let marker = "Full thread dump IBM Semeru Runtime Open Edition ";
    proof {
        reveal_strlit("Full thread dump IBM Semeru Runtime Open Edition ");
    }
    let len = line.unicode_len();
    let mlen = marker.unicode_len();
    let mut from: usize = 0;
    loop
        invariant
            from <= line@.len() + 1,
            len == line@.len(),
            marker@ == "Full thread dump IBM Semeru Runtime Open Edition "@,
            mlen == marker@.len(),
            mlen >= 1,
            ibm_version_start(line@, 0) == ibm_version_start(line@, from as int),
        decreases line@.len() - from + 1,
    {
        if from > len {
            proof {
                assert(ibm_version_start(line@, from as int) is None);
            }
            return None;
        }
        match find_str(line, marker, from) {
            None => {
                proof {
                    assert(ibm_version_start(line@, from as int) is None);
                }
                return None;
            },
            Some(i) => {
                proof {
                    lemma_find_from(line@, marker@, from as int);
                    assert(i as int + marker@.len() <= line@.len());
                }
                if quad_num_at_exec(line, i + mlen) {
                    proof {
                        assert(quad_num_at(line@, i as int + marker@.len()));
                        assert(ibm_version_start(line@, from as int) == Some(i as int));
                    }
                    let e = build_num_end_exec(line, i + mlen);
                    let mut v = String::from_str("IBM Semeru Runtime Open Edition ");
                    v.append(line.substring_char(i + mlen, e));
                    return Some(v);
                }
                proof {
                    assert(!quad_num_at(line@, i as int + marker@.len()));
                    assert(ibm_version_start(line@, from as int) == ibm_version_start(
                        line@,
                        from + 1,
                    ));
                }
                from = from + 1;
            },
        }
    }
}

/// Parser state of the IBM state machine after some prefix of the lines.
#[verifier::ext_equal]
pub ghost struct IbmState {
    pub threads: Seq<ThreadView>,
    pub cur: Option<ThreadView>,
    pub version: Option<Seq<char>>,
}

/// State before any line is read.
pub open spec fn ibm_init() -> IbmState {
    IbmState { threads: Seq::empty(), cur: None, version: None }
}

/// Finalizes an open thread: derive its category from its frames. Its state
/// was already fixed by its header line.
pub open spec fn ibm_finish(t: ThreadView) -> ThreadView {
    ThreadView { category: spec_thread_category(t.frames), ..t }
}

/// An IBM thread header: the line carries both a priority and a thread-id
/// marker.
pub open spec fn ibm_is_header(line: Seq<char>) -> bool {
    contains_seq(line, "prio="@) && contains_seq(line, "tid="@)
}

/// One step of the IBM state machine.
pub open spec fn ibm_step(st: IbmState, line: Seq<char>) -> IbmState {
    let version = if st.version is None {
        ibm_version_of_line(line)
    } else {
        st.version
    };
    if ibm_is_header(line) {
        let threads = match st.cur {
            None => st.threads,
            Some(t) => st.threads.push(ibm_finish(t)),
        };
        IbmState {
            threads,
            cur: Some(
                ThreadView {
                    name: name_between_quotes(line),
                    state: ibm_state_of_header(line),
                    category: ThreadCategory::Unknown,
                    frames: Seq::empty(),
                },
            ),
            version,
        }
    } else if st.cur is Some && has_prefix(spec_trim(line), "at "@) {
        let t = st.cur->Some_0;
        let f = FrameView {
            line: spec_trim(line),
            category: spec_categorize_frame(spec_trim(line)),
        };
        IbmState { cur: Some(ThreadView { frames: t.frames.push(f), ..t }), version, ..st }
    } else {
        IbmState { version, ..st }
    }
}

/// The machine's state after all lines.
pub open spec fn ibm_run(lines: Seq<Seq<char>>) -> IbmState
    decreases lines.len(),
{
    if lines.len() == 0 {
        ibm_init()
    } else {
        ibm_step(ibm_run(lines.drop_last()), lines.last())
    }
}

/// The threads an IBM parse of `text` yields, in order of appearance.
pub open spec fn ibm_parse_threads(text: Seq<char>) -> Seq<ThreadView> {
    let st = ibm_run(spec_lines(text));
    match st.cur {
        None => st.threads,
        Some(t) => st.threads.push(ibm_finish(t)),
    }
}

/// The version label an IBM parse of `text` yields.
pub open spec fn ibm_parse_version(text: Seq<char>) -> Seq<char> {
    match ibm_run(spec_lines(text)).version {
        Some(v) => v,
        None => "IBM J9 (Unknown Version)"@,
    }
}

/// Every thread the machine has finished carries the category derived from
/// its frames.
pub proof fn lemma_ibm_run_threads_categorized(lines: Seq<Seq<char>>)
    ensures
        forall|i: int|
            0 <= i < ibm_run(lines).threads.len() ==> (#[trigger] ibm_run(
                lines,
            ).threads[i]).category == spec_thread_category(ibm_run(lines).threads[i].frames),
    decreases lines.len(),
{
    if lines.len() > 0 {
        lemma_ibm_run_threads_categorized(lines.drop_last());
        let st = ibm_run(lines.drop_last());
        let st2 = ibm_run(lines);
        if ibm_is_header(lines.last()) {
            match st.cur {
                None => {},
                Some(t) => {
                    assert(st2.threads == st.threads.push(ibm_finish(t)));
                },
            }
        }
    }
}

/// A run over lines none of which carries the version header records no
/// version.
pub proof fn lemma_ibm_run_no_version(lines: Seq<Seq<char>>)
    requires
        forall|i: int|
            0 <= i < lines.len() ==> ibm_version_of_line(#[trigger] lines[i]) is None,
    ensures
        ibm_run(lines).version is None,
    decreases lines.len(),
{
    if lines.len() > 0 {
        assert(forall|i: int|
            0 <= i < lines.drop_last().len() ==> ibm_version_of_line(
                #[trigger] lines.drop_last()[i],
            ) is None);
        lemma_ibm_run_no_version(lines.drop_last());
        assert(ibm_version_of_line(lines.last()) is None);
    }
}

/// A run over lines none of which is a thread header finishes no thread and
/// opens none.
pub proof fn lemma_ibm_run_no_headers(lines: Seq<Seq<char>>)
    requires
        forall|i: int| 0 <= i < lines.len() ==> !ibm_is_header(#[trigger] lines[i]),
    ensures
        ibm_run(lines).threads == Seq::<ThreadView>::empty(),
        ibm_run(lines).cur is None,
    decreases lines.len(),
{
    if lines.len() > 0 {
        assert(forall|i: int|
            0 <= i < lines.drop_last().len() ==> !ibm_is_header(#[trigger] lines.drop_last()[i]));
        lemma_ibm_run_no_headers(lines.drop_last());
        assert(!ibm_is_header(lines.last()));
    }
}

/// Unfolding `ibm_run` by one line.
proof fn lemma_ibm_run_step(lines: Seq<Seq<char>>, i: int)
    requires
        0 <= i < lines.len(),
    ensures
        ibm_run(lines.take(i + 1)) == ibm_step(ibm_run(lines.take(i)), lines[i]),
{
    assert(lines.take(i + 1).drop_last() =~= lines.take(i));
    assert(lines.take(i + 1).last() == lines[i]);
}

/// Parses one IBM Semeru/OpenJ9-style dump. Total: every input yields a
/// snapshot whose threads and version label are exactly those of the
/// dialect's state machine run over the input's lines.
pub fn parse_jstack_output_ibm(output: &str) -> (r: Result<ThreadDump, String>)
    ensures
        r matches Ok(d) && d@.threads == ibm_parse_threads(output@) && d@.jvm_version
            == ibm_parse_version(output@),
{
    let lines = split_lines(output);
    let ghost ls = lines.deep_view();
    let mut threads: Vec<NormalizedThread> = Vec::new();
    let mut cur: Option<NormalizedThread> = None;
    let mut version: Option<String> = None;
    let mut li: usize = 0;
    proof {
        assert(ls.take(0) =~= Seq::<Seq<char>>::empty());
        assert(thread_views(threads@) =~= ibm_run(ls.take(0)).threads);
    }
    while li < lines.len()
        invariant
            li <= lines@.len(),
            ls == lines.deep_view(),
            ls == spec_lines(output@),
            ls.len() == lines@.len(),
            thread_views(threads@) == ibm_run(ls.take(li as int)).threads,
            opt_thread_view(cur) == ibm_run(ls.take(li as int)).cur,
            opt_str_view(version) == ibm_run(ls.take(li as int)).version,
        decreases lines@.len() - li,
    {
        let ghost st = ibm_run(ls.take(li as int));
        let ghost line_v = ls[li as int];
        proof {
            lemma_ibm_run_step(ls, li as int);
            assert(lines@[li as int]@ == ls[li as int]);
        }
        let line = &lines[li];

        if version.is_none() {
            match extract_ibm_version(line.as_str()) {
                Some(v) => { version = Some(v) },
                None => {},
            }
        }
        proof {
            assert(opt_str_view(version) == ibm_step(st, line_v).version);
        }

        let l = line.as_str();
        let is_header = contains_str(l, "prio=") && contains_str(l, "tid=");
        if is_header {
            let prev = cur;
            cur = None;
            match prev {
                Some(mut th) => {
                    let ghost th0 = th@;
                    th.category = determine_thread_category(th.frames.as_slice());
                    proof {
                        assert(th@ =~= ibm_finish(th0));
                    }
                    threads.push(th);
                    proof {
                        assert(thread_views(threads@) =~= ibm_step(st, line_v).threads);
                    }
                },
                None => {},
            }
            let name = name_between_quotes_exec(l);
            let state = parse_ibm_header_state(l);
            cur = Some(
                NormalizedThread {
                    name,
                    state,
                    category: ThreadCategory::Unknown,
                    frames: Vec::new(),
                },
            );
            proof {
                assert(opt_thread_view(cur)->Some_0 =~= ibm_step(st, line_v).cur->Some_0);
            }
        } else {
            let prev = cur;
            cur = None;
            match prev {
                Some(mut th) => {
                    let ghost th0 = th@;
                    let trimmed = trim_str(l);
                    if starts_with_str(trimmed.as_str(), "at ") {
                        let cat = categorize_frame(trimmed.as_str());
                        th.frames.push(CategorizedFrame { line: trimmed, category: cat });
                        proof {
                            assert(frame_views(th.frames@) =~= th0.frames.push(
                                ibm_step(st, line_v).cur->Some_0.frames.last(),
                            ));
                            assert(th@ =~= ibm_step(st, line_v).cur->Some_0);
                        }
                    }
                    cur = Some(th);
                },
                None => {},
            }
        }
        li = li + 1;
        proof {
            assert(thread_views(threads@) == ibm_run(ls.take(li as int)).threads);
            assert(opt_thread_view(cur) == ibm_run(ls.take(li as int)).cur);
            assert(opt_str_view(version) == ibm_run(ls.take(li as int)).version);
        }
    }
    proof {
        assert(ls.take(lines@.len() as int) =~= ls);
    }

    let ghost st = ibm_run(spec_lines(output@));
    let prev = cur;
    match prev {
        Some(mut th) => {
            let ghost th0 = th@;
            th.category = determine_thread_category(th.frames.as_slice());
            proof {
                assert(th@ =~= ibm_finish(th0));
            }
            threads.push(th);
            proof {
                assert(thread_views(threads@) =~= ibm_parse_threads(output@));
            }
        },
        None => {},
    }

    let jvm_version = match version {
        Some(v) => v,
        None => String::from_str("IBM J9 (Unknown Version)"),
    };
    Ok(ThreadDump { jvm_version, timestamp: now_millis(), threads })
}

} // verus!
