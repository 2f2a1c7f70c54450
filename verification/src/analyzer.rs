//! Frame and thread classification, and the chronic-block aggregator that
//! finds threads repeatedly blocked across a series of dumps.

use vstd::prelude::*;
use crate::models::{
    CategorizedFrame, DumpView, FrameCategory, FrameView, NormalizedThread, ThreadCategory,
    ThreadDump, ThreadState, ThreadView, clone_thread, dump_views, frame_views, thread_views,
};
use crate::text::{contains_seq, contains_str, match_at, match_at_exec, skip_ws, skip_ws_exec, str_eq};

verus! {

/// `p` occurs in `s` right after `s`'s leading whitespace.
pub open spec fn frame_matches(s: Seq<char>, p: Seq<char>) -> bool {
    match_at(s, p, skip_ws(s, 0))
}

/// The frame names JVM runtime code (`java.`, `sun.` or `jdk.` packages).
pub open spec fn spec_is_jvm_frame(s: Seq<char>) -> bool {
    frame_matches(s, "at java."@) || frame_matches(s, "at sun."@) || frame_matches(s, "at jdk."@)
}

/// The frame names a known framework package (Jetty or Spark, with or
/// without the class-loader prefix `app//`).
pub open spec fn spec_is_framework_frame(s: Seq<char>) -> bool {
    frame_matches(s, "at org.eclipse.jetty."@) || frame_matches(s, "at app//org.eclipse.jetty."@)
        || frame_matches(s, "at spark."@) || frame_matches(s, "at app//spark."@)
}

/// Category of one frame text: JVM patterns first, then framework patterns,
/// and application code as the fallback.
pub open spec fn spec_categorize_frame(s: Seq<char>) -> FrameCategory {
    if spec_is_jvm_frame(s) {
        FrameCategory::Jvm
    } else if spec_is_framework_frame(s) {
        FrameCategory::Framework
    } else {
        FrameCategory::Application
    }
}

/// The frame classifier is a pure function of the frame text: equal texts
/// classify equally, on every call.
pub proof fn lemma_categorize_frame_deterministic(a: Seq<char>, b: Seq<char>)
    requires
        a == b,
    ensures
        spec_categorize_frame(a) == spec_categorize_frame(b),
{
}

/// Classifies one stack-frame line by its code origin.
pub fn categorize_frame(frame_line: &str) -> (r: FrameCategory)
    ensures
        r == spec_categorize_frame(frame_line@),
{
    let a = skip_ws_exec(frame_line, 0);
    if match_at_exec(frame_line, "at java.", a) || match_at_exec(frame_line, "at sun.", a)
        || match_at_exec(frame_line, "at jdk.", a) {
        FrameCategory::Jvm
    } else if match_at_exec(frame_line, "at org.eclipse.jetty.", a) || match_at_exec(
        frame_line,
        "at app//org.eclipse.jetty.",
        a,
    ) || match_at_exec(frame_line, "at spark.", a) || match_at_exec(
        frame_line,
        "at app//spark.",
        a,
    ) {
        FrameCategory::Framework
    } else {
        FrameCategory::Application
    }
}

/// Some frame in the sequence has the given category.
pub open spec fn has_category(frames: Seq<FrameView>, c: FrameCategory) -> bool {
    exists|i: int| 0 <= i < frames.len() && frames[i].category == c
}

/// Category of a whole thread from its frames: any application frame makes it
/// Application; else any framework frame makes it Framework; else Jvm (also
/// for an empty stack).
pub open spec fn spec_thread_category(frames: Seq<FrameView>) -> ThreadCategory {
    if has_category(frames, FrameCategory::Application) {
        ThreadCategory::Application
    } else if has_category(frames, FrameCategory::Framework) {
        ThreadCategory::Framework
    } else {
        ThreadCategory::Jvm
    }
}

/// Derives a thread's origin category from its classified frames.
pub fn determine_thread_category(frames: &[CategorizedFrame]) -> (r: ThreadCategory)
    ensures
        r == spec_thread_category(frame_views(frames@)),
        (r == ThreadCategory::Application) <==> has_category(
            frame_views(frames@),
            FrameCategory::Application,
        ),
        (r == ThreadCategory::Framework) <==> (!has_category(
            frame_views(frames@),
            FrameCategory::Application,
        ) && has_category(frame_views(frames@), FrameCategory::Framework)),
        (r == ThreadCategory::Jvm) <==> (!has_category(
            frame_views(frames@),
            FrameCategory::Application,
        ) && !has_category(frame_views(frames@), FrameCategory::Framework)),
        r != ThreadCategory::Unknown,
{
    let ghost views = frame_views(frames@);
    let mut has_framework_frame = false;
    let mut i: usize = 0;
    while i < frames.len()
        invariant
            i <= frames.len(),
            views == frame_views(frames@),
            views.len() == frames@.len(),
            !has_category(views.take(i as int), FrameCategory::Application),
            has_framework_frame == has_category(views.take(i as int), FrameCategory::Framework),
        decreases frames.len() - i,
    {
        let c = frames[i].category;
        proof {
            assert(views[i as int] == frames@[i as int]@);
        }
        if c == FrameCategory::Application {
            proof {
                assert(views[i as int].category == FrameCategory::Application);
                assert(has_category(views, FrameCategory::Application));
            }
            return ThreadCategory::Application;
        }
        if c == FrameCategory::Framework {
            has_framework_frame = true;
        }
        proof {
            assert(views.take(i + 1).drop_last() =~= views.take(i as int));
            assert forall|cat: FrameCategory|
                has_category(views.take(i + 1), cat) == (has_category(views.take(i as int), cat)
                    || views[i as int].category == cat) by {
                if has_category(views.take(i + 1), cat) {
                    let w = choose|w: int|
                        0 <= w < views.take(i + 1).len() && (#[trigger] views.take(
                            i + 1,
                        )[w]).category == cat;
                    if w < i {
                        assert(views.take(i as int)[w].category == cat);
                    }
                }
                if has_category(views.take(i as int), cat) {
                    let w = choose|w: int|
                        0 <= w < views.take(i as int).len() && (#[trigger] views.take(
                            i as int,
                        )[w]).category == cat;
                    assert(views.take(i + 1)[w].category == cat);
                }
                if views[i as int].category == cat {
                    assert(views.take(i + 1)[i as int].category == cat);
                }
            }
        }
        i = i + 1;
    }
    proof {
        assert(views.take(frames@.len() as int) =~= views);
    }
    if has_framework_frame {
        ThreadCategory::Framework
    } else {
        ThreadCategory::Jvm
    }
}

/// The frame belongs to the application: an application package prefix is
/// known and occurs in the frame text.
pub open spec fn spec_is_application_frame(frame: Seq<char>, prefix: Option<Seq<char>>) -> bool {
    match prefix {
        Some(p) => contains_seq(frame, p),
        None => false,
    }
}

/// Whether one frame line belongs to the application's own package.
pub fn is_application_frame(frame: &str, app_package_prefix: Option<&str>) -> (r: bool)
    ensures
        r == spec_is_application_frame(
            frame@,
            match app_package_prefix {
                Some(p) => Some(p@),
                None => None,
            },
        ),
{
    match app_package_prefix {
        Some(p) => contains_str(frame, p),
        None => false,
    }
}

/// All threads of a series of dumps, flattened in input order.
pub open spec fn all_threads(dumps: Seq<DumpView>) -> Seq<ThreadView>
    decreases dumps.len(),
{
    if dumps.len() == 0 {
        Seq::empty()
    } else {
        all_threads(dumps.drop_last()) + dumps.last().threads
    }
}

/// The thread counts as a blocked sighting of `name`: same name, state
/// BLOCKED, category Application.
pub open spec fn is_blocked_app(t: ThreadView, name: Seq<char>) -> bool {
    t.name == name && t.state == ThreadState::Blocked && t.category == ThreadCategory::Application
}

/// How many threads in the sequence are blocked sightings of `name`.
pub open spec fn blocked_count(ts: Seq<ThreadView>, name: Seq<char>) -> nat
    decreases ts.len(),
{
    if ts.len() == 0 {
        0
    } else {
        blocked_count(ts.drop_last(), name) + if is_blocked_app(ts.last(), name) {
            1nat
        } else {
            0nat
        }
    }
}

/// The last thread in the sequence bearing `name`, if any.
pub open spec fn last_with_name(ts: Seq<ThreadView>, name: Seq<char>) -> Option<ThreadView>
    decreases ts.len(),
{
    if ts.len() == 0 {
        None
    } else if ts.last().name == name {
        Some(ts.last())
    } else {
        last_with_name(ts.drop_last(), name)
    }
}

/// Appending one thread adds one blocked sighting exactly for its own name
/// when it is a blocked Application thread, and makes it the latest holder of
/// its name.
pub proof fn lemma_thread_push(ts: Seq<ThreadView>, t: ThreadView)
    ensures
        forall|n: Seq<char>| #[trigger] blocked_count(ts.push(t), n) == blocked_count(ts, n) + (
        if is_blocked_app(t, n) {
            1nat
        } else {
            0nat
        }),
        forall|n: Seq<char>| #[trigger] last_with_name(ts.push(t), n) == (if t.name == n {
            Some(t)
        } else {
            last_with_name(ts, n)
        }),
{
    assert(ts.push(t).drop_last() =~= ts);
    assert(ts.push(t).last() == t);
}

/// A name is sighted at most once per thread.
pub proof fn lemma_blocked_count_le_len(ts: Seq<ThreadView>, name: Seq<char>)
    ensures
        blocked_count(ts, name) <= ts.len(),
    decreases ts.len(),
{
    if ts.len() > 0 {
        lemma_blocked_count_le_len(ts.drop_last(), name);
    }
}

/// One chronic-block report entry: a thread name, the thread's most recently
/// recorded snapshot, and how often the name was sighted blocked.
#[derive(Debug)]
pub struct ChronicEntry {
    pub name: String,
    pub thread: NormalizedThread,
    pub count: usize,
}

/// Counts the blocked sightings of `name` over `threads`.
fn count_blocked(threads: &Vec<NormalizedThread>, name: &String) -> (c: usize)
    ensures
        c == blocked_count(thread_views(threads@), name@),
{
    let ghost views = thread_views(threads@);
    let mut c: usize = 0;
    let mut k: usize = 0;
    while k < threads.len()
        invariant
            k <= threads.len(),
            views == thread_views(threads@),
            views.len() == threads@.len(),
            c == blocked_count(views.take(k as int), name@),
        decreases threads.len() - k,
    {
        proof {
            assert(views.take(k + 1) =~= views.take(k as int).push(views[k as int]));
            lemma_thread_push(views.take(k as int), views[k as int]);
            lemma_blocked_count_le_len(views.take(k as int), name@);
            assert(views[k as int] == threads@[k as int]@);
        }
        let t = &threads[k];
        if t.state == ThreadState::Blocked && t.category == ThreadCategory::Application && str_eq(
            t.name.as_str(),
            name.as_str(),
        ) {
            c = c + 1;
        }
        k = k + 1;
    }
    proof {
        assert(views.take(threads@.len() as int) =~= views);
    }
    c
}

/// Finds the index of the last thread bearing `name`.
fn find_last_with_name(threads: &Vec<NormalizedThread>, name: &String) -> (r: Option<usize>)
    ensures
        match r {
            Some(i) => i < threads@.len() && last_with_name(thread_views(threads@), name@) == Some(
                threads@[i as int]@,
            ),
            None => last_with_name(thread_views(threads@), name@) is None,
        },
{
    let ghost views = thread_views(threads@);
    let mut k: usize = threads.len();
    proof {
        assert(views.take(k as int) =~= views);
    }
    while k > 0
        invariant
            k <= threads.len(),
            views == thread_views(threads@),
            views.len() == threads@.len(),
            last_with_name(views, name@) == last_with_name(views.take(k as int), name@),
        decreases k,
    {
        proof {
            assert(views.take(k as int).drop_last() =~= views.take(k - 1));
            assert(views.take(k as int).last() == views[k - 1]);
            assert(views[k - 1] == threads@[k - 1]@);
        }
        if str_eq(threads[k - 1].name.as_str(), name.as_str()) {
            return Some(k - 1);
        }
        k = k - 1;
    }
    proof {
        assert(views.take(0) =~= Seq::<ThreadView>::empty());
    }
    None
}

/// Whether the report already holds an entry for `name`.
fn report_contains_name(report: &Vec<ChronicEntry>, name: &String) -> (r: bool)
    ensures
        r == exists|i: int| 0 <= i < report@.len() && report@[i].name@ == name@,
{
    let mut k: usize = 0;
    while k < report.len()
        invariant
            k <= report.len(),
            forall|i: int| 0 <= i < k ==> report@[i].name@ != name@,
        decreases report.len() - k,
    {
        if str_eq(report[k].name.as_str(), name.as_str()) {
            return true;
        }
        k = k + 1;
    }
    false
}

/// The entry correctly reports one chronically blocked name of `ts`.
pub open spec fn chronic_entry_ok(ts: Seq<ThreadView>, e: ChronicEntry) -> bool {
    &&& e.count == blocked_count(ts, e.name@)
    &&& e.count > 1
    &&& last_with_name(ts, e.name@) == Some(e.thread@)
}

/// Reports, for each thread name sighted blocked (state BLOCKED, category
/// Application) in more than one place across the series, the most recently
/// recorded thread of that name together with the number of sightings. Every
/// chronically blocked name appears exactly once; no other name appears.
pub fn find_chronically_blocked_threads(dumps: &[ThreadDump]) -> (r: Vec<ChronicEntry>)
    ensures
        forall|i: int|
            0 <= i < r@.len() ==> chronic_entry_ok(all_threads(dump_views(dumps@)), #[trigger] r@[i]),
        forall|n: Seq<char>|
            #[trigger] blocked_count(all_threads(dump_views(dumps@)), n) > 1 ==> exists|i: int|
                0 <= i < r@.len() && r@[i].name@ == n,
        forall|i: int, j: int| 0 <= i < j < r@.len() ==> r@[i].name@ != r@[j].name@,
{
    let ghost goal = all_threads(dump_views(dumps@));

    // Flatten the series into one thread sequence, in input order.
    let mut flat: Vec<NormalizedThread> = Vec::new();
    let mut d: usize = 0;
    proof {
        assert(thread_views(flat@) =~= all_threads(dump_views(dumps@).take(0)));
    }
    while d < dumps.len()
        invariant
            d <= dumps@.len(),
            thread_views(flat@) == all_threads(dump_views(dumps@).take(d as int)),
        decreases dumps@.len() - d,
    {
        let ghost dv = dump_views(dumps@);
        let dump = &dumps[d];
        let mut k: usize = 0;
        proof {
            assert(thread_views(flat@) + dump@.threads.take(0) =~= thread_views(flat@));
        }
        while k < dump.threads.len()
            invariant
                k <= dump.threads@.len(),
                dv == dump_views(dumps@),
                0 <= d < dumps@.len(),
                dump == &dumps[d as int],
                thread_views(flat@) == all_threads(dv.take(d as int)) + dump@.threads.take(
                    k as int,
                ),
            decreases dump.threads@.len() - k,
        {
            let ghost prev = flat@;
            flat.push(clone_thread(&dump.threads[k]));
            k = k + 1;
            proof {
                assert(thread_views(flat@) =~= thread_views(prev).push(
                    flat@[prev.len() as int]@,
                ));
                assert(dump@.threads.take(k as int) =~= dump@.threads.take(k - 1).push(
                    dump@.threads[k - 1],
                ));
                assert(flat@[prev.len() as int]@ == dump@.threads[k - 1]);
                assert(thread_views(flat@) =~= all_threads(dv.take(d as int)) + dump@.threads.take(
                    k as int,
                ));
            }
        }
        d = d + 1;
        proof {
            assert(dv.take(d as int).drop_last() =~= dv.take(d - 1));
            assert(dv.take(d as int).last() == dv[d - 1]);
            assert(all_threads(dv.take(d as int)) == all_threads(dv.take(d - 1)) + dv[d
                - 1].threads);
            assert(dump@.threads.take(k as int) =~= dump@.threads);
            assert(dv[d - 1].threads == dump@.threads);
        }
    }
    proof {
        assert(dump_views(dumps@).take(dumps@.len() as int) =~= dump_views(dumps@));
        assert(thread_views(flat@) == goal);
    }

    // Collect an entry for each name sighted blocked more than once.
    let ghost tv = thread_views(flat@);
    let mut report: Vec<ChronicEntry> = Vec::new();
    let mut k: usize = 0;
    while k < flat.len()
        invariant
            k <= flat@.len(),
            tv == thread_views(flat@),
            tv == goal,
            tv.len() == flat@.len(),
            forall|i: int| 0 <= i < report@.len() ==> chronic_entry_ok(tv, #[trigger] report@[i]),
            forall|i: int, j: int|
                0 <= i < j < report@.len() ==> report@[i].name@ != report@[j].name@,
            forall|n: Seq<char>|
                (#[trigger] blocked_count(tv.take(k as int), n) > 0 && blocked_count(tv, n) > 1)
                    ==> exists|i: int| 0 <= i < report@.len() && report@[i].name@ == n,
        decreases flat@.len() - k,
    {
        let ghost old_report = report@;
        proof {
            assert(tv.take(k + 1) =~= tv.take(k as int).push(tv[k as int]));
            lemma_thread_push(tv.take(k as int), tv[k as int]);
            assert(tv[k as int] == flat@[k as int]@);
        }
        let t = &flat[k];
        let sighting = t.state == ThreadState::Blocked && t.category
            == ThreadCategory::Application;
        let known = sighting && report_contains_name(&report, &t.name);
        if sighting {
            if !known {
                let c = count_blocked(&flat, &t.name);
                if c > 1 {
                    match find_last_with_name(&flat, &t.name) {
                        Some(li) => {
                            let entry = ChronicEntry {
                                name: t.name.clone(),
                                thread: clone_thread(&flat[li]),
                                count: c,
                            };
                            proof {
                                assert(chronic_entry_ok(tv, entry));
                            }
                            report.push(entry);
                            proof {
                                assert(report@[old_report.len() as int].name@ == t.name@);
                                assert(forall|i: int|
                                    0 <= i < old_report.len() ==> report@[i] == old_report[i]);
                            }
                        },
                        None => {
                            // Unreachable: the thread at hand bears the name.
                            proof {
                                assert(is_blocked_app(tv[k as int], t.name@));
                                assert(last_with_name(tv.take(k + 1), t.name@) is Some);
                                lemma_last_with_name_extend(tv, t.name@, k + 1);
                                assert(false);
                            }
                        },
                    }
                } else {
                    proof {
                        // Any name newly sighted here is this thread's name,
                        // whose total stays at most one.
                        assert(blocked_count(tv, t.name@) <= 1);
                    }
                }
            }
        } else {
            proof {
                assert(forall|n: Seq<char>| !is_blocked_app(tv[k as int], n));
            }
        }
        k = k + 1;
        proof {
            assert forall|n: Seq<char>|
                (#[trigger] blocked_count(tv.take(k as int), n) > 0 && blocked_count(tv, n) > 1)
                    implies exists|i: int| 0 <= i < report@.len() && report@[i].name@ == n by {
                if blocked_count(tv.take(k - 1), n) > 0 {
                    let w = choose|i: int| 0 <= i < old_report.len() && old_report[i].name@ == n;
                    assert(report@[w].name@ == n);
                } else {
                    assert(is_blocked_app(tv[k - 1], n));
                    assert(n == tv[k - 1].name);
                    if sighting {
                        if known {
                            let w = choose|i: int|
                                0 <= i < old_report.len() && old_report[i].name@ == n;
                            assert(report@[w].name@ == n);
                        } else {
                            assert(report@[old_report.len() as int].name@ == n);
                        }
                    }
                }
            }
        }
    }
    proof {
        assert(tv.take(flat@.len() as int) =~= tv);
    }
    report
}

/// If a name is present in a prefix of the sequence, it is present in the
/// whole sequence.
pub proof fn lemma_last_with_name_extend(ts: Seq<ThreadView>, name: Seq<char>, k: int)
    requires
        0 <= k <= ts.len(),
        last_with_name(ts.take(k), name) is Some,
    ensures
        last_with_name(ts, name) is Some,
    decreases ts.len() - k,
{
    if k < ts.len() {
        assert(ts.take(k + 1).drop_last() =~= ts.take(k));
        assert(ts.take(k + 1).last() == ts[k]);
        lemma_last_with_name_extend(ts, name, k + 1);
    } else {
        assert(ts.take(k) =~= ts);
    }
}

} // verus!
