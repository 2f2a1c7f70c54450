//! The normalized, vendor-independent model of a parsed thread dump.

use vstd::prelude::*;

verus! {

/// Origin of a single stack frame: JVM runtime code, a known framework,
/// or the application itself.
#[derive(Clone, Copy, Debug, PartialEq, Eq, Structural)]
pub enum FrameCategory {
    Jvm,
    Framework,
    Application,
}

/// Origin of a whole thread, derived from its frames once parsing of the
/// thread's block is finished. `Unknown` only occurs as a transient default
/// while a thread is still being parsed.
#[derive(Clone, Copy, Debug, PartialEq, Eq, Structural)]
pub enum ThreadCategory {
    Jvm,
    Framework,
    Application,
    Unknown,
}

/// The fixed vocabulary of normalized thread states.
#[derive(Clone, Copy, Debug, PartialEq, Eq, Structural)]
pub enum ThreadState {
    Runnable,
    Blocked,
    Waiting,
    TimedWaiting,
    Unknown,
}

impl ThreadState {
    /// The state's name in the exchange vocabulary.
    pub open spec fn spec_label(self) -> Seq<char> {
        match self {
            ThreadState::Runnable => "RUNNABLE"@,
            ThreadState::Blocked => "BLOCKED"@,
            ThreadState::Waiting => "WAITING"@,
            ThreadState::TimedWaiting => "TIMED_WAITING"@,
            ThreadState::Unknown => "UNKNOWN"@,
        }
    }

    /// Renders the state under the exchange vocabulary.
    pub fn label(&self) -> (r: String)
        ensures
            r@ == self.spec_label(),
    {
        match self {
            ThreadState::Runnable => String::from_str("RUNNABLE"),
            ThreadState::Blocked => String::from_str("BLOCKED"),
            ThreadState::Waiting => String::from_str("WAITING"),
            ThreadState::TimedWaiting => String::from_str("TIMED_WAITING"),
            ThreadState::Unknown => String::from_str("UNKNOWN"),
        }
    }
}

/// One line of a thread's call stack, kept verbatim (trimmed), together with
/// its origin category.
#[derive(Debug)]
pub struct CategorizedFrame {
    pub line: String,
    pub category: FrameCategory,
}

/// Mathematical value of a `CategorizedFrame`.
#[verifier::ext_equal]
pub ghost struct FrameView {
    pub line: Seq<char>,
    pub category: FrameCategory,
}

impl View for CategorizedFrame {
    type V = FrameView;

    open spec fn view(&self) -> FrameView {
        FrameView { line: self.line@, category: self.category }
    }
}

/// One normalized thread: its name, resolved state, derived origin category,
/// and its stack frames in order of appearance (top of stack first).
#[derive(Debug)]
pub struct NormalizedThread {
    pub name: String,
    pub state: ThreadState,
    pub category: ThreadCategory,
    pub frames: Vec<CategorizedFrame>,
}

/// Mathematical value of a `NormalizedThread`.
#[verifier::ext_equal]
pub ghost struct ThreadView {
    pub name: Seq<char>,
    pub state: ThreadState,
    pub category: ThreadCategory,
    pub frames: Seq<FrameView>,
}

impl View for NormalizedThread {
    type V = ThreadView;

    open spec fn view(&self) -> ThreadView {
        ThreadView {
            name: self.name@,
            state: self.state,
            category: self.category,
            frames: self.frames@.map_values(|f: CategorizedFrame| f@),
        }
    }
}

/// One parsed dump: the JVM version label extracted from the text (or a
/// placeholder), the wall-clock time of the parse in milliseconds since the
/// Unix epoch, and the threads in order of appearance.
#[derive(Debug)]
pub struct ThreadDump {
    pub jvm_version: String,
    pub timestamp: i64,
    pub threads: Vec<NormalizedThread>,
}

/// Mathematical value of a `ThreadDump`.
#[verifier::ext_equal]
pub ghost struct DumpView {
    pub jvm_version: Seq<char>,
    pub timestamp: i64,
    pub threads: Seq<ThreadView>,
}

impl View for ThreadDump {
    type V = DumpView;

    open spec fn view(&self) -> DumpView {
        DumpView {
            jvm_version: self.jvm_version@,
            timestamp: self.timestamp,
            threads: self.threads@.map_values(|t: NormalizedThread| t@),
        }
    }
}

/// Views of a sequence of frames.
pub open spec fn frame_views(fs: Seq<CategorizedFrame>) -> Seq<FrameView> {
    fs.map_values(|f: CategorizedFrame| f@)
}

/// Views of a sequence of threads.
pub open spec fn thread_views(ts: Seq<NormalizedThread>) -> Seq<ThreadView> {
    ts.map_values(|t: NormalizedThread| t@)
}

/// Views of a sequence of dumps.
pub open spec fn dump_views(ds: Seq<ThreadDump>) -> Seq<DumpView> {
    ds.map_values(|d: ThreadDump| d@)
}

/// Copies a frame, value for value.
pub fn clone_frame(f: &CategorizedFrame) -> (r: CategorizedFrame)
    ensures
        r@ == f@,
{
    CategorizedFrame { line: f.line.clone(), category: f.category }
}

/// Copies a thread, value for value.
pub fn clone_thread(t: &NormalizedThread) -> (r: NormalizedThread)
    ensures
        r@ == t@,
{
    let mut frames: Vec<CategorizedFrame> = Vec::new();
    let mut i: usize = 0;
    while i < t.frames.len()
        invariant
            i <= t.frames.len(),
            frames@.map_values(|f: CategorizedFrame| f@) =~= t.frames@.map_values(
                |f: CategorizedFrame| f@,
            ).take(i as int),
        decreases t.frames.len() - i,
    {
        let ghost prev = frames@;
        frames.push(clone_frame(&t.frames[i]));
        i = i + 1;
        proof {
            assert(frames@ =~= prev.push(frames@[prev.len() as int]));
            assert(frames@.map_values(|f: CategorizedFrame| f@) =~= prev.map_values(
                |f: CategorizedFrame| f@,
            ).push(frames@[prev.len() as int]@));
            assert(frames@.map_values(|f: CategorizedFrame| f@) =~= t.frames@.map_values(
                |f: CategorizedFrame| f@,
            ).take(i as int));
        }
    }
    proof {
        assert(t.frames@.map_values(|f: CategorizedFrame| f@).take(t.frames@.len() as int)
            =~= t.frames@.map_values(|f: CategorizedFrame| f@));
    }
    NormalizedThread { name: t.name.clone(), state: t.state, category: t.category, frames }
}

} // verus!
