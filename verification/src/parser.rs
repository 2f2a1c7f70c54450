//! Vendor detection over the raw dump text, and the dispatching parse entry
//! point that routes to the dialect parser the detected vendor calls for.

use vstd::prelude::*;
use crate::analyzer::spec_thread_category;
use crate::ibm::{ibm_finish, ibm_is_header, ibm_parse_threads, ibm_parse_version, ibm_run,
    ibm_version_of_line, lemma_ibm_run_no_headers, lemma_ibm_run_no_version,
    lemma_ibm_run_threads_categorized, parse_jstack_output_ibm};
use crate::models::{ThreadCategory, ThreadDump, ThreadView};
use crate::openjdk::{finish_thread, lemma_oj_run_no_headers, lemma_oj_run_no_version,
    lemma_oj_run_threads_categorized, oj_close, oj_is_header, oj_parse_threads, oj_parse_version,
    oj_run, oj_version_of_line, parse_jstack_output_openjdk};
use crate::text::{contains_seq, contains_str, spec_lines};

verus! {

/// The recognized thread-dump dialects.
#[derive(Clone, Copy, Debug, PartialEq, Eq, Hash, Structural)]
pub enum JvmVendor {
    OpenJDK,
    IBM,
    Unknown,
}

/// Vendor recognized from substring evidence, OpenJDK markers first.
pub open spec fn spec_detect_jvm_vendor(s: Seq<char>) -> JvmVendor {
    if contains_seq(s, "OpenJDK"@) || contains_seq(s, "HotSpot"@) {
        JvmVendor::OpenJDK
    } else if contains_seq(s, "IBM J9"@) || contains_seq(s, "Eclipse OpenJ9"@) || contains_seq(
        s,
        "OpenJ9"@,
    ) {
        JvmVendor::IBM
    } else {
        JvmVendor::Unknown
    }
}

/// Detects the dump's vendor. Total: always returns a value, `Unknown` when
/// no marker is present.
pub fn detect_jvm_vendor(output: &str) -> (r: JvmVendor)
    ensures
        r == spec_detect_jvm_vendor(output@),
{
    if contains_str(output, "OpenJDK") || contains_str(output, "HotSpot") {
        JvmVendor::OpenJDK
    } else if contains_str(output, "IBM J9") || contains_str(output, "Eclipse OpenJ9")
        || contains_str(output, "OpenJ9") {
        JvmVendor::IBM
    } else {
        JvmVendor::Unknown
    }
}

/// The threads a dispatched parse of `text` yields: the IBM machine's when
/// the IBM dialect is detected, the OpenJDK machine's otherwise (also for an
/// unrecognized dialect).
pub open spec fn spec_parse_threads(text: Seq<char>) -> Seq<ThreadView> {
    if spec_detect_jvm_vendor(text) == JvmVendor::IBM {
        ibm_parse_threads(text)
    } else {
        oj_parse_threads(text)
    }
}

/// The version label a dispatched parse of `text` yields.
pub open spec fn spec_parse_version(text: Seq<char>) -> Seq<char> {
    if spec_detect_jvm_vendor(text) == JvmVendor::IBM {
        ibm_parse_version(text)
    } else {
        oj_parse_version(text)
    }
}

/// Lenient parsing: a text none of whose lines is a recognizable thread
/// header, for either dialect, parses to an empty thread list.
pub proof fn lemma_no_headers_no_threads(text: Seq<char>)
    requires
        forall|i: int|
            0 <= i < spec_lines(text).len() ==> !oj_is_header(#[trigger] spec_lines(text)[i]),
        forall|i: int|
            0 <= i < spec_lines(text).len() ==> !ibm_is_header(#[trigger] spec_lines(text)[i]),
    ensures
        spec_parse_threads(text).len() == 0,
{
    lemma_oj_run_no_headers(spec_lines(text));
    lemma_ibm_run_no_headers(spec_lines(text));
    assert(oj_run(spec_lines(text)).cur is None);
    assert(ibm_run(spec_lines(text)).cur is None);
}

/// Lenient parsing, version label: a text none of whose lines carries either
/// dialect's version header parses to the routed dialect's placeholder label.
pub proof fn lemma_no_version_lines_placeholder(text: Seq<char>)
    requires
        forall|i: int|
            0 <= i < spec_lines(text).len() ==> oj_version_of_line(
                #[trigger] spec_lines(text)[i],
            ) is None,
        forall|i: int|
            0 <= i < spec_lines(text).len() ==> ibm_version_of_line(
                #[trigger] spec_lines(text)[i],
            ) is None,
    ensures
        spec_parse_version(text) == (if spec_detect_jvm_vendor(text) == JvmVendor::IBM {
            "IBM J9 (Unknown Version)"@
        } else {
            "OpenJDK (Unknown Version)"@
        }),
{
    lemma_oj_run_no_version(spec_lines(text));
    lemma_ibm_run_no_version(spec_lines(text));
}

/// Model invariant: every thread of a parsed snapshot carries the category
/// derived from its frames by the thread classifier — in particular, never
/// `Unknown`, and `Jvm` for an empty stack.
pub proof fn lemma_parsed_threads_categorized(text: Seq<char>)
    ensures
        forall|i: int|
            0 <= i < spec_parse_threads(text).len() ==> (#[trigger] spec_parse_threads(
                text,
            )[i]).category == spec_thread_category(spec_parse_threads(text)[i].frames),
        forall|i: int|
            0 <= i < spec_parse_threads(text).len() ==> (#[trigger] spec_parse_threads(
                text,
            )[i]).category != ThreadCategory::Unknown,
{
    let lines = spec_lines(text);
    lemma_oj_run_threads_categorized(lines);
    lemma_ibm_run_threads_categorized(lines);
    let ost = oj_run(lines);
    match ost.cur {
        None => {},
        Some(t) => {
            assert(oj_close(ost.threads, ost.cur, ost.pending).0 == ost.threads.push(
                finish_thread(t, ost.pending),
            ));
        },
    }
    let ist = ibm_run(lines);
    match ist.cur {
        None => {},
        Some(t) => {
            assert(ibm_parse_threads(text) == ist.threads.push(ibm_finish(t)));
        },
    }
}

/// Parses one dump, routing by detected vendor; an unrecognized dialect is
/// parsed as OpenJDK, best effort. Total: never an error.
pub fn parse_jstack_output(output: &str) -> (r: Result<ThreadDump, String>)
    ensures
        r matches Ok(d) && d@.threads == spec_parse_threads(output@) && d@.jvm_version
            == spec_parse_version(output@),
{
    match detect_jvm_vendor(output) {
        JvmVendor::OpenJDK => parse_jstack_output_openjdk(output),
        JvmVendor::IBM => parse_jstack_output_ibm(output),
        JvmVendor::Unknown => parse_jstack_output_openjdk(output),
    }
}

} // verus!
