//! A structured exchange encoding for snapshots, with a proved round trip:
//! decoding an encoded snapshot yields the snapshot back. Each snapshot is
//! framed as its version label, its timestamp, and its threads, each thread
//! as name, state, category and frames, each frame as text and category;
//! strings carry their UTF-8 bytes behind a length, sequences a count.

use vstd::prelude::*;
use vstd::string::*;
use vstd::utf8::{decode_utf8, encode_utf8, encode_utf8_decode_utf8, encode_utf8_valid_utf8,
    valid_utf8};
use crate::models::{CategorizedFrame, DumpView, FrameCategory, FrameView, NormalizedThread,
    ThreadCategory, ThreadDump, ThreadState, ThreadView, frame_views, thread_views};

verus! {

/// The eight bytes of `n`, least significant first.
pub open spec fn enc_u64(n: u64) -> Seq<u8> {
    seq![
        (n & 0xff) as u8,
        ((n >> 8) & 0xff) as u8,
        ((n >> 16) & 0xff) as u8,
        ((n >> 24) & 0xff) as u8,
        ((n >> 32) & 0xff) as u8,
        ((n >> 40) & 0xff) as u8,
        ((n >> 48) & 0xff) as u8,
        ((n >> 56) & 0xff) as u8,
    ]
}

/// The value carried by eight bytes, least significant first.
pub open spec fn dec_u64(b: Seq<u8>) -> u64 {
    (b[0] as u64) | ((b[1] as u64) << 8) | ((b[2] as u64) << 16) | ((b[3] as u64) << 24) | ((
    b[4] as u64) << 32) | ((b[5] as u64) << 40) | ((b[6] as u64) << 48) | ((b[7] as u64) << 56)
}

/// Reading back eight written bytes restores the value.
pub proof fn lemma_u64_round_trip(n: u64)
    ensures
        dec_u64(enc_u64(n)) == n,
{
    let b = enc_u64(n);
    assert(b[0] == (n & 0xff) as u8);
    assert(b[1] == ((n >> 8) & 0xff) as u8);
    assert(b[2] == ((n >> 16) & 0xff) as u8);
    assert(b[3] == ((n >> 24) & 0xff) as u8);
    assert(b[4] == ((n >> 32) & 0xff) as u8);
    assert(b[5] == ((n >> 40) & 0xff) as u8);
    assert(b[6] == ((n >> 48) & 0xff) as u8);
    assert(b[7] == ((n >> 56) & 0xff) as u8);
    assert((((n & 0xff) as u8) as u64) | ((((n >> 8) & 0xff) as u8) as u64) << 8 | ((((n >> 16)
        & 0xff) as u8) as u64) << 16 | ((((n >> 24) & 0xff) as u8) as u64) << 24 | ((((n >> 32)
        & 0xff) as u8) as u64) << 32 | ((((n >> 40) & 0xff) as u8) as u64) << 40 | ((((n >> 48)
        & 0xff) as u8) as u64) << 48 | ((((n >> 56) & 0xff) as u8) as u64) << 56 == n)
        by (bit_vector);
}

/// A string, as the length of its UTF-8 bytes followed by those bytes.
pub open spec fn enc_str(s: Seq<char>) -> Seq<u8> {
    enc_u64(encode_utf8(s).len() as u64) + encode_utf8(s)
}

/// Splits off a length-prefixed byte block.
pub open spec fn dec_block(b: Seq<u8>) -> Option<(Seq<u8>, Seq<u8>)> {
    if b.len() >= 8 {
        let n = dec_u64(b.take(8)) as int;
        if n <= usize::MAX && 8 + n <= b.len() {
            Some((b.subrange(8, 8 + n), b.skip(8 + n)))
        } else {
            None
        }
    } else {
        None
    }
}

/// Splits off one encoded string.
pub open spec fn dec_str(b: Seq<u8>) -> Option<(Seq<char>, Seq<u8>)> {
    match dec_block(b) {
        Some((data, rest)) => if valid_utf8(data) {
            Some((decode_utf8(data), rest))
        } else {
            None
        },
        None => None,
    }
}

/// The string's UTF-8 bytes fit a machine length.
pub open spec fn str_fits(s: Seq<char>) -> bool {
    encode_utf8(s).len() <= usize::MAX
}

/// Splitting a written string off restores it.
pub proof fn lemma_str_round_trip(s: Seq<char>, rest: Seq<u8>)
    requires
        str_fits(s),
    ensures
        dec_str(enc_str(s) + rest) == Some((s, rest)),
{
    let u = encode_utf8(s);
    let n = u.len() as u64;
    let b = enc_str(s) + rest;
    lemma_u64_round_trip(n);
    assert(b.take(8) =~= enc_u64(n));
    assert(b.len() >= 8 + u.len());
    assert(b.subrange(8, 8 + u.len() as int) =~= u);
    assert(b.skip(8 + u.len() as int) =~= rest);
    encode_utf8_valid_utf8(s);
    encode_utf8_decode_utf8(s);
}

/// Tag byte of a frame category.
pub open spec fn enc_frame_cat(c: FrameCategory) -> u8 {
    match c {
        FrameCategory::Jvm => 0,
        FrameCategory::Framework => 1,
        FrameCategory::Application => 2,
    }
}

/// Frame category of a tag byte.
pub open spec fn dec_frame_cat(b: u8) -> Option<FrameCategory> {
    if b == 0 {
        Some(FrameCategory::Jvm)
    } else if b == 1 {
        Some(FrameCategory::Framework)
    } else if b == 2 {
        Some(FrameCategory::Application)
    } else {
        None
    }
}

/// Tag byte of a thread category.
pub open spec fn enc_thread_cat(c: ThreadCategory) -> u8 {
    match c {
        ThreadCategory::Jvm => 0,
        ThreadCategory::Framework => 1,
        ThreadCategory::Application => 2,
        ThreadCategory::Unknown => 3,
    }
}

/// Thread category of a tag byte.
pub open spec fn dec_thread_cat(b: u8) -> Option<ThreadCategory> {
    if b == 0 {
        Some(ThreadCategory::Jvm)
    } else if b == 1 {
        Some(ThreadCategory::Framework)
    } else if b == 2 {
        Some(ThreadCategory::Application)
    } else if b == 3 {
        Some(ThreadCategory::Unknown)
    } else {
        None
    }
}

/// Tag byte of a thread state.
pub open spec fn enc_state(s: ThreadState) -> u8 {
    match s {
        ThreadState::Runnable => 0,
        ThreadState::Blocked => 1,
        ThreadState::Waiting => 2,
        ThreadState::TimedWaiting => 3,
        ThreadState::Unknown => 4,
    }
}

/// Thread state of a tag byte.
pub open spec fn dec_state(b: u8) -> Option<ThreadState> {
    if b == 0 {
        Some(ThreadState::Runnable)
    } else if b == 1 {
        Some(ThreadState::Blocked)
    } else if b == 2 {
        Some(ThreadState::Waiting)
    } else if b == 3 {
        Some(ThreadState::TimedWaiting)
    } else if b == 4 {
        Some(ThreadState::Unknown)
    } else {
        None
    }
}

/// One frame: its text and its category tag.
pub open spec fn enc_frame(f: FrameView) -> Seq<u8> {
    enc_str(f.line) + seq![enc_frame_cat(f.category)]
}

/// Splits off one encoded frame.
pub open spec fn dec_frame(b: Seq<u8>) -> Option<(FrameView, Seq<u8>)> {
    match dec_str(b) {
        Some((line, r1)) => if r1.len() >= 1 {
            match dec_frame_cat(r1[0]) {
                Some(c) => Some((FrameView { line, category: c }, r1.skip(1))),
                None => None,
            }
        } else {
            None
        },
        None => None,
    }
}

/// The frame's text fits a machine length.
pub open spec fn frame_fits(f: FrameView) -> bool {
    str_fits(f.line)
}

/// Splitting a written frame off restores it.
pub proof fn lemma_frame_round_trip(f: FrameView, rest: Seq<u8>)
    requires
        frame_fits(f),
    ensures
        dec_frame(enc_frame(f) + rest) == Some((f, rest)),
{
    let tail = seq![enc_frame_cat(f.category)] + rest;
    assert(enc_frame(f) + rest =~= enc_str(f.line) + tail);
    lemma_str_round_trip(f.line, tail);
    assert(tail[0] == enc_frame_cat(f.category));
    assert(tail.skip(1) =~= rest);
}

/// A frame sequence, frame by frame.
pub open spec fn enc_frames(fs: Seq<FrameView>) -> Seq<u8>
    decreases fs.len(),
{
    if fs.len() == 0 {
        Seq::empty()
    } else {
        enc_frame(fs.first()) + enc_frames(fs.drop_first())
    }
}

/// Splits off `n` encoded frames.
pub open spec fn dec_frames(b: Seq<u8>, n: nat) -> Option<(Seq<FrameView>, Seq<u8>)>
    decreases n,
{
    if n == 0 {
        Some((Seq::empty(), b))
    } else {
        match dec_frame(b) {
            Some((f, r1)) => match dec_frames(r1, (n - 1) as nat) {
                Some((fs, r2)) => Some((seq![f] + fs, r2)),
                None => None,
            },
            None => None,
        }
    }
}

/// Appending a frame to the sequence appends its encoding.
pub proof fn lemma_enc_frames_push(fs: Seq<FrameView>, f: FrameView)
    ensures
        enc_frames(fs.push(f)) == enc_frames(fs) + enc_frame(f),
    decreases fs.len(),
{
    if fs.len() == 0 {
        assert(fs.push(f).first() == f);
        assert(fs.push(f).drop_first() =~= fs);
        assert(enc_frames(fs.push(f)) == enc_frame(f) + enc_frames(fs));
        assert(enc_frames(fs) =~= Seq::<u8>::empty());
        assert(enc_frames(fs.push(f)) =~= enc_frames(fs) + enc_frame(f));
    } else {
        assert(fs.push(f).first() == fs.first());
        assert(fs.push(f).drop_first() =~= fs.drop_first().push(f));
        assert(enc_frames(fs.push(f)) == enc_frame(fs.first()) + enc_frames(
            fs.drop_first().push(f),
        ));
        lemma_enc_frames_push(fs.drop_first(), f);
        assert(enc_frames(fs) == enc_frame(fs.first()) + enc_frames(fs.drop_first()));
        assert(enc_frames(fs.push(f)) =~= enc_frames(fs) + enc_frame(f));
    }
}

/// Splitting `n` written frames off restores them.
pub proof fn lemma_frames_round_trip(fs: Seq<FrameView>, rest: Seq<u8>)
    requires
        forall|i: int| 0 <= i < fs.len() ==> frame_fits(#[trigger] fs[i]),
    ensures
        dec_frames(enc_frames(fs) + rest, fs.len()) == Some((fs, rest)),
    decreases fs.len(),
{
    if fs.len() == 0 {
        assert(enc_frames(fs) + rest =~= rest);
    } else {
        let f = fs.first();
        let tail = fs.drop_first();
        assert(enc_frames(fs) + rest =~= enc_frame(f) + (enc_frames(tail) + rest));
        lemma_frame_round_trip(f, enc_frames(tail) + rest);
        assert(forall|i: int| 0 <= i < tail.len() ==> frame_fits(#[trigger] tail[i]));
        lemma_frames_round_trip(tail, rest);
        assert(seq![f] + tail =~= fs);
    }
}

/// One thread: name, state tag, category tag, frame count, frames.
pub open spec fn enc_thread(t: ThreadView) -> Seq<u8> {
    enc_str(t.name) + seq![enc_state(t.state), enc_thread_cat(t.category)] + enc_u64(
        t.frames.len() as u64,
    ) + enc_frames(t.frames)
}

/// Splits off one encoded thread.
pub open spec fn dec_thread(b: Seq<u8>) -> Option<(ThreadView, Seq<u8>)> {
    match dec_str(b) {
        Some((name, r1)) => if r1.len() >= 10 {
            match (dec_state(r1[0]), dec_thread_cat(r1[1])) {
                (Some(state), Some(category)) => {
                    let n = dec_u64(r1.subrange(2, 10)) as int;
                    if 0 <= n <= usize::MAX {
                        match dec_frames(r1.skip(10), n as nat) {
                            Some((frames, r2)) => Some(
                                (ThreadView { name, state, category, frames }, r2),
                            ),
                            None => None,
                        }
                    } else {
                        None
                    }
                },
                _ => None,
            }
        } else {
            None
        },
        None => None,
    }
}

/// The thread's strings and frame count fit machine lengths.
pub open spec fn thread_fits(t: ThreadView) -> bool {
    &&& str_fits(t.name)
    &&& t.frames.len() <= usize::MAX
    &&& forall|i: int| 0 <= i < t.frames.len() ==> frame_fits(#[trigger] t.frames[i])
}

/// Shape of a thread encoding's tail: two tag bytes, eight length bytes,
/// then the payload.
proof fn lemma_tail_shape(tags: Seq<u8>, lenb: Seq<u8>, payload: Seq<u8>, rest: Seq<u8>)
    requires
        tags.len() == 2,
        lenb.len() == 8,
    ensures
        (tags + lenb + payload + rest).len() == 10 + payload.len() + rest.len(),
        (tags + lenb + payload + rest)[0] == tags[0],
        (tags + lenb + payload + rest)[1] == tags[1],
        (tags + lenb + payload + rest).subrange(2, 10) =~= lenb,
        (tags + lenb + payload + rest).skip(10) =~= payload + rest,
{
}

/// Splitting a written thread off restores it.
#[verifier::rlimit(50)]
pub proof fn lemma_thread_round_trip(t: ThreadView, rest: Seq<u8>)
    requires
        thread_fits(t),
    ensures
        dec_thread(enc_thread(t) + rest) == Some((t, rest)),
{
    let tags = seq![enc_state(t.state), enc_thread_cat(t.category)];
    let n = t.frames.len() as u64;
    let tail = tags + enc_u64(n) + enc_frames(t.frames) + rest;
    assert(enc_thread(t) + rest =~= enc_str(t.name) + tail);
    lemma_str_round_trip(t.name, tail);
    lemma_tail_shape(tags, enc_u64(n), enc_frames(t.frames), rest);
    lemma_u64_round_trip(n);
    lemma_frames_round_trip(t.frames, rest);
    assert(dec_thread(enc_thread(t) + rest) == Some((ThreadView { name: t.name, state: t.state,
        category: t.category, frames: t.frames }, rest)));
    assert(ThreadView { name: t.name, state: t.state, category: t.category, frames: t.frames }
        =~= t);
}

/// A thread sequence, thread by thread.
pub open spec fn enc_threads(ts: Seq<ThreadView>) -> Seq<u8>
    decreases ts.len(),
{
    if ts.len() == 0 {
        Seq::empty()
    } else {
        enc_thread(ts.first()) + enc_threads(ts.drop_first())
    }
}

/// Splits off `n` encoded threads.
pub open spec fn dec_threads(b: Seq<u8>, n: nat) -> Option<(Seq<ThreadView>, Seq<u8>)>
    decreases n,
{
    if n == 0 {
        Some((Seq::empty(), b))
    } else {
        match dec_thread(b) {
            Some((t, r1)) => match dec_threads(r1, (n - 1) as nat) {
                Some((ts, r2)) => Some((seq![t] + ts, r2)),
                None => None,
            },
            None => None,
        }
    }
}

/// Appending a thread to the sequence appends its encoding.
pub proof fn lemma_enc_threads_push(ts: Seq<ThreadView>, t: ThreadView)
    ensures
        enc_threads(ts.push(t)) == enc_threads(ts) + enc_thread(t),
    decreases ts.len(),
{
    if ts.len() == 0 {
        assert(ts.push(t).first() == t);
        assert(ts.push(t).drop_first() =~= ts);
        assert(enc_threads(ts.push(t)) == enc_thread(t) + enc_threads(ts));
        assert(enc_threads(ts) =~= Seq::<u8>::empty());
        assert(enc_threads(ts.push(t)) =~= enc_threads(ts) + enc_thread(t));
    } else {
        assert(ts.push(t).first() == ts.first());
        assert(ts.push(t).drop_first() =~= ts.drop_first().push(t));
        assert(enc_threads(ts.push(t)) == enc_thread(ts.first()) + enc_threads(
            ts.drop_first().push(t),
        ));
        lemma_enc_threads_push(ts.drop_first(), t);
        assert(enc_threads(ts) == enc_thread(ts.first()) + enc_threads(ts.drop_first()));
        assert(enc_threads(ts.push(t)) =~= enc_threads(ts) + enc_thread(t));
    }
}

/// Splitting `n` written threads off restores them.
#[verifier::rlimit(50)]
pub proof fn lemma_threads_round_trip(ts: Seq<ThreadView>, rest: Seq<u8>)
    requires
        forall|i: int| 0 <= i < ts.len() ==> thread_fits(#[trigger] ts[i]),
    ensures
        dec_threads(enc_threads(ts) + rest, ts.len()) == Some((ts, rest)),
    decreases ts.len(),
{
    if ts.len() == 0 {
        assert(enc_threads(ts) + rest =~= rest);
    } else {
        let t = ts.first();
        let tail = ts.drop_first();
        assert(enc_threads(ts) + rest =~= enc_thread(t) + (enc_threads(tail) + rest));
        lemma_thread_round_trip(t, enc_threads(tail) + rest);
        assert(forall|i: int| 0 <= i < tail.len() ==> thread_fits(#[trigger] tail[i]));
        lemma_threads_round_trip(tail, rest);
        assert(seq![t] + tail =~= ts);
    }
}

/// One snapshot: version label, timestamp, thread count, threads.
pub open spec fn spec_serialize(d: DumpView) -> Seq<u8> {
    enc_str(d.jvm_version) + enc_u64(d.timestamp as u64) + enc_u64(d.threads.len() as u64)
        + enc_threads(d.threads)
}

/// Decodes one snapshot; the input must carry exactly one.
pub open spec fn spec_deserialize(b: Seq<u8>) -> Option<DumpView> {
    match dec_str(b) {
        Some((jvm_version, r1)) => if r1.len() >= 16 {
            let ts_bits = dec_u64(r1.take(8));
            let n = dec_u64(r1.subrange(8, 16)) as int;
            if 0 <= n <= usize::MAX {
                match dec_threads(r1.skip(16), n as nat) {
                    Some((threads, r2)) => if r2.len() == 0 {
                        Some(
                            DumpView {
                                jvm_version,
                                timestamp: ts_bits as i64,
                                threads,
                            },
                        )
                    } else {
                        None
                    },
                    None => None,
                }
            } else {
                None
            }
        } else {
            None
        },
        None => None,
    }
}

/// The snapshot's strings and counts fit machine lengths.
pub open spec fn dump_fits(d: DumpView) -> bool {
    &&& str_fits(d.jvm_version)
    &&& d.threads.len() <= usize::MAX
    &&& forall|i: int| 0 <= i < d.threads.len() ==> thread_fits(#[trigger] d.threads[i])
}

/// Tag byte of a thread state, executable.
fn state_tag(s: ThreadState) -> (r: u8)
    ensures
        r == enc_state(s),
{
    match s {
        ThreadState::Runnable => 0,
        ThreadState::Blocked => 1,
        ThreadState::Waiting => 2,
        ThreadState::TimedWaiting => 3,
        ThreadState::Unknown => 4,
    }
}

/// Tag byte of a thread category, executable.
fn thread_cat_tag(c: ThreadCategory) -> (r: u8)
    ensures
        r == enc_thread_cat(c),
{
    match c {
        ThreadCategory::Jvm => 0,
        ThreadCategory::Framework => 1,
        ThreadCategory::Application => 2,
        ThreadCategory::Unknown => 3,
    }
}

/// Tag byte of a frame category, executable.
fn frame_cat_tag(c: FrameCategory) -> (r: u8)
    ensures
        r == enc_frame_cat(c),
{
    match c {
        FrameCategory::Jvm => 0,
        FrameCategory::Framework => 1,
        FrameCategory::Application => 2,
    }
}

/// Appends the eight bytes of `n`, least significant first.
fn push_u64(out: &mut Vec<u8>, n: u64)
    ensures
        final(out)@ == old(out)@ + enc_u64(n),
{
    out.push((n & 0xff) as u8);
    out.push(((n >> 8) & 0xff) as u8);
    out.push(((n >> 16) & 0xff) as u8);
    out.push(((n >> 24) & 0xff) as u8);
    out.push(((n >> 32) & 0xff) as u8);
    out.push(((n >> 40) & 0xff) as u8);
    out.push(((n >> 48) & 0xff) as u8);
    out.push(((n >> 56) & 0xff) as u8);
    proof {
        assert(out@ =~= old(out)@ + enc_u64(n));
    }
}

/// Appends one encoded string.
fn push_str_enc(out: &mut Vec<u8>, s: &str)
    ensures
        final(out)@ == old(out)@ + enc_str(s@),
{
    let bytes = s.as_bytes_vec();
    push_u64(out, bytes.len() as u64);
    let ghost mid = out@;
    let mut i: usize = 0;
    while i < bytes.len()
        invariant
            i <= bytes@.len(),
            bytes@ == encode_utf8(s@),
            out@ == mid + bytes@.take(i as int),
        decreases bytes@.len() - i,
    {
        out.push(bytes[i]);
        i = i + 1;
        proof {
            assert(out@ =~= mid + bytes@.take(i as int));
        }
    }
    proof {
        assert(bytes@.take(bytes@.len() as int) =~= bytes@);
        assert(out@ =~= old(out)@ + enc_str(s@));
    }
}

/// Appends one encoded frame.
fn push_frame(out: &mut Vec<u8>, f: &CategorizedFrame)
    ensures
        final(out)@ == old(out)@ + enc_frame(f@),
{
    push_str_enc(out, f.line.as_str());
    out.push(frame_cat_tag(f.category));
    proof {
        assert(out@ =~= old(out)@ + enc_frame(f@));
    }
}

/// Appends one encoded thread.
fn push_thread(out: &mut Vec<u8>, t: &NormalizedThread)
    ensures
        final(out)@ == old(out)@ + enc_thread(t@),
{
    push_str_enc(out, t.name.as_str());
    out.push(state_tag(t.state));
    out.push(thread_cat_tag(t.category));
    push_u64(out, t.frames.len() as u64);
    let ghost mid = out@;
    let mut i: usize = 0;
    while i < t.frames.len()
        invariant
            i <= t.frames@.len(),
            mid == old(out)@ + enc_str(t@.name) + seq![
                enc_state(t@.state),
                enc_thread_cat(t@.category),
            ] + enc_u64(t@.frames.len() as u64),
            out@ == mid + enc_frames(t@.frames.take(i as int)),
        decreases t.frames@.len() - i,
    {
        push_frame(out, &t.frames[i]);
        i = i + 1;
        proof {
            assert(t@.frames.take(i as int) =~= t@.frames.take(i - 1).push(t@.frames[i - 1]));
            lemma_enc_frames_push(t@.frames.take(i - 1), t@.frames[i - 1]);
            assert(t.frames@[i - 1]@ == t@.frames[i - 1]);
            assert(out@ =~= mid + enc_frames(t@.frames.take(i as int)));
        }
    }
    proof {
        assert(t@.frames.take(t.frames@.len() as int) =~= t@.frames);
        assert(out@ =~= old(out)@ + enc_thread(t@));
    }
}

/// Encodes one snapshot under the exchange schema.
pub fn serialize_dump(dump: &ThreadDump) -> (r: Vec<u8>)
    ensures
        r@ == spec_serialize(dump@),
{
    let mut out: Vec<u8> = Vec::new();
    push_str_enc(&mut out, dump.jvm_version.as_str());
    push_u64(&mut out, #[verifier::truncate] (dump.timestamp as u64));
    push_u64(&mut out, dump.threads.len() as u64);
    let ghost mid = out@;
    let mut i: usize = 0;
    while i < dump.threads.len()
        invariant
            i <= dump.threads@.len(),
            mid == enc_str(dump@.jvm_version) + enc_u64(dump@.timestamp as u64) + enc_u64(
                dump@.threads.len() as u64,
            ),
            out@ == mid + enc_threads(dump@.threads.take(i as int)),
        decreases dump.threads@.len() - i,
    {
        push_thread(&mut out, &dump.threads[i]);
        i = i + 1;
        proof {
            assert(dump@.threads.take(i as int) =~= dump@.threads.take(i - 1).push(
                dump@.threads[i - 1],
            ));
            lemma_enc_threads_push(dump@.threads.take(i - 1), dump@.threads[i - 1]);
            assert(dump.threads@[i - 1]@ == dump@.threads[i - 1]);
            assert(out@ =~= mid + enc_threads(dump@.threads.take(i as int)));
        }
    }
    proof {
        assert(dump@.threads.take(dump.threads@.len() as int) =~= dump@.threads);
        assert(out@ =~= spec_serialize(dump@));
    }
    out
}

/// Relies on String::from_utf8: it succeeds exactly on valid UTF-8, and the
/// returned string's UTF-8 bytes are the input bytes.
#[verifier::external_body]
fn string_from_utf8(bytes: Vec<u8>) -> (r: Option<String>)
    ensures
        match r {
            Some(s) => encode_utf8(s@) == bytes@ && valid_utf8(bytes@),
            None => !valid_utf8(bytes@),
        },
{
    match String::from_utf8(bytes) {
        Ok(s) => Some(s),
        Err(_) => None,
    }
}

/// Reads eight little-endian bytes at `pos`.
fn read_u64(bytes: &[u8], pos: usize) -> (r: Option<(u64, usize)>)
    requires
        pos <= bytes@.len(),
    ensures
        match r {
            Some(v) => {
                &&& bytes@.skip(pos as int).len() >= 8
                &&& v.0 == dec_u64(bytes@.skip(pos as int).take(8))
                &&& v.1 == pos + 8
            },
            None => bytes@.skip(pos as int).len() < 8,
        },
{
    if bytes.len() - pos < 8 {
        return None;
    }
    let n = (bytes[pos] as u64) | ((bytes[pos + 1] as u64) << 8) | ((bytes[pos + 2] as u64) << 16)
        | ((bytes[pos + 3] as u64) << 24) | ((bytes[pos + 4] as u64) << 32) | ((bytes[pos
        + 5] as u64) << 40) | ((bytes[pos + 6] as u64) << 48) | ((bytes[pos + 7] as u64) << 56);
    proof {
        let rem = bytes@.skip(pos as int).take(8);
        assert(rem[0] == bytes@[pos as int]);
        assert(rem[1] == bytes@[pos + 1]);
        assert(rem[2] == bytes@[pos + 2]);
        assert(rem[3] == bytes@[pos + 3]);
        assert(rem[4] == bytes@[pos + 4]);
        assert(rem[5] == bytes@[pos + 5]);
        assert(rem[6] == bytes@[pos + 6]);
        assert(rem[7] == bytes@[pos + 7]);
    }
    Some((n, pos + 8))
}

/// Reads one length-prefixed byte block at `pos`.
fn read_block(bytes: &[u8], pos: usize) -> (r: Option<(Vec<u8>, usize)>)
    requires
        pos <= bytes@.len(),
    ensures
        match r {
            Some(v) => {
                &&& dec_block(bytes@.skip(pos as int)) matches Some(d)
                &&& v.0@ == dec_block(bytes@.skip(pos as int))->Some_0.0
                &&& pos <= v.1 <= bytes@.len()
                &&& bytes@.skip(v.1 as int) == dec_block(bytes@.skip(pos as int))->Some_0.1
            },
            None => dec_block(bytes@.skip(pos as int)) is None,
        },
{
    let ghost rem = bytes@.skip(pos as int);
    match read_u64(bytes, pos) {
        None => None,
        Some((n, p1)) => {
            if n > (usize::MAX as u64) {
                return None;
            }
            let n_us = n as usize;
            if n_us > bytes.len() - p1 {
                proof {
                    assert(8 + n > rem.len());
                }
                return None;
            }
            let mut data: Vec<u8> = Vec::new();
            let mut i: usize = 0;
            while i < n_us
                invariant
                    i <= n_us,
                    p1 + n_us <= bytes@.len(),
                    p1 + n_us <= usize::MAX,
                    data@ == bytes@.subrange(p1 as int, p1 + i),
                decreases n_us - i,
            {
                data.push(bytes[p1 + i]);
                i = i + 1;
                proof {
                    assert(data@ =~= bytes@.subrange(p1 as int, p1 + i));
                }
            }
            proof {
                assert(rem.take(8) == bytes@.skip(pos as int).take(8));
                assert(rem.subrange(8, 8 + n as int) =~= bytes@.subrange(p1 as int, p1 + n_us));
                assert(rem.skip(8 + n as int) =~= bytes@.skip(p1 + n_us));
            }
            Some((data, p1 + n_us))
        },
    }
}

/// Reads one encoded string at `pos`.
fn read_str(bytes: &[u8], pos: usize) -> (r: Option<(String, usize)>)
    requires
        pos <= bytes@.len(),
    ensures
        match r {
            Some(v) => {
                &&& dec_str(bytes@.skip(pos as int)) matches Some(d)
                &&& v.0@ == dec_str(bytes@.skip(pos as int))->Some_0.0
                &&& pos <= v.1 <= bytes@.len()
                &&& bytes@.skip(v.1 as int) == dec_str(bytes@.skip(pos as int))->Some_0.1
            },
            None => dec_str(bytes@.skip(pos as int)) is None,
        },
{
    match read_block(bytes, pos) {
        None => None,
        Some((data, p1)) => {
            let ghost data_v = data@;
            match string_from_utf8(data) {
                None => None,
                Some(s) => {
                    proof {
                        encode_utf8_decode_utf8(s@);
                    }
                    Some((s, p1))
                },
            }
        },
    }
}

/// Reads `n` encoded frames at `pos`.
fn read_frames(bytes: &[u8], pos: usize, n: usize) -> (r: Option<(Vec<CategorizedFrame>, usize)>)
    requires
        pos <= bytes@.len(),
    ensures
        match r {
            Some(v) => {
                &&& dec_frames(bytes@.skip(pos as int), n as nat) matches Some(d)
                &&& frame_views(v.0@) == dec_frames(bytes@.skip(pos as int), n as nat)->Some_0.0
                &&& pos <= v.1 <= bytes@.len()
                &&& bytes@.skip(v.1 as int) == dec_frames(bytes@.skip(pos as int), n as nat)
                    ->Some_0.1
            },
            None => dec_frames(bytes@.skip(pos as int), n as nat) is None,
        },
    decreases n,
{
    if n == 0 {
        proof {
            assert(frame_views(Seq::<CategorizedFrame>::empty()) =~= Seq::<FrameView>::empty());
        }
        return Some((Vec::new(), pos));
    }
    match read_frame(bytes, pos) {
        None => None,
        Some((f, p1)) => {
            match read_frames(bytes, p1, n - 1) {
                None => None,
                Some((mut v, p2)) => {
                    let ghost v0 = v@;
                    v.insert(0, f);
                    proof {
                        assert(v@.drop_first() =~= v0);
                        assert(frame_views(v@) =~= seq![v@[0]@] + frame_views(v0));
                    }
                    Some((v, p2))
                },
            }
        },
    }
}

/// Reads one encoded frame at `pos`.
fn read_frame(bytes: &[u8], pos: usize) -> (r: Option<(CategorizedFrame, usize)>)
    requires
        pos <= bytes@.len(),
    ensures
        match r {
            Some(v) => {
                &&& dec_frame(bytes@.skip(pos as int)) matches Some(d)
                &&& v.0@ == dec_frame(bytes@.skip(pos as int))->Some_0.0
                &&& pos <= v.1 <= bytes@.len()
                &&& bytes@.skip(v.1 as int) == dec_frame(bytes@.skip(pos as int))->Some_0.1
            },
            None => dec_frame(bytes@.skip(pos as int)) is None,
        },
{
    match read_str(bytes, pos) {
        None => None,
        Some((line, p1)) => {
            if p1 >= bytes.len() {
                return None;
            }
            let tag = bytes[p1];
            proof {
                assert(bytes@.skip(p1 as int)[0] == bytes@[p1 as int]);
                assert(bytes@.skip(p1 as int).skip(1) =~= bytes@.skip(p1 + 1));
            }
            if tag == 0 {
                Some((CategorizedFrame { line, category: FrameCategory::Jvm }, p1 + 1))
            } else if tag == 1 {
                Some((CategorizedFrame { line, category: FrameCategory::Framework }, p1 + 1))
            } else if tag == 2 {
                Some((CategorizedFrame { line, category: FrameCategory::Application }, p1 + 1))
            } else {
                None
            }
        },
    }
}

/// Reads one encoded thread at `pos`.
fn read_thread(bytes: &[u8], pos: usize) -> (r: Option<(NormalizedThread, usize)>)
    requires
        pos <= bytes@.len(),
    ensures
        match r {
            Some(v) => {
                &&& dec_thread(bytes@.skip(pos as int)) matches Some(d)
                &&& v.0@ == dec_thread(bytes@.skip(pos as int))->Some_0.0
                &&& pos <= v.1 <= bytes@.len()
                &&& bytes@.skip(v.1 as int) == dec_thread(bytes@.skip(pos as int))->Some_0.1
            },
            None => dec_thread(bytes@.skip(pos as int)) is None,
        },
{
    match read_str(bytes, pos) {
        None => None,
        Some((name, p1)) => {
            let ghost r1 = bytes@.skip(p1 as int);
            if bytes.len() - p1 < 10 {
                return None;
            }
            let state_byte = bytes[p1];
            let cat_byte = bytes[p1 + 1];
            proof {
                assert(r1[0] == bytes@[p1 as int]);
                assert(r1[1] == bytes@[p1 + 1]);
            }
            let state = if state_byte == 0 {
                ThreadState::Runnable
            } else if state_byte == 1 {
                ThreadState::Blocked
            } else if state_byte == 2 {
                ThreadState::Waiting
            } else if state_byte == 3 {
                ThreadState::TimedWaiting
            } else if state_byte == 4 {
                ThreadState::Unknown
            } else {
                return None;
            };
            let category = if cat_byte == 0 {
                ThreadCategory::Jvm
            } else if cat_byte == 1 {
                ThreadCategory::Framework
            } else if cat_byte == 2 {
                ThreadCategory::Application
            } else if cat_byte == 3 {
                ThreadCategory::Unknown
            } else {
                return None;
            };
            match read_u64(bytes, p1 + 2) {
                None => None,
                Some((n, _p_after)) => {
                    proof {
                        assert(r1.subrange(2, 10) =~= bytes@.skip(p1 + 2).take(8));
                    }
                    if n > (usize::MAX as u64) {
                        return None;
                    }
                    let n_us = n as usize;
                    match read_frames(bytes, p1 + 10, n_us) {
                        None => {
                            proof {
                                assert(r1.skip(10) =~= bytes@.skip(p1 + 10));
                            }
                            None
                        },
                        Some((frames, p2)) => {
                            proof {
                                assert(r1.skip(10) =~= bytes@.skip(p1 + 10));
                            }
                            Some((NormalizedThread { name, state, category, frames }, p2))
                        },
                    }
                },
            }
        },
    }
}

/// Reads `n` encoded threads at `pos`.
fn read_threads(bytes: &[u8], pos: usize, n: usize) -> (r: Option<(Vec<NormalizedThread>, usize)>)
    requires
        pos <= bytes@.len(),
    ensures
        match r {
            Some(v) => {
                &&& dec_threads(bytes@.skip(pos as int), n as nat) matches Some(d)
                &&& thread_views(v.0@) == dec_threads(bytes@.skip(pos as int), n as nat)->Some_0.0
                &&& pos <= v.1 <= bytes@.len()
                &&& bytes@.skip(v.1 as int) == dec_threads(bytes@.skip(pos as int), n as nat)
                    ->Some_0.1
            },
            None => dec_threads(bytes@.skip(pos as int), n as nat) is None,
        },
    decreases n,
{
    if n == 0 {
        proof {
            assert(thread_views(Seq::<NormalizedThread>::empty()) =~= Seq::<ThreadView>::empty());
        }
        return Some((Vec::new(), pos));
    }
    match read_thread(bytes, pos) {
        None => None,
        Some((t, p1)) => {
            match read_threads(bytes, p1, n - 1) {
                None => None,
                Some((mut v, p2)) => {
                    let ghost v0 = v@;
                    v.insert(0, t);
                    proof {
                        assert(v@.drop_first() =~= v0);
                        assert(thread_views(v@) =~= seq![v@[0]@] + thread_views(v0));
                    }
                    Some((v, p2))
                },
            }
        },
    }
}

/// Decodes one snapshot; the bytes must carry exactly one.
#[verifier::rlimit(100)]
pub fn deserialize_dump(bytes: &[u8]) -> (r: Option<ThreadDump>)
    ensures
        match r {
            Some(d) => spec_deserialize(bytes@) == Some(d@),
            None => spec_deserialize(bytes@) is None,
        },
{
    proof {
        assert(bytes@.skip(0) =~= bytes@);
    }
    match read_str(bytes, 0) {
        None => None,
        Some((jvm_version, p1)) => {
            let ghost r1 = bytes@.skip(p1 as int);
            if bytes.len() - p1 < 16 {
                return None;
            }
            match read_u64(bytes, p1) {
                None => None,
                Some((ts_bits, _)) => {
                    proof {
                        assert(r1.take(8) =~= bytes@.skip(p1 as int).take(8));
                    }
                    match read_u64(bytes, p1 + 8) {
                        None => None,
                        Some((n, _)) => {
                            proof {
                                assert(r1.subrange(8, 16) =~= bytes@.skip(p1 + 8).take(8));
                            }
                            if n > (usize::MAX as u64) {
                                return None;
                            }
                            let n_us = n as usize;
                            match read_threads(bytes, p1 + 16, n_us) {
                                None => {
                                    proof {
                                        assert(r1.skip(16) =~= bytes@.skip(p1 + 16));
                                    }
                                    None
                                },
                                Some((threads, p2)) => {
                                    proof {
                                        assert(r1.skip(16) =~= bytes@.skip(p1 + 16));
                                    }
                                    if p2 < bytes.len() {
                                        return None;
                                    }
                                    let timestamp = #[verifier::truncate] (ts_bits as i64);
                                    Some(ThreadDump { jvm_version, timestamp, threads })
                                },
                            }
                        },
                    }
                },
            }
        },
    }
}

/// Round trip: decoding an encoded snapshot yields the snapshot, for every
/// snapshot whose strings and counts fit machine lengths (every snapshot a
/// program can hold does).
pub proof fn lemma_serialize_round_trip(d: DumpView)
    requires
        dump_fits(d),
    ensures
        spec_deserialize(spec_serialize(d)) == Some(d),
{
    let n = d.threads.len() as u64;
    let ts_bits = d.timestamp as u64;
    let tail = enc_u64(ts_bits) + enc_u64(n) + enc_threads(d.threads);
    assert(spec_serialize(d) =~= enc_str(d.jvm_version) + tail);
    lemma_str_round_trip(d.jvm_version, tail);
    assert(tail.len() >= 16);
    assert(tail.take(8) =~= enc_u64(ts_bits));
    assert(tail.subrange(8, 16) =~= enc_u64(n));
    lemma_u64_round_trip(ts_bits);
    lemma_u64_round_trip(n);
    assert(tail.skip(16) =~= enc_threads(d.threads) + Seq::<u8>::empty());
    lemma_threads_round_trip(d.threads, Seq::empty());
    let ts: i64 = d.timestamp;
    assert((ts as u64) as i64 == ts) by (bit_vector);
}

} // verus!
