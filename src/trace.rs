//! The history of a session's link use, and the runs of the protocol it may hold.
use crate::command::{REPLY_ACK, REPLY_NACK};
use crate::error::Error;
use crate::transport::LinkError;
use vstd::prelude::*;

verus! {

/// One use of the link, as a session records it.
pub enum Io {
    /// The link took all of these bytes.
    Write(Seq<u8>),
    /// The link failed while writing these bytes.
    WriteFailed(Seq<u8>),
    /// The link returned these bytes.
    Read(Seq<u8>),
    /// A read failed, and the bytes it waited for are lost.
    ReadFailed(LinkError),
    /// The session asked the link to drop up to this many waiting bytes.
    Drain(nat),
}

/// What was appended to the history `before` to give `after`.
pub open spec fn since(before: Seq<Io>, after: Seq<Io>) -> Seq<Io> {
    after.skip(before.len() as int)
}

/// The error a failed link operation becomes: a timeout means the device never
/// answered, anything else that the link broke.
pub open spec fn link_error_of(e: LinkError) -> Error {
    match e {
        LinkError::TimedOut => Error::NoReply,
        LinkError::Failed => Error::Serial,
    }
}

/// The error of a reply cut short: a timeout leaves it incomplete.
pub open spec fn short_error_of(e: LinkError) -> Error {
    match e {
        LinkError::TimedOut => Error::NoComplete,
        LinkError::Failed => Error::Serial,
    }
}

/// The success or the error of `r`, without its value.
pub open spec fn unit_of<A>(r: Result<A, Error>) -> Result<(), Error> {
    match r {
        Ok(_) => Ok(()),
        Err(e) => Err(e),
    }
}

/// A frame written and acknowledged.
pub open spec fn ok_pair(f: Seq<u8>) -> Seq<Io> {
    seq![Io::Write(f), Io::Read(seq![REPLY_ACK])]
}

/// Frames `fs` written and acknowledged one after the other.
pub open spec fn ok_trace(fs: Seq<Seq<u8>>) -> Seq<Io>
    decreases fs.len(),
{
    if fs.len() == 0 {
        Seq::empty()
    } else {
        ok_pair(fs[0]) + ok_trace(fs.skip(1))
    }
}

/// What follows a reply byte `b` that is not an ACK: after a NACK nothing, after
/// anything else a drop of up to ten stragglers.
pub open spec fn straggler_drain(b: u8) -> Seq<Io> {
    if b == REPLY_NACK {
        Seq::empty()
    } else {
        seq![Io::Drain(10)]
    }
}

/// Awaiting one acknowledgement gave history `d` and result `r`: an ACK
/// succeeds, any other byte fails with `NoAck`, a failed read with its link error.
pub open spec fn ack_run(d: Seq<Io>, r: Result<(), Error>) -> bool {
    d.len() >= 1 && match d[0] {
        Io::Read(b) => b.len() == 1 && if b[0] == REPLY_ACK {
            d.len() == 1 && r is Ok
        } else {
            d.skip(1) == straggler_drain(b[0]) && r == Err::<(), Error>(Error::NoAck)
        },
        Io::ReadFailed(e) => d.len() == 1 && r == Err::<(), Error>(link_error_of(e)),
        _ => false,
    }
}

/// Writing frame `f` and awaiting its acknowledgement gave history `d` and
/// result `r`; a failed write gives `Serial` and nothing is read after it.
pub open spec fn frame_run(f: Seq<u8>, d: Seq<Io>, r: Result<(), Error>) -> bool {
    d.len() >= 1 && match d[0] {
        Io::WriteFailed(g) => g == f && d.len() == 1 && r == Err::<(), Error>(Error::Serial),
        Io::Write(g) => g == f && ack_run(d.skip(1), r),
        _ => false,
    }
}

/// Sending frames `fs` in order, each acknowledged, gave history `d` and result
/// `r`: every frame until the first that fails is acknowledged, and nothing is
/// sent after that one.
pub open spec fn acked_run(fs: Seq<Seq<u8>>, d: Seq<Io>, r: Result<(), Error>) -> bool
    decreases fs.len(),
{
    if fs.len() == 0 {
        d.len() == 0 && r is Ok
    } else if d.len() >= 2 && d.take(2) == ok_pair(fs[0]) {
        acked_run(fs.skip(1), d.skip(2), r)
    } else {
        r is Err && frame_run(fs[0], d, r)
    }
}

pub proof fn lemma_since_concat(a: Seq<Io>, b: Seq<Io>, c: Seq<Io>)
    requires
        a.is_prefix_of(b),
        b.is_prefix_of(c),
    ensures
        a.is_prefix_of(c),
        since(a, c) == since(a, b) + since(b, c),
{
    assert forall|i: int| 0 <= i < a.len() implies c[i] == a[i] by {
        assert(b[i] == a[i]);
    }
    assert forall|i: int| 0 <= i < since(a, b).len() implies since(a, c)[i] == since(a, b)[i] by {
        assert(c[a.len() + i] == b[a.len() + i]);
    }
    assert(since(a, c) =~= since(a, b) + since(b, c));
}

pub proof fn lemma_ok_trace_len(fs: Seq<Seq<u8>>)
    ensures
        ok_trace(fs).len() == 2 * fs.len(),
    decreases fs.len(),
{
    if fs.len() > 0 {
        lemma_ok_trace_len(fs.skip(1));
    }
}

/// One frame's run is a run of the one-frame sequence.
pub proof fn lemma_frame_to_acked(f: Seq<u8>, d: Seq<Io>, r: Result<(), Error>)
    requires
        frame_run(f, d, r),
    ensures
        acked_run(seq![f], d, r),
{
    let fs = seq![f];
    assert(fs[0] == f);
    assert(fs.skip(1) =~= Seq::<Seq<u8>>::empty());
    if r is Ok {
        match d[0] {
            Io::Write(g) => {
                let a = d.skip(1);
                match a[0] {
                    Io::Read(b) => {
                        assert(b =~= seq![REPLY_ACK]);
                        assert(d[1] == a[0]);
                        assert(d.take(2) =~= ok_pair(f));
                    },
                    _ => {},
                }
            },
            _ => {},
        }
        assert(d.skip(2).len() == 0);
        assert(acked_run(fs.skip(1), d.skip(2), r));
    } else if d.len() >= 2 && d.take(2) == ok_pair(f) {
        assert(d[0] == d.take(2)[0]);
        assert(d[1] == d.take(2)[1]);
        assert(d.skip(1)[0] == d[1]);
        assert(seq![REPLY_ACK][0] == REPLY_ACK);
    }
}

/// Acknowledged runs put one after the other make a run of both sequences.
pub proof fn lemma_acked_concat(
    fs1: Seq<Seq<u8>>,
    fs2: Seq<Seq<u8>>,
    d1: Seq<Io>,
    d2: Seq<Io>,
    r1: Result<(), Error>,
    r: Result<(), Error>,
)
    requires
        acked_run(fs1, d1, r1),
        r1 is Ok,
        acked_run(fs2, d2, r),
    ensures
        acked_run(fs1 + fs2, d1 + d2, r),
    decreases fs1.len(),
{
    if fs1.len() == 0 {
        assert(fs1 + fs2 =~= fs2);
        assert(d1 + d2 =~= d2);
    } else {
        lemma_acked_concat(fs1.skip(1), fs2, d1.skip(2), d2, r1, r);
        assert((fs1 + fs2)[0] == fs1[0]);
        assert((d1 + d2).take(2) =~= d1.take(2));
        assert((fs1 + fs2).skip(1) =~= fs1.skip(1) + fs2);
        assert((d1 + d2).skip(2) =~= d1.skip(2) + d2);
    }
}

/// A run that failed on `fs1` is a failed run of any longer sequence: nothing after is sent.
pub proof fn lemma_acked_err_extend(
    fs1: Seq<Seq<u8>>,
    fs2: Seq<Seq<u8>>,
    d: Seq<Io>,
    r: Result<(), Error>,
)
    requires
        acked_run(fs1, d, r),
        r is Err,
    ensures
        acked_run(fs1 + fs2, d, r),
    decreases fs1.len(),
{
    assert((fs1 + fs2)[0] == fs1[0]);
    if d.len() >= 2 && d.take(2) == ok_pair(fs1[0]) {
        lemma_acked_err_extend(fs1.skip(1), fs2, d.skip(2), r);
        assert((fs1 + fs2).skip(1) =~= fs1.skip(1) + fs2);
    }
}

/// A successful run is exactly every frame written and acknowledged.
pub proof fn lemma_acked_ok_trace(fs: Seq<Seq<u8>>, d: Seq<Io>, r: Result<(), Error>)
    requires
        acked_run(fs, d, r),
        r is Ok,
    ensures
        d == ok_trace(fs),
    decreases fs.len(),
{
    if fs.len() > 0 {
        lemma_acked_ok_trace(fs.skip(1), d.skip(2), r);
        assert(d =~= d.take(2) + d.skip(2));
    }
}

/// A failed run never begins with every frame acknowledged.
pub proof fn lemma_acked_err_not_ok_trace(fs: Seq<Seq<u8>>, d: Seq<Io>, r: Result<(), Error>)
    requires
        acked_run(fs, d, r),
        r is Err,
    ensures
        !(d.len() >= 2 * fs.len() && d.take(2 * fs.len() as int) == ok_trace(fs)),
    decreases fs.len(),
{
    lemma_ok_trace_len(fs);
    if d.len() >= 2 && d.take(2) == ok_pair(fs[0]) {
        lemma_acked_err_not_ok_trace(fs.skip(1), d.skip(2), r);
        lemma_ok_trace_len(fs.skip(1));
        if d.len() >= 2 * fs.len() && d.take(2 * fs.len() as int) == ok_trace(fs) {
            assert(d.skip(2).take(2 * fs.skip(1).len() as int) =~= ok_trace(fs).skip(2));
            assert(ok_trace(fs).skip(2) =~= ok_trace(fs.skip(1)));
        }
    } else {
        if d.len() >= 2 * fs.len() && d.take(2 * fs.len() as int) == ok_trace(fs) {
            assert(d.take(2) =~= ok_trace(fs).take(2));
            assert(ok_trace(fs).take(2) =~= ok_pair(fs[0]));
        }
    }
}

/// A NACK that answers any frame fails the run with `NoAck`, while a reply that
/// never came ends it with `NoReply`: the two are never confused.
pub proof fn lemma_nack_is_not_timeout(fs: Seq<Seq<u8>>, d: Seq<Io>, r: Result<(), Error>)
    requires
        acked_run(fs, d, r),
    ensures
        d.len() > 0 && d.last() == Io::Read(seq![REPLY_NACK]) ==> r == Err::<(), Error>(
            Error::NoAck,
        ),
        d.len() > 0 && d.last() == Io::ReadFailed(LinkError::TimedOut) ==> r == Err::<(), Error>(
            Error::NoReply,
        ),
    decreases fs.len(),
{
    if fs.len() > 0 {
        if d.len() >= 2 && d.take(2) == ok_pair(fs[0]) {
            lemma_nack_is_not_timeout(fs.skip(1), d.skip(2), r);
            if d.skip(2).len() == 0 {
                assert(d.last() == d.take(2)[1]);
                assert(seq![REPLY_ACK] != seq![REPLY_NACK]) by {
                    assert(seq![REPLY_ACK][0] != seq![REPLY_NACK][0]);
                }
            } else {
                assert(d.last() == d.skip(2).last());
            }
        } else {
            match d[0] {
                Io::Write(_) => {
                    let a = d.skip(1);
                    assert(d.last() == a.last());
                    match a[0] {
                        Io::Read(b) => {
                            if b[0] != REPLY_NACK {
                                assert(a.skip(1) == seq![Io::Drain(10)]);
                                assert(a.last() == a.skip(1).last());
                            } else {
                                assert(a.len() == 1);
                            }
                        },
                        _ => {},
                    }
                },
                _ => {},
            }
        }
    }
}

pub fn link_error(e: LinkError) -> (r: Error)
    ensures
        r == link_error_of(e),
{
    match e {
        LinkError::TimedOut => Error::NoReply,
        LinkError::Failed => Error::Serial,
    }
}

pub fn short_error(e: LinkError) -> (r: Error)
    ensures
        r == short_error_of(e),
{
    match e {
        LinkError::TimedOut => Error::NoComplete,
        LinkError::Failed => Error::Serial,
    }
}

pub proof fn lemma_push_since(h: Seq<Io>, e: Io)
    ensures
        h.is_prefix_of(h.push(e)),
        since(h, h.push(e)) == seq![e],
{
    assert(since(h, h.push(e)) =~= seq![e]);
}

/// A frame that succeeded was written and acknowledged; one that failed was not.
pub proof fn lemma_frame_outcome(f: Seq<u8>, d: Seq<Io>, r: Result<(), Error>)
    requires
        frame_run(f, d, r),
    ensures
        r is Ok ==> d == ok_pair(f),
        r is Err ==> !(d.len() >= 2 && d.take(2) == ok_pair(f)),
{
    lemma_frame_to_acked(f, d, r);
    assert(seq![f].skip(1) =~= Seq::<Seq<u8>>::empty());
    assert(ok_trace(seq![f].skip(1)) == Seq::<Io>::empty());
    assert(ok_trace(seq![f]) =~= ok_pair(f));
    if r is Ok {
        lemma_acked_ok_trace(seq![f], d, r);
    } else {
        lemma_acked_err_not_ok_trace(seq![f], d, r);
    }
}

/// A run of `fs` followed by a run of one more frame is a run of `fs.push(f)`.
pub proof fn lemma_then_frame(
    fs: Seq<Seq<u8>>,
    f: Seq<u8>,
    d1: Seq<Io>,
    d2: Seq<Io>,
    r1: Result<(), Error>,
    r: Result<(), Error>,
)
    requires
        acked_run(fs, d1, r1),
        r1 is Ok,
        frame_run(f, d2, r),
    ensures
        acked_run(fs.push(f), d1 + d2, r),
{
    lemma_frame_to_acked(f, d2, r);
    lemma_acked_concat(fs, seq![f], d1, d2, r1, r);
    assert(fs + seq![f] =~= fs.push(f));
}

/// A run that failed on its first frame is a failed run of any sequence starting with it.
pub proof fn lemma_first_frame_fails(f: Seq<u8>, rest: Seq<Seq<u8>>, d: Seq<Io>, r: Result<(), Error>)
    requires
        frame_run(f, d, r),
        r is Err,
    ensures
        acked_run(seq![f] + rest, d, r),
{
    lemma_frame_to_acked(f, d, r);
    lemma_acked_err_extend(seq![f], rest, d, r);
}

/// A failed run fails with `Serial`, `NoAck` or `NoReply`, never with an error of the caller's making.
pub proof fn lemma_acked_err_kind(fs: Seq<Seq<u8>>, d: Seq<Io>, r: Result<(), Error>)
    requires
        acked_run(fs, d, r),
        r is Err,
    ensures
        r == Err::<(), Error>(Error::Serial) || r == Err::<(), Error>(Error::NoAck) || r == Err::<
            (),
            Error,
        >(Error::NoReply),
    decreases fs.len(),
{
    if d.len() >= 2 && d.take(2) == ok_pair(fs[0]) {
        lemma_acked_err_kind(fs.skip(1), d.skip(2), r);
    } else {
        match d[0] {
            Io::Write(_) => {
                match d.skip(1)[0] {
                    Io::ReadFailed(e) => {
                        match e {
                            LinkError::TimedOut => {},
                            LinkError::Failed => {},
                        }
                    },
                    _ => {},
                }
            },
            _ => {},
        }
    }
}

/// A successful run is a run with the result `Ok(())`.
pub proof fn lemma_acked_ok_unit(fs: Seq<Seq<u8>>, d: Seq<Io>, r: Result<(), Error>)
    requires
        acked_run(fs, d, r),
        r is Ok,
    ensures
        acked_run(fs, d, Ok(())),
    decreases fs.len(),
{
    if fs.len() > 0 {
        lemma_acked_ok_unit(fs.skip(1), d.skip(2), r);
    }
}

/// A run in which every frame was written and acknowledged succeeds.
pub proof fn lemma_acked_all_succeeds(fs: Seq<Seq<u8>>, r: Result<(), Error>)
    requires
        acked_run(fs, ok_trace(fs), r),
    ensures
        r is Ok,
    decreases fs.len(),
{
    if fs.len() > 0 {
        let d = ok_trace(fs);
        lemma_ok_trace_len(fs.skip(1));
        assert(d.take(2) =~= ok_pair(fs[0]));
        assert(d.skip(2) =~= ok_trace(fs.skip(1)));
        lemma_acked_all_succeeds(fs.skip(1), r);
    }
}

} // verus!
