//! The bootloader session: one engine that owns a transport.
use crate::chunk::{
    block_of, chunk_addr, chunk_at, chunk_count, chunk_len, fits, lemma_chunk_bounds,
    lemma_chunk_geometry, plan_chunks,
};
use crate::codec::{
    address_frame, address_frame_of, be_u16, command_frame, command_frame_of, data_frame,
    data_frame_of,
};
use crate::command::{
    erase_all_payload, CMD_ERASE, CMD_GET, CMD_GO, CMD_PID, CMD_READ, CMD_R_UNLOCK, CMD_VER,
    CMD_WRITE, REPLY_ACK, SYNCH,
};
use crate::error::Error;
use crate::memory_map::OPTION_ADDR;
use crate::reply::{get_reply_error, get_reply_opcodes, get_reply_version, parse_get, Reply};
use crate::trace::{
    ack_run, acked_run, frame_run, lemma_acked_concat, lemma_acked_err_extend,
    lemma_acked_err_kind, lemma_acked_err_not_ok_trace, lemma_acked_ok_trace, lemma_acked_ok_unit,
    lemma_first_frame_fails, lemma_frame_outcome, lemma_frame_to_acked, lemma_ok_trace_len,
    lemma_push_since, lemma_since_concat, lemma_then_frame, link_error, link_error_of, ok_pair,
    ok_trace, short_error, short_error_of, since, unit_of, Io,
};
use crate::transport::{LinkError, Transport};
use vstd::prelude::*;

verus! {

/// The history `d` opens with the drop of up to 256 stale bytes.
pub open spec fn drained_first(d: Seq<Io>) -> bool {
    d.len() >= 1 && d[0] == Io::Drain(256)
}

/// Outcome of a complete GET reply `s`.
pub open spec fn get_outcome(s: Seq<u8>) -> Result<(u8, Seq<u8>), Error> {
    match get_reply_error(s) {
        Some(e) => Err(e),
        None => Ok((get_reply_version(s), get_reply_opcodes(s))),
    }
}

pub open spec fn get_view(r: Result<(u8, Vec<u8>), Error>) -> Result<(u8, Seq<u8>), Error> {
    match r {
        Ok((v, ops)) => Ok((v, ops@)),
        Err(e) => Err(e),
    }
}

/// A GET exchange gave history `e` and result `res`. After the acknowledged
/// command come the count byte `n`, then `n + 2` bytes (version, `n` opcodes,
/// closing ACK); the reply is then judged whole. A reply cut short by a timeout
/// is `NoComplete`.
pub open spec fn get_run(e: Seq<Io>, res: Result<(u8, Seq<u8>), Error>) -> bool {
    let f = command_frame_of(CMD_GET);
    if e.len() >= 2 && e.take(2) == ok_pair(f) {
        e.len() >= 3 && match e[2] {
            Io::ReadFailed(x) => e.len() == 3 && res == Err::<(u8, Seq<u8>), Error>(
                short_error_of(x),
            ),
            Io::Read(lb) => lb.len() == 1 && e.len() == 4 && match e[3] {
                Io::ReadFailed(x) => res == Err::<(u8, Seq<u8>), Error>(short_error_of(x)),
                Io::Read(body) => body.len() == lb[0] + 2 && res == get_outcome(
                    seq![REPLY_ACK] + lb + body,
                ),
                _ => false,
            },
            _ => false,
        }
    } else {
        res is Err && frame_run(f, e, Err(res->Err_0))
    }
}

/// Reading the closing byte of a reply gave history `d` and result `r`: an ACK
/// completes the reply, any other byte is a malformed trailer (`Parse`), and a
/// reply cut short by a timeout is `NoComplete`.
pub open spec fn trailer_run(d: Seq<Io>, r: Result<(), Error>) -> bool {
    d.len() == 1 && match d[0] {
        Io::Read(b) => b.len() == 1 && if b[0] == REPLY_ACK {
            r is Ok
        } else {
            r == Err::<(), Error>(Error::Parse)
        },
        Io::ReadFailed(x) => r == Err::<(), Error>(short_error_of(x)),
        _ => false,
    }
}

/// A GET_VERSION exchange gave history `e` and result `res`: after the
/// acknowledged command, three bytes (version first), then the closing ACK.
pub open spec fn version_run(e: Seq<Io>, res: Result<u8, Error>) -> bool {
    let f = command_frame_of(CMD_VER);
    if e.len() >= 2 && e.take(2) == ok_pair(f) {
        e.len() >= 3 && match e[2] {
            Io::ReadFailed(x) => e.len() == 3 && res == Err::<u8, Error>(short_error_of(x)),
            Io::Read(b) => b.len() == 3 && trailer_run(e.skip(3), unit_of(res)) && (res is Ok
                ==> res->Ok_0 == b[0]),
            _ => false,
        }
    } else {
        res is Err && frame_run(f, e, Err(res->Err_0))
    }
}

/// A GET_ID exchange gave history `e` and result `res`: after the acknowledged
/// command, a length byte, two identifier bytes (high first), then the closing ACK.
pub open spec fn id_run(e: Seq<Io>, res: Result<u16, Error>) -> bool {
    let f = command_frame_of(CMD_PID);
    if e.len() >= 2 && e.take(2) == ok_pair(f) {
        e.len() >= 3 && match e[2] {
            Io::ReadFailed(x) => e.len() == 3 && res == Err::<u16, Error>(short_error_of(x)),
            Io::Read(lb) => lb.len() == 1 && e.len() >= 4 && match e[3] {
                Io::ReadFailed(x) => e.len() == 4 && res == Err::<u16, Error>(short_error_of(x)),
                Io::Read(p) => p.len() == 2 && trailer_run(e.skip(4), unit_of(res)) && (res is Ok
                    ==> res->Ok_0 == p[0] as u16 * 256 + p[1] as u16),
                _ => false,
            },
            _ => false,
        }
    } else {
        res is Err && frame_run(f, e, Err(res->Err_0))
    }
}

/// Frames that write block `i` of `data` at `base`.
pub open spec fn write_block_frames(base: u32, data: Seq<u8>, i: nat) -> Seq<Seq<u8>> {
    seq![
        command_frame_of(CMD_WRITE),
        address_frame_of(chunk_addr(base, i)),
        data_frame_of(block_of(data, i)),
    ]
}

/// Frames that write the first `k` blocks of `data` at `base`.
pub open spec fn write_frames(base: u32, data: Seq<u8>, k: nat) -> Seq<Seq<u8>>
    decreases k,
{
    if k == 0 {
        Seq::empty()
    } else {
        write_frames(base, data, (k - 1) as nat) + write_block_frames(base, data, (k - 1) as nat)
    }
}

/// Frames that ask for `len` bytes at `addr`: READ, the address, then `len - 1`
/// with its complement.
pub open spec fn read_frames_at(addr: u32, len: nat) -> Seq<Seq<u8>> {
    seq![command_frame_of(CMD_READ), address_frame_of(addr), command_frame_of((len - 1) as u8)]
}

/// Frames that ask for block `i` of a read of `n` bytes at `base`.
pub open spec fn read_block_frames(base: u32, n: nat, i: nat) -> Seq<Seq<u8>> {
    read_frames_at(chunk_addr(base, i), chunk_len(n, i))
}

/// Reading one block gave history `d` and result `res`: the three frames
/// acknowledged, then `len` bytes; or a failure, after which nothing more is sent.
pub open spec fn read_block_run(fs: Seq<Seq<u8>>, len: nat, d: Seq<Io>, res: Result<Seq<u8>, Error>) -> bool {
    if d.len() >= 6 && d.take(6) == ok_trace(fs) {
        d.len() == 7 && match d[6] {
            Io::Read(b) => b.len() == len && res == Ok::<Seq<u8>, Error>(b),
            Io::ReadFailed(x) => res == Err::<Seq<u8>, Error>(link_error_of(x)),
            _ => false,
        }
    } else {
        res is Err && acked_run(fs, d, Err(res->Err_0))
    }
}

/// Reading blocks `i..` of `n` bytes at `base` into `data` gave history `d` and
/// result `r`: block after block, each filled with the bytes that came, until all
/// are read or the first one fails.
pub open spec fn read_run(base: u32, n: nat, i: nat, d: Seq<Io>, data: Seq<u8>, r: Result<(), Error>) -> bool
    decreases chunk_count(n) - i,
{
    if i >= chunk_count(n) {
        d.len() == 0 && r is Ok
    } else if d.len() >= 7 && d.take(6) == ok_trace(read_block_frames(base, n, i)) && d[6] is Read {
        d[6]->Read_0 == block_of(data, i) && read_run(base, n, i + 1, d.skip(7), data, r)
    } else {
        r is Err && read_block_run(
            read_block_frames(base, n, i),
            chunk_len(n, i),
            d,
            Err(r->Err_0),
        )
    }
}

/// History of the first `j` blocks of a read of `n` bytes at `base` that filled `data`.
pub open spec fn read_done(base: u32, n: nat, j: nat, data: Seq<u8>) -> Seq<Io>
    decreases j,
{
    if j == 0 {
        Seq::empty()
    } else {
        read_done(base, n, (j - 1) as nat, data) + ok_trace(
            read_block_frames(base, n, (j - 1) as nat),
        ) + seq![Io::Read(block_of(data, (j - 1) as nat))]
    }
}

/// History of blocks `i..` of a read of `n` bytes at `base` in which every frame
/// was acknowledged and every block delivered, filling `data`.
pub open spec fn delivered_from(base: u32, n: nat, i: nat, data: Seq<u8>) -> Seq<Io>
    decreases chunk_count(n) - i,
{
    if i >= chunk_count(n) {
        Seq::empty()
    } else {
        ok_trace(read_block_frames(base, n, i)) + seq![Io::Read(block_of(data, i))]
            + delivered_from(base, n, i + 1, data)
    }
}

/// A read in which every frame was acknowledged and every block delivered succeeds.
pub proof fn lemma_read_delivered_succeeds(base: u32, n: nat, i: nat, data: Seq<u8>, r: Result<(), Error>)
    requires
        read_run(base, n, i, delivered_from(base, n, i, data), data, r),
    ensures
        r is Ok,
    decreases chunk_count(n) - i,
{
    if i < chunk_count(n) {
        let fs = read_block_frames(base, n, i);
        let d = delivered_from(base, n, i, data);
        lemma_ok_trace_len(fs);
        assert(d.take(6) =~= ok_trace(fs));
        assert(d[6] == Io::Read(block_of(data, i)));
        assert(d.skip(7) =~= delivered_from(base, n, i + 1, data));
        lemma_read_delivered_succeeds(base, n, i + 1, data, r);
    }
}

proof fn lemma_write_frames_prefix(base: u32, data: Seq<u8>, j: nat, k: nat)
    requires
        j <= k,
    ensures
        write_frames(base, data, k).len() == 3 * k,
        write_frames(base, data, j) == write_frames(base, data, k).take(3 * j as int),
    decreases k,
{
    if k > 0 {
        lemma_write_frames_prefix(base, data, if j == k { (k - 1) as nat } else { j }, (k - 1) as nat);
        if j == k {
            assert(write_frames(base, data, k).take(3 * j as int) =~= write_frames(base, data, k));
        } else {
            assert(write_frames(base, data, k).take(3 * j as int) =~= write_frames(
                base,
                data,
                (k - 1) as nat,
            ).take(3 * j as int));
        }
    }
}

/// The history of the first `j` blocks depends only on the bytes those blocks cover.
proof fn lemma_read_done_prefix(base: u32, n: nat, a: Seq<u8>, b: Seq<u8>, j: nat)
    requires
        a.len() == b.len(),
        j <= chunk_count(a.len()),
        forall|p: int| 0 <= p < 128 * j && p < a.len() ==> a[p] == b[p],
    ensures
        read_done(base, n, j, a) == read_done(base, n, j, b),
    decreases j,
{
    if j > 0 {
        let i = (j - 1) as nat;
        lemma_read_done_prefix(base, n, a, b, i);
        lemma_chunk_geometry(a.len(), i);
        assert(block_of(a, i) =~= block_of(b, i));
    }
}

/// Blocks read one after the other, then a run of the rest, make a run of the whole read.
proof fn lemma_read_run_prefix(base: u32, n: nat, i: nat, rest: Seq<Io>, data: Seq<u8>, r: Result<(), Error>)
    requires
        i <= chunk_count(n),
        read_run(base, n, i, rest, data, r),
    ensures
        read_run(base, n, 0, read_done(base, n, i, data) + rest, data, r),
    decreases i,
{
    if i == 0 {
        assert(read_done(base, n, 0, data) + rest =~= rest);
    } else {
        let k = (i - 1) as nat;
        let fs = read_block_frames(base, n, k);
        let c = ok_trace(fs) + seq![Io::Read(block_of(data, k))];
        lemma_ok_trace_len(fs);
        let d = c + rest;
        assert(d.take(6) =~= ok_trace(fs));
        assert(d[6] == Io::Read(block_of(data, k)));
        assert(d.skip(7) =~= rest);
        assert(read_run(base, n, k, d, data, r));
        lemma_read_run_prefix(base, n, k, d, data, r);
        assert(read_done(base, n, i, data) + rest =~= read_done(base, n, k, data) + d);
    }
}

/// Copies `v` into `buf` from `offset` on, leaving the rest of `buf` as it was.
fn copy_block(buf: &mut [u8], offset: usize, v: &Vec<u8>)
    requires
        offset + v@.len() <= old(buf)@.len(),
    ensures
        final(buf)@.len() == old(buf)@.len(),
        forall|p: int| 0 <= p < offset ==> final(buf)@[p] == old(buf)@[p],
        final(buf)@.subrange(offset as int, offset + v@.len()) == v@,
{
    let blen = buf.len();
    let mut k: usize = 0;
    while k < v.len()
        invariant
            k <= v@.len(),
            blen == buf@.len(),
            offset + v@.len() <= buf@.len(),
            buf@.len() == old(buf)@.len(),
            forall|p: int| 0 <= p < offset ==> buf@[p] == old(buf)@[p],
            forall|q: int| 0 <= q < k ==> buf@[offset + q] == v@[q],
        decreases v@.len() - k,
    {
        buf[offset + k] = v[k];
        k = k + 1;
    }
    assert(buf@.subrange(offset as int, offset + v@.len()) =~= v@);
}

/// A host-side session with a PY32F0xx bootloader over the link `T`.
///
/// The session records its history: every write, read and drop of stale input
/// it asks of the link, with the outcome.
pub struct Py32F0xxIsp<T: Transport> {
    serial: T,
    log: Ghost<Seq<Io>>,
}

impl<T: Transport> Py32F0xxIsp<T> {
    /// The session's use of the link so far.
    pub closed spec fn history(&self) -> Seq<Io> {
        self.log@
    }

    pub fn new(serial: T) -> (r: Self)
        ensures
            r.history() == Seq::<Io>::empty(),
    {
        Self { serial, log: Ghost(Seq::empty()) }
    }

    /// Gives the link back.
    pub fn into_inner(self) -> T {
        self.serial
    }

    fn link_write(&mut self, buf: &[u8]) -> (r: Result<(), LinkError>)
        ensures
            r is Ok ==> final(self).history() == old(self).history().push(Io::Write(buf@)),
            r is Err ==> final(self).history() == old(self).history().push(Io::WriteFailed(buf@)),
    {
        let r = self.serial.write_all(buf);
        if r.is_ok() {
            self.log = Ghost(self.log@.push(Io::Write(buf@)));
        } else {
            self.log = Ghost(self.log@.push(Io::WriteFailed(buf@)));
        }
        r
    }

    fn link_read(&mut self, n: usize) -> (r: Result<Vec<u8>, LinkError>)
        ensures
            r matches Ok(v) ==> v@.len() == n && final(self).history() == old(self).history().push(
                Io::Read(v@),
            ),
            r matches Err(e) ==> final(self).history() == old(self).history().push(Io::ReadFailed(e)),
    {
        let r = self.serial.read_exact(n);
        match r {
            Ok(v) => {
                self.log = Ghost(self.log@.push(Io::Read(v@)));
                Ok(v)
            },
            Err(e) => {
                self.log = Ghost(self.log@.push(Io::ReadFailed(e)));
                Err(e)
            },
        }
    }

    fn link_discard(&mut self, max: usize)
        ensures
            final(self).history() == old(self).history().push(Io::Drain(max as nat)),
    {
        self.serial.discard(max);
        self.log = Ghost(self.log@.push(Io::Drain(max as nat)));
    }

    /// One synchronisation attempt: drop stale input, send the sync byte and await its ACK.
    pub fn hand_shake(&mut self) -> (r: Result<(), Error>)
        ensures
            old(self).history().is_prefix_of(final(self).history()),
            drained_first(since(old(self).history(), final(self).history())),
            acked_run(seq![seq![SYNCH]], since(old(self).history(), final(self).history()).skip(1), r),
    {
        let ghost h0 = self.history();
        self.clear_serial();
        let ghost h1 = self.history();
        let sync = vec![SYNCH];
        let r = self.write_to_serial(&sync);
        proof {
            lemma_push_since(h0, Io::Drain(256));
            lemma_since_concat(h0, h1, self.history());
            assert(since(h0, self.history()).skip(1) =~= since(h1, self.history()));
            assert(sync@ == seq![SYNCH]);
            lemma_frame_to_acked(seq![SYNCH], since(h1, self.history()), r);
        }
        r
    }

    /// Asks the link to drop up to 256 waiting bytes; never fails.
    pub fn clear_serial(&mut self)
        ensures
            final(self).history() == old(self).history().push(Io::Drain(256)),
    {
        self.link_discard(256);
    }

    /// Reads one acknowledgement byte. Anything but ACK fails with `NoAck`; after
    /// a byte that is neither ACK nor NACK, up to ten stragglers are dropped.
    pub fn check_ack(&mut self) -> (r: Result<(), Error>)
        ensures
            old(self).history().is_prefix_of(final(self).history()),
            ack_run(since(old(self).history(), final(self).history()), r),
    {
        let ghost h0 = self.history();
        match self.link_read(1) {
            Ok(b) => {
                proof { lemma_push_since(h0, Io::Read(b@)); }
                match Reply::classify(b[0]) {
                    Reply::Ack => Ok(()),
                    Reply::Nack => {
                        assert(since(h0, self.history()).skip(1) =~= Seq::<Io>::empty());
                        Err(Error::NoAck)
                    },
                    _ => {
                        let ghost h1 = self.history();
                        self.link_discard(10);
                        proof {
                            lemma_push_since(h1, Io::Drain(10));
                            lemma_since_concat(h0, h1, self.history());
                            assert(since(h0, self.history()).skip(1) =~= seq![Io::Drain(10)]);
                        }
                        Err(Error::NoAck)
                    },
                }
            },
            Err(e) => {
                proof { lemma_push_since(h0, Io::ReadFailed(e)); }
                Err(link_error(e))
            },
        }
    }

    /// Reads the closing byte of a reply: an ACK completes it, any other byte is
    /// a malformed trailer.
    fn check_trailer(&mut self) -> (r: Result<(), Error>)
        ensures
            old(self).history().is_prefix_of(final(self).history()),
            trailer_run(since(old(self).history(), final(self).history()), r),
    {
        let ghost h0 = self.history();
        match self.link_read(1) {
            Ok(b) => {
                proof { lemma_push_since(h0, Io::Read(b@)); }
                if b[0] == REPLY_ACK {
                    Ok(())
                } else {
                    Err(Error::Parse)
                }
            },
            Err(x) => {
                proof { lemma_push_since(h0, Io::ReadFailed(x)); }
                Err(short_error(x))
            },
        }
    }

    /// Writes one frame and awaits its acknowledgement.
    fn write_to_serial(&mut self, buf: &[u8]) -> (r: Result<(), Error>)
        ensures
            old(self).history().is_prefix_of(final(self).history()),
            frame_run(buf@, since(old(self).history(), final(self).history()), r),
    {
        let ghost h0 = self.history();
        match self.link_write(buf) {
            Ok(()) => {
                let ghost h1 = self.history();
                let r = self.check_ack();
                proof {
                    lemma_push_since(h0, Io::Write(buf@));
                    lemma_since_concat(h0, h1, self.history());
                    assert(since(h0, self.history()).skip(1) =~= since(h1, self.history()));
                }
                r
            },
            Err(_) => {
                proof { lemma_push_since(h0, Io::WriteFailed(buf@)); }
                Err(Error::Serial)
            },
        }
    }

    /// Sends an opcode with its complement and awaits the acknowledgement.
    pub fn send_command(&mut self, op: u8) -> (r: Result<(), Error>)
        ensures
            old(self).history().is_prefix_of(final(self).history()),
            frame_run(command_frame_of(op), since(old(self).history(), final(self).history()), r),
    {
        let frame = command_frame(op);
        self.write_to_serial(&frame)
    }

    /// Sends an address frame and awaits the acknowledgement.
    pub fn send_address(&mut self, addr: u32) -> (r: Result<(), Error>)
        ensures
            old(self).history().is_prefix_of(final(self).history()),
            frame_run(address_frame_of(addr), since(old(self).history(), final(self).history()), r),
    {
        let frame = address_frame(addr);
        self.write_to_serial(&frame)
    }
}

proof fn lemma_extends(a: Seq<Io>, x: Seq<Io>)
    ensures
        a.is_prefix_of(a + x),
        since(a, a + x) == x,
{
    assert(since(a, a + x) =~= x);
}

/// What follows the initial drop of stale input.
proof fn lemma_after_drain(h0: Seq<Io>, h: Seq<Io>)
    requires
        h0.push(Io::Drain(256)).is_prefix_of(h),
    ensures
        h0.is_prefix_of(h),
        drained_first(since(h0, h)),
        since(h0, h).skip(1) == since(h0.push(Io::Drain(256)), h),
{
    lemma_push_since(h0, Io::Drain(256));
    lemma_since_concat(h0, h0.push(Io::Drain(256)), h);
    assert(since(h0, h).skip(1) =~= since(h0.push(Io::Drain(256)), h));
}

impl<T: Transport> Py32F0xxIsp<T> {
    /// Sends two frames, each acknowledged, stopping at the first that fails.
    fn exchange2(&mut self, a: &Vec<u8>, b: &Vec<u8>) -> (r: Result<(), Error>)
        ensures
            old(self).history().is_prefix_of(final(self).history()),
            acked_run(seq![a@, b@], since(old(self).history(), final(self).history()), r),
    {
        let ghost h0 = self.history();
        let r1 = self.write_to_serial(a);
        let ghost h1 = self.history();
        if r1.is_err() {
            proof {
                lemma_first_frame_fails(a@, seq![b@], since(h0, h1), r1);
                assert(seq![a@] + seq![b@] =~= seq![a@, b@]);
            }
            return r1;
        }
        let r = self.write_to_serial(b);
        proof {
            lemma_frame_to_acked(a@, since(h0, h1), r1);
            lemma_then_frame(seq![a@], b@, since(h0, h1), since(h1, self.history()), r1, r);
            assert(seq![a@].push(b@) =~= seq![a@, b@]);
            lemma_since_concat(h0, h1, self.history());
        }
        r
    }

    /// Jumps to `addr`: GO, then the target address, each acknowledged.
    pub fn go(&mut self, addr: u32) -> (r: Result<(), Error>)
        ensures
            old(self).history().is_prefix_of(final(self).history()),
            acked_run(
                seq![command_frame_of(CMD_GO), address_frame_of(addr)],
                since(old(self).history(), final(self).history()),
                r,
            ),
    {
        let c = command_frame(CMD_GO);
        let a = address_frame(addr);
        self.exchange2(&c, &a)
    }

    /// Erases the whole flash: ERASE, then the full-chip payload, each acknowledged.
    pub fn erase_chip(&mut self) -> (r: Result<(), Error>)
        ensures
            old(self).history().is_prefix_of(final(self).history()),
            acked_run(
                seq![command_frame_of(CMD_ERASE), erase_all_payload()],
                since(old(self).history(), final(self).history()),
                r,
            ),
    {
        let c = command_frame(CMD_ERASE);
        let payload = vec![0xFFu8, 0xFFu8, 0x00u8];
        assert(payload@ == erase_all_payload());
        self.exchange2(&c, &payload)
    }

    /// Lifts read protection: drop stale input, then READ_UNLOCK, acknowledged.
    pub fn read_unlock(&mut self) -> (r: Result<(), Error>)
        ensures
            old(self).history().is_prefix_of(final(self).history()),
            drained_first(since(old(self).history(), final(self).history())),
            acked_run(
                seq![command_frame_of(CMD_R_UNLOCK)],
                since(old(self).history(), final(self).history()).skip(1),
                r,
            ),
    {
        let ghost h0 = self.history();
        self.clear_serial();
        let ghost h1 = self.history();
        let r = self.send_command(CMD_R_UNLOCK);
        proof {
            lemma_push_since(h0, Io::Drain(256));
            lemma_since_concat(h0, h1, self.history());
            lemma_after_drain(h0, self.history());
            lemma_frame_to_acked(command_frame_of(CMD_R_UNLOCK), since(h1, self.history()), r);
        }
        r
    }

    /// Asks for the bootloader version and the opcodes it supports.
    /// The reply is `ACK, n, version, n opcodes, ACK`.
    pub fn get(&mut self) -> (r: Result<(u8, Vec<u8>), Error>)
        ensures
            old(self).history().is_prefix_of(final(self).history()),
            drained_first(since(old(self).history(), final(self).history())),
            get_run(since(old(self).history(), final(self).history()).skip(1), get_view(r)),
    {
        let ghost h0 = self.history();
        self.clear_serial();
        let ghost h1 = self.history();
        let ghost f = command_frame_of(CMD_GET);
        let r0 = self.send_command(CMD_GET);
        let ghost h2 = self.history();
        proof {
            lemma_push_since(h0, Io::Drain(256));
            lemma_since_concat(h0, h1, h2);
            lemma_frame_outcome(f, since(h1, h2), r0);
        }
        if r0.is_err() {
            proof { lemma_after_drain(h0, h2); }
            return Err(r0.unwrap_err());
        }
        assert(h2 =~= h1 + ok_pair(f));
        let lb = match self.link_read(1) {
            Ok(v) => v,
            Err(x) => {
                proof {
                    assert(self.history() =~= h1 + (ok_pair(f) + seq![Io::ReadFailed(x)]));
                    lemma_extends(h1, ok_pair(f) + seq![Io::ReadFailed(x)]);
                    assert((ok_pair(f) + seq![Io::ReadFailed(x)]).take(2) =~= ok_pair(f));
                    lemma_since_concat(h0, h1, self.history());
                    lemma_after_drain(h0, self.history());
                }
                return Err(short_error(x));
            },
        };
        let ghost h3 = self.history();
        let body = match self.link_read(lb[0] as usize + 2) {
            Ok(v) => v,
            Err(x) => {
                proof {
                    let e = ok_pair(f) + seq![Io::Read(lb@), Io::ReadFailed(x)];
                    assert(self.history() =~= h1 + e);
                    lemma_extends(h1, e);
                    lemma_since_concat(h0, h1, self.history());
                    lemma_after_drain(h0, self.history());
                    assert(e.take(2) =~= ok_pair(f));
                }
                return Err(short_error(x));
            },
        };
        let mut reply: Vec<u8> = vec![REPLY_ACK, lb[0]];
        let mut i: usize = 0;
        while i < body.len()
            invariant
                i <= body@.len(),
                lb@.len() == 1,
                reply@ == seq![REPLY_ACK, lb@[0]] + body@.take(i as int),
            decreases body@.len() - i,
        {
            reply.push(body[i]);
            i = i + 1;
            assert(reply@ == seq![REPLY_ACK, lb@[0]] + body@.take(i as int));
        }
        assert(body@.take(i as int) =~= body@);
        assert(reply@ =~= seq![REPLY_ACK] + lb@ + body@);
        let r = parse_get(&reply);
        proof {
            let e = ok_pair(f) + seq![Io::Read(lb@), Io::Read(body@)];
            assert(self.history() =~= h1 + e);
            lemma_extends(h1, e);
            lemma_since_concat(h0, h1, self.history());
            lemma_after_drain(h0, self.history());
            assert(e.take(2) =~= ok_pair(f));
            assert(get_view(r) == get_outcome(reply@));
        }
        r
    }

    /// Asks for the bootloader version. The reply is `ACK, version, two option bytes, ACK`.
    pub fn get_version(&mut self) -> (r: Result<u8, Error>)
        ensures
            old(self).history().is_prefix_of(final(self).history()),
            drained_first(since(old(self).history(), final(self).history())),
            version_run(since(old(self).history(), final(self).history()).skip(1), r),
    {
        let ghost h0 = self.history();
        self.clear_serial();
        let ghost h1 = self.history();
        let ghost f = command_frame_of(CMD_VER);
        let r0 = self.send_command(CMD_VER);
        let ghost h2 = self.history();
        proof {
            lemma_push_since(h0, Io::Drain(256));
            lemma_since_concat(h0, h1, h2);
            lemma_frame_outcome(f, since(h1, h2), r0);
        }
        if r0.is_err() {
            proof { lemma_after_drain(h0, h2); }
            return Err(r0.unwrap_err());
        }
        assert(h2 =~= h1 + ok_pair(f));
        let ver = match self.link_read(3) {
            Ok(v) => v,
            Err(x) => {
                proof {
                    assert(self.history() =~= h1 + (ok_pair(f) + seq![Io::ReadFailed(x)]));
                    lemma_extends(h1, ok_pair(f) + seq![Io::ReadFailed(x)]);
                    assert((ok_pair(f) + seq![Io::ReadFailed(x)]).take(2) =~= ok_pair(f));
                    lemma_since_concat(h0, h1, self.history());
                    lemma_after_drain(h0, self.history());
                }
                return Err(short_error(x));
            },
        };
        let ghost h3 = self.history();
        let r1 = self.check_trailer();
        let ghost h4 = self.history();
        let r = match r1 {
            Ok(()) => Ok(ver[0]),
            Err(e) => Err(e),
        };
        proof {
            let a = since(h3, h4);
            let e = ok_pair(f) + seq![Io::Read(ver@)] + a;
            assert(h4 =~= h3 + a);
            assert(h4 =~= h1 + e);
            lemma_extends(h1, e);
            lemma_since_concat(h0, h1, h4);
            lemma_after_drain(h0, h4);
            assert(e.take(2) =~= ok_pair(f));
            assert(e.skip(3) =~= a);
        }
        r
    }

    /// Asks for the chip identifier. The reply is `ACK, length, id high, id low, ACK`.
    pub fn get_id(&mut self) -> (r: Result<u16, Error>)
        ensures
            old(self).history().is_prefix_of(final(self).history()),
            drained_first(since(old(self).history(), final(self).history())),
            id_run(since(old(self).history(), final(self).history()).skip(1), r),
    {
        let ghost h0 = self.history();
        self.clear_serial();
        let ghost h1 = self.history();
        let ghost f = command_frame_of(CMD_PID);
        let r0 = self.send_command(CMD_PID);
        let ghost h2 = self.history();
        proof {
            lemma_push_since(h0, Io::Drain(256));
            lemma_since_concat(h0, h1, h2);
            lemma_frame_outcome(f, since(h1, h2), r0);
        }
        if r0.is_err() {
            proof { lemma_after_drain(h0, h2); }
            return Err(r0.unwrap_err());
        }
        assert(h2 =~= h1 + ok_pair(f));
        let len = match self.link_read(1) {
            Ok(v) => v,
            Err(x) => {
                proof {
                    assert(self.history() =~= h1 + (ok_pair(f) + seq![Io::ReadFailed(x)]));
                    lemma_extends(h1, ok_pair(f) + seq![Io::ReadFailed(x)]);
                    assert((ok_pair(f) + seq![Io::ReadFailed(x)]).take(2) =~= ok_pair(f));
                    lemma_since_concat(h0, h1, self.history());
                    lemma_after_drain(h0, self.history());
                }
                return Err(short_error(x));
            },
        };
        let pid = match self.link_read(2) {
            Ok(v) => v,
            Err(x) => {
                proof {
                    let e = ok_pair(f) + seq![Io::Read(len@), Io::ReadFailed(x)];
                    assert(self.history() =~= h1 + e);
                    lemma_extends(h1, e);
                    lemma_since_concat(h0, h1, self.history());
                    lemma_after_drain(h0, self.history());
                    assert(e.take(2) =~= ok_pair(f));
                }
                return Err(short_error(x));
            },
        };
        let ghost h3 = self.history();
        let r1 = self.check_trailer();
        let ghost h4 = self.history();
        let r = match r1 {
            Ok(()) => {
                let b: [u8; 2] = [pid[0], pid[1]];
                Ok(be_u16(&b))
            },
            Err(e) => Err(e),
        };
        proof {
            let a = since(h3, h4);
            let e = ok_pair(f) + seq![Io::Read(len@), Io::Read(pid@)] + a;
            assert(h4 =~= h3 + a);
            assert(h4 =~= h1 + e);
            lemma_extends(h1, e);
            lemma_since_concat(h0, h1, h4);
            lemma_after_drain(h0, h4);
            assert(e.take(2) =~= ok_pair(f));
            assert(e.skip(4) =~= a);
        }
        r
    }
}

/// A successful read run is a run with the result `Ok(())`.
proof fn lemma_read_run_ok(base: u32, n: nat, i: nat, d: Seq<Io>, data: Seq<u8>, r: Result<(), Error>)
    requires
        read_run(base, n, i, d, data, r),
        r is Ok,
    ensures
        read_run(base, n, i, d, data, Ok(())),
    decreases chunk_count(n) - i,
{
    if i < chunk_count(n) && d.len() >= 7 && d.take(6) == ok_trace(read_block_frames(base, n, i))
        && d[6] is Read {
        lemma_read_run_ok(base, n, i + 1, d.skip(7), data, r);
    }
}

pub open spec fn block_view(r: Result<Vec<u8>, Error>) -> Result<Seq<u8>, Error> {
    match r {
        Ok(v) => Ok(v@),
        Err(e) => Err(e),
    }
}

impl<T: Transport> Py32F0xxIsp<T> {
    /// Writes one block: WRITE, the address, then the data frame, each acknowledged.
    fn write_block(&mut self, addr: u32, block: &[u8]) -> (r: Result<(), Error>)
        requires
            1 <= block@.len() <= 128,
        ensures
            old(self).history().is_prefix_of(final(self).history()),
            acked_run(
                seq![command_frame_of(CMD_WRITE), address_frame_of(addr), data_frame_of(block@)],
                since(old(self).history(), final(self).history()),
                r,
            ),
    {
        let ghost h0 = self.history();
        let c = command_frame(CMD_WRITE);
        let a = address_frame(addr);
        let ghost df = data_frame_of(block@);
        let r1 = self.write_to_serial(&c);
        let ghost h1 = self.history();
        if r1.is_err() {
            proof {
                lemma_first_frame_fails(c@, seq![a@, df], since(h0, h1), r1);
                assert(seq![c@] + seq![a@, df] =~= seq![c@, a@, df]);
            }
            return r1;
        }
        let r2 = self.write_to_serial(&a);
        let ghost h2 = self.history();
        proof {
            lemma_frame_to_acked(c@, since(h0, h1), r1);
            lemma_then_frame(seq![c@], a@, since(h0, h1), since(h1, h2), r1, r2);
            assert(seq![c@].push(a@) =~= seq![c@, a@]);
            lemma_since_concat(h0, h1, h2);
        }
        if r2.is_err() {
            proof {
                lemma_acked_err_extend(seq![c@, a@], seq![df], since(h0, h2), r2);
                assert(seq![c@, a@] + seq![df] =~= seq![c@, a@, df]);
            }
            return r2;
        }
        let frame = data_frame(block);
        let r3 = self.write_to_serial(&frame);
        proof {
            lemma_then_frame(seq![c@, a@], frame@, since(h0, h2), since(h2, self.history()), r2, r3);
            assert(seq![c@, a@].push(frame@) =~= seq![c@, a@, df]);
            lemma_since_concat(h0, h2, self.history());
        }
        r3
    }

    /// Reads one block of `len` bytes: READ, the address, then the length frame,
    /// each acknowledged, then the bytes themselves.
    fn read_block(&mut self, addr: u32, len: usize) -> (r: Result<Vec<u8>, Error>)
        requires
            1 <= len <= 128,
        ensures
            old(self).history().is_prefix_of(final(self).history()),
            read_block_run(
                read_frames_at(addr, len as nat),
                len as nat,
                since(old(self).history(), final(self).history()),
                block_view(r),
            ),
            r matches Err(e) ==> e != Error::Address,
    {
        let ghost h0 = self.history();
        let ghost fs = read_frames_at(addr, len as nat);
        let c = command_frame(CMD_READ);
        let a = address_frame(addr);
        let l = command_frame((len - 1) as u8);
        let r1 = self.write_to_serial(&c);
        let ghost h1 = self.history();
        if r1.is_err() {
            proof {
                lemma_first_frame_fails(c@, seq![a@, l@], since(h0, h1), r1);
                assert(seq![c@] + seq![a@, l@] =~= fs);
                lemma_acked_err_not_ok_trace(fs, since(h0, h1), r1);
                lemma_acked_err_kind(fs, since(h0, h1), r1);
            }
            return Err(r1.unwrap_err());
        }
        let r2 = self.write_to_serial(&a);
        let ghost h2 = self.history();
        proof {
            lemma_frame_to_acked(c@, since(h0, h1), r1);
            lemma_then_frame(seq![c@], a@, since(h0, h1), since(h1, h2), r1, r2);
            assert(seq![c@].push(a@) =~= seq![c@, a@]);
            lemma_since_concat(h0, h1, h2);
        }
        if r2.is_err() {
            proof {
                lemma_acked_err_extend(seq![c@, a@], seq![l@], since(h0, h2), r2);
                assert(seq![c@, a@] + seq![l@] =~= fs);
                lemma_acked_err_not_ok_trace(fs, since(h0, h2), r2);
                lemma_acked_err_kind(fs, since(h0, h2), r2);
            }
            return Err(r2.unwrap_err());
        }
        let r3 = self.write_to_serial(&l);
        let ghost h3 = self.history();
        proof {
            lemma_then_frame(seq![c@, a@], l@, since(h0, h2), since(h2, h3), r2, r3);
            assert(seq![c@, a@].push(l@) =~= fs);
            lemma_since_concat(h0, h2, h3);
            lemma_ok_trace_len(fs);
        }
        if r3.is_err() {
            proof {
                lemma_acked_err_not_ok_trace(fs, since(h0, h3), r3);
                lemma_acked_err_kind(fs, since(h0, h3), r3);
            }
            return Err(r3.unwrap_err());
        }
        proof { lemma_acked_ok_trace(fs, since(h0, h3), r3); }
        assert(h3 =~= h0 + ok_trace(fs));
        match self.link_read(len) {
            Ok(v) => {
                proof {
                    let d = ok_trace(fs) + seq![Io::Read(v@)];
                    assert(self.history() =~= h0 + d);
                    lemma_extends(h0, d);
                    assert(d.take(6) =~= ok_trace(fs));
                }
                Ok(v)
            },
            Err(x) => {
                proof {
                    let d = ok_trace(fs) + seq![Io::ReadFailed(x)];
                    assert(self.history() =~= h0 + d);
                    lemma_extends(h0, d);
                    assert(d.take(6) =~= ok_trace(fs));
                }
                Err(link_error(x))
            },
        }
    }

    /// Writes `data` to memory from `addr` on, one block of at most 128 bytes at a
    /// time, in increasing address order; stops at the first block that fails.
    /// An empty `data` is done at once, with no traffic.
    pub fn write_flash(&mut self, addr: u32, data: &[u8]) -> (r: Result<(), Error>)
        ensures
            old(self).history().is_prefix_of(final(self).history()),
            r == Err::<(), Error>(Error::Address) <==> (data@.len() > 0 && !fits(addr, data@.len())),
            data@.len() == 0 ==> r is Ok,
            data@.len() == 0 || !fits(addr, data@.len()) ==> final(self).history() == old(
                self,
            ).history(),
            data@.len() > 0 && fits(addr, data@.len()) ==> {
                let d = since(old(self).history(), final(self).history());
                &&& drained_first(d)
                &&& acked_run(write_frames(addr, data@, chunk_count(data@.len())), d.skip(1), r)
            },
    {
        if data.len() == 0 {
            return Ok(());
        }
        let plan = match plan_chunks(addr, data.len()) {
            Ok(p) => p,
            Err(e) => {
                return Err(e);
            },
        };
        let ghost h0 = self.history();
        self.clear_serial();
        let ghost h1 = self.history();
        let n = data.len();
        proof {
            lemma_extends(h1, Seq::empty());
            assert(h1 + Seq::<Io>::empty() =~= h1);
        }
        let mut j: usize = 0;
        while j < plan.len()
            invariant
                n == data@.len(),
                fits(addr, n as nat),
                plan@.len() == chunk_count(n as nat),
                forall|i: int|
                    0 <= i < plan@.len() ==> plan@[i] == chunk_at(addr, n as nat, i as nat),
                j <= plan@.len(),
                h1 == h0.push(Io::Drain(256)),
                h0 == old(self).history(),
                h1.is_prefix_of(self.history()),
                acked_run(write_frames(addr, data@, j as nat), since(h1, self.history()), Ok(())),
            decreases plan@.len() - j,
        {
            let c = plan[j];
            proof { lemma_chunk_bounds(addr, n as nat, j as nat); }
            let block = vstd::slice::slice_subrange(data, c.offset, c.offset + c.len);
            assert(block@ == block_of(data@, j as nat));
            let ghost hj = self.history();
            let rb = self.write_block(c.addr, block);
            let ghost bf = write_block_frames(addr, data@, j as nat);
            proof {
                assert(seq![command_frame_of(CMD_WRITE), address_frame_of(c.addr), data_frame_of(block@)] == bf);
                lemma_acked_concat(
                    write_frames(addr, data@, j as nat),
                    bf,
                    since(h1, hj),
                    since(hj, self.history()),
                    Ok(()),
                    rb,
                );
                lemma_since_concat(h1, hj, self.history());
                assert(write_frames(addr, data@, j as nat + 1) == write_frames(addr, data@, j as nat) + bf);
            }
            if rb.is_err() {
                proof {
                    let total = chunk_count(n as nat);
                    lemma_write_frames_prefix(addr, data@, j as nat + 1, total);
                    let all = write_frames(addr, data@, total);
                    lemma_acked_err_extend(
                        write_frames(addr, data@, j as nat + 1),
                        all.skip(3 * (j + 1)),
                        since(h1, self.history()),
                        rb,
                    );
                    assert(write_frames(addr, data@, j as nat + 1) + all.skip(3 * (j + 1)) =~= all);
                    lemma_acked_err_kind(all, since(h1, self.history()), rb);
                    lemma_after_drain(h0, self.history());
                }
                return rb;
            }
            proof {
                lemma_acked_ok_unit(
                    write_frames(addr, data@, j as nat + 1),
                    since(h1, self.history()),
                    rb,
                );
            }
            j = j + 1;
        }
        proof { lemma_after_drain(h0, self.history()); }
        Ok(())
    }

    /// Reads `buf.len()` bytes of memory from `addr` on into `buf`, one block of at
    /// most 128 bytes at a time, in increasing address order; stops at the first
    /// block that fails.
    pub fn read_flash(&mut self, addr: u32, buf: &mut [u8]) -> (r: Result<(), Error>)
        ensures
            final(buf)@.len() == old(buf)@.len(),
            old(self).history().is_prefix_of(final(self).history()),
            r == Err::<(), Error>(Error::Address) <==> (old(buf)@.len() > 0 && !fits(
                addr,
                old(buf)@.len(),
            )),
            old(buf)@.len() == 0 ==> r is Ok,
            old(buf)@.len() == 0 || !fits(addr, old(buf)@.len()) ==> final(self).history() == old(
                self,
            ).history() && final(buf)@ == old(buf)@,
            old(buf)@.len() > 0 && fits(addr, old(buf)@.len()) ==> {
                let d = since(old(self).history(), final(self).history());
                &&& drained_first(d)
                &&& read_run(addr, old(buf)@.len(), 0, d.skip(1), final(buf)@, r)
            },
    {
        let n = buf.len();
        if n == 0 {
            return Ok(());
        }
        let plan = match plan_chunks(addr, n) {
            Ok(p) => p,
            Err(e) => {
                return Err(e);
            },
        };
        let ghost h0 = self.history();
        self.clear_serial();
        let ghost h1 = self.history();
        proof {
            lemma_extends(h1, Seq::empty());
            assert(h1 + Seq::<Io>::empty() =~= h1);
        }
        let mut j: usize = 0;
        while j < plan.len()
            invariant
                n == buf@.len(),
                n == old(buf)@.len(),
                fits(addr, n as nat),
                plan@.len() == chunk_count(n as nat),
                forall|i: int|
                    0 <= i < plan@.len() ==> plan@[i] == chunk_at(addr, n as nat, i as nat),
                j <= plan@.len(),
                h1 == h0.push(Io::Drain(256)),
                h0 == old(self).history(),
                h1.is_prefix_of(self.history()),
                since(h1, self.history()) == read_done(addr, n as nat, j as nat, buf@),
            decreases plan@.len() - j,
        {
            let c = plan[j];
            proof { lemma_chunk_bounds(addr, n as nat, j as nat); }
            let ghost hj = self.history();
            let ghost fs = read_block_frames(addr, n as nat, j as nat);
            let rb = self.read_block(c.addr, c.len);
            proof {
                assert(read_frames_at(c.addr, c.len as nat) == fs);
                lemma_since_concat(h1, hj, self.history());
                lemma_ok_trace_len(fs);
            }
            let v = match rb {
                Ok(v) => v,
                Err(e) => {
                    proof {
                        let d = since(hj, self.history());
                        if d.len() >= 6 && d.take(6) == ok_trace(fs) {
                        } else {
                            lemma_acked_err_not_ok_trace(fs, d, Err(e));
                        }
                        assert(read_run(addr, n as nat, j as nat, d, buf@, Err(e)));
                        lemma_read_run_prefix(addr, n as nat, j as nat, d, buf@, Err(e));
                        lemma_after_drain(h0, self.history());
                    }
                    return Err(e);
                },
            };
            let ghost before = buf@;
            copy_block(buf, c.offset, &v);
            proof {
                let d = since(hj, self.history());
                assert(d =~= ok_trace(fs) + seq![Io::Read(v@)]);
                lemma_read_done_prefix(addr, n as nat, before, buf@, j as nat);
                assert(block_of(buf@, j as nat) =~= v@);
                assert(since(h1, self.history()) =~= read_done(addr, n as nat, j as nat + 1, buf@));
            }
            j = j + 1;
        }
        proof {
            assert(read_run(addr, n as nat, j as nat, Seq::empty(), buf@, Ok(())));
            lemma_read_run_prefix(addr, n as nat, j as nat, Seq::empty(), buf@, Ok(()));
            assert(read_done(addr, n as nat, j as nat, buf@) + Seq::<Io>::empty() =~= read_done(
                addr,
                n as nat,
                j as nat,
                buf@,
            ));
            lemma_after_drain(h0, self.history());
        }
        Ok(())
    }

    /// Reads the sixteen option bytes.
    pub fn read_option(&mut self) -> (r: Result<[u8; 16], Error>)
        ensures
            old(self).history().is_prefix_of(final(self).history()),
            drained_first(since(old(self).history(), final(self).history())),
            exists|data: Seq<u8>|
                data.len() == 16 && #[trigger] read_run(
                    OPTION_ADDR,
                    16,
                    0,
                    since(old(self).history(), final(self).history()).skip(1),
                    data,
                    unit_of(r),
                ),
            r matches Ok(b) ==> read_run(
                OPTION_ADDR,
                16,
                0,
                since(old(self).history(), final(self).history()).skip(1),
                b@,
                Ok(()),
            ),
    {
        let mut buf: [u8; 16] = [0u8; 16];
        let rf = self.read_flash(OPTION_ADDR, &mut buf);
        let ghost d = since(old(self).history(), self.history()).skip(1);
        match rf {
            Ok(()) => {
                proof { lemma_read_run_ok(OPTION_ADDR, 16, 0, d, buf@, rf); }
                Ok(buf)
            },
            Err(e) => {
                assert(read_run(OPTION_ADDR, 16, 0, d, buf@, unit_of(Err::<[u8; 16], Error>(e))));
                Err(e)
            },
        }
    }
}

} // verus!
