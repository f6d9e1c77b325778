use py32_isp::codec::{address_frame, command_frame, data_frame};
use py32_isp::handshake::{HandshakeController, HandshakeStep, HANDSHAKE_ATTEMPTS};
use py32_isp::memory_map::{CODE_ADDR, OPTION_ADDR};
use py32_isp::{Error, LinkError, Py32F0xxIsp, Transport};
use std::collections::VecDeque;

/// A device that answers each write with the next scripted reply.
struct Device {
    replies: VecDeque<Vec<u8>>,
    pending: VecDeque<u8>,
    frames: Vec<Vec<u8>>,
    broken: bool,
}

impl Device {
    fn new(replies: Vec<Vec<u8>>) -> Device {
        Device { replies: replies.into(), pending: VecDeque::new(), frames: Vec::new(), broken: false }
    }

    fn wire(&self) -> Vec<u8> {
        self.frames.concat()
    }
}

impl Transport for Device {
    fn write_all(&mut self, buf: &[u8]) -> Result<(), LinkError> {
        if self.broken {
            return Err(LinkError::Failed);
        }
        self.frames.push(buf.to_vec());
        if let Some(r) = self.replies.pop_front() {
            self.pending.extend(r);
        }
        Ok(())
    }

    fn read_exact(&mut self, n: usize) -> Result<Vec<u8>, LinkError> {
        if self.pending.len() < n {
            self.pending.clear();
            return Err(LinkError::TimedOut);
        }
        Ok(self.pending.drain(..n).collect())
    }

    fn discard(&mut self, max: usize) {
        let k = max.min(self.pending.len());
        self.pending.drain(..k);
    }
}

const ACK: u8 = 0x79;
const NACK: u8 = 0x1F;

fn acks(n: usize) -> Vec<Vec<u8>> {
    vec![vec![ACK]; n]
}

#[test]
fn hand_shake_sends_sync() {
    let mut isp = Py32F0xxIsp::new(Device::new(acks(1)));
    assert_eq!(isp.hand_shake(), Ok(()));
    assert_eq!(isp.into_inner().wire(), vec![0x7F]);
}

#[test]
fn hand_shake_drops_stale_input() {
    let mut dev = Device::new(acks(1));
    dev.pending.extend([0x00, 0x55, 0x79]);
    let mut isp = Py32F0xxIsp::new(dev);
    assert_eq!(isp.hand_shake(), Ok(()));
}

#[test]
fn hand_shake_nack_is_no_ack() {
    let mut isp = Py32F0xxIsp::new(Device::new(vec![vec![NACK]]));
    assert_eq!(isp.hand_shake(), Err(Error::NoAck));
}

#[test]
fn hand_shake_silence_is_no_reply() {
    let mut isp = Py32F0xxIsp::new(Device::new(vec![]));
    assert_eq!(isp.hand_shake(), Err(Error::NoReply));
}

#[test]
fn hand_shake_broken_link_is_serial() {
    let mut dev = Device::new(acks(1));
    dev.broken = true;
    let mut isp = Py32F0xxIsp::new(dev);
    assert_eq!(isp.hand_shake(), Err(Error::Serial));
}

#[test]
fn busy_reply_is_no_ack_and_drains() {
    let mut isp = Py32F0xxIsp::new(Device::new(vec![vec![0xAA, 1, 2, 3]]));
    assert_eq!(isp.go(CODE_ADDR), Err(Error::NoAck));
    let dev = isp.into_inner();
    assert!(dev.pending.is_empty());
    assert_eq!(dev.frames.len(), 1);
}

#[test]
fn nack_on_any_command_is_no_ack() {
    let mut isp = Py32F0xxIsp::new(Device::new(vec![vec![NACK]]));
    assert_eq!(isp.go(CODE_ADDR), Err(Error::NoAck));
    let mut isp = Py32F0xxIsp::new(Device::new(vec![vec![ACK], vec![NACK]]));
    assert_eq!(isp.erase_chip(), Err(Error::NoAck));
    let mut isp = Py32F0xxIsp::new(Device::new(vec![vec![NACK]]));
    assert_eq!(isp.read_unlock(), Err(Error::NoAck));
    let mut isp = Py32F0xxIsp::new(Device::new(vec![vec![NACK]]));
    assert_eq!(isp.get_version(), Err(Error::NoAck));
    let mut isp = Py32F0xxIsp::new(Device::new(vec![vec![ACK], vec![ACK], vec![NACK]]));
    assert_eq!(isp.write_flash(CODE_ADDR, &[1, 2, 3]), Err(Error::NoAck));
}

#[test]
fn timeout_on_any_command_is_no_reply() {
    let mut isp = Py32F0xxIsp::new(Device::new(vec![]));
    assert_eq!(isp.go(CODE_ADDR), Err(Error::NoReply));
    let mut isp = Py32F0xxIsp::new(Device::new(acks(1)));
    assert_eq!(isp.erase_chip(), Err(Error::NoReply));
    let mut isp = Py32F0xxIsp::new(Device::new(vec![]));
    assert_eq!(isp.get(), Err(Error::NoReply));
}

#[test]
fn go_sends_command_then_address() {
    let mut isp = Py32F0xxIsp::new(Device::new(acks(2)));
    assert_eq!(isp.go(0x0800_0000), Ok(()));
    assert_eq!(isp.into_inner().wire(), vec![0x21, 0xDE, 0x08, 0x00, 0x00, 0x00, 0x08]);
}

#[test]
fn erase_chip_sends_full_chip_payload() {
    let mut isp = Py32F0xxIsp::new(Device::new(acks(2)));
    assert_eq!(isp.erase_chip(), Ok(()));
    assert_eq!(isp.into_inner().wire(), vec![0x44, 0xBB, 0xFF, 0xFF, 0x00]);
}

#[test]
fn read_unlock_sends_command() {
    let mut isp = Py32F0xxIsp::new(Device::new(acks(1)));
    assert_eq!(isp.read_unlock(), Ok(()));
    assert_eq!(isp.into_inner().wire(), vec![0x92, 0x6D]);
}

#[test]
fn get_reports_version_and_opcodes() {
    let reply = vec![0x79, 0x03, 0x10, 0x00, 0x01, 0x02, 0x79];
    let mut isp = Py32F0xxIsp::new(Device::new(vec![reply]));
    assert_eq!(isp.get(), Ok((0x10, vec![0x00, 0x01, 0x02])));
    assert_eq!(isp.into_inner().wire(), vec![0x00, 0xFF]);
}

#[test]
fn get_without_trailing_ack_is_parse() {
    let reply = vec![0x79, 0x03, 0x10, 0x00, 0x01, 0x02, 0x55];
    let mut isp = Py32F0xxIsp::new(Device::new(vec![reply]));
    assert_eq!(isp.get(), Err(Error::Parse));
}

#[test]
fn get_version_reads_first_byte() {
    let reply = vec![0x79, 0x31, 0x00, 0x00, 0x79];
    let mut isp = Py32F0xxIsp::new(Device::new(vec![reply]));
    assert_eq!(isp.get_version(), Ok(0x31));
    assert_eq!(isp.into_inner().wire(), vec![0x01, 0xFE]);
}

#[test]
fn get_version_without_trailing_ack() {
    let reply = vec![0x79, 0x31, 0x00, 0x00, 0x1F];
    let mut isp = Py32F0xxIsp::new(Device::new(vec![reply]));
    assert_eq!(isp.get_version(), Err(Error::Parse));
    let reply = vec![0x79, 0x31, 0x00, 0x00, 0x00];
    let mut isp = Py32F0xxIsp::new(Device::new(vec![reply]));
    assert_eq!(isp.get_version(), Err(Error::Parse));
}

#[test]
fn get_id_is_big_endian() {
    let reply = vec![0x79, 0x01, 0x04, 0x40, 0x79];
    let mut isp = Py32F0xxIsp::new(Device::new(vec![reply]));
    assert_eq!(isp.get_id(), Ok(0x0440));
    assert_eq!(isp.into_inner().wire(), vec![0x02, 0xFD]);
}

#[test]
fn get_id_short_reply_is_no_complete() {
    let reply = vec![0x79, 0x01, 0x04];
    let mut isp = Py32F0xxIsp::new(Device::new(vec![reply]));
    assert_eq!(isp.get_id(), Err(Error::NoComplete));
}

#[test]
fn get_reply_of_ack_only_is_no_complete() {
    let mut isp = Py32F0xxIsp::new(Device::new(vec![vec![0x79]]));
    assert_eq!(isp.get(), Err(Error::NoComplete));
}

#[test]
fn get_reply_cut_short_is_no_complete() {
    let mut isp = Py32F0xxIsp::new(Device::new(vec![vec![0x79, 0x03, 0x10, 0x00]]));
    assert_eq!(isp.get(), Err(Error::NoComplete));
}

#[test]
fn refused_go_sends_no_address() {
    let mut isp = Py32F0xxIsp::new(Device::new(vec![vec![NACK], vec![ACK]]));
    assert_eq!(isp.go(CODE_ADDR), Err(Error::NoAck));
    assert_eq!(isp.into_inner().wire(), vec![0x21, 0xDE]);
}

#[test]
fn refused_read_unlock_sends_only_the_command() {
    let mut isp = Py32F0xxIsp::new(Device::new(vec![vec![NACK]]));
    assert_eq!(isp.read_unlock(), Err(Error::NoAck));
    assert_eq!(isp.into_inner().wire(), vec![0x92, 0x6D]);
}

#[test]
fn unexpected_reply_drains_at_most_ten_bytes() {
    let mut reply = vec![0x42];
    reply.extend(vec![0x00u8; 12]);
    let mut isp = Py32F0xxIsp::new(Device::new(vec![reply]));
    assert_eq!(isp.go(CODE_ADDR), Err(Error::NoAck));
    assert_eq!(isp.into_inner().pending.len(), 2);
}

#[test]
fn read_flash_timeout_on_block_is_no_reply() {
    let mut replies = acks(3);
    replies[2] = vec![ACK, 1, 2];
    let mut isp = Py32F0xxIsp::new(Device::new(replies));
    let mut buf = [0u8; 8];
    assert_eq!(isp.read_flash(CODE_ADDR, &mut buf), Err(Error::NoReply));
    assert_eq!(isp.into_inner().frames.len(), 3);
}

#[test]
fn write_flash_empty_sends_nothing() {
    let mut isp = Py32F0xxIsp::new(Device::new(vec![]));
    assert_eq!(isp.write_flash(CODE_ADDR, &[]), Ok(()));
    assert!(isp.into_inner().frames.is_empty());
}

#[test]
fn write_flash_300_bytes_in_three_blocks() {
    let data: Vec<u8> = (0..300u32).map(|i| (i * 7) as u8).collect();
    let mut isp = Py32F0xxIsp::new(Device::new(acks(9)));
    assert_eq!(isp.write_flash(0x0800_0000, &data), Ok(()));
    let dev = isp.into_inner();
    assert_eq!(dev.frames.len(), 9);
    let bases = [0x0800_0000u32, 0x0800_0080, 0x0800_0100];
    let lens = [128usize, 128, 44];
    let mut off = 0;
    for k in 0..3 {
        assert_eq!(dev.frames[3 * k], command_frame(0x31));
        assert_eq!(dev.frames[3 * k + 1], address_frame(bases[k]));
        assert_eq!(dev.frames[3 * k + 2], data_frame(&data[off..off + lens[k]]));
        assert_eq!(dev.frames[3 * k + 2].len(), lens[k] + 2);
        off += lens[k];
    }
}

#[test]
fn write_flash_stops_at_first_failed_block() {
    let mut replies = acks(3);
    replies.push(vec![NACK]);
    let data = vec![0u8; 300];
    let mut isp = Py32F0xxIsp::new(Device::new(replies));
    assert_eq!(isp.write_flash(CODE_ADDR, &data), Err(Error::NoAck));
    assert_eq!(isp.into_inner().frames.len(), 4);
}

#[test]
fn write_flash_past_address_space_is_address() {
    let mut isp = Py32F0xxIsp::new(Device::new(acks(9)));
    assert_eq!(isp.write_flash(0xFFFF_FFF0, &[0u8; 17]), Err(Error::Address));
    assert!(isp.into_inner().frames.is_empty());
}

#[test]
fn read_flash_fills_buffer_block_by_block() {
    let data: Vec<u8> = (0..200u32).map(|i| (i * 3 + 1) as u8).collect();
    let mut replies = acks(2);
    replies.push([vec![ACK], data[..128].to_vec()].concat());
    replies.extend(acks(2));
    replies.push([vec![ACK], data[128..].to_vec()].concat());
    let mut isp = Py32F0xxIsp::new(Device::new(replies));
    let mut buf = [0u8; 200];
    assert_eq!(isp.read_flash(0x0800_0000, &mut buf), Ok(()));
    assert_eq!(&buf[..], &data[..]);
    let dev = isp.into_inner();
    assert_eq!(dev.frames[0], vec![0x11, 0xEE]);
    assert_eq!(dev.frames[1], address_frame(0x0800_0000));
    assert_eq!(dev.frames[2], vec![127, 128]);
    assert_eq!(dev.frames[4], address_frame(0x0800_0080));
    assert_eq!(dev.frames[5], vec![71, 184]);
}

#[test]
fn read_flash_empty_sends_nothing() {
    let mut isp = Py32F0xxIsp::new(Device::new(vec![]));
    let mut buf: [u8; 0] = [];
    assert_eq!(isp.read_flash(CODE_ADDR, &mut buf), Ok(()));
    assert!(isp.into_inner().frames.is_empty());
}

#[test]
fn read_option_reads_sixteen_bytes() {
    let opts = vec![0xAA, 0xBE, 0x55, 0x41, 0xFF, 0x00, 0x00, 0xFF, 0xFF, 0xFF, 0xFF, 0xFF, 0xFF, 0xFF, 0x00, 0x00];
    let mut replies = acks(2);
    replies.push([vec![ACK], opts.clone()].concat());
    let mut isp = Py32F0xxIsp::new(Device::new(replies));
    assert_eq!(isp.read_option().map(|b| b.to_vec()), Ok(opts));
    let dev = isp.into_inner();
    assert_eq!(dev.frames[1], address_frame(OPTION_ADDR));
    assert_eq!(dev.frames[2], vec![15, 0xF0]);
}

#[test]
fn handshake_gives_up_after_ten_attempts() {
    let mut ctl = HandshakeController::new();
    for _ in 0..9 {
        assert_eq!(ctl.next(Err(Error::NoReply)), HandshakeStep::Retry);
    }
    assert_eq!(ctl.next(Err(Error::NoAck)), HandshakeStep::Failed);
    assert_eq!(ctl.attempts(), HANDSHAKE_ATTEMPTS);
    assert_eq!(ctl.next(Ok(())), HandshakeStep::Failed);
}

#[test]
fn handshake_aborts_on_broken_link() {
    let mut ctl = HandshakeController::new();
    assert_eq!(ctl.next(Err(Error::NoReply)), HandshakeStep::Retry);
    assert_eq!(ctl.next(Err(Error::Serial)), HandshakeStep::Failed);
    assert_eq!(ctl.attempts(), 2);
}

#[test]
fn handshake_connects_on_ack() {
    let mut ctl = HandshakeController::new();
    assert_eq!(ctl.next(Err(Error::NoAck)), HandshakeStep::Retry);
    assert_eq!(ctl.next(Ok(())), HandshakeStep::Connected);
}

#[test]
fn handshake_loop_against_silent_device() {
    let mut isp = Py32F0xxIsp::new(Device::new(vec![]));
    let mut ctl = HandshakeController::new();
    let mut attempts = 0;
    loop {
        attempts += 1;
        match ctl.next(isp.hand_shake()) {
            HandshakeStep::Retry => continue,
            step => {
                assert_eq!(step, HandshakeStep::Failed);
                break;
            }
        }
    }
    assert_eq!(attempts, 10);
    assert_eq!(isp.into_inner().frames.len(), 10);
}

#[test]
fn get_id_nack_in_place_of_closing_ack() {
    let reply = vec![0x79, 0x01, 0x04, 0x40, NACK];
    let mut isp = Py32F0xxIsp::new(Device::new(vec![reply]));
    assert_eq!(isp.get_id(), Err(Error::Parse));
    let reply = vec![0x79, 0x01, 0x04, 0x40, 0x00];
    let mut isp = Py32F0xxIsp::new(Device::new(vec![reply]));
    assert_eq!(isp.get_id(), Err(Error::Parse));
}

#[test]
fn get_refused_command_is_no_ack() {
    let mut isp = Py32F0xxIsp::new(Device::new(vec![vec![NACK]]));
    assert_eq!(isp.get(), Err(Error::NoAck));
}

#[test]
fn get_version_missing_closing_byte_is_no_complete() {
    let reply = vec![0x79, 0x31, 0x00, 0x00];
    let mut isp = Py32F0xxIsp::new(Device::new(vec![reply]));
    assert_eq!(isp.get_version(), Err(Error::NoComplete));
}

#[test]
fn send_command_sends_opcode_and_complement() {
    for o in [0x00u8, 0x11, 0x7F, 0xFF] {
        let mut isp = Py32F0xxIsp::new(Device::new(acks(1)));
        assert_eq!(isp.send_command(o), Ok(()));
        assert_eq!(isp.into_inner().wire(), vec![o, o ^ 0xFF]);
    }
}

#[test]
fn check_ack_tells_nack_from_timeout() {
    let mut dev = Device::new(vec![]);
    dev.pending.push_back(NACK);
    let mut isp = Py32F0xxIsp::new(dev);
    assert_eq!(isp.check_ack(), Err(Error::NoAck));
    assert_eq!(isp.check_ack(), Err(Error::NoReply));
    assert!(isp.into_inner().frames.is_empty());
}
