use py32_isp::chunk::{plan_chunks, Chunk};
use py32_isp::codec::{address_frame, command_frame, data_frame, fold_xor};
use py32_isp::command::{check_supported, Command, CMD_READ, CMD_WRITE};
use py32_isp::reply::{parse_get, Reply};
use py32_isp::Error;

#[test]
fn command_frame_is_opcode_and_complement() {
    for o in [0x00u8, 0x01, 0x02, 0x11, 0x21, 0x31, 0x44, 0x63, 0x73, 0x82, 0x92, 0xFF] {
        assert_eq!(command_frame(o), vec![o, o ^ 0xFF]);
    }
    assert_eq!(command_frame(0x11), vec![0x11, 0xEE]);
}

#[test]
fn address_frame_of_code_base() {
    assert_eq!(address_frame(0x0800_0000), vec![0x08, 0x00, 0x00, 0x00, 0x08]);
}

#[test]
fn address_frame_parity_is_xor_of_bytes() {
    let f = address_frame(0x1FFF_0E80);
    assert_eq!(f, vec![0x1F, 0xFF, 0x0E, 0x80, 0x1F ^ 0xFF ^ 0x0E ^ 0x80]);
    let g = address_frame(0x1234_5678);
    assert_eq!(g, vec![0x12, 0x34, 0x56, 0x78, 0x12 ^ 0x34 ^ 0x56 ^ 0x78]);
}

#[test]
fn data_frame_layout() {
    assert_eq!(data_frame(&[0x01, 0x02, 0x03]), vec![0x02, 0x01, 0x02, 0x03, 0x02]);
    assert_eq!(data_frame(&[0xAB]), vec![0x00, 0xAB, 0xAB]);
}

#[test]
fn data_frame_of_full_block() {
    let block: Vec<u8> = (0..128u32).map(|i| i as u8).collect();
    let f = data_frame(&block);
    assert_eq!(f.len(), 130);
    assert_eq!(f[0], 127);
    assert_eq!(&f[1..129], &block[..]);
    let mut x: u8 = 127;
    for b in &block {
        x ^= *b;
    }
    assert_eq!(f[129], x);
}

#[test]
fn fold_xor_of_bytes() {
    assert_eq!(fold_xor(0, &[]), 0);
    assert_eq!(fold_xor(0x0F, &[0xF0, 0x01]), 0xFE);
}

#[test]
fn chunking_300_bytes_at_code_base() {
    let plan = plan_chunks(0x0800_0000, 300).unwrap();
    assert_eq!(
        plan,
        vec![
            Chunk { addr: 0x0800_0000, offset: 0, len: 128 },
            Chunk { addr: 0x0800_0080, offset: 128, len: 128 },
            Chunk { addr: 0x0800_0100, offset: 256, len: 44 },
        ]
    );
}

#[test]
fn chunking_edges() {
    assert_eq!(plan_chunks(0x2000_0000, 0).unwrap(), vec![]);
    assert_eq!(plan_chunks(0, 128).unwrap(), vec![Chunk { addr: 0, offset: 0, len: 128 }]);
    assert_eq!(plan_chunks(0xFFFF_FF00, 256).unwrap().len(), 2);
    assert_eq!(plan_chunks(0xFFFF_FF00, 257), Err(Error::Address));
    assert_eq!(plan_chunks(0xFFFF_FFFF, 2), Err(Error::Address));
}

#[test]
fn get_reply_parses() {
    let r = parse_get(&[0x79, 0x03, 0x10, 0x00, 0x01, 0x02, 0x79]);
    assert_eq!(r, Ok((0x10, vec![0x00, 0x01, 0x02])));
}

#[test]
fn get_reply_too_short() {
    assert_eq!(parse_get(&[]), Err(Error::NoComplete));
    assert_eq!(parse_get(&[0x79]), Err(Error::NoComplete));
}

#[test]
fn get_reply_without_leading_ack() {
    assert_eq!(parse_get(&[0x1F, 0x03, 0x10, 0x00, 0x01, 0x02, 0x79]), Err(Error::NoAck));
    assert_eq!(parse_get(&[0x1F]), Err(Error::NoAck));
}

#[test]
fn get_reply_length_mismatch() {
    assert_eq!(parse_get(&[0x79, 0x03, 0x10, 0x00, 0x01, 0x79]), Err(Error::NoComplete));
    assert_eq!(parse_get(&[0x79, 0x00, 0x10, 0x79, 0x79]), Err(Error::NoComplete));
}

#[test]
fn get_reply_without_trailing_ack() {
    assert_eq!(parse_get(&[0x79, 0x03, 0x10, 0x00, 0x01, 0x02, 0x1F]), Err(Error::Parse));
}

#[test]
fn get_reply_with_no_opcodes() {
    assert_eq!(parse_get(&[0x79, 0x00, 0x31, 0x79]), Ok((0x31, vec![])));
}

#[test]
fn reply_bytes_classify() {
    assert_eq!(Reply::classify(0x79), Reply::Ack);
    assert_eq!(Reply::classify(0x1F), Reply::Nack);
    assert_eq!(Reply::classify(0xAA), Reply::Busy);
    assert_eq!(Reply::classify(0x42), Reply::Unexpected(0x42));
}

#[test]
fn opcodes_round_trip() {
    let all = [
        Command::Get,
        Command::GetVersion,
        Command::GetId,
        Command::ReadMemory,
        Command::WriteMemory,
        Command::EraseMemory,
        Command::Go,
        Command::ReadUnlock,
        Command::ReadLock,
        Command::WriteLock,
        Command::WriteUnlock,
    ];
    for c in all {
        assert_eq!(Command::from_opcode(c.opcode()), Some(c));
        assert_eq!(u8::from(c), c.opcode());
    }
    assert_eq!(Command::ReadMemory.opcode(), CMD_READ);
    assert_eq!(Command::WriteMemory.opcode(), CMD_WRITE);
    assert_eq!(Command::ReadUnlock.opcode(), 0x92);
    assert_eq!(Command::ReadLock.opcode(), 0x82);
    assert_eq!(Command::from_opcode(0x55), None);
}

#[test]
fn commands_gate_on_advertised_opcodes() {
    let (_, ops) = parse_get(&[0x79, 0x03, 0x10, 0x00, 0x11, 0x31, 0x79]).unwrap();
    assert_eq!(check_supported(&ops, Command::ReadMemory), Ok(()));
    assert_eq!(check_supported(&ops, Command::WriteMemory), Ok(()));
    assert_eq!(check_supported(&ops, Command::Go), Err(Error::Unsupported));
    assert_eq!(check_supported(&[], Command::Get), Err(Error::Unsupported));
}
