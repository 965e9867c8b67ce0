//! The B2 frame parser, its integrity checks, its streaming behaviour,
//! and the proposal grammar.

use plusendi::crc16::Crc16;
use plusendi::fbb::b2_message_block;
use plusendi::fbb::fbb_proposal;
use plusendi::fbb::handshake_banner;
use plusendi::fbb::selection;
use plusendi::fbb::winlink_proposal;
use plusendi::fbb::FrameError;
use plusendi::fbb::MessageChoice;
use plusendi::fbb::MessageType;
use plusendi::lzhuf::Encoder;

fn crc16_bytes(data: &[u8]) -> u16 {
    let mut crc = Crc16::new();
    for &b in data {
        crc.update(b);
    }
    crc.finish()
}

/// Wrap a compressed payload into one B2 frame.
fn build_frame(title: &[u8], offset: &[u8], uncompressed_size: u32, payload: &[u8]) -> Vec<u8> {
    let mut out = Vec::new();
    out.push(0x01);
    out.push((title.len() + 1 + offset.len() + 1) as u8);
    out.extend_from_slice(title);
    out.push(0);
    out.extend_from_slice(offset);
    out.push(0);

    let mut content = Vec::new();
    let mut checked = Vec::new();
    checked.extend_from_slice(&uncompressed_size.to_le_bytes());
    checked.extend_from_slice(payload);
    let crc = crc16_bytes(&checked);
    content.extend_from_slice(&crc.to_le_bytes());
    content.extend_from_slice(&checked);

    let mut sum: u8 = 0;
    for chunk in content.chunks(250) {
        out.push(0x02);
        out.push(chunk.len() as u8);
        out.extend_from_slice(chunk);
        for &b in chunk {
            sum = sum.wrapping_add(b);
        }
    }
    out.push(0x04);
    out.push(0u8.wrapping_sub(sum));
    out
}

#[test]
fn frame_round_trip() {
    let text = b"QTC 1 R KC1GSL 21 BILLERICA MA DEC 3 BOB SPARKES KC1KVY AR".to_vec();
    let mut encoder = Encoder::new();
    encoder.encode(&text);
    let payload = encoder.finish();
    let frame = build_frame(b"TEST MESSAGE", b"0", text.len() as u32, &payload);

    let (msg, used) = b2_message_block(&frame).unwrap();
    assert_eq!(used, frame.len());
    assert_eq!(msg.title, b"TEST MESSAGE".to_vec());
    assert_eq!(msg.offset, 0);
    assert_eq!(msg.uncompressed_size, text.len() as u32);
    let plain = msg.decompress().unwrap();
    assert_eq!(plain, text);
}

#[test]
fn frame_streaming_incomplete() {
    let text = b"STREAMING FRAMES ARRIVE IN PIECES".to_vec();
    let mut encoder = Encoder::new();
    encoder.encode(&text);
    let payload = encoder.finish();
    let frame = build_frame(b"PARTS", b"0", text.len() as u32, &payload);

    // nothing yet
    assert_eq!(
        b2_message_block(&Vec::new()),
        Err(FrameError::Incomplete { needed: 1 })
    );

    // header cut short: the missing header bytes are demanded
    let hlen = 2 + frame[1] as usize;
    let cut = frame[..3].to_vec();
    assert_eq!(
        b2_message_block(&cut),
        Err(FrameError::Incomplete { needed: hlen - 3 })
    );

    // a block cut mid-way: the rest of the block is demanded
    let block_len = frame[hlen + 1] as usize;
    let cut = frame[..hlen + 2 + 5].to_vec();
    assert_eq!(
        b2_message_block(&cut),
        Err(FrameError::Incomplete { needed: block_len - 5 })
    );

    // cut exactly on a block boundary: one more byte is demanded
    let cut = frame[..hlen + 2 + block_len].to_vec();
    assert_eq!(
        b2_message_block(&cut),
        Err(FrameError::Incomplete { needed: 1 })
    );

    // and the whole frame parses
    assert!(b2_message_block(&frame).is_ok());
}

#[test]
fn frame_checksum_mismatch() {
    let text = b"CHECKSUMS PROTECT FRAMES".to_vec();
    let mut encoder = Encoder::new();
    encoder.encode(&text);
    let payload = encoder.finish();
    let mut frame = build_frame(b"SUM", b"0", text.len() as u32, &payload);
    let last = frame.len() - 1;
    frame[last] = frame[last].wrapping_add(1);
    assert_eq!(b2_message_block(&frame), Err(FrameError::ChecksumMismatch));
}

#[test]
fn frame_crc_mismatch() {
    let text = b"THE CRC GUARDS THE PAYLOAD".to_vec();
    let mut encoder = Encoder::new();
    encoder.encode(&text);
    let payload = encoder.finish();
    let mut frame = build_frame(b"CRC", b"0", text.len() as u32, &payload);
    // flip a CRC bit and repair the 8-bit sum so only the CRC fails
    let hlen = 2 + frame[1] as usize;
    let crc_pos = hlen + 2;
    frame[crc_pos] = frame[crc_pos].wrapping_add(1);
    let last = frame.len() - 1;
    frame[last] = frame[last].wrapping_sub(1);
    assert_eq!(b2_message_block(&frame), Err(FrameError::Crc16Mismatch));
}

#[test]
fn frame_malformed_start() {
    let frame = vec![0x7fu8, 0x00, 0x00];
    assert_eq!(b2_message_block(&frame), Err(FrameError::Malformed));
}

#[test]
fn crc16_known_vector() {
    assert_eq!(crc16_bytes(b"123456789"), 0x2189);
}

#[test]
fn winlink_proposal_parse() {
    let line = b"FC EM TESTMSG01 00123 00089\r".to_vec();
    let (p, used) = winlink_proposal(&line).unwrap();
    assert_eq!(used, line.len());
    assert_eq!(p.message_id, b"TESTMSG01".to_vec());
    assert_eq!(p.uncompressed_message_size, 123);
    assert_eq!(p.compressed_message_size, 89);
    assert!(p.bqp_extension.is_none());
}

#[test]
fn winlink_proposal_with_extension() {
    let line = b"FC EM MSG42 00100 00050 KC1GSL MBOXFORWARD KW1U\r".to_vec();
    let (p, used) = winlink_proposal(&line).unwrap();
    assert_eq!(used, line.len());
    let ext = p.bqp_extension.unwrap();
    assert_eq!(ext.sender, b"KC1GSL".to_vec());
    assert_eq!(ext.addressee.mbo, b"MBOXFORWARD".to_vec());
    assert_eq!(ext.addressee.recipient, b"KW1U".to_vec());
}

#[test]
fn fbb_proposal_parse() {
    let line = b"FA P KC1GSL MAILBOX KW1U MSGID00001 01234\r".to_vec();
    let (p, used) = fbb_proposal(&line).unwrap();
    assert_eq!(used, line.len());
    assert_eq!(p.message_type, MessageType::Private);
    assert_eq!(p.sender, b"KC1GSL".to_vec());
    assert_eq!(p.addressee.mbo, b"MAILBOX".to_vec());
    assert_eq!(p.addressee.recipient, b"KW1U".to_vec());
    assert_eq!(p.message_id, b"MSGID00001".to_vec());
    assert_eq!(p.message_size, 1234);
}

#[test]
fn selection_parse_batch_of_four() {
    let line = b"FS +=-N\r".to_vec();
    let (choices, _) = selection(&line, 4).unwrap();
    assert_eq!(
        choices,
        vec![
            MessageChoice::Accept { offset: 0 },
            MessageChoice::Defer,
            MessageChoice::Reject,
            MessageChoice::Reject,
        ]
    );
}

#[test]
fn selection_parse_resume_offset() {
    let line = b"FS A123+\r".to_vec();
    let (choices, _) = selection(&line, 2).unwrap();
    assert_eq!(
        choices,
        vec![
            MessageChoice::Accept { offset: 123 },
            MessageChoice::Accept { offset: 0 },
        ]
    );
}

#[test]
fn selection_rejects_garbage() {
    let line = b"FS ?\r".to_vec();
    assert!(selection(&line, 1).is_none());
}

#[test]
fn banner_bytes() {
    let ident = b"plusendi-0.1.0".to_vec();
    let banner = handshake_banner(&ident);
    assert_eq!(banner, b"[plusendi-0.1.0-B2FWIHJM$]\rFF\r".to_vec());
}
