use kip_db::{
    decode_command, encode_command, CommandData, CommandPackage, KvsError, MmapReader, MmapWriter,
};

#[test]
fn command_round_trip() {
    let cases = vec![
        CommandData::set(b"key".to_vec(), b"value".to_vec()),
        CommandData::set(Vec::new(), Vec::new()),
        CommandData::remove(b"gone".to_vec()),
        CommandData::get(b"asked".to_vec()),
    ];
    for c in cases {
        let bytes = encode_command(&c);
        let back = decode_command(&bytes).unwrap();
        match (&c, &back) {
            (
                CommandData::SetCmd { key: k1, value: v1 },
                CommandData::SetCmd { key: k2, value: v2 },
            ) => {
                assert_eq!(k1, k2);
                assert_eq!(v1, v2);
            },
            (CommandData::RemoveCmd { key: k1 }, CommandData::RemoveCmd { key: k2 }) => {
                assert_eq!(k1, k2)
            },
            (CommandData::GetCmd { key: k1 }, CommandData::GetCmd { key: k2 }) => {
                assert_eq!(k1, k2)
            },
            _ => panic!("decoded to a different command shape"),
        }
    }
}

#[test]
fn set_encoding_is_exact() {
    let c = CommandData::set(b"ab".to_vec(), b"xyz".to_vec());
    let bytes = encode_command(&c);
    assert_eq!(
        bytes,
        vec![1u8, 0, 0, 0, 2, b'a', b'b', 0, 0, 0, 3, b'x', b'y', b'z']
    );
}

#[test]
fn malformed_payloads_are_fatal() {
    assert!(matches!(decode_command(&vec![]), Err(KvsError::DecodeError)));
    assert!(matches!(decode_command(&vec![9, 0, 0, 0, 0]), Err(KvsError::DecodeError)));
    // A set whose trailing length does not match its payload.
    assert!(matches!(
        decode_command(&vec![1, 0, 0, 0, 1, b'k', 0, 0, 0, 9]),
        Err(KvsError::DecodeError)
    ));
    // A remove with trailing garbage.
    assert!(matches!(
        decode_command(&vec![2, 0, 0, 0, 1, b'k', b'!']),
        Err(KvsError::DecodeError)
    ));
}

#[test]
fn log_write_and_replay() {
    let mut wr = MmapWriter::new();
    let p1 = CommandPackage::write(&mut wr, &CommandData::set(b"a".to_vec(), b"1".to_vec()))
        .unwrap();
    let p2 = CommandPackage::write(&mut wr, &CommandData::remove(b"a".to_vec())).unwrap();
    assert!(p2 > p1);

    let mut reader = MmapReader::new(wr.bytes.clone());
    let pkgs = CommandPackage::form_read_to_vec(&mut reader).unwrap();
    assert_eq!(pkgs.len(), 2);
    match &pkgs[0].cmd {
        CommandData::SetCmd { key, value } => {
            assert_eq!(key, &b"a".to_vec());
            assert_eq!(value, &b"1".to_vec());
        },
        _ => panic!("first replayed command should be the set"),
    }
    match &pkgs[1].cmd {
        CommandData::RemoveCmd { key } => assert_eq!(key, &b"a".to_vec()),
        _ => panic!("second replayed command should be the remove"),
    }
}

#[test]
fn torn_tail_ends_replay_cleanly() {
    let mut wr = MmapWriter::new();
    CommandPackage::write(&mut wr, &CommandData::set(b"k".to_vec(), b"v".to_vec())).unwrap();
    let mut bytes = wr.bytes.clone();
    // A truncated record at the tail: a length prefix promising more bytes
    // than are present.
    bytes.extend_from_slice(&[0, 0, 0, 99, 1, 2, 3]);
    let (pkgs, consumed) = CommandPackage::scan_records(&bytes).unwrap();
    assert_eq!(pkgs.len(), 1);
    assert_eq!(consumed, wr.bytes.len());
}

#[test]
fn zero_length_prefix_ends_segment() {
    let mut wr = MmapWriter::new();
    CommandPackage::write(&mut wr, &CommandData::set(b"k".to_vec(), b"v".to_vec())).unwrap();
    let mut bytes = wr.bytes.clone();
    let end = bytes.len();
    bytes.extend_from_slice(&[0, 0, 0, 0]);
    // More complete records after the terminator are not read.
    bytes.extend_from_slice(&[0, 0, 0, 1, 9]);
    let reader = MmapReader::new(bytes);
    let payloads = reader.get_vec_bytes();
    assert_eq!(payloads.len(), 1);
    assert_eq!(payloads[0].len(), end - 4);
}

#[test]
fn corrupt_complete_record_is_fatal() {
    // A complete record whose payload is not a command.
    let bytes = vec![0, 0, 0, 2, 77, 77];
    assert!(matches!(CommandPackage::scan_records(&bytes), Err(KvsError::DecodeError)));
}

#[test]
fn form_pos_reads_one_record() {
    let mut wr = MmapWriter::new();
    CommandPackage::write(&mut wr, &CommandData::get(b"who".to_vec())).unwrap();
    let reader = MmapReader::new(wr.bytes.clone());
    let pkg = CommandPackage::form_pos(&reader, 4, wr.bytes.len()).unwrap();
    assert_eq!(pkg.pos, 4);
    assert_eq!(pkg.len, wr.bytes.len() - 4);
    match &pkg.cmd {
        CommandData::GetCmd { key } => assert_eq!(key, &b"who".to_vec()),
        _ => panic!("expected the get back"),
    }
    assert!(CommandPackage::form_pos(&reader, 4, wr.bytes.len() + 10).is_err());
}

#[test]
fn command_package_new_keeps_fields() {
    let pkg = CommandPackage::new(CommandData::get(b"k".to_vec()), 8, 21);
    assert_eq!(pkg.pos, 8);
    assert_eq!(pkg.len, 21);
}
