//! Commands as the log carries them.

use murmur::command::{append, decode, delete, encode, get, put, Command, Op, UnknownOp};

#[test]
fn commands_round_trip_through_bytes() {
    for cmd in [
        get(b"k".to_vec()),
        put(b"k".to_vec(), b"v".to_vec(), 7, 3),
        append(b"k".to_vec(), b"v".to_vec(), 7, 4),
        delete(b"k".to_vec(), 7, 5),
    ] {
        let bytes = encode(&cmd);
        assert_eq!(decode(&bytes).unwrap(), cmd);
    }
}

#[test]
fn op_discriminants_are_recoverable() {
    let cmd = append(b"x".to_vec(), b"1".to_vec(), 1, 1);
    assert_eq!(Op::try_from(cmd.op), Ok(Op::Append));
}

#[test]
fn every_number_stands_for_its_op() {
    for op in [Op::Get, Op::Put, Op::Delete, Op::Append] {
        assert_eq!(Op::try_from(op.number()), Ok(op));
    }
    assert_eq!(Op::try_from(4), Err(UnknownOp(4)));
    assert_eq!(Op::try_from(-1), Err(UnknownOp(-1)));
}

fn extreme() -> Command {
    Command {
        op: -1,
        key: vec![0x80; 300],
        value: vec![0],
        client_id: u64::MAX,
        seq: 128,
        nonce: 127,
    }
}

#[test]
fn extreme_values_round_trip() {
    let bytes = encode(&extreme());
    assert_eq!(decode(&bytes).unwrap(), extreme());
}

#[test]
fn the_byte_form_of_a_command_is_fixed() {
    let cmd = put(b"k".to_vec(), b"vv".to_vec(), 300, 1);
    let bytes = vec![
        0x08, 0x01, // op
        0x12, 0x01, b'k', // key
        0x1a, 0x02, b'v', b'v', // value
        0x20, 0xac, 0x02, // client_id
        0x28, 0x01, // seq
    ];
    assert_eq!(encode(&cmd), bytes);
    assert_eq!(decode(&bytes).unwrap(), cmd);
    // Nothing is written for what is 0 or empty.
    assert_eq!(encode(&get(Vec::new())), Vec::<u8>::new());
    assert_eq!(decode(&[]).unwrap(), get(Vec::new()));
    // A negative number is sign-extended to ten bytes.
    let negative = Command { op: -1, ..get(Vec::new()) };
    assert_eq!(
        encode(&negative),
        vec![0x08, 0xff, 0xff, 0xff, 0xff, 0xff, 0xff, 0xff, 0xff, 0xff, 0x01]
    );
}

#[test]
fn the_last_of_repeated_fields_counts() {
    let twice = vec![0x12, 0x01, b'a', 0x28, 0x01, 0x12, 0x01, b'b', 0x28, 0x02];
    let cmd = decode(&twice).unwrap();
    assert_eq!(cmd.key, b"b".to_vec());
    assert_eq!(cmd.seq, 2);
}

#[test]
fn unknown_fields_of_every_type_are_passed_over() {
    let known = encode(&put(b"k".to_vec(), b"v".to_vec(), 7, 3));
    let unknown: Vec<Vec<u8>> = vec![
        vec![0x38, 0x96, 0x01],                         // 7, varint
        vec![0x39, 1, 2, 3, 4, 5, 6, 7, 8],             // 7, eight bytes
        vec![0x3a, 0x02, 0xff, 0xff],                   // 7, bytes
        vec![0x3d, 1, 2, 3, 4],                         // 7, four bytes
        vec![0x3b, 0x08, 0x01, 0x3c],                   // 7, a group
        vec![0x3b, 0x43, 0x44, 0x3c],                   // 7, a group in a group
    ];
    for field in unknown {
        let mut before = field.clone();
        before.extend_from_slice(&known);
        assert_eq!(decode(&before).unwrap(), put(b"k".to_vec(), b"v".to_vec(), 7, 3));
        let mut after = known.clone();
        after.extend_from_slice(&field);
        assert_eq!(decode(&after).unwrap(), put(b"k".to_vec(), b"v".to_vec(), 7, 3));
    }
}

#[test]
fn groups_nest_a_hundred_deep() {
    let nested = |depth: usize| {
        let mut bytes = vec![0x3b; depth];
        bytes.extend(vec![0x3c; depth]);
        bytes
    };
    let mut command = nested(100);
    command.extend(encode(&get(b"k".to_vec())));
    assert_eq!(decode(&command).unwrap(), get(b"k".to_vec()));
    assert!(decode(&nested(101)).is_err());
    // The innermost of a hundred holds no field, not even a short one.
    let mut full = vec![0x3b; 100];
    full.extend([0x08, 0x01]);
    full.extend(vec![0x3c; 100]);
    assert!(decode(&full).is_err());
}

#[test]
fn malformed_commands_are_turned_down() {
    let bad: Vec<Vec<u8>> = vec![
        vec![0x80],                                     // a key that does not end
        vec![0x00],                                     // tag 0
        vec![0x0e],                                     // wire type 6
        vec![0x80, 0x80, 0x80, 0x80, 0x10],             // a key past 32 bits
        vec![0x08],                                     // no payload
        vec![0x0a, 0x00],                               // op as bytes
        vec![0x10, 0x00],                               // key as a varint
        vec![0x12, 0x05, b'a'],                         // too short
        vec![0x22, 0x00],                               // client_id as bytes
        vec![0x28, 0xff, 0xff, 0xff, 0xff, 0xff, 0xff, 0xff, 0xff, 0xff, 0x02],
        vec![0x28, 0xff, 0xff, 0xff, 0xff, 0xff, 0xff, 0xff, 0xff, 0xff, 0xff, 0x01],
        vec![0x38, 0x80],                               // 7, a varint that does not end
        vec![0x39, 1, 2, 3],                            // 7, fewer than eight bytes
        vec![0x3a, 0x03, 0x00],                         // 7, too short
        vec![0x3b, 0x08, 0x01],                         // 7, a group without an end
        vec![0x3b, 0x44],                               // 7, a group with another's end
        vec![0x3c],                                     // 7, an end without a start
        vec![0x3d, 1],                                  // 7, fewer than four bytes
    ];
    for bytes in bad {
        let e = decode(&bytes).unwrap_err();
        assert!(e.description.starts_with("failed to decode Protobuf message"));
    }
    // A varint may be longer than it needs to be.
    assert_eq!(decode(&[0x28, 0x81, 0x80, 0x00]).unwrap().seq, 1);
    // The greatest number takes all ten bytes.
    let full = [0x28, 0xff, 0xff, 0xff, 0xff, 0xff, 0xff, 0xff, 0xff, 0xff, 0x01];
    assert_eq!(decode(&full).unwrap().seq, u64::MAX);
    // Only the low half of an op counts.
    assert_eq!(decode(&[0x08, 0x83, 0x80, 0x80, 0x80, 0x10]).unwrap().op, 3);
}
