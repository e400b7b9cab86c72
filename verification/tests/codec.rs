use matchx::codec::{decode, encode, JournalError};
use matchx::record::{encode_record, frame_record, open_record, read_payload_len};
use matchx::types::{Command, OrderId, OrderType, Side, TimeInForce};

fn new_order(
    order_type: OrderType,
    time_in_force: TimeInForce,
    visible_qty: Option<u64>,
    stop_price: Option<u64>,
    stp_group: Option<u32>,
) -> Command {
    Command::NewOrder {
        id: OrderId(0x0102030405060708),
        instrument_id: 0x0a0b0c0d,
        side: Side::Ask,
        price: 3,
        qty: 5,
        order_type,
        time_in_force,
        visible_qty,
        stop_price,
        stp_group,
    }
}

#[test]
fn commands_have_exact_bytes() {
    assert_eq!(
        encode(&Command::CancelOrder { id: OrderId(42) }),
        vec![1, 42, 0, 0, 0, 0, 0, 0, 0]
    );
    assert_eq!(
        encode(&Command::ModifyOrder {
            id: OrderId(1),
            new_price: 256,
            new_qty: 2
        }),
        vec![2, 1, 0, 0, 0, 0, 0, 0, 0, 0, 1, 0, 0, 0, 0, 0, 0, 2, 0, 0, 0, 0, 0, 0, 0]
    );
    assert_eq!(
        encode(&new_order(OrderType::Iceberg, TimeInForce::FOK, Some(7), None, Some(9))),
        vec![
            0, 8, 7, 6, 5, 4, 3, 2, 1, 0x0d, 0x0c, 0x0b, 0x0a, 1, 3, 0, 0, 0, 0, 0, 0, 0, 5, 0, 0, 0,
            0, 0, 0, 0, 4, 2, 1, 7, 0, 0, 0, 0, 0, 0, 0, 0, 1, 9, 0, 0, 0,
        ]
    );
}

#[test]
fn every_command_is_decoded_from_its_bytes() {
    let mut commands = vec![
        Command::CancelOrder { id: OrderId(u64::MAX) },
        Command::ModifyOrder { id: OrderId(0), new_price: u64::MAX, new_qty: 0 },
    ];
    let types = [
        OrderType::Limit,
        OrderType::Market,
        OrderType::PostOnly,
        OrderType::StopLimit,
        OrderType::Iceberg,
    ];
    let times = [TimeInForce::GTC, TimeInForce::IOC, TimeInForce::FOK];
    for order_type in types {
        for time_in_force in times {
            for mask in 0..8u32 {
                commands.push(new_order(
                    order_type,
                    time_in_force,
                    if mask & 1 != 0 { Some(u64::MAX) } else { None },
                    if mask & 2 != 0 { Some(1) } else { None },
                    if mask & 4 != 0 { Some(u32::MAX) } else { None },
                ));
            }
        }
    }
    for cmd in commands {
        let mut bytes = encode(&cmd);
        assert_eq!(decode(&bytes), Ok(cmd));
        bytes.push(0xAB);
        assert_eq!(decode(&bytes), Ok(cmd));
        bytes.truncate(bytes.len() - 2);
        assert_eq!(decode(&bytes), Err(JournalError::InvalidData));
    }
}

#[test]
fn bytes_that_are_no_command_are_invalid() {
    assert_eq!(decode(&[]), Err(JournalError::InvalidData));
    assert_eq!(decode(&[3, 0, 0, 0, 0, 0, 0, 0, 0]), Err(JournalError::InvalidData));
    let good = encode(&new_order(OrderType::Limit, TimeInForce::GTC, None, None, None));
    for (at, value) in [(13, 2u8), (30, 5), (31, 3), (32, 2), (33, 2), (34, 2)] {
        let mut bad = good.clone();
        bad[at] = value;
        assert_eq!(decode(&bad), Err(JournalError::InvalidData), "byte {}", at);
    }
}

#[test]
fn records_carry_length_sequence_payload_and_checksum() {
    let cmd = Command::CancelOrder { id: OrderId(42) };
    let expected = vec![
        9, 0, 0, 0, 1, 0, 0, 0, 0, 0, 0, 0, 1, 42, 0, 0, 0, 0, 0, 0, 0, 0x78, 0x56, 0x34, 0x12,
    ];
    assert_eq!(frame_record(1, &cmd, 0x12345678), expected);
    assert_eq!(open_record(&expected, 0x12345678), Ok((1, cmd, 25)));
    assert_eq!(open_record(&expected, 0x12345679), Err(JournalError::CrcMismatch));
    assert_eq!(read_payload_len(&expected), Ok(9));
    assert_eq!(read_payload_len(&expected[..24]), Err(JournalError::InvalidData));
    assert_eq!(read_payload_len(&expected[..3]), Err(JournalError::InvalidData));
}

#[test]
fn the_checksum_is_crc32_of_sequence_and_payload() {
    let cmd = Command::CancelOrder { id: OrderId(42) };
    let record = encode_record(1, &cmd);
    let covered = &record[4..record.len() - 4];
    let mut crc: u32 = 0xFFFF_FFFF;
    for byte in covered {
        crc ^= *byte as u32;
        for _ in 0..8 {
            crc = if crc & 1 != 0 { (crc >> 1) ^ 0xEDB8_8320 } else { crc >> 1 };
        }
    }
    crc = !crc;
    assert_eq!(&record[record.len() - 4..], &crc.to_le_bytes());
    assert_eq!(record, frame_record(1, &cmd, crc));
}

#[test]
fn a_record_whose_payload_is_no_command_is_invalid() {
    let cmd = Command::CancelOrder { id: OrderId(42) };
    let mut record = frame_record(1, &cmd, 5);
    record[12] = 9;
    assert_eq!(open_record(&record, 5), Err(JournalError::InvalidData));
}
