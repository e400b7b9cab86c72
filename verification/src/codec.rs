//! Binary form of commands and of journal records.
use crate::bytes::{
    lemma_byte_range, lemma_le_len, lemma_le_round_trip, le_bytes, le_value,
    push_u32, push_u64, read_u32, read_u64,
};
use crate::types::{Command, OrderId, OrderType, Side, TimeInForce};
use vstd::prelude::*;

verus! {

/// Errors of journal operations.
#[derive(Debug, Clone, Copy, PartialEq, Eq, Structural)]
pub enum JournalError {
    CrcMismatch,
    InvalidData,
    QueueFull,
    WriterStopped,
    WriterDegraded,
}

/// Number that stands for a side.
pub open spec fn side_code(side: Side) -> u8 {
    match side {
        Side::Bid => 0,
        Side::Ask => 1,
    }
}

/// Number that stands for an order type.
pub open spec fn order_type_code(order_type: OrderType) -> u8 {
    match order_type {
        OrderType::Limit => 0,
        OrderType::Market => 1,
        OrderType::PostOnly => 2,
        OrderType::StopLimit => 3,
        OrderType::Iceberg => 4,
    }
}

/// Number that stands for a time in force.
pub open spec fn tif_code(tif: TimeInForce) -> u8 {
    match tif {
        TimeInForce::GTC => 0,
        TimeInForce::IOC => 1,
        TimeInForce::FOK => 2,
    }
}

/// Bytes of an optional `u64`: a tag, and the integer where there is one.
pub open spec fn option_u64_bytes(v: Option<u64>) -> Seq<u8> {
    match v {
        None => seq![0u8],
        Some(x) => seq![1u8] + le_bytes(x as int, 8),
    }
}

/// Bytes of an optional `u32`: a tag, and the integer where there is one.
pub open spec fn option_u32_bytes(v: Option<u32>) -> Seq<u8> {
    match v {
        None => seq![0u8],
        Some(x) => seq![1u8] + le_bytes(x as int, 4),
    }
}

/// Bytes of a command:
///
/// - new order: `0`, identifier, instrument, side, price, quantity, order type,
///   time in force, and the optional visible quantity, stop price and
///   self-trade-prevention group;
/// - cancel: `1`, identifier;
/// - modify: `2`, identifier, new price, new quantity.
pub open spec fn command_bytes(cmd: Command) -> Seq<u8> {
    match cmd {
        Command::NewOrder {
            id,
            instrument_id,
            side,
            price,
            qty,
            order_type,
            time_in_force,
            visible_qty,
            stop_price,
            stp_group,
        } => seq![0u8] + le_bytes(id.0 as int, 8) + le_bytes(instrument_id as int, 4) + seq![
            side_code(side),
        ] + le_bytes(price as int, 8) + le_bytes(qty as int, 8) + seq![
            order_type_code(order_type),
            tif_code(time_in_force),
        ] + option_u64_bytes(visible_qty) + option_u64_bytes(stop_price) + option_u32_bytes(
            stp_group,
        ),
        Command::CancelOrder { id } => seq![1u8] + le_bytes(id.0 as int, 8),
        Command::ModifyOrder { id, new_price, new_qty } => seq![2u8] + le_bytes(id.0 as int, 8)
            + le_bytes(new_price as int, 8) + le_bytes(new_qty as int, 8),
    }
}

/// The side that a number stands for.
pub open spec fn side_of(code: u8) -> Option<Side> {
    match code {
        0 => Some(Side::Bid),
        1 => Some(Side::Ask),
        _ => None,
    }
}

/// The order type that a number stands for.
pub open spec fn order_type_of(code: u8) -> Option<OrderType> {
    match code {
        0 => Some(OrderType::Limit),
        1 => Some(OrderType::Market),
        2 => Some(OrderType::PostOnly),
        3 => Some(OrderType::StopLimit),
        4 => Some(OrderType::Iceberg),
        _ => None,
    }
}

/// The time in force that a number stands for.
pub open spec fn tif_of(code: u8) -> Option<TimeInForce> {
    match code {
        0 => Some(TimeInForce::GTC),
        1 => Some(TimeInForce::IOC),
        2 => Some(TimeInForce::FOK),
        _ => None,
    }
}

/// The `u64` at `pos`.
pub open spec fn u64_at(bytes: Seq<u8>, pos: int) -> u64 {
    le_value(bytes.subrange(pos, pos + 8)) as u64
}

/// The `u32` at `pos`.
pub open spec fn u32_at(bytes: Seq<u8>, pos: int) -> u32 {
    le_value(bytes.subrange(pos, pos + 4)) as u32
}

/// The optional `u64` at `pos` and the position after it, where there is one.
pub open spec fn option_u64_at(bytes: Seq<u8>, pos: int) -> Option<(Option<u64>, int)> {
    if pos < bytes.len() && bytes[pos] == 0 {
        Some((None, pos + 1))
    } else if pos + 9 <= bytes.len() && bytes[pos] == 1 {
        Some((Some(u64_at(bytes, pos + 1)), pos + 9))
    } else {
        None
    }
}

/// The optional `u32` at `pos`, where there is one.
pub open spec fn option_u32_at(bytes: Seq<u8>, pos: int) -> Option<Option<u32>> {
    if pos < bytes.len() && bytes[pos] == 0 {
        Some(None)
    } else if pos + 5 <= bytes.len() && bytes[pos] == 1 {
        Some(Some(u32_at(bytes, pos + 1)))
    } else {
        None
    }
}

/// The command that `bytes` start with, if they start with one.
pub open spec fn command_of(bytes: Seq<u8>) -> Option<Command> {
    if bytes.len() == 0 {
        None
    } else if bytes[0] == 0 {
        new_order_of(bytes)
    } else if bytes[0] == 1 && bytes.len() >= 9 {
        Some(Command::CancelOrder { id: OrderId(u64_at(bytes, 1)) })
    } else if bytes[0] == 2 && bytes.len() >= 25 {
        Some(
            Command::ModifyOrder {
                id: OrderId(u64_at(bytes, 1)),
                new_price: u64_at(bytes, 9),
                new_qty: u64_at(bytes, 17),
            },
        )
    } else {
        None
    }
}

/// The new order that `bytes` start with, if they start with one.
pub open spec fn new_order_of(bytes: Seq<u8>) -> Option<Command> {
    if bytes.len() < 32 {
        None
    } else {
        match (side_of(bytes[13]), order_type_of(bytes[30]), tif_of(bytes[31])) {
            (Some(side), Some(order_type), Some(time_in_force)) => match option_u64_at(bytes, 32) {
                Some((visible_qty, second)) => match option_u64_at(bytes, second) {
                    Some((stop_price, third)) => match option_u32_at(bytes, third) {
                        Some(stp_group) => Some(
                            Command::NewOrder {
                                id: OrderId(u64_at(bytes, 1)),
                                instrument_id: u32_at(bytes, 9),
                                side,
                                price: u64_at(bytes, 14),
                                qty: u64_at(bytes, 22),
                                order_type,
                                time_in_force,
                                visible_qty,
                                stop_price,
                                stp_group,
                            },
                        ),
                        None => None,
                    },
                    None => None,
                },
                None => None,
            },
            _ => None,
        }
    }
}

/// Appends the bytes of an optional `u64`.
#[inline]
fn push_option_u64(buf: &mut Vec<u8>, v: Option<u64>)
    ensures
        final(buf)@ == old(buf)@ + option_u64_bytes(v),
{
    match v {
        None => {
            buf.push(0);
            assert(buf@ =~= old(buf)@ + option_u64_bytes(v));
        },
        Some(x) => {
            buf.push(1);
            push_u64(buf, x);
            assert(buf@ =~= old(buf)@ + option_u64_bytes(v));
        },
    }
}

/// Appends the bytes of an optional `u32`.
#[inline]
fn push_option_u32(buf: &mut Vec<u8>, v: Option<u32>)
    ensures
        final(buf)@ == old(buf)@ + option_u32_bytes(v),
{
    match v {
        None => {
            buf.push(0);
            assert(buf@ =~= old(buf)@ + option_u32_bytes(v));
        },
        Some(x) => {
            buf.push(1);
            push_u32(buf, x);
            assert(buf@ =~= old(buf)@ + option_u32_bytes(v));
        },
    }
}

/// Number that stands for a side.
fn encode_side(side: Side) -> (code: u8)
    ensures
        code == side_code(side),
{
    match side {
        Side::Bid => 0,
        Side::Ask => 1,
    }
}

/// Number that stands for an order type.
fn encode_order_type(order_type: OrderType) -> (code: u8)
    ensures
        code == order_type_code(order_type),
{
    match order_type {
        OrderType::Limit => 0,
        OrderType::Market => 1,
        OrderType::PostOnly => 2,
        OrderType::StopLimit => 3,
        OrderType::Iceberg => 4,
    }
}

/// Number that stands for a time in force.
fn encode_tif(tif: TimeInForce) -> (code: u8)
    ensures
        code == tif_code(tif),
{
    match tif {
        TimeInForce::GTC => 0,
        TimeInForce::IOC => 1,
        TimeInForce::FOK => 2,
    }
}

/// The bytes of a command.
pub fn encode(cmd: &Command) -> (bytes: Vec<u8>)
    ensures
        bytes@ == command_bytes(*cmd),
{
    let mut buf: Vec<u8> = Vec::with_capacity(64);
    match cmd {
        Command::NewOrder {
            id,
            instrument_id,
            side,
            price,
            qty,
            order_type,
            time_in_force,
            visible_qty,
            stop_price,
            stp_group,
        } => {
            buf.push(0);
            push_u64(&mut buf, id.0);
            push_u32(&mut buf, *instrument_id);
            buf.push(encode_side(*side));
            push_u64(&mut buf, *price);
            push_u64(&mut buf, *qty);
            buf.push(encode_order_type(*order_type));
            buf.push(encode_tif(*time_in_force));
            push_option_u64(&mut buf, *visible_qty);
            push_option_u64(&mut buf, *stop_price);
            push_option_u32(&mut buf, *stp_group);
        },
        Command::CancelOrder { id } => {
            buf.push(1);
            push_u64(&mut buf, id.0);
        },
        Command::ModifyOrder { id, new_price, new_qty } => {
            buf.push(2);
            push_u64(&mut buf, id.0);
            push_u64(&mut buf, *new_price);
            push_u64(&mut buf, *new_qty);
        },
    }
    assert(buf@ =~= command_bytes(*cmd));
    buf
}

/// The side that a number stands for.
fn decode_side(b: u8) -> (side: Result<Side, JournalError>)
    ensures
        side == (match side_of(b) {
            Some(side) => Ok(side),
            None => Err(JournalError::InvalidData),
        }),
{
    match b {
        0 => Ok(Side::Bid),
        1 => Ok(Side::Ask),
        _ => Err(JournalError::InvalidData),
    }
}

/// The order type that a number stands for.
fn decode_order_type(b: u8) -> (order_type: Result<OrderType, JournalError>)
    ensures
        order_type == (match order_type_of(b) {
            Some(order_type) => Ok(order_type),
            None => Err(JournalError::InvalidData),
        }),
{
    match b {
        0 => Ok(OrderType::Limit),
        1 => Ok(OrderType::Market),
        2 => Ok(OrderType::PostOnly),
        3 => Ok(OrderType::StopLimit),
        4 => Ok(OrderType::Iceberg),
        _ => Err(JournalError::InvalidData),
    }
}

/// The time in force that a number stands for.
fn decode_tif(b: u8) -> (tif: Result<TimeInForce, JournalError>)
    ensures
        tif == (match tif_of(b) {
            Some(tif) => Ok(tif),
            None => Err(JournalError::InvalidData),
        }),
{
    match b {
        0 => Ok(TimeInForce::GTC),
        1 => Ok(TimeInForce::IOC),
        2 => Ok(TimeInForce::FOK),
        _ => Err(JournalError::InvalidData),
    }
}

/// The optional `u64` at `pos` and the position after it.
fn read_option_u64(bytes: &[u8], pos: usize) -> (read: Result<(Option<u64>, usize), JournalError>)
    ensures
        match option_u64_at(bytes@, pos as int) {
            Some((v, next)) => read matches Ok((x, after)) && x == v && after == next,
            None => read == Err::<(Option<u64>, usize), _>(JournalError::InvalidData),
        },
{
    let len: usize = bytes.len();
    if pos >= len {
        return Err(JournalError::InvalidData);
    }
    match bytes[pos] {
        0 => Ok((None, pos + 1)),
        1 => {
            if len - pos < 9 {
                return Err(JournalError::InvalidData);
            }
            Ok((Some(read_u64(bytes, pos + 1)), pos + 9))
        },
        _ => Err(JournalError::InvalidData),
    }
}

/// The optional `u32` at `pos`.
fn read_option_u32(bytes: &[u8], pos: usize) -> (read: Result<Option<u32>, JournalError>)
    ensures
        read == (match option_u32_at(bytes@, pos as int) {
            Some(v) => Ok(v),
            None => Err(JournalError::InvalidData),
        }),
{
    let len: usize = bytes.len();
    if pos >= len {
        return Err(JournalError::InvalidData);
    }
    match bytes[pos] {
        0 => Ok(None),
        1 => {
            if len - pos < 5 {
                return Err(JournalError::InvalidData);
            }
            Ok(Some(read_u32(bytes, pos + 1)))
        },
        _ => Err(JournalError::InvalidData),
    }
}

/// The new order that `bytes` start with.
fn decode_new_order(bytes: &[u8]) -> (cmd: Result<Command, JournalError>)
    ensures
        cmd == (match new_order_of(bytes@) {
            Some(cmd) => Ok(cmd),
            None => Err(JournalError::InvalidData),
        }),
{
    if bytes.len() < 32 {
        return Err(JournalError::InvalidData);
    }
    let side: Side = match decode_side(bytes[13]) {
        Ok(side) => side,
        Err(e) => {
            return Err(e);
        },
    };
    let order_type: OrderType = match decode_order_type(bytes[30]) {
        Ok(order_type) => order_type,
        Err(e) => {
            return Err(e);
        },
    };
    let time_in_force: TimeInForce = match decode_tif(bytes[31]) {
        Ok(tif) => tif,
        Err(e) => {
            return Err(e);
        },
    };
    let (visible_qty, second): (Option<u64>, usize) = match read_option_u64(bytes, 32) {
        Ok(read) => read,
        Err(e) => {
            return Err(e);
        },
    };
    let (stop_price, third): (Option<u64>, usize) = match read_option_u64(bytes, second) {
        Ok(read) => read,
        Err(e) => {
            return Err(e);
        },
    };
    let stp_group: Option<u32> = match read_option_u32(bytes, third) {
        Ok(read) => read,
        Err(e) => {
            return Err(e);
        },
    };
    Ok(
        Command::NewOrder {
            id: OrderId(read_u64(bytes, 1)),
            instrument_id: read_u32(bytes, 9),
            side,
            price: read_u64(bytes, 14),
            qty: read_u64(bytes, 22),
            order_type,
            time_in_force,
            visible_qty,
            stop_price,
            stp_group,
        },
    )
}

/// The command that `bytes` start with; `InvalidData` where they start with none.
pub fn decode(bytes: &[u8]) -> (cmd: Result<Command, JournalError>)
    ensures
        cmd == (match command_of(bytes@) {
            Some(cmd) => Ok(cmd),
            None => Err(JournalError::InvalidData),
        }),
{
    if bytes.len() == 0 {
        return Err(JournalError::InvalidData);
    }
    match bytes[0] {
        0 => decode_new_order(bytes),
        1 => {
            if bytes.len() < 9 {
                return Err(JournalError::InvalidData);
            }
            Ok(Command::CancelOrder { id: OrderId(read_u64(bytes, 1)) })
        },
        2 => {
            if bytes.len() < 25 {
                return Err(JournalError::InvalidData);
            }
            Ok(
                Command::ModifyOrder {
                    id: OrderId(read_u64(bytes, 1)),
                    new_price: read_u64(bytes, 9),
                    new_qty: read_u64(bytes, 17),
                },
            )
        },
        _ => Err(JournalError::InvalidData),
    }
}

/// A part of `a + b + c` that lies in `b`.
proof fn lemma_middle(a: Seq<u8>, b: Seq<u8>, c: Seq<u8>)
    ensures
        (a + b + c).subrange(a.len() as int, a.len() as int + b.len()) == b,
{
    assert((a + b + c).subrange(a.len() as int, a.len() as int + b.len()) =~= b);
}

proof fn lemma_associative(a: Seq<u8>, b: Seq<u8>, c: Seq<u8>)
    ensures
        a + b + c == a + (b + c),
{
    assert(a + b + c =~= a + (b + c));
}

/// The `u64` between `head` and `tail` is the one that was put there.
pub proof fn lemma_u64_at(head: Seq<u8>, x: u64, tail: Seq<u8>)
    ensures
        u64_at(head + le_bytes(x as int, 8) + tail, head.len() as int) == x,
        le_bytes(x as int, 8).len() == 8,
{
    lemma_le_len(x as int, 8);
    lemma_byte_range();
    lemma_le_round_trip(x as int, 8);
    lemma_middle(head, le_bytes(x as int, 8), tail);
}

/// The `u32` between `head` and `tail` is the one that was put there.
pub proof fn lemma_u32_at(head: Seq<u8>, x: u32, tail: Seq<u8>)
    ensures
        u32_at(head + le_bytes(x as int, 4) + tail, head.len() as int) == x,
        le_bytes(x as int, 4).len() == 4,
{
    lemma_le_len(x as int, 4);
    lemma_byte_range();
    lemma_le_round_trip(x as int, 4);
    lemma_middle(head, le_bytes(x as int, 4), tail);
}

proof fn lemma_option_u64_at(head: Seq<u8>, v: Option<u64>, tail: Seq<u8>)
    ensures
        option_u64_at(head + option_u64_bytes(v) + tail, head.len() as int) == Some(
            (v, head.len() as int + option_u64_bytes(v).len()),
        ),
        option_u64_bytes(v).len() <= 9,
{
    let all = head + option_u64_bytes(v) + tail;
    match v {
        None => {},
        Some(x) => {
            lemma_u64_at(head + seq![1u8], x, tail);
            assert(all =~= (head + seq![1u8]) + le_bytes(x as int, 8) + tail);
        },
    }
}

proof fn lemma_option_u32_at(head: Seq<u8>, v: Option<u32>, tail: Seq<u8>)
    ensures
        option_u32_at(head + option_u32_bytes(v) + tail, head.len() as int) == Some(v),
        option_u32_bytes(v).len() <= 5,
{
    let all = head + option_u32_bytes(v) + tail;
    match v {
        None => {},
        Some(x) => {
            lemma_u32_at(head + seq![1u8], x, tail);
            assert(all =~= (head + seq![1u8]) + le_bytes(x as int, 4) + tail);
        },
    }
}

/// A command takes 9 to 55 bytes.
pub proof fn lemma_command_len(cmd: Command)
    ensures
        9 <= command_bytes(cmd).len() <= 55,
{
    match cmd {
        Command::NewOrder {
            id,
            instrument_id,
            side,
            price,
            qty,
            order_type,
            time_in_force,
            visible_qty,
            stop_price,
            stp_group,
        } => {
            lemma_le_len(id.0 as int, 8);
            lemma_le_len(instrument_id as int, 4);
            lemma_le_len(price as int, 8);
            lemma_le_len(qty as int, 8);
            lemma_option_u64_at(Seq::empty(), visible_qty, Seq::empty());
            lemma_option_u64_at(Seq::empty(), stop_price, Seq::empty());
            lemma_option_u32_at(Seq::empty(), stp_group, Seq::empty());
        },
        Command::CancelOrder { id } => {
            lemma_le_len(id.0 as int, 8);
        },
        Command::ModifyOrder { id, new_price, new_qty } => {
            lemma_le_len(id.0 as int, 8);
            lemma_le_len(new_price as int, 8);
            lemma_le_len(new_qty as int, 8);
        },
    }
}

/// Where the parts of a new order stand.
proof fn lemma_new_order_parts(
    id: u64,
    instrument_id: u32,
    side: u8,
    price: u64,
    qty: u64,
    order_type: u8,
    time_in_force: u8,
    visible_qty: Option<u64>,
    stop_price: Option<u64>,
    stp_group: Option<u32>,
    tail: Seq<u8>,
)
    ensures
        ({
            let all = seq![0u8] + le_bytes(id as int, 8) + le_bytes(instrument_id as int, 4) + seq![
                side,
            ] + le_bytes(price as int, 8) + le_bytes(qty as int, 8) + seq![order_type, time_in_force]
                + option_u64_bytes(visible_qty) + option_u64_bytes(stop_price) + option_u32_bytes(
                stp_group,
            ) + tail;
            let second = 32 + option_u64_bytes(visible_qty).len();
            let third = second + option_u64_bytes(stop_price).len();
            &&& all.len() >= 32
            &&& all[0] == 0
            &&& u64_at(all, 1) == id
            &&& u32_at(all, 9) == instrument_id
            &&& all[13] == side
            &&& u64_at(all, 14) == price
            &&& u64_at(all, 22) == qty
            &&& all[30] == order_type
            &&& all[31] == time_in_force
            &&& option_u64_at(all, 32) == Some((visible_qty, second as int))
            &&& option_u64_at(all, second as int) == Some((stop_price, third as int))
            &&& option_u32_at(all, third as int) == Some(stp_group)
        }),
{
    let ids = le_bytes(id as int, 8);
    let instrument = le_bytes(instrument_id as int, 4);
    let sides = seq![side];
    let prices = le_bytes(price as int, 8);
    let qtys = le_bytes(qty as int, 8);
    let kinds = seq![order_type, time_in_force];
    let visible = option_u64_bytes(visible_qty);
    let stop = option_u64_bytes(stop_price);
    let stp = option_u32_bytes(stp_group);
    let a = seq![0u8];
    let b = a + ids;
    let c = b + instrument;
    let d = c + sides;
    let e = d + prices;
    let f = e + qtys;
    let g = f + kinds;
    let h = g + visible;
    let k = h + stop;
    let all = k + stp + tail;
    lemma_option_u32_at(k, stp_group, tail);
    lemma_associative(k, stp, tail);
    lemma_associative(h, stop, stp + tail);
    lemma_option_u64_at(h, stop_price, stp + tail);
    let t = stop + (stp + tail);
    lemma_associative(g, visible, t);
    lemma_option_u64_at(g, visible_qty, t);
    let u = visible + t;
    lemma_associative(f, kinds, u);
    let v = kinds + u;
    lemma_associative(e, qtys, v);
    lemma_u64_at(e, qty, v);
    let w = qtys + v;
    lemma_associative(d, prices, w);
    lemma_u64_at(d, price, w);
    let x = prices + w;
    lemma_associative(c, sides, x);
    let y = sides + x;
    lemma_associative(b, instrument, y);
    lemma_u32_at(b, instrument_id, y);
    let z = instrument + y;
    lemma_associative(a, ids, z);
    lemma_u64_at(a, id, z);
    assert(all == f + v);
    assert(f.len() == 30 && v[0] == kinds[0] && v[1] == kinds[1]);
    assert(all == c + y);
    assert(c.len() == 13 && y[0] == sides[0]);
}

/// Decoding what was encoded gives the command back, whatever follows it.
pub proof fn lemma_decode_encode(cmd: Command, tail: Seq<u8>)
    ensures
        command_of(command_bytes(cmd) + tail) == Some(cmd),
{
    let all = command_bytes(cmd) + tail;
    match cmd {
        Command::NewOrder {
            id,
            instrument_id,
            side,
            price,
            qty,
            order_type,
            time_in_force,
            visible_qty,
            stop_price,
            stp_group,
        } => {
            lemma_new_order_parts(
                id.0,
                instrument_id,
                side_code(side),
                price,
                qty,
                order_type_code(order_type),
                tif_code(time_in_force),
                visible_qty,
                stop_price,
                stp_group,
                tail,
            );
        },
        Command::CancelOrder { id } => {
            lemma_u64_at(seq![1u8], id.0, tail);
        },
        Command::ModifyOrder { id, new_price, new_qty } => {
            let a = seq![2u8];
            let b = a + le_bytes(id.0 as int, 8);
            let c = b + le_bytes(new_price as int, 8);
            lemma_u64_at(a, id.0, all.skip(9));
            lemma_u64_at(b, new_price, all.skip(17));
            lemma_u64_at(c, new_qty, tail);
            assert(all =~= a + le_bytes(id.0 as int, 8) + all.skip(9));
            assert(all =~= b + le_bytes(new_price as int, 8) + all.skip(17));
            assert(all =~= c + le_bytes(new_qty as int, 8) + tail);
        },
    }
}

/// Where the parts of a command stand in its bytes, and how many bytes there are.
pub proof fn law_layout(cmd: Command)
    ensures
        ({
            let bytes = command_bytes(cmd);
            match cmd {
                Command::NewOrder {
                    id,
                    instrument_id,
                    side,
                    price,
                    qty,
                    order_type,
                    time_in_force,
                    visible_qty,
                    stop_price,
                    stp_group,
                } => {
                    let second = if visible_qty is Some {
                        41int
                    } else {
                        33
                    };
                    let third = second + if stop_price is Some {
                        9int
                    } else {
                        1
                    };
                    &&& bytes[0] == 0
                    &&& u64_at(bytes, 1) == id.0
                    &&& u32_at(bytes, 9) == instrument_id
                    &&& bytes[13] == if side == Side::Bid {
                        0u8
                    } else {
                        1u8
                    }
                    &&& u64_at(bytes, 14) == price
                    &&& u64_at(bytes, 22) == qty
                    &&& order_type == OrderType::Limit <==> bytes[30] == 0
                    &&& order_type == OrderType::Market <==> bytes[30] == 1
                    &&& order_type == OrderType::PostOnly <==> bytes[30] == 2
                    &&& order_type == OrderType::StopLimit <==> bytes[30] == 3
                    &&& order_type == OrderType::Iceberg <==> bytes[30] == 4
                    &&& time_in_force == TimeInForce::GTC <==> bytes[31] == 0
                    &&& time_in_force == TimeInForce::IOC <==> bytes[31] == 1
                    &&& time_in_force == TimeInForce::FOK <==> bytes[31] == 2
                    &&& visible_qty is None <==> bytes[32] == 0
                    &&& visible_qty is Some <==> bytes[32] == 1
                    &&& visible_qty is Some ==> u64_at(bytes, 33) == visible_qty->Some_0
                    &&& stop_price is None <==> bytes[second] == 0
                    &&& stop_price is Some <==> bytes[second] == 1
                    &&& stop_price is Some ==> u64_at(bytes, second + 1) == stop_price->Some_0
                    &&& stp_group is None <==> bytes[third] == 0
                    &&& stp_group is Some <==> bytes[third] == 1
                    &&& stp_group is Some ==> u32_at(bytes, third + 1) == stp_group->Some_0
                    &&& bytes.len() == third + if stp_group is Some {
                        5int
                    } else {
                        1
                    }
                },
                Command::CancelOrder { id } => {
                    &&& bytes.len() == 9
                    &&& bytes[0] == 1
                    &&& u64_at(bytes, 1) == id.0
                },
                Command::ModifyOrder { id, new_price, new_qty } => {
                    &&& bytes.len() == 25
                    &&& bytes[0] == 2
                    &&& u64_at(bytes, 1) == id.0
                    &&& u64_at(bytes, 9) == new_price
                    &&& u64_at(bytes, 17) == new_qty
                },
            }
        }),
{
    let bytes = command_bytes(cmd);
    lemma_decode_encode(cmd, Seq::empty());
    assert(bytes + Seq::<u8>::empty() =~= bytes);
    assert(command_of(bytes) == Some(cmd));
    match cmd {
        Command::NewOrder { id, instrument_id, price, qty, visible_qty, stop_price, stp_group, .. } => {
            lemma_le_len(id.0 as int, 8);
            lemma_le_len(instrument_id as int, 4);
            lemma_le_len(price as int, 8);
            lemma_le_len(qty as int, 8);
            if let Some(x) = visible_qty {
                lemma_le_len(x as int, 8);
            }
            if let Some(x) = stop_price {
                lemma_le_len(x as int, 8);
            }
            if let Some(x) = stp_group {
                lemma_le_len(x as int, 4);
            }
        },
        Command::CancelOrder { id } => {
            lemma_le_len(id.0 as int, 8);
        },
        Command::ModifyOrder { id, new_price, new_qty } => {
            lemma_le_len(id.0 as int, 8);
            lemma_le_len(new_price as int, 8);
            lemma_le_len(new_qty as int, 8);
        },
    }
}

/// When bytes start with a command. A cancellation takes nine bytes and a modification
/// twenty-five. A new order takes thirty-two bytes with known codes, and then three optional
/// integers, each a zero or a one with as many bytes as it has. Nothing else is a command.
pub proof fn law_which_bytes_are_a_command(bytes: Seq<u8>, second: int, third: int)
    requires
        bytes.len() > 32 ==> second == if bytes[32] == 0 {
            33int
        } else {
            41
        },
        0 <= second < bytes.len() ==> third == second + if bytes[second] == 0 {
            1int
        } else {
            9
        },
    ensures
        command_of(bytes) is Some <==> {
            ||| bytes.len() >= 9 && bytes[0] == 1
            ||| bytes.len() >= 25 && bytes[0] == 2
            ||| {
                &&& bytes.len() > 32
                &&& bytes[0] == 0
                &&& bytes[13] <= 1
                &&& bytes[30] <= 4
                &&& bytes[31] <= 2
                &&& bytes[32] <= 1
                &&& bytes.len() > second
                &&& bytes[second] <= 1
                &&& bytes.len() > third
                &&& bytes[third] == 0 || bytes[third] == 1 && bytes.len() >= third + 5
            }
        },
{
}

} // verus!
