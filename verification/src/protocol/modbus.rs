//! Modbus TCP simulation server: serving request PDUs.
//!
//! Supported function codes:
//!
//! | FC  | Name                     | Area             |
//! |-----|--------------------------|------------------|
//! | 0x01| Read Coils               | Coils            |
//! | 0x02| Read Discrete Inputs     | Discrete Inputs  |
//! | 0x03| Read Holding Registers   | Holding Registers|
//! | 0x04| Read Input Registers     | Input Registers  |
//! | 0x05| Write Single Coil        | Coils            |
//! | 0x06| Write Single Register    | Holding Registers|
//! | 0x0F| Write Multiple Coils     | Coils            |
//! | 0x10| Write Multiple Registers | Holding Registers|

use vstd::prelude::*;

pub use super::frame::{function_code_name, parse_modbus_hex, ModbusFrameParse};
pub use super::lifecycle::ModbusTcpServer;

use super::ServerStats;
use crate::model::byte_order::{high, join_bytes, low, split_word, word};
use crate::model::store::{Area, RegisterStore, StoreView};

verus! {

/// Default Modbus TCP port.
pub const DEFAULT_PORT: u16 = 502;

/// The exceptions that a request can be answered with.
#[derive(Clone, Copy, Debug, PartialEq, Eq, Structural)]
pub enum ModbusError {
    /// The function code is not supported.
    IllegalFunction,
    /// The range does not lie in the area.
    IllegalDataAddress,
    /// The request is malformed.
    IllegalDataValue,
}

impl ModbusError {
    /// The exception code.
    pub open spec fn number(self) -> u8 {
        match self {
            ModbusError::IllegalFunction => 0x01,
            ModbusError::IllegalDataAddress => 0x02,
            ModbusError::IllegalDataValue => 0x03,
        }
    }

    /// The exception code.
    pub fn code(self) -> (c: u8)
        ensures
            c == self.number(),
    {
        match self {
            ModbusError::IllegalFunction => 0x01,
            ModbusError::IllegalDataAddress => 0x02,
            ModbusError::IllegalDataValue => 0x03,
        }
    }
}

// ---------------------------------------------------------------------------
// Model
// ---------------------------------------------------------------------------

/// What serving a request does.
#[verifier::ext_equal]
pub struct Served {
    /// The store afterwards.
    pub store: StoreView,
    /// The number of cells written.
    pub written: u64,
    /// The reply without its function code, or the exception.
    pub reply: Result<Seq<u8>, ModbusError>,
}

/// Who is stamped on the cells that a client writes.
pub open spec fn client_writer() -> Seq<char> {
    "Modbus TCP"@
}

/// A refused request: nothing happens.
pub open spec fn refused(store: StoreView, error: ModbusError) -> Served {
    Served { store, written: 0, reply: Err(error) }
}

/// The address in a request, after its function code.
pub open spec fn request_address(data: Seq<u8>) -> int {
    word(data[0], data[1]) as int
}

/// The quantity, or the value, in a request, after its function code.
pub open spec fn request_word(data: Seq<u8>) -> u16 {
    word(data[2], data[3])
}

/// Number of bytes that `n` bits take.
pub open spec fn bytes_for_bits(n: nat) -> nat {
    (n + 7) / 8
}

/// Bit `i` of a row of cells, 0 past its end.
pub open spec fn cell_bit(values: Seq<u16>, i: int) -> nat {
    if i < values.len() && values[i] != 0 {
        1
    } else {
        0
    }
}

/// Byte `k` of packed bits: the first cell is the lowest bit.
pub open spec fn packed_byte(values: Seq<u16>, k: int) -> u8 {
    (cell_bit(values, 8 * k) + 2 * cell_bit(values, 8 * k + 1) + 4 * cell_bit(values, 8 * k + 2) + 8
        * cell_bit(values, 8 * k + 3) + 16 * cell_bit(values, 8 * k + 4) + 32 * cell_bit(
        values,
        8 * k + 5,
    ) + 64 * cell_bit(values, 8 * k + 6) + 128 * cell_bit(values, 8 * k + 7)) as u8
}

/// Cells packed eight to a byte.
pub open spec fn packed_bits(values: Seq<u16>) -> Seq<u8> {
    Seq::new(bytes_for_bits(values.len()), |k: int| packed_byte(values, k))
}

/// `n` bits unpacked from bytes, the lowest bit first.
pub open spec fn unpacked_bits(bytes: Seq<u8>, n: nat) -> Seq<u16> {
    Seq::new(n, |i: int| ((bytes[i / 8] >> ((i % 8) as u8)) & 1) as u16)
}

/// Words as bytes, high byte first.
pub open spec fn word_bytes(words: Seq<u16>) -> Seq<u8> {
    Seq::new(
        2 * words.len(),
        |i: int|
            if i % 2 == 0 {
                high(words[i / 2])
            } else {
                low(words[i / 2])
            },
    )
}

/// `n` words from bytes, high byte first.
pub open spec fn byte_words(bytes: Seq<u8>, n: nat) -> Seq<u16> {
    Seq::new(n, |i: int| word(bytes[2 * i], bytes[2 * i + 1]))
}

impl StoreView {
    /// Serve a read of bits.
    pub open spec fn read_bits(self, area: Area, data: Seq<u8>) -> Served {
        let (addr, qty) = (request_address(data), request_word(data) as int);
        if data.len() < 4 || qty == 0 || qty > 2000 {
            refused(self, ModbusError::IllegalDataValue)
        } else if addr + qty > self.cells(area).len() {
            refused(self, ModbusError::IllegalDataAddress)
        } else {
            let bits = packed_bits(self.values(area, addr, qty));
            Served { store: self, written: 0, reply: Ok(seq![bits.len() as u8] + bits) }
        }
    }

    /// Serve a read of words.
    pub open spec fn read_words(self, area: Area, data: Seq<u8>) -> Served {
        let (addr, qty) = (request_address(data), request_word(data) as int);
        if data.len() < 4 || qty == 0 || qty > 125 {
            refused(self, ModbusError::IllegalDataValue)
        } else if addr + qty > self.cells(area).len() {
            refused(self, ModbusError::IllegalDataAddress)
        } else {
            let bytes = word_bytes(self.values(area, addr, qty));
            Served { store: self, written: 0, reply: Ok(seq![bytes.len() as u8] + bytes) }
        }
    }

    /// Serve a write of one bit.
    pub open spec fn write_bit(self, area: Area, data: Seq<u8>) -> Served {
        let (addr, value) = (request_address(data), request_word(data));
        if data.len() < 4 || (value != 0x0000 && value != 0xFF00) {
            refused(self, ModbusError::IllegalDataValue)
        } else if addr + 1 > self.cells(area).len() {
            refused(self, ModbusError::IllegalDataAddress)
        } else {
            let bit = if value == 0xFF00 {
                1
            } else {
                0
            };
            Served {
                store: self.set(area, addr, bit, client_writer()),
                written: 1,
                reply: Ok(data.take(4)),
            }
        }
    }

    /// Serve a write of one word.
    pub open spec fn write_word(self, area: Area, data: Seq<u8>) -> Served {
        let (addr, value) = (request_address(data), request_word(data));
        if data.len() < 4 {
            refused(self, ModbusError::IllegalDataValue)
        } else if addr + 1 > self.cells(area).len() {
            refused(self, ModbusError::IllegalDataAddress)
        } else {
            Served {
                store: self.set(area, addr, value, client_writer()),
                written: 1,
                reply: Ok(data.take(4)),
            }
        }
    }

    /// Serve a write of several bits.
    pub open spec fn write_bits(self, area: Area, data: Seq<u8>) -> Served {
        let (addr, qty) = (request_address(data), request_word(data) as int);
        let bytes = bytes_for_bits(qty as nat);
        if data.len() < 4 || qty == 0 || qty > 1968 || data.len() < 5 + bytes || data[4] != bytes {
            refused(self, ModbusError::IllegalDataValue)
        } else if addr + qty > self.cells(area).len() {
            refused(self, ModbusError::IllegalDataAddress)
        } else {
            let values = unpacked_bits(data.skip(5), qty as nat);
            Served {
                store: self.set_range(area, addr, values, client_writer()),
                written: qty as u64,
                reply: Ok(data.take(4)),
            }
        }
    }

    /// Serve a write of several words.
    pub open spec fn write_words(self, area: Area, data: Seq<u8>) -> Served {
        let (addr, qty) = (request_address(data), request_word(data) as int);
        if data.len() < 4 || qty == 0 || qty > 123 || data.len() < 5 + 2 * qty || data[4] != 2
            * qty {
            refused(self, ModbusError::IllegalDataValue)
        } else if addr + qty > self.cells(area).len() {
            refused(self, ModbusError::IllegalDataAddress)
        } else {
            let values = byte_words(data.skip(5), qty as nat);
            Served {
                store: self.set_range(area, addr, values, client_writer()),
                written: qty as u64,
                reply: Ok(data.take(4)),
            }
        }
    }

    /// Serve a request: function code `fc` and what follows it.
    pub open spec fn served(self, fc: u8, data: Seq<u8>) -> Served {
        if fc == 0x01 {
            self.read_bits(Area::Coils, data)
        } else if fc == 0x02 {
            self.read_bits(Area::DiscreteInputs, data)
        } else if fc == 0x03 {
            self.read_words(Area::HoldingRegisters, data)
        } else if fc == 0x04 {
            self.read_words(Area::InputRegisters, data)
        } else if fc == 0x05 {
            self.write_bit(Area::Coils, data)
        } else if fc == 0x06 {
            self.write_word(Area::HoldingRegisters, data)
        } else if fc == 0x0F {
            self.write_bits(Area::Coils, data)
        } else if fc == 0x10 {
            self.write_words(Area::HoldingRegisters, data)
        } else {
            refused(self, ModbusError::IllegalFunction)
        }
    }

    /// The store after a request.
    pub open spec fn after_pdu(self, pdu: Seq<u8>) -> StoreView {
        if pdu.len() == 0 {
            self
        } else {
            self.served(pdu[0], pdu.drop_first()).store
        }
    }

    /// The reply to a request.
    pub open spec fn reply_to(self, pdu: Seq<u8>) -> Seq<u8> {
        if pdu.len() == 0 {
            seq![]
        } else {
            match self.served(pdu[0], pdu.drop_first()).reply {
                Ok(data) => seq![pdu[0]] + data,
                Err(error) => exception_pdu(pdu[0], error.number()),
            }
        }
    }
}

/// The reply that refuses a request.
pub open spec fn exception_pdu(fc: u8, code: u8) -> Seq<u8> {
    seq![0x80u8 | fc, code]
}

impl ServerStats {
    /// The statistics after a request to a store.
    pub open spec fn after_pdu(self, store: StoreView, pdu: Seq<u8>) -> ServerStats {
        if pdu.len() == 0 {
            self
        } else {
            let served = store.served(pdu[0], pdu.drop_first());
            match served.reply {
                Ok(_) => if served.written > 0 {
                    self.with_cells_written(served.written)
                } else {
                    self
                },
                Err(_) => self.with_errors(1),
            }
        }
    }
}

// ---------------------------------------------------------------------------
// Requests
// ---------------------------------------------------------------------------

/// The reply that refuses a request.
pub fn exception(fc: u8, code: u8) -> (pdu: Vec<u8>)
    ensures
        pdu@ == exception_pdu(fc, code),
{
    let pdu: Vec<u8> = vec![0x80 | fc, code];
    proof {
        assert(pdu@ =~= exception_pdu(fc, code));
    }
    pdu
}

/// The two words that a request starts with, after its function code.
pub fn parse_addr_qty(data: &[u8]) -> (r: Option<(u16, u16)>)
    ensures
        match r {
            Some((addr, qty)) => data@.len() >= 4 && addr == request_address(data@) && qty
                == request_word(data@),
            None => data@.len() < 4,
        },
{
    if data.len() < 4 {
        return None;
    }
    Some((join_bytes(data[0], data[1]), join_bytes(data[2], data[3])))
}

/// Check that a range is not empty and lies in an area.
pub fn check_range(store: &RegisterStore, area: Area, addr: u16, qty: usize) -> (r: Result<
    (),
    ModbusError,
>)
    ensures
        r == (if qty == 0 {
            Err(ModbusError::IllegalDataValue)
        } else if addr + qty > store@.cells(area).len() {
            Err(ModbusError::IllegalDataAddress)
        } else {
            Ok::<(), ModbusError>(())
        }),
{
    if qty == 0 {
        return Err(ModbusError::IllegalDataValue);
    }
    let n: usize = store.len(area);
    if addr as usize > n || qty > n - addr as usize {
        return Err(ModbusError::IllegalDataAddress);
    }
    Ok(())
}

/// The reply or the exception that an operation gave.
pub open spec fn bytes_outcome(r: Result<Vec<u8>, ModbusError>) -> Result<Seq<u8>, ModbusError> {
    match r {
        Ok(bytes) => Ok(bytes@),
        Err(error) => Err(error),
    }
}

/// Bit `i` of a row of cells, 0 past its end.
fn bit_of(values: &Vec<u16>, i: usize) -> (b: u8)
    ensures
        b == cell_bit(values@, i as int),
        b <= 1,
{
    if i < values.len() && values[i] != 0 {
        1
    } else {
        0
    }
}

/// FC 0x01 / 0x02 — read a bit area.
pub fn read_bits(store: &RegisterStore, area: Area, data: &[u8]) -> (r: Result<Vec<u8>, ModbusError>)
    ensures
        bytes_outcome(r) == store@.read_bits(area, data@).reply,
{
    let (addr, qty): (u16, u16) = match parse_addr_qty(data) {
        Some(pair) => pair,
        None => {
            return Err(ModbusError::IllegalDataValue);
        },
    };
    if qty == 0 || qty > 2000 {
        return Err(ModbusError::IllegalDataValue);
    }
    match check_range(store, area, addr, qty as usize) {
        Ok(()) => {},
        Err(error) => {
            return Err(error);
        },
    }
    let values: Vec<u16> = match store.range(area, addr as usize, qty as usize) {
        Some(values) => values,
        None => {
            return Err(ModbusError::IllegalDataAddress);
        },
    };
    let byte_count: usize = (qty as usize + 7) / 8;
    let mut out: Vec<u8> = Vec::new();
    out.push(byte_count as u8);
    let mut k: usize = 0;
    let ghost bits = packed_bits(values@);
    proof {
        assert(bits.take(0) =~= Seq::<u8>::empty());
    }
    while k < byte_count
        invariant
            k <= byte_count <= 250,
            bits == packed_bits(values@),
            bits.len() == byte_count,
            out@ == seq![byte_count as u8] + bits.take(k as int),
        decreases byte_count - k,
    {
        let i: usize = 8 * k;
        let b: u8 = bit_of(&values, i) + 2 * bit_of(&values, i + 1) + 4 * bit_of(&values, i + 2) + 8
            * bit_of(&values, i + 3) + 16 * bit_of(&values, i + 4) + 32 * bit_of(&values, i + 5)
            + 64 * bit_of(&values, i + 6) + 128 * bit_of(&values, i + 7);
        out.push(b);
        proof {
            assert(bits.take(k + 1) =~= bits.take(k as int).push(b));
            assert(out@ =~= seq![byte_count as u8] + bits.take(k + 1));
        }
        k = k + 1;
    }
    proof {
        assert(bits.take(byte_count as int) =~= bits);
    }
    Ok(out)
}

/// FC 0x03 / 0x04 — read a word area.
pub fn read_words(store: &RegisterStore, area: Area, data: &[u8]) -> (r: Result<
    Vec<u8>,
    ModbusError,
>)
    ensures
        bytes_outcome(r) == store@.read_words(area, data@).reply,
{
    let (addr, qty): (u16, u16) = match parse_addr_qty(data) {
        Some(pair) => pair,
        None => {
            return Err(ModbusError::IllegalDataValue);
        },
    };
    if qty == 0 || qty > 125 {
        return Err(ModbusError::IllegalDataValue);
    }
    match check_range(store, area, addr, qty as usize) {
        Ok(()) => {},
        Err(error) => {
            return Err(error);
        },
    }
    let values: Vec<u16> = match store.range(area, addr as usize, qty as usize) {
        Some(values) => values,
        None => {
            return Err(ModbusError::IllegalDataAddress);
        },
    };
    let byte_count: u8 = (qty * 2) as u8;
    let mut out: Vec<u8> = Vec::new();
    out.push(byte_count);
    let mut i: usize = 0;
    let ghost bytes = word_bytes(values@);
    proof {
        assert(bytes.take(0) =~= Seq::<u8>::empty());
    }
    while i < values.len()
        invariant
            i <= values@.len(),
            bytes == word_bytes(values@),
            out@ == seq![byte_count] + bytes.take(2 * i as int),
        decreases values@.len() - i,
    {
        let (hi, lo) = split_word(values[i]);
        out.push(hi);
        out.push(lo);
        proof {
            assert(out@ =~= seq![byte_count] + bytes.take(2 * (i + 1) as int));
        }
        i = i + 1;
    }
    proof {
        assert(bytes.take(bytes.len() as int) =~= bytes);
    }
    Ok(out)
}

/// The first four bytes of a request: what a write is answered with.
fn echo(data: &[u8]) -> (out: Vec<u8>)
    requires
        data@.len() >= 4,
    ensures
        out@ == data@.take(4),
{
    let out: Vec<u8> = vec![data[0], data[1], data[2], data[3]];
    proof {
        assert(out@ =~= data@.take(4));
    }
    out
}

/// FC 0x05 — write a single coil.
pub fn write_single_bit(
    store: &mut RegisterStore,
    stats: &mut ServerStats,
    area: Area,
    data: &[u8],
) -> (r: Result<Vec<u8>, ModbusError>)
    ensures
        ({
            let served = old(store)@.write_bit(area, data@);
            &&& bytes_outcome(r) == served.reply
            &&& final(store)@ == served.store
            &&& *final(stats) == (if r is Ok {
                old(stats).with_cells_written(served.written)
            } else {
                *old(stats)
            })
        }),
{
    let (addr, value): (u16, u16) = match parse_addr_qty(data) {
        Some(pair) => pair,
        None => {
            return Err(ModbusError::IllegalDataValue);
        },
    };
    if value != 0x0000 && value != 0xFF00 {
        return Err(ModbusError::IllegalDataValue);
    }
    match check_range(store, area, addr, 1) {
        Ok(()) => {},
        Err(error) => {
            return Err(error);
        },
    }
    let bit: u16 = if value == 0xFF00 {
        1
    } else {
        0
    };
    store.set(area, addr as usize, bit, "Modbus TCP");
    stats.cells_written(1);
    Ok(echo(data))
}

/// FC 0x06 — write a single register.
pub fn write_single_word(
    store: &mut RegisterStore,
    stats: &mut ServerStats,
    area: Area,
    data: &[u8],
) -> (r: Result<Vec<u8>, ModbusError>)
    ensures
        ({
            let served = old(store)@.write_word(area, data@);
            &&& bytes_outcome(r) == served.reply
            &&& final(store)@ == served.store
            &&& *final(stats) == (if r is Ok {
                old(stats).with_cells_written(served.written)
            } else {
                *old(stats)
            })
        }),
{
    let (addr, value): (u16, u16) = match parse_addr_qty(data) {
        Some(pair) => pair,
        None => {
            return Err(ModbusError::IllegalDataValue);
        },
    };
    match check_range(store, area, addr, 1) {
        Ok(()) => {},
        Err(error) => {
            return Err(error);
        },
    }
    store.set(area, addr as usize, value, "Modbus TCP");
    stats.cells_written(1);
    Ok(echo(data))
}

/// FC 0x0F — write multiple coils.
pub fn write_multiple_bits(
    store: &mut RegisterStore,
    stats: &mut ServerStats,
    area: Area,
    data: &[u8],
) -> (r: Result<Vec<u8>, ModbusError>)
    ensures
        ({
            let served = old(store)@.write_bits(area, data@);
            &&& bytes_outcome(r) == served.reply
            &&& final(store)@ == served.store
            &&& *final(stats) == (if r is Ok {
                old(stats).with_cells_written(served.written)
            } else {
                *old(stats)
            })
        }),
{
    let (addr, qty): (u16, u16) = match parse_addr_qty(data) {
        Some(pair) => pair,
        None => {
            return Err(ModbusError::IllegalDataValue);
        },
    };
    if qty == 0 || qty > 1968 {
        return Err(ModbusError::IllegalDataValue);
    }
    let byte_count: usize = (qty as usize + 7) / 8;
    if data.len() < 5 + byte_count {
        return Err(ModbusError::IllegalDataValue);
    }
    if data[4] as usize != byte_count {
        return Err(ModbusError::IllegalDataValue);
    }
    match check_range(store, area, addr, qty as usize) {
        Ok(()) => {},
        Err(error) => {
            return Err(error);
        },
    }
    let mut values: Vec<u16> = Vec::new();
    let mut i: usize = 0;
    let ghost bits = unpacked_bits(data@.skip(5), qty as nat);
    while i < qty as usize
        invariant
            i <= qty <= 1968,
            byte_count == (qty as usize + 7) / 8,
            data@.len() >= 5 + byte_count,
            bits == unpacked_bits(data@.skip(5), qty as nat),
            values@ == bits.take(i as int),
        decreases qty - i,
    {
        let v: u16 = ((data[5 + i / 8] >> ((i % 8) as u8)) & 1) as u16;
        values.push(v);
        proof {
            assert(data@.skip(5)[i as int / 8] == data@[5 + i as int / 8]);
            assert(values@ =~= bits.take(i + 1));
        }
        i = i + 1;
    }
    proof {
        assert(values@ =~= bits);
    }
    store.set_range(area, addr as usize, &values, "Modbus TCP");
    stats.cells_written(qty as u64);
    Ok(echo(data))
}

/// FC 0x10 — write multiple registers.
pub fn write_multiple_words(
    store: &mut RegisterStore,
    stats: &mut ServerStats,
    area: Area,
    data: &[u8],
) -> (r: Result<Vec<u8>, ModbusError>)
    ensures
        ({
            let served = old(store)@.write_words(area, data@);
            &&& bytes_outcome(r) == served.reply
            &&& final(store)@ == served.store
            &&& *final(stats) == (if r is Ok {
                old(stats).with_cells_written(served.written)
            } else {
                *old(stats)
            })
        }),
{
    let (addr, qty): (u16, u16) = match parse_addr_qty(data) {
        Some(pair) => pair,
        None => {
            return Err(ModbusError::IllegalDataValue);
        },
    };
    if qty == 0 || qty > 123 {
        return Err(ModbusError::IllegalDataValue);
    }
    let byte_count: usize = qty as usize * 2;
    if data.len() < 5 + byte_count {
        return Err(ModbusError::IllegalDataValue);
    }
    if data[4] as usize != byte_count {
        return Err(ModbusError::IllegalDataValue);
    }
    match check_range(store, area, addr, qty as usize) {
        Ok(()) => {},
        Err(error) => {
            return Err(error);
        },
    }
    let mut values: Vec<u16> = Vec::new();
    let mut i: usize = 0;
    let ghost words = byte_words(data@.skip(5), qty as nat);
    while i < qty as usize
        invariant
            i <= qty <= 123,
            data@.len() >= 5 + 2 * qty,
            words == byte_words(data@.skip(5), qty as nat),
            values@ == words.take(i as int),
        decreases qty - i,
    {
        values.push(join_bytes(data[5 + 2 * i], data[6 + 2 * i]));
        proof {
            assert(values@ =~= words.take(i + 1));
        }
        i = i + 1;
    }
    proof {
        assert(values@ =~= words);
    }
    store.set_range(area, addr as usize, &values, "Modbus TCP");
    stats.cells_written(qty as u64);
    Ok(echo(data))
}

/// Serve a request PDU: update the store and the statistics and give the reply.
/// An empty request gets an empty reply.
pub fn process_pdu(pdu: &[u8], store: &mut RegisterStore, stats: &mut ServerStats) -> (reply: Vec<
    u8,
>)
    ensures
        reply@ == old(store)@.reply_to(pdu@),
        final(store)@ == old(store)@.after_pdu(pdu@),
        *final(stats) == old(stats).after_pdu(old(store)@, pdu@),
{
    if pdu.len() == 0 {
        return Vec::new();
    }
    let fc: u8 = pdu[0];
    let mut data: Vec<u8> = Vec::new();
    let mut i: usize = 1;
    while i < pdu.len()
        invariant
            1 <= i <= pdu@.len(),
            data@ == pdu@.subrange(1, i as int),
        decreases pdu@.len() - i,
    {
        data.push(pdu[i]);
        proof {
            assert(data@ =~= pdu@.subrange(1, i + 1));
        }
        i = i + 1;
    }
    proof {
        assert(data@ =~= pdu@.drop_first());
    }
    let result = match fc {
        0x01 => read_bits(store, Area::Coils, &data),
        0x02 => read_bits(store, Area::DiscreteInputs, &data),
        0x03 => read_words(store, Area::HoldingRegisters, &data),
        0x04 => read_words(store, Area::InputRegisters, &data),
        0x05 => write_single_bit(store, stats, Area::Coils, &data),
        0x06 => write_single_word(store, stats, Area::HoldingRegisters, &data),
        0x0F => write_multiple_bits(store, stats, Area::Coils, &data),
        0x10 => write_multiple_words(store, stats, Area::HoldingRegisters, &data),
        _ => Err(ModbusError::IllegalFunction),
    };
    match result {
        Ok(bytes) => {
            let mut out: Vec<u8> = Vec::new();
            out.push(fc);
            let mut i: usize = 0;
            while i < bytes.len()
                invariant
                    i <= bytes@.len(),
                    out@ == seq![fc] + bytes@.take(i as int),
                decreases bytes@.len() - i,
            {
                out.push(bytes[i]);
                proof {
                    assert(out@ =~= seq![fc] + bytes@.take(i + 1));
                }
                i = i + 1;
            }
            proof {
                assert(bytes@.take(bytes@.len() as int) =~= bytes@);
            }
            out
        },
        Err(error) => {
            stats.errors(1);
            exception(fc, error.code())
        },
    }
}

} // verus!
