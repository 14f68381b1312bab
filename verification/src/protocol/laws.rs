//! What holds of the Modbus server across requests.

use vstd::prelude::*;

use super::frame::{bytes_from, data_length, parsed_bytes};
use super::modbus::{
    byte_words, bytes_for_bits, cell_bit, exception_pdu, packed_bits, packed_byte, unpacked_bits,
    word_bytes,
};
use super::session::{frame_length, reply_frame};
use super::{ContextView, MsgDirection, ServerStats, MAX_LOG_ENTRIES};
use crate::model::byte_order::{high, low, word};
use crate::model::store::{Area, StoreView};
use crate::text::hex_bytes;

verus! {

// ---------------------------------------------------------------------------
// Every request
// ---------------------------------------------------------------------------

/// A refused request changes no cell, is answered with its function code with
/// the high bit set and the exception code, and counts as one error.
pub proof fn lemma_refused_request(store: StoreView, stats: ServerStats, pdu: Seq<u8>)
    requires
        pdu.len() > 0,
        store.served(pdu[0], pdu.drop_first()).reply is Err,
    ensures
        store.after_pdu(pdu) == store,
        store.reply_to(pdu) == exception_pdu(
            pdu[0],
            store.served(pdu[0], pdu.drop_first()).reply->Err_0.number(),
        ),
        stats.after_pdu(store, pdu) == stats.with_errors(1),
{
}

/// An accepted request is answered with its own function code first and counts
/// as no error.
pub proof fn lemma_accepted_request(store: StoreView, stats: ServerStats, pdu: Seq<u8>)
    requires
        pdu.len() > 0,
        store.served(pdu[0], pdu.drop_first()).reply is Ok,
    ensures
        store.reply_to(pdu).len() > 0,
        store.reply_to(pdu)[0] == pdu[0],
        stats.after_pdu(store, pdu).error_responses == stats.error_responses,
{
}

/// A read changes nothing in the store.
pub proof fn lemma_reads_change_nothing(store: StoreView, pdu: Seq<u8>)
    requires
        pdu.len() > 0,
        0x01 <= pdu[0] <= 0x04,
    ensures
        store.after_pdu(pdu) == store,
{
}

/// No request changes the read-only areas, the names of the cells or their
/// number, and bit areas keep holding bits.
pub proof fn lemma_requests_keep(store: StoreView, pdu: Seq<u8>)
    requires
        store.wf(),
    ensures
        ({
            let after = store.after_pdu(pdu);
            &&& after.wf()
            &&& after.same_layout(store)
            &&& after.cells(Area::DiscreteInputs) == store.cells(Area::DiscreteInputs)
            &&& after.cells(Area::InputRegisters) == store.cells(Area::InputRegisters)
        }),
{
    if pdu.len() > 0 {
        let data = pdu.drop_first();
        let served = store.served(pdu[0], data);
        if served.reply is Ok {
            let addr = word(data[0], data[1]) as int;
            let value = word(data[2], data[3]);
            let writer = "Modbus TCP"@;
            if pdu[0] == 0x05 {
                store.lemma_set(
                    Area::Coils,
                    addr,
                    if value == 0xFF00 {
                        1
                    } else {
                        0
                    },
                    writer,
                );
            } else if pdu[0] == 0x06 {
                store.lemma_set(Area::HoldingRegisters, addr, value, writer);
            } else if pdu[0] == 0x0F {
                store.lemma_set_range(
                    Area::Coils,
                    addr,
                    unpacked_bits(data.skip(5), value as nat),
                    writer,
                );
            } else if pdu[0] == 0x10 {
                store.lemma_set_range(
                    Area::HoldingRegisters,
                    addr,
                    byte_words(data.skip(5), value as nat),
                    writer,
                );
            }
        }
    }
}

/// A reply and its header never exceed the largest frame of 260 bytes.
pub proof fn lemma_reply_fits(store: StoreView, header: Seq<u8>, pdu: Seq<u8>)
    ensures
        store.reply_to(pdu).len() <= 253,
        reply_frame(header, store.reply_to(pdu)).len() <= 260,
{
}

/// A frame that was received and answered counts as one request, leaves one
/// entry in the log for each direction, and changes the store as its request
/// does: not at all when it belongs to another protocol.
pub proof fn lemma_answered_frame(
    ctx: ContextView,
    header: Seq<u8>,
    pdu: Seq<u8>,
    received_at: (Seq<char>, u64),
    sent_at: (Seq<char>, u64),
)
    requires
        header.len() == 7,
        ctx.log.len() <= MAX_LOG_ENTRIES,
    ensures
        ({
            let response = ctx.answer(header, pdu);
            let after = ctx.received(header, pdu, received_at.0, received_at.1).replied(
                header,
                pdu,
                response,
                sent_at.0,
                sent_at.1,
            );
            let n = after.log.len() as int;
            &&& after.stats.total_requests == ctx.stats.total_requests.wrapping_add(1)
            &&& after.store == if word(header[2], header[3]) == 0 {
                ctx.store.after_pdu(pdu)
            } else {
                ctx.store
            }
            &&& 2 <= n <= MAX_LOG_ENTRIES
            &&& after.log[n - 2].direction == MsgDirection::Received
            &&& after.log[n - 2].hex == hex_bytes(header + pdu)
            &&& after.log[n - 1].direction == MsgDirection::Sent
            &&& after.log[n - 1].hex == hex_bytes(reply_frame(header, response))
        }),
{
    let response = ctx.answer(header, pdu);
    let middle = ctx.received(header, pdu, received_at.0, received_at.1);
    let after = middle.replied(header, pdu, response, sent_at.0, sent_at.1);
    assert(middle.log.last().hex == hex_bytes(header + pdu));
    assert(after.log[after.log.len() - 2] == middle.log.last());
}

/// The frame of a reply carries the transaction and the unit id of the request,
/// protocol id 0 and its own length.
pub proof fn lemma_reply_frame(header: Seq<u8>, response: Seq<u8>)
    requires
        header.len() == 7,
        response.len() < 0xFFFF,
    ensures
        ({
            let frame = reply_frame(header, response);
            &&& frame.take(2) == header.take(2)
            &&& word(frame[2], frame[3]) == 0
            &&& frame_length(frame) == frame.len() - 6
            &&& frame[6] == header[6]
            &&& frame.skip(7) == response
        }),
{
    let frame = reply_frame(header, response);
    let length = ((1 + response.len()) % 0x1_0000) as u16;
    assert(word(high(length), low(length)) == length);
    assert(frame.take(2) =~= header.take(2));
    assert(frame.skip(7) =~= response);
}

// ---------------------------------------------------------------------------
// Reading what was written
// ---------------------------------------------------------------------------

/// A request of a function code, an address and a word.
pub open spec fn short_pdu(fc: u8, addr: u16, value: u16) -> Seq<u8> {
    seq![fc, high(addr), low(addr), high(value), low(value)]
}

/// A request to write several registers.
pub open spec fn write_words_pdu(addr: u16, words: Seq<u16>) -> Seq<u8> {
    short_pdu(0x10, addr, words.len() as u16) + seq![(2 * words.len()) as u8] + word_bytes(words)
}

/// A request to write several coils.
pub open spec fn write_bits_pdu(addr: u16, bits: Seq<u16>) -> Seq<u8> {
    short_pdu(0x0F, addr, bits.len() as u16) + seq![bytes_for_bits(bits.len()) as u8] + packed_bits(
        bits,
    )
}

proof fn lemma_word_parts(w: u16)
    ensures
        word(high(w), low(w)) == w,
{
}

proof fn lemma_words_round_trip(words: Seq<u16>)
    ensures
        byte_words(word_bytes(words), words.len()) == words,
{
    let bytes = word_bytes(words);
    assert forall|i: int| 0 <= i < words.len() implies word(bytes[2 * i], bytes[2 * i + 1])
        == words[i] by {
        assert((2 * i) % 2 == 0 && (2 * i) / 2 == i);
        assert((2 * i + 1) % 2 == 1 && (2 * i + 1) / 2 == i);
        lemma_word_parts(words[i]);
    }
    assert(byte_words(bytes, words.len()) =~= words);
}

/// Registers written with function 0x10 are stored.
proof fn lemma_write_words_stores(store: StoreView, addr: u16, words: Seq<u16>)
    requires
        1 <= words.len() <= 123,
        addr + words.len() <= store.cells(Area::HoldingRegisters).len(),
    ensures
        ({
            let request = write_words_pdu(addr, words);
            &&& store.reply_to(request) == short_pdu(0x10, addr, words.len() as u16)
            &&& store.after_pdu(request) == store.set_range(
                Area::HoldingRegisters,
                addr as int,
                words,
                "Modbus TCP"@,
            )
        }),
{
    let n = words.len() as u16;
    let request = write_words_pdu(addr, words);
    let data = request.drop_first();
    lemma_word_parts(addr);
    lemma_word_parts(n);
    assert(data.skip(5) =~= word_bytes(words));
    lemma_words_round_trip(words);
    assert(store.reply_to(request) =~= short_pdu(0x10, addr, n));
}

/// Registers written with function 0x10 are what function 0x03 reads.
pub proof fn lemma_write_words_then_read(store: StoreView, addr: u16, words: Seq<u16>)
    requires
        store.wf(),
        1 <= words.len() <= 123,
        addr + words.len() <= store.cells(Area::HoldingRegisters).len(),
    ensures
        ({
            let request = write_words_pdu(addr, words);
            let after = store.after_pdu(request);
            &&& store.reply_to(request) == short_pdu(0x10, addr, words.len() as u16)
            &&& after.reply_to(short_pdu(0x03, addr, words.len() as u16)) == seq![
                0x03u8,
                (2 * words.len()) as u8,
            ] + word_bytes(words)
        }),
{
    let area = Area::HoldingRegisters;
    lemma_write_words_stores(store, addr, words);
    lemma_words_stored(store, addr as int, words, "Modbus TCP"@);
    let after = store.set_range(area, addr as int, words, "Modbus TCP"@);
    lemma_read_words(after, 0x03, area, addr, words.len() as u16);
}

proof fn lemma_words_stored(store: StoreView, addr: int, words: Seq<u16>, writer: Seq<char>)
    requires
        store.wf(),
        0 <= addr,
        store.in_range(Area::HoldingRegisters, addr, words.len() as int),
    ensures
        ({
            let area = Area::HoldingRegisters;
            let after = store.set_range(area, addr, words, writer);
            &&& after.values(area, addr, words.len() as int) == words
            &&& after.cells(area).len() == store.cells(area).len()
        }),
{
    let area = Area::HoldingRegisters;
    store.lemma_set_range(area, addr, words, writer);
    assert(words.map_values(|v: u16| area.masked(v)) =~= words);
}

/// A register written with function 0x06 is what function 0x03 reads.
pub proof fn lemma_write_word_then_read(store: StoreView, addr: u16, value: u16)
    requires
        store.wf(),
        addr < store.cells(Area::HoldingRegisters).len(),
    ensures
        ({
            let request = short_pdu(0x06, addr, value);
            let after = store.after_pdu(request);
            &&& store.reply_to(request) == request
            &&& after.reply_to(short_pdu(0x03, addr, 1)) == seq![
                0x03u8,
                2,
                high(value),
                low(value),
            ]
        }),
{
    let area = Area::HoldingRegisters;
    let request = short_pdu(0x06, addr, value);
    lemma_word_parts(addr);
    lemma_word_parts(value);
    lemma_word_parts(1);
    store.lemma_set(area, addr as int, value, "Modbus TCP"@);
    assert(store.reply_to(request) =~= request);
    let after = store.after_pdu(request);
    assert(after == store.set(area, addr as int, value, "Modbus TCP"@));
    assert(after.values(area, addr as int, 1) =~= seq![value]);
    assert(after.reply_to(short_pdu(0x03, addr, 1)) =~= seq![0x03u8, 2, high(value), low(value)]);
}

/// A coil written with function 0x05 is what function 0x01 reads.
pub proof fn lemma_write_bit_then_read(store: StoreView, addr: u16, on: bool)
    requires
        store.wf(),
        addr < store.cells(Area::Coils).len(),
    ensures
        ({
            let request = short_pdu(
                0x05,
                addr,
                if on {
                    0xFF00
                } else {
                    0
                },
            );
            let after = store.after_pdu(request);
            &&& store.reply_to(request) == request
            &&& after.reply_to(short_pdu(0x01, addr, 1)) == seq![
                0x01u8,
                1,
                if on {
                    1
                } else {
                    0
                },
            ]
        }),
{
    let area = Area::Coils;
    let value: u16 = if on {
        0xFF00
    } else {
        0
    };
    let bit: u16 = if on {
        1
    } else {
        0
    };
    let request = short_pdu(0x05, addr, value);
    lemma_word_parts(addr);
    lemma_word_parts(value);
    lemma_word_parts(1);
    store.lemma_set(area, addr as int, bit, "Modbus TCP"@);
    assert(store.reply_to(request) =~= request);
    let after = store.after_pdu(request);
    assert(after == store.set(area, addr as int, bit, "Modbus TCP"@));
    let values = after.values(area, addr as int, 1);
    assert(values =~= seq![bit]);
    assert(packed_byte(values, 0) == bit);
    assert(after.reply_to(short_pdu(0x01, addr, 1)) =~= seq![0x01u8, 1, bit as u8]);
}

proof fn lemma_byte_bits(
    c0: u8,
    c1: u8,
    c2: u8,
    c3: u8,
    c4: u8,
    c5: u8,
    c6: u8,
    c7: u8,
    b: u8,
)
    by (bit_vector)
    requires
        c0 <= 1,
        c1 <= 1,
        c2 <= 1,
        c3 <= 1,
        c4 <= 1,
        c5 <= 1,
        c6 <= 1,
        c7 <= 1,
        b == c0 + 2 * c1 + 4 * c2 + 8 * c3 + 16 * c4 + 32 * c5 + 64 * c6 + 128 * c7,
    ensures
        (b >> 0u8) & 1 == c0,
        (b >> 1u8) & 1 == c1,
        (b >> 2u8) & 1 == c2,
        (b >> 3u8) & 1 == c3,
        (b >> 4u8) & 1 == c4,
        (b >> 5u8) & 1 == c5,
        (b >> 6u8) & 1 == c6,
        (b >> 7u8) & 1 == c7,
{
}

/// Bits packed into bytes unpack to the same bits.
pub proof fn lemma_bits_round_trip(bits: Seq<u16>)
    requires
        forall|i: int| 0 <= i < bits.len() ==> #[trigger] bits[i] <= 1,
    ensures
        unpacked_bits(packed_bits(bits), bits.len()) == bits,
{
    let bytes = packed_bits(bits);
    assert forall|i: int| 0 <= i < bits.len() implies ((bytes[i / 8] >> ((i % 8) as u8)) & 1) as u16
        == bits[i] by {
        let k = i / 8;
        lemma_byte_bits(
            cell_bit(bits, 8 * k) as u8,
            cell_bit(bits, 8 * k + 1) as u8,
            cell_bit(bits, 8 * k + 2) as u8,
            cell_bit(bits, 8 * k + 3) as u8,
            cell_bit(bits, 8 * k + 4) as u8,
            cell_bit(bits, 8 * k + 5) as u8,
            cell_bit(bits, 8 * k + 6) as u8,
            cell_bit(bits, 8 * k + 7) as u8,
            bytes[k],
        );
        let j = i % 8;
        assert(i == 8 * k + j);
        assert(cell_bit(bits, i) == bits[i]);
        assert(j == 0 || j == 1 || j == 2 || j == 3 || j == 4 || j == 5 || j == 6 || j == 7);
    }
    assert(unpacked_bits(bytes, bits.len()) =~= bits);
}

proof fn lemma_write_bits(store: StoreView, addr: u16, n: u16, bytes: Seq<u8>)
    requires
        1 <= n <= 1968,
        bytes.len() == bytes_for_bits(n as nat),
        addr + n <= store.cells(Area::Coils).len(),
    ensures
        ({
            let request = short_pdu(0x0F, addr, n) + seq![bytes.len() as u8] + bytes;
            &&& store.reply_to(request) == short_pdu(0x0F, addr, n)
            &&& store.after_pdu(request) == store.set_range(
                Area::Coils,
                addr as int,
                unpacked_bits(bytes, n as nat),
                "Modbus TCP"@,
            )
        }),
{
    let request = short_pdu(0x0F, addr, n) + seq![bytes.len() as u8] + bytes;
    let data = request.drop_first();
    lemma_word_parts(addr);
    lemma_word_parts(n);
    assert(data.skip(5) =~= bytes);
    assert(store.reply_to(request) =~= short_pdu(0x0F, addr, n));
}

proof fn lemma_bits_stored(
    store: StoreView,
    area: Area,
    addr: int,
    bits: Seq<u16>,
    writer: Seq<char>,
)
    requires
        store.wf(),
        forall|i: int| 0 <= i < bits.len() ==> #[trigger] bits[i] <= 1,
        0 <= addr,
        store.in_range(area, addr, bits.len() as int),
    ensures
        ({
            let after = store.set_range(area, addr, bits, writer);
            &&& after.values(area, addr, bits.len() as int) == bits
            &&& after.cells(area).len() == store.cells(area).len()
        }),
{
    store.lemma_set_range(area, addr, bits, writer);
    assert(bits.map_values(|v: u16| area.masked(v)) =~= bits);
}

proof fn lemma_read_bits(store: StoreView, fc: u8, area: Area, addr: u16, n: u16)
    requires
        1 <= n <= 2000,
        (fc == 0x01 && area is Coils) || (fc == 0x02 && area is DiscreteInputs),
        addr + n <= store.cells(area).len(),
    ensures
        store.reply_to(short_pdu(fc, addr, n)) == seq![fc, bytes_for_bits(n as nat) as u8]
            + packed_bits(store.values(area, addr as int, n as int)),
{
    let read = short_pdu(fc, addr, n);
    lemma_word_parts(addr);
    lemma_word_parts(n);
    assert(store.reply_to(read) =~= seq![fc, bytes_for_bits(n as nat) as u8] + packed_bits(
        store.values(area, addr as int, n as int),
    ));
}

proof fn lemma_read_words(store: StoreView, fc: u8, area: Area, addr: u16, n: u16)
    requires
        1 <= n <= 125,
        (fc == 0x03 && area is HoldingRegisters) || (fc == 0x04 && area is InputRegisters),
        addr + n <= store.cells(area).len(),
    ensures
        store.reply_to(short_pdu(fc, addr, n)) == seq![fc, (2 * n) as u8] + word_bytes(
            store.values(area, addr as int, n as int),
        ),
{
    let read = short_pdu(fc, addr, n);
    lemma_word_parts(addr);
    lemma_word_parts(n);
    assert(store.reply_to(read) =~= seq![fc, (2 * n) as u8] + word_bytes(
        store.values(area, addr as int, n as int),
    ));
}

proof fn lemma_bit_is_small(b: u8, j: u8)
    by (bit_vector)
    ensures
        ((b >> j) & 1) as u16 <= 1,
{
}

/// Coils written with function 0x0F are what function 0x01 reads, the bits that
/// fill up the last byte cleared.
pub proof fn lemma_write_bytes_then_read(store: StoreView, addr: u16, n: u16, bytes: Seq<u8>)
    requires
        store.wf(),
        1 <= n <= 1968,
        bytes.len() == bytes_for_bits(n as nat),
        addr + n <= store.cells(Area::Coils).len(),
    ensures
        ({
            let request = short_pdu(0x0F, addr, n) + seq![bytes.len() as u8] + bytes;
            let after = store.after_pdu(request);
            &&& store.reply_to(request) == short_pdu(0x0F, addr, n)
            &&& after.reply_to(short_pdu(0x01, addr, n)) == seq![0x01u8, bytes.len() as u8]
                + packed_bits(unpacked_bits(bytes, n as nat))
        }),
{
    let bits = unpacked_bits(bytes, n as nat);
    assert forall|i: int| 0 <= i < bits.len() implies #[trigger] bits[i] <= 1 by {
        lemma_bit_is_small(bytes[i / 8], (i % 8) as u8);
    }
    lemma_write_bits(store, addr, n, bytes);
    lemma_bits_stored(store, Area::Coils, addr as int, bits, "Modbus TCP"@);
    let request = short_pdu(0x0F, addr, n) + seq![bytes.len() as u8] + bytes;
    lemma_read_bits(store.after_pdu(request), 0x01, Area::Coils, addr, n);
}

proof fn lemma_write_bits_stores(store: StoreView, addr: u16, bits: Seq<u16>)
    requires
        1 <= bits.len() <= 1968,
        forall|i: int| 0 <= i < bits.len() ==> #[trigger] bits[i] <= 1,
        addr + bits.len() <= store.cells(Area::Coils).len(),
    ensures
        ({
            let request = write_bits_pdu(addr, bits);
            &&& store.reply_to(request) == short_pdu(0x0F, addr, bits.len() as u16)
            &&& store.after_pdu(request) == store.set_range(
                Area::Coils,
                addr as int,
                bits,
                "Modbus TCP"@,
            )
        }),
{
    lemma_bits_round_trip(bits);
    lemma_write_bits(store, addr, bits.len() as u16, packed_bits(bits));
}

/// Coils written with function 0x0F are what function 0x01 reads.
pub proof fn lemma_write_bits_then_read(store: StoreView, addr: u16, bits: Seq<u16>)
    requires
        store.wf(),
        1 <= bits.len() <= 1968,
        forall|i: int| 0 <= i < bits.len() ==> #[trigger] bits[i] <= 1,
        addr + bits.len() <= store.cells(Area::Coils).len(),
    ensures
        ({
            let request = write_bits_pdu(addr, bits);
            let after = store.after_pdu(request);
            &&& store.reply_to(request) == short_pdu(0x0F, addr, bits.len() as u16)
            &&& after.reply_to(short_pdu(0x01, addr, bits.len() as u16)) == seq![
                0x01u8,
                bytes_for_bits(bits.len()) as u8,
            ] + packed_bits(bits)
        }),
{
    lemma_write_bits_stores(store, addr, bits);
    lemma_bits_stored(store, Area::Coils, addr as int, bits, "Modbus TCP"@);
    let after = store.set_range(Area::Coils, addr as int, bits, "Modbus TCP"@);
    lemma_read_bits(after, 0x01, Area::Coils, addr, bits.len() as u16);
}

/// A client reads from each area what the store holds.
pub proof fn lemma_client_reads_the_store(store: StoreView, addr: u16, n: u16)
    requires
        1 <= n,
    ensures
        n <= 2000 && addr + n <= store.cells(Area::Coils).len() ==> store.reply_to(
            short_pdu(0x01, addr, n),
        ) == seq![0x01u8, bytes_for_bits(n as nat) as u8] + packed_bits(
            store.values(Area::Coils, addr as int, n as int),
        ),
        n <= 2000 && addr + n <= store.cells(Area::DiscreteInputs).len() ==> store.reply_to(
            short_pdu(0x02, addr, n),
        ) == seq![0x02u8, bytes_for_bits(n as nat) as u8] + packed_bits(
            store.values(Area::DiscreteInputs, addr as int, n as int),
        ),
        n <= 125 && addr + n <= store.cells(Area::HoldingRegisters).len() ==> store.reply_to(
            short_pdu(0x03, addr, n),
        ) == seq![0x03u8, (2 * n) as u8] + word_bytes(
            store.values(Area::HoldingRegisters, addr as int, n as int),
        ),
        n <= 125 && addr + n <= store.cells(Area::InputRegisters).len() ==> store.reply_to(
            short_pdu(0x04, addr, n),
        ) == seq![0x04u8, (2 * n) as u8] + word_bytes(
            store.values(Area::InputRegisters, addr as int, n as int),
        ),
{
    if n <= 2000 && addr + n <= store.cells(Area::Coils).len() {
        lemma_read_bits(store, 0x01, Area::Coils, addr, n);
    }
    if n <= 2000 && addr + n <= store.cells(Area::DiscreteInputs).len() {
        lemma_read_bits(store, 0x02, Area::DiscreteInputs, addr, n);
    }
    if n <= 125 && addr + n <= store.cells(Area::HoldingRegisters).len() {
        lemma_read_words(store, 0x03, Area::HoldingRegisters, addr, n);
    }
    if n <= 125 && addr + n <= store.cells(Area::InputRegisters).len() {
        lemma_read_words(store, 0x04, Area::InputRegisters, addr, n);
    }
}

/// Registers that the UI writes, a client reads; registers that a client writes,
/// the UI sees.
pub proof fn lemma_ui_and_client_share_the_store(
    store: StoreView,
    addr: u16,
    words: Seq<u16>,
    writer: Seq<char>,
)
    requires
        store.wf(),
        1 <= words.len() <= 125,
        addr + words.len() <= store.cells(Area::HoldingRegisters).len(),
    ensures
        ({
            let edited = store.set_range(Area::HoldingRegisters, addr as int, words, writer);
            let served = store.after_pdu(write_words_pdu(addr, words));
            let n = words.len() as int;
            &&& edited.reply_to(short_pdu(0x03, addr, n as u16)) == seq![
                0x03u8,
                (2 * n) as u8,
            ] + word_bytes(words)
            &&& n <= 123 ==> served.values(Area::HoldingRegisters, addr as int, n) == words
        }),
{
    let area = Area::HoldingRegisters;
    let n = words.len() as int;
    lemma_words_stored(store, addr as int, words, writer);
    let edited = store.set_range(area, addr as int, words, writer);
    lemma_read_words(edited, 0x03, area, addr, n as u16);
    if n <= 123 {
        lemma_write_words_stores(store, addr, words);
        lemma_words_stored(store, addr as int, words, "Modbus TCP"@);
    }
}

/// Coils that the UI writes, a client reads; coils that a client writes, the UI
/// sees.
pub proof fn lemma_ui_and_client_share_the_coils(
    store: StoreView,
    addr: u16,
    bits: Seq<u16>,
    writer: Seq<char>,
)
    requires
        store.wf(),
        1 <= bits.len() <= 2000,
        forall|i: int| 0 <= i < bits.len() ==> #[trigger] bits[i] <= 1,
        addr + bits.len() <= store.cells(Area::Coils).len(),
    ensures
        ({
            let edited = store.set_range(Area::Coils, addr as int, bits, writer);
            let served = store.after_pdu(write_bits_pdu(addr, bits));
            let n = bits.len() as int;
            &&& edited.reply_to(short_pdu(0x01, addr, n as u16)) == seq![
                0x01u8,
                bytes_for_bits(bits.len()) as u8,
            ] + packed_bits(bits)
            &&& n <= 1968 ==> served.values(Area::Coils, addr as int, n) == bits
        }),
{
    let n = bits.len() as int;
    lemma_bits_stored(store, Area::Coils, addr as int, bits, writer);
    let edited = store.set_range(Area::Coils, addr as int, bits, writer);
    lemma_read_bits(edited, 0x01, Area::Coils, addr, n as u16);
    if n <= 1968 {
        lemma_write_bits_stores(store, addr, bits);
        lemma_bits_stored(store, Area::Coils, addr as int, bits, "Modbus TCP"@);
    }
}

/// The frame that answers a read of holding registers parses to the values read,
/// with the transaction and unit id of the request.
pub proof fn lemma_parse_read_reply(header: Seq<u8>, words: Seq<u16>)
    requires
        header.len() == 7,
        1 <= words.len() <= 125,
    ensures
        ({
            let response = seq![0x03u8, (2 * words.len()) as u8] + word_bytes(words);
            &&& parsed_bytes(reply_frame(header, response)) matches Ok(frame)
            &&& frame.tx_id == word(header[0], header[1])
            &&& frame.proto_id == 0
            &&& frame.unit_id == header[6]
            &&& frame.function_code == 0x03
            &&& frame.words == words
        }),
{
    let response = seq![0x03u8, (2 * words.len()) as u8] + word_bytes(words);
    let bytes = reply_frame(header, response);
    let length = ((1 + response.len()) % 0x1_0000) as u16;
    assert(length == 3 + 2 * words.len());
    lemma_word_parts(length);
    assert(bytes_from(bytes, 9, data_length(length as int)) =~= word_bytes(words));
    lemma_words_round_trip(words);
}

} // verus!
