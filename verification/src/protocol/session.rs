//! Frames of a Modbus TCP connection: what is received, what is answered and what
//! is logged of both.

use vstd::prelude::*;

use super::modbus::{exception, exception_pdu, process_pdu};
use super::{
    log_message, logged, ContextView, EntryView, MessageLogEntry, MsgDirection, ProtocolContext,
};
use crate::model::byte_order::{high, join_bytes, low, split_word, word};
use crate::text::{hex_bytes, hex_bytes_text};

verus! {

/// The length field of a header, which counts the unit id and the PDU.
pub open spec fn frame_length(header: Seq<u8>) -> int {
    word(header[4], header[5]) as int
}

/// The number of PDU bytes that follow a header; `None` when its length is
/// malformed and the connection is to be closed without a reply.
pub fn pdu_len(header: &[u8; 7]) -> (n: Option<usize>)
    ensures
        n == (if 2 <= frame_length(header@) <= 254 {
            Some((frame_length(header@) - 1) as usize)
        } else {
            None
        }),
{
    let len: u16 = join_bytes(header[4], header[5]);
    if 2 <= len && len <= 254 {
        Some(len as usize - 1)
    } else {
        None
    }
}

/// Registers that a request PDU is about.
pub open spec fn request_registers(pdu: Seq<u8>) -> nat {
    let bytes = if pdu.len() > 5 {
        pdu[5] as nat
    } else {
        0
    };
    if pdu.len() < 5 {
        0
    } else if 0x01 <= pdu[0] <= 0x04 {
        word(pdu[3], pdu[4]) as nat
    } else if pdu[0] == 0x05 || pdu[0] == 0x06 {
        1
    } else if pdu[0] == 0x0F || pdu[0] == 0x10 {
        bytes / 2
    } else {
        0
    }
}

/// Best-effort register estimate for a received request PDU: for a read it is
/// the quantity, for a write the byte count / 2 (one value for a single write),
/// otherwise 0.
pub fn estimate_registers(pdu: &[u8]) -> (n: usize)
    ensures
        n == request_registers(pdu@),
{
    if pdu.len() < 5 {
        return 0;
    }
    let bytes: usize = if pdu.len() > 5 {
        pdu[5] as usize
    } else {
        0
    };
    match pdu[0] {
        0x01 | 0x02 | 0x03 | 0x04 => join_bytes(pdu[3], pdu[4]) as usize,
        0x05 | 0x06 => 1,
        0x0F | 0x10 => bytes / 2,
        _ => 0,
    }
}

/// Registers, or bits, that a response PDU carries.
pub open spec fn response_registers(response: Seq<u8>) -> nat {
    if response.len() < 2 {
        0
    } else if response[0] == 0x01 || response[0] == 0x02 {
        response[1] as nat * 8
    } else if response[0] == 0x03 || response[0] == 0x04 {
        response[1] as nat / 2
    } else {
        0
    }
}

/// Number of register words in a response PDU: for a read-registers response it
/// is the byte count / 2; for coils it is the bit count; otherwise 0.
pub fn register_count_of_response(resp: &[u8]) -> (n: usize)
    ensures
        n == response_registers(resp@),
{
    if resp.len() < 2 {
        return 0;
    }
    match resp[0] {
        0x01 | 0x02 => resp[1] as usize * 8,
        0x03 | 0x04 => resp[1] as usize / 2,
        _ => 0,
    }
}

/// Render bytes as space-separated big-endian hex, e.g. `"01 03 00 0A"`.
pub fn hex_str(bytes: &[u8]) -> (s: String)
    ensures
        s@ == hex_bytes(bytes@),
{
    hex_bytes_text(bytes)
}

/// The first byte of a PDU, 0 for an empty one.
pub open spec fn first_byte(pdu: Seq<u8>) -> u8 {
    if pdu.len() > 0 {
        pdu[0]
    } else {
        0
    }
}

/// Append bytes.
fn append_bytes(out: &mut Vec<u8>, bytes: &[u8])
    ensures
        final(out)@ == old(out)@ + bytes@,
{
    let ghost before = out@;
    let mut i: usize = 0;
    proof {
        assert(before + bytes@.take(0) =~= before);
    }
    while i < bytes.len()
        invariant
            i <= bytes@.len(),
            out@ == before + bytes@.take(i as int),
        decreases bytes@.len() - i,
    {
        out.push(bytes[i]);
        proof {
            assert(out@ =~= before + bytes@.take(i + 1));
        }
        i = i + 1;
    }
    proof {
        assert(bytes@.take(bytes@.len() as int) =~= bytes@);
    }
}

impl ContextView {
    /// The reply PDU to a frame. A frame of another protocol is refused.
    pub open spec fn answer(self, header: Seq<u8>, pdu: Seq<u8>) -> Seq<u8> {
        if word(header[2], header[3]) != 0 {
            exception_pdu(0x01, 0x01)
        } else {
            self.store.reply_to(pdu)
        }
    }

    /// The context after a frame was received and served.
    pub open spec fn received(
        self,
        header: Seq<u8>,
        pdu: Seq<u8>,
        time: Seq<char>,
        ts_ms: u64,
    ) -> ContextView {
        let foreign = word(header[2], header[3]) != 0;
        let stats = if foreign {
            self.stats
        } else {
            self.stats.after_pdu(self.store, pdu)
        };
        ContextView {
            store: if foreign {
                self.store
            } else {
                self.store.after_pdu(pdu)
            },
            stats: stats.with_requests(1),
            log: logged(
                self.log,
                EntryView {
                    direction: MsgDirection::Received,
                    function_code: first_byte(pdu),
                    bytes: header.len() + pdu.len(),
                    registers: request_registers(pdu),
                    hex: hex_bytes(header + pdu),
                    time,
                    ts_ms,
                },
            ),
        }
    }

    /// The context after a reply was sent.
    pub open spec fn replied(
        self,
        header: Seq<u8>,
        pdu: Seq<u8>,
        response: Seq<u8>,
        time: Seq<char>,
        ts_ms: u64,
    ) -> ContextView {
        ContextView {
            log: logged(
                self.log,
                EntryView {
                    direction: MsgDirection::Sent,
                    function_code: if response.len() > 0 {
                        response[0]
                    } else {
                        first_byte(pdu)
                    },
                    bytes: reply_frame(header, response).len(),
                    registers: response_registers(response),
                    hex: hex_bytes(reply_frame(header, response)),
                    time,
                    ts_ms,
                },
            ),
            ..self
        }
    }
}

/// The frame of a reply: the transaction and unit id of the request, protocol
/// id 0, the length, the PDU.
pub open spec fn reply_frame(header: Seq<u8>, response: Seq<u8>) -> Seq<u8> {
    let length = ((1 + response.len()) % 0x1_0000) as u16;
    seq![header[0], header[1], 0, 0, high(length), low(length), header[6]] + response
}

/// Serve a received frame and log it; gives the reply PDU. `time` and `ts_ms`
/// say when it was received.
pub fn receive_frame(
    header: &[u8; 7],
    pdu: &[u8],
    ctx: &mut ProtocolContext,
    time: String,
    ts_ms: u64,
) -> (response: Vec<u8>)
    ensures
        response@ == old(ctx)@.answer(header@, pdu@),
        final(ctx)@ == old(ctx)@.received(header@, pdu@, time@, ts_ms),
{
    let ghost before = ctx@;
    let response = if join_bytes(header[2], header[3]) != 0 {
        exception(0x01, 0x01)
    } else {
        process_pdu(pdu, &mut ctx.store, &mut ctx.stats)
    };
    ctx.stats.requests(1);
    let mut full: Vec<u8> = Vec::new();
    append_bytes(&mut full, header);
    append_bytes(&mut full, pdu);
    proof {
        assert(full@ =~= header@ + pdu@);
    }
    let entry = MessageLogEntry {
        direction: MsgDirection::Received,
        function_code: if pdu.len() > 0 {
            pdu[0]
        } else {
            0
        },
        bytes: full.len(),
        registers: estimate_registers(pdu),
        hex: hex_str(&full),
        time,
        ts_ms,
    };
    log_message(&mut ctx.logs, entry);
    proof {
        assert(ctx@ =~= before.received(header@, pdu@, time@, ts_ms));
    }
    response
}

/// The frame that carries a reply.
fn build_reply(header: &[u8; 7], response: &[u8]) -> (out: Vec<u8>)
    ensures
        out@ == reply_frame(header@, response@),
{
    let length: u16 = ((1 + response.len() % 0x1_0000) % 0x1_0000) as u16;
    let (hi, lo) = split_word(length);
    let mut out: Vec<u8> = vec![header[0], header[1], 0, 0, hi, lo, header[6]];
    proof {
        assert(length == ((1 + response@.len()) % 0x1_0000) as u16);
        assert(out@ =~= seq![header@[0], header@[1], 0, 0, high(length), low(length), header@[6]]);
    }
    append_bytes(&mut out, response);
    out
}

/// Build the frame that carries a reply, and log it. `time` and `ts_ms` say when
/// it is sent.
pub fn reply_to_frame(
    header: &[u8; 7],
    pdu: &[u8],
    response: &[u8],
    ctx: &mut ProtocolContext,
    time: String,
    ts_ms: u64,
) -> (out: Vec<u8>)
    ensures
        out@ == reply_frame(header@, response@),
        final(ctx)@ == old(ctx)@.replied(header@, pdu@, response@, time@, ts_ms),
{
    let ghost before = ctx@;
    let out = build_reply(header, response);
    let entry = MessageLogEntry {
        direction: MsgDirection::Sent,
        function_code: if response.len() > 0 {
            response[0]
        } else if pdu.len() > 0 {
            pdu[0]
        } else {
            0
        },
        bytes: out.len(),
        registers: register_count_of_response(response),
        hex: hex_str(&out),
        time,
        ts_ms,
    };
    log_message(&mut ctx.logs, entry);
    proof {
        assert(ctx@ =~= before.replied(header@, pdu@, response@, time@, ts_ms));
    }
    out
}

} // verus!
