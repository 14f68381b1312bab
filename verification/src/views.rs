//! What the models of the library's types say of their fields.

use vstd::prelude::*;

use crate::editor::BitEditorState;
use crate::model::store::{row_views, RegisterStore, Row};
use crate::model::value_type::outcome;
use crate::parser::ParserState;
use crate::protocol::frame::{frame_outcome, FrameView, ModbusFrameParse};
use crate::protocol::modbus::{bytes_outcome, ModbusError};
use crate::protocol::{log_view, MessageLogEntry, ProtocolContext, ServerState, StateView};
use crate::table::RegTable;

verus! {

/// A store is its four areas of cells, each with its value, writer and name, and
/// its revision.
pub proof fn lemma_store_view(store: RegisterStore, k: int, i: int)
    requires
        0 <= k < 4,
        0 <= i < store.cells[k]@.len(),
    ensures
        store@.areas.len() == 4,
        store@.areas[k].len() == store.cells[k]@.len(),
        store@.areas[k][i].value == store.cells[k]@[i].value,
        store@.areas[k][i].writer == store.cells[k]@[i].writer@,
        store@.areas[k][i].name == store.cells[k]@[i].name@,
        store@.revision == store.revision,
{
}

/// Rows are shown with their address, cell and mark.
pub proof fn lemma_rows_view(rows: Seq<Row>, i: int)
    requires
        0 <= i < rows.len(),
    ensures
        row_views(rows).len() == rows.len(),
        row_views(rows)[i].addr == rows[i].addr,
        row_views(rows)[i].cell.value == rows[i].value,
        row_views(rows)[i].cell.writer == rows[i].writer@,
        row_views(rows)[i].cell.name == rows[i].name@,
        row_views(rows)[i].changed == rows[i].changed,
{
}

/// A table is its area, its rows and the values shown before.
pub proof fn lemma_table_view(table: RegTable)
    ensures
        table@.area == table.area,
        table@.rows == row_views(table.rows@),
        table@.prev == table.prev@,
{
}

/// An editor is its fields.
pub proof fn lemma_editor_view(editor: BitEditorState)
    ensures
        editor@.bits == editor.bits@,
        editor@.reg_count == editor.reg_count,
        editor@.addr == editor.addr,
        editor@.area == editor.area,
        editor@.byte_order == editor.byte_order,
        editor@.value_type == editor.value_type,
        editor@.string_chars == editor.string_chars,
        editor@.pending_string == editor.pending_string@,
        editor@.view_mode == editor.view_mode,
{
}

/// A parsed frame is its fields.
pub proof fn lemma_frame_view(frame: ModbusFrameParse)
    ensures
        frame@.tx_id == frame.tx_id,
        frame@.proto_id == frame.proto_id,
        frame@.length == frame.length,
        frame@.unit_id == frame.unit_id,
        frame@.function_code == frame.function_code,
        frame@.name == frame.name@,
        frame@.note == frame.note@,
        frame@.words == frame.words@,
{
}

/// A decoder is its fields.
pub proof fn lemma_parser_view(parser: ParserState)
    ensures
        parser@.words == parser.words@,
        parser@.bits == parser.bits@,
        parser@.value_type == parser.value_type,
        parser@.byte_order == parser.byte_order,
        parser@.string_chars == parser.string_chars,
        parser@.info is Some <==> parser.info is Some,
        parser.info is Some ==> parser@.info->0 == parser.info->0@,
        parser@.error is Some <==> parser.error is Some,
        parser.error is Some ==> parser@.error->0 == parser.error->0@,
{
}

/// A context is its store, its statistics and its log, oldest entry first.
pub proof fn lemma_context_view(ctx: ProtocolContext, i: int)
    requires
        0 <= i < ctx.logs@.len(),
    ensures
        ctx@.store == ctx.store@,
        ctx@.stats == ctx.stats,
        ctx@.log.len() == ctx.logs@.len(),
        ctx@.log[i] == ctx.logs@[i]@,
{
}

/// A log entry is its fields.
pub proof fn lemma_entry_view(entry: MessageLogEntry, log: Seq<MessageLogEntry>, i: int)
    requires
        0 <= i < log.len(),
    ensures
        entry@.direction == entry.direction,
        entry@.function_code == entry.function_code,
        entry@.bytes == entry.bytes,
        entry@.registers == entry.registers,
        entry@.hex == entry.hex@,
        entry@.time == entry.time@,
        entry@.ts_ms == entry.ts_ms,
        log_view(log).len() == log.len(),
        log_view(log)[i] == log[i]@,
{
}

/// A lifecycle state is seen as what it is.
pub proof fn lemma_state_view(message: String)
    ensures
        ServerState::Stopped@ == StateView::Stopped,
        ServerState::Starting@ == StateView::Starting,
        ServerState::Running@ == StateView::Running,
        ServerState::Stopping@ == StateView::Stopping,
        ServerState::Error(message)@ == StateView::Error(message@),
{
}

/// A result is seen as what it holds.
pub proof fn lemma_outcomes(
    words: Vec<u16>,
    bytes: Vec<u8>,
    frame: ModbusFrameParse,
    error: ModbusError,
    message: String,
)
    ensures
        outcome(Ok(words)) == Ok::<Seq<u16>, Seq<char>>(words@),
        outcome(Err(message)) == Err::<Seq<u16>, Seq<char>>(message@),
        bytes_outcome(Ok(bytes)) == Ok::<Seq<u8>, ModbusError>(bytes@),
        bytes_outcome(Err(error)) == Err::<Seq<u8>, ModbusError>(error),
        frame_outcome(Ok(frame)) == Ok::<FrameView, Seq<char>>(frame@),
        frame_outcome(Err(message)) == Err::<FrameView, Seq<char>>(
            message@,
        ),
{
}

} // verus!
