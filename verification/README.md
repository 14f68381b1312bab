# iot-mock

The core of a desktop simulator for industrial protocols, written in Verus: a
Modbus TCP server, the register bank it serves, a decoder for Modbus TCP frames
and the state of the dialogs that edit and decode register values.

## The library (`src/`)

| Module | What it holds |
|--------|---------------|
| `model::byte_order` | the four byte orders of values that span several registers |
| `model::value_type` | registers as numbers, floats and strings, and back |
| `model::store` | the register bank: four areas of cells and a change counter |
| `model::demo` | reproducible demo data, random fills, single bits |
| `protocol` | statistics, message log, lifecycle contract of a server |
| `protocol::modbus` | serving Modbus request PDUs |
| `protocol::session` | the frames of a connection and their log |
| `protocol::lifecycle` | starting and stopping the Modbus TCP server |
| `protocol::frame` | decoding a frame written in hexadecimal |
| `protocol::laws` | what holds of the server across requests |
| `editor`, `parser`, `table` | the edit dialog, the decoder dialog, the register table |
| `bits`, `hex_list`, `labels` | rows of bits, lists of words, texts of the window |
| `text`, `float`, `float_text`, `natural` | numbers as text: integers, IEEE-754 floats, big naturals |

Every operation has an exact contract over mathematical models (`StoreView`,
`EditorView`, ...). Laws that relate several operations are public proof
functions: what a client writes it reads back, a refused request changes nothing,
a number or string decodes to what was encoded, a float's text reads back as the
float, a rendered frame parses as the frame.

Two facts about the standard library are taken on trust: that `String::push`
appends a character (`text.rs`), and what `String::from_utf8_lossy` returns
(`model/value_type.rs`).

## The application (`app/`)

Sockets, runtime and clock (`server.rs`), and the window (`view.rs`,
`table_view.rs`, `main.rs`), which additionally needs the crates `gpui`,
`gpui-component` and `gpui-component-assets`.
