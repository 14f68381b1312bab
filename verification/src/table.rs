//! The rows of the register table: what changed since the last snapshot.

use vstd::prelude::*;

use crate::model::store::{row_views, Area, AreaSnapshot, Row, RowView};

verus! {

/// The rows that the register table shows, with the values of the snapshot
/// before.
pub struct RegTable {
    /// The area shown.
    pub area: Area,
    /// The rows shown.
    pub rows: Vec<Row>,
    /// The value of each row when it was last shown.
    pub prev: Vec<u16>,
}

/// What a table holds.
#[verifier::ext_equal]
pub struct TableView {
    pub area: Area,
    pub rows: Seq<RowView>,
    pub prev: Seq<u16>,
}

impl View for RegTable {
    type V = TableView;

    open spec fn view(&self) -> TableView {
        TableView { area: self.area, rows: row_views(self.rows@), prev: self.prev@ }
    }
}

/// The position of the first row with an address, or the number of rows.
pub open spec fn row_at(rows: Seq<RowView>, addr: int) -> nat
    decreases rows.len(),
{
    if rows.len() == 0 || rows[0].addr == addr {
        0
    } else {
        1 + row_at(rows.skip(1), addr)
    }
}

impl TableView {
    /// The table after a snapshot: a row is marked where its value is not the
    /// one shown before.
    pub open spec fn shown(self, area: Area, rows: Seq<RowView>) -> TableView {
        TableView {
            area,
            rows: Seq::new(
                rows.len(),
                |i: int|
                    RowView {
                        changed: i < self.prev.len() && self.prev[i] != rows[i].cell.value,
                        ..rows[i]
                    },
            ),
            prev: Seq::new(rows.len(), |i: int| rows[i].cell.value),
        }
    }

    /// The table after a write by the UI.
    pub open spec fn poked(self, addr: int, value: u16, writer: Seq<char>) -> TableView {
        let k = row_at(self.rows, addr) as int;
        TableView {
            area: self.area,
            rows: if k < self.rows.len() {
                self.rows.update(
                    k,
                    RowView {
                        addr: self.rows[k].addr,
                        cell: self.rows[k].cell.written(value, writer),
                        changed: true,
                    },
                )
            } else {
                self.rows
            },
            prev: if addr < self.prev.len() {
                self.prev.update(addr, value)
            } else {
                self.prev
            },
        }
    }

    /// The table after a write of several cells by the UI.
    pub open spec fn poked_all(self, addr: int, values: Seq<u16>, writer: Seq<char>) -> TableView
        decreases values.len(),
    {
        if values.len() == 0 {
            self
        } else {
            self.poked_all(addr, values.drop_last(), writer).poked(
                addr + values.len() - 1,
                values.last(),
                writer,
            )
        }
    }
}

proof fn lemma_row_at(rows: Seq<RowView>, addr: int, n: nat)
    requires
        n <= rows.len(),
        forall|i: int| 0 <= i < n ==> (#[trigger] rows[i]).addr != addr,
        n == rows.len() || rows[n as int].addr == addr,
    ensures
        row_at(rows, addr) == n,
    decreases n,
{
    if n > 0 {
        let t = rows.skip(1);
        assert forall|i: int| 0 <= i < n - 1 implies (#[trigger] t[i]).addr != addr by {
            assert(t[i] == rows[i + 1]);
        }
        lemma_row_at(t, addr, (n - 1) as nat);
    }
}

impl RegTable {
    /// An empty table of the holding registers.
    pub fn new() -> (t: Self)
        ensures
            t@ == (TableView { area: Area::HoldingRegisters, rows: seq![], prev: seq![] }),
    {
        let t = RegTable { area: Area::HoldingRegisters, rows: Vec::new(), prev: Vec::new() };
        proof {
            assert(t@.rows =~= seq![]);
            assert(t@.prev =~= seq![]);
        }
        t
    }

    /// Replace the displayed rows with a fresh snapshot, flagging rows whose
    /// value changed since the previous snapshot.
    pub fn apply_snapshot(&mut self, snap: AreaSnapshot)
        ensures
            final(self)@ == old(self)@.shown(snap.area, row_views(snap.rows@)),
    {
        let ghost before = self@;
        let ghost given = row_views(snap.rows@);
        let area = snap.area;
        let mut rows: Vec<Row> = snap.rows;
        let mut prev: Vec<u16> = Vec::new();
        let ghost goal = before.shown(area, given);
        let mut i: usize = 0;
        proof {
            assert(row_views(rows@) =~= goal.rows.take(0) + given.skip(0));
        }
        while i < rows.len()
            invariant
                i <= rows@.len(),
                rows@.len() == given.len(),
                before == self@,
                goal == before.shown(area, given),
                row_views(rows@) == goal.rows.take(i as int) + given.skip(i as int),
                prev@ == goal.prev.take(i as int),
            decreases rows@.len() - i,
        {
            let ghost now = row_views(rows@);
            proof {
                assert(now[i as int] == given[i as int]);
                assert(rows@[i as int]@ == now[i as int]);
            }
            let value: u16 = rows[i].value;
            prev.push(value);
            rows[i].changed = i < self.prev.len() && self.prev[i] != value;
            proof {
                let then = row_views(rows@);
                assert(then[i as int] == goal.rows[i as int]);
                assert forall|k: int| 0 <= k < then.len() && k != i implies then[k] == now[k] by {}
                assert(then =~= goal.rows.take(i + 1) + given.skip(i + 1));
                assert(prev@ =~= goal.prev.take(i + 1));
            }
            i = i + 1;
        }
        self.prev = prev;
        self.area = area;
        self.rows = rows;
        proof {
            assert(self@ =~= goal);
        }
    }

    /// Switch to another area; the next snapshot repopulates the rows.
    pub fn set_area(&mut self, area: Area)
        ensures
            final(self)@ == (TableView { area, rows: seq![], prev: seq![] }),
    {
        self.area = area;
        self.rows = Vec::new();
        self.prev = Vec::new();
        proof {
            assert(self@.rows =~= seq![]);
            assert(self@.prev =~= seq![]);
        }
    }

    /// Immediately reflect a UI-driven write in the table (no wait for poll).
    pub fn poke_row(&mut self, addr: usize, value: u16, writer: &str)
        ensures
            final(self)@ == old(self)@.poked(addr as int, value, writer@),
    {
        let ghost before = self@;
        let mut k: usize = 0;
        while k < self.rows.len() && self.rows[k].addr != addr
            invariant
                k <= self.rows@.len(),
                before == self@,
                forall|i: int| 0 <= i < k ==> (#[trigger] self.rows@[i]).addr != addr,
            decreases self.rows@.len() - k,
        {
            k = k + 1;
        }
        proof {
            assert forall|i: int| 0 <= i < k implies (#[trigger] before.rows[i]).addr != addr by {
                assert(before.rows[i] == self.rows@[i]@);
            }
            lemma_row_at(before.rows, addr as int, k as nat);
        }
        if k < self.rows.len() {
            self.rows[k].value = value;
            self.rows[k].writer = writer.to_string();
            self.rows[k].changed = true;
        }
        if addr < self.prev.len() {
            self.prev.set(addr, value);
        }
        proof {
            assert(self@ =~= before.poked(addr as int, value, writer@));
        }
    }

    /// Reflect a UI-driven write of several cells from `addr` on.
    pub fn poke_rows(&mut self, addr: usize, values: &[u16], writer: &str)
        requires
            addr + values@.len() <= usize::MAX,
        ensures
            final(self)@ == old(self)@.poked_all(addr as int, values@, writer@),
    {
        let ghost before = self@;
        let mut i: usize = 0;
        while i < values.len()
            invariant
                i <= values@.len(),
                addr + values@.len() <= usize::MAX,
                self@ == before.poked_all(addr as int, values@.take(i as int), writer@),
            decreases values@.len() - i,
        {
            self.poke_row(addr + i, values[i], writer);
            proof {
                let now = values@.take(i + 1);
                assert(now.drop_last() =~= values@.take(i as int));
            }
            i = i + 1;
        }
        proof {
            assert(values@.take(values@.len() as int) =~= values@);
        }
    }
}

/// A second snapshot of the same rows marks none of them; a row that was poked
/// is not marked again by a snapshot that shows the poked value.
pub proof fn lemma_unchanged_rows_are_unmarked(
    table: TableView,
    area: Area,
    rows: Seq<RowView>,
    i: int,
)
    requires
        0 <= i < rows.len(),
    ensures
        !table.shown(area, rows).shown(area, rows).rows[i].changed,
        i < table.prev.len() ==> forall|writer: Seq<char>|
            !(#[trigger] table.poked(i, rows[i].cell.value, writer)).shown(
                area,
                rows,
            ).rows[i].changed,
{
}

/// A row is marked by a snapshot exactly where the value shown before differs.
pub proof fn lemma_changed_rows_are_marked(
    table: TableView,
    area: Area,
    first: Seq<RowView>,
    second: Seq<RowView>,
    i: int,
)
    requires
        0 <= i < first.len(),
        i < second.len(),
    ensures
        table.shown(area, first).shown(area, second).rows[i].changed <==> first[i].cell.value
            != second[i].cell.value,
{
}

/// A snapshot is shown as it is: its area, and each row with its address and its
/// cell, marked exactly where the table showed another value at its position.
pub proof fn lemma_snapshot_shown(table: TableView, area: Area, rows: Seq<RowView>, i: int)
    requires
        0 <= i < rows.len(),
    ensures
        ({
            let after = table.shown(area, rows);
            &&& after.area == area
            &&& after.rows.len() == rows.len()
            &&& after.rows[i].addr == rows[i].addr
            &&& after.rows[i].cell == rows[i].cell
            &&& after.rows[i].changed <==> i < table.prev.len() && table.prev[i]
                != rows[i].cell.value
            &&& after.prev.len() == rows.len()
            &&& after.prev[i] == rows[i].cell.value
        }),
{
}

/// In a table whose rows have their positions for addresses, a write is shown in
/// the row of its address with its value and its writer and marks it; no other
/// row changes, and an address without a row changes none.
pub proof fn lemma_write_shown(
    table: TableView,
    addr: int,
    value: u16,
    writer: Seq<char>,
    i: int,
)
    requires
        forall|k: int| 0 <= k < table.rows.len() ==> (#[trigger] table.rows[k]).addr == k,
        0 <= addr,
        0 <= i < table.rows.len(),
    ensures
        ({
            let after = table.poked(addr, value, writer);
            &&& after.area == table.area
            &&& after.rows.len() == table.rows.len()
            &&& after.prev.len() == table.prev.len()
            &&& i != addr ==> after.rows[i] == table.rows[i]
            &&& i != addr && i < table.prev.len() ==> after.prev[i] == table.prev[i]
            &&& i == addr ==> {
                &&& after.rows[i].addr == i
                &&& after.rows[i].cell.value == value
                &&& after.rows[i].cell.writer == writer
                &&& after.rows[i].cell.name == table.rows[i].cell.name
                &&& after.rows[i].changed
            }
            &&& i == addr && i < table.prev.len() ==> after.prev[i] == value
        }),
{
    if addr < table.rows.len() {
        lemma_row_at(table.rows, addr, addr as nat);
    } else {
        lemma_row_at(table.rows, addr, table.rows.len());
    }
}

/// A write of several cells is shown in the rows of their addresses.
pub proof fn lemma_writes_shown(
    table: TableView,
    addr: int,
    values: Seq<u16>,
    writer: Seq<char>,
    i: int,
)
    requires
        forall|k: int| 0 <= k < table.rows.len() ==> (#[trigger] table.rows[k]).addr == k,
        0 <= addr,
        0 <= i < table.rows.len(),
    ensures
        ({
            let after = table.poked_all(addr, values, writer);
            &&& after.area == table.area
            &&& after.rows.len() == table.rows.len()
            &&& forall|k: int| 0 <= k < after.rows.len() ==> (#[trigger] after.rows[k]).addr == k
            &&& !(addr <= i < addr + values.len()) ==> after.rows[i] == table.rows[i]
            &&& addr <= i < addr + values.len() ==> {
                &&& after.rows[i].cell.value == values[i - addr]
                &&& after.rows[i].cell.writer == writer
                &&& after.rows[i].cell.name == table.rows[i].cell.name
                &&& after.rows[i].changed
            }
        }),
    decreases values.len(),
{
    if values.len() > 0 {
        let init = values.drop_last();
        let before = table.poked_all(addr, init, writer);
        let last = addr + values.len() - 1;
        lemma_writes_shown(table, addr, init, writer, i);
        lemma_write_shown(before, last, values.last(), writer, i);
        let after = table.poked_all(addr, values, writer);
        assert forall|k: int| 0 <= k < after.rows.len() implies (#[trigger] after.rows[k]).addr
            == k by {
            lemma_write_shown(before, last, values.last(), writer, k);
            assert(before.rows[k].addr == k);
        }
    }
}

} // verus!
