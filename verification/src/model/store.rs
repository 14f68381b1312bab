//! The register bank: four data areas of cells with a change counter.

use vstd::prelude::*;

use crate::text::{dec_padded, push_dec_padded};

verus! {

/// Default number of cells per data area.
pub const DEFAULT_AREA_SIZE: usize = 1024;

/// The four classic Modbus data areas.
#[derive(Clone, Copy, PartialEq, Eq, Debug, Hash, Structural)]
pub enum Area {
    /// 0x - Coils, bit, read-write (FC 0x01 / 0x05 / 0x0F)
    Coils,
    /// 1x - Discrete inputs, bit, read-only (FC 0x02)
    DiscreteInputs,
    /// 3x - Holding registers, 16-bit, read-write (FC 0x03 / 0x06 / 0x10)
    HoldingRegisters,
    /// 4x - Input registers, 16-bit, read-only (FC 0x04)
    InputRegisters,
}

/// All areas, in the order of their index.
pub const ALL_AREAS: [Area; 4] = [
    Area::Coils,
    Area::DiscreteInputs,
    Area::HoldingRegisters,
    Area::InputRegisters,
];

impl Area {
    /// The position of the area in a store.
    pub open spec fn position(self) -> int {
        match self {
            Area::Coils => 0,
            Area::DiscreteInputs => 1,
            Area::HoldingRegisters => 2,
            Area::InputRegisters => 3,
        }
    }

    /// True for the two bit areas.
    pub open spec fn holds_bits(self) -> bool {
        self is Coils || self is DiscreteInputs
    }

    /// What a cell of this area stores when `v` is written to it.
    pub open spec fn masked(self, v: u16) -> u16 {
        if self.holds_bits() {
            v % 2
        } else {
            v
        }
    }

    /// The prefix of cell names.
    pub open spec fn name_prefix(self) -> Seq<char> {
        match self {
            Area::Coils => "COIL"@,
            Area::DiscreteInputs => "DI"@,
            Area::HoldingRegisters => "HR"@,
            Area::InputRegisters => "IR"@,
        }
    }

    /// Index of the area in a store.
    pub fn index(self) -> (i: usize)
        ensures
            i == self.position(),
            i < 4,
    {
        match self {
            Area::Coils => 0,
            Area::DiscreteInputs => 1,
            Area::HoldingRegisters => 2,
            Area::InputRegisters => 3,
        }
    }

    /// True for the two bit areas (coils / discrete inputs).
    pub fn is_bit(self) -> (b: bool)
        ensures
            b == self.holds_bits(),
    {
        matches!(self, Area::Coils | Area::DiscreteInputs)
    }

    /// True if the area can be written (by clients and by the UI).
    pub fn writable(self) -> (b: bool)
        ensures
            b == (self is Coils || self is HoldingRegisters),
    {
        matches!(self, Area::Coils | Area::HoldingRegisters)
    }

    /// Short display name.
    pub fn name(self) -> (s: &'static str)
        ensures
            s@ == (match self {
                Area::Coils => "Coils"@,
                Area::DiscreteInputs => "Discrete Inputs"@,
                Area::HoldingRegisters => "Holding Registers"@,
                Area::InputRegisters => "Input Registers"@,
            }),
    {
        match self {
            Area::Coils => "Coils",
            Area::DiscreteInputs => "Discrete Inputs",
            Area::HoldingRegisters => "Holding Registers",
            Area::InputRegisters => "Input Registers",
        }
    }

    /// Chinese display name.
    pub fn name_zh(self) -> (s: &'static str)
        ensures
            s@ == (match self {
                Area::Coils => "线圈"@,
                Area::DiscreteInputs => "离散输入"@,
                Area::HoldingRegisters => "保持寄存器"@,
                Area::InputRegisters => "输入寄存器"@,
            }),
    {
        match self {
            Area::Coils => "线圈",
            Area::DiscreteInputs => "离散输入",
            Area::HoldingRegisters => "保持寄存器",
            Area::InputRegisters => "输入寄存器",
        }
    }

    /// Default cell name prefix.
    pub fn prefix(self) -> (s: &'static str)
        ensures
            s@ == self.name_prefix(),
    {
        match self {
            Area::Coils => "COIL",
            Area::DiscreteInputs => "DI",
            Area::HoldingRegisters => "HR",
            Area::InputRegisters => "IR",
        }
    }

    /// What a cell of this area stores when `v` is written to it.
    pub(crate) fn stored(self, v: u16) -> (r: u16)
        ensures
            r == self.masked(v),
    {
        if self.is_bit() {
            v % 2
        } else {
            v
        }
    }
}

/// A single addressable cell: one coil bit or one 16-bit register word.
#[derive(Clone)]
pub struct Cell {
    /// Current value. For bit areas only `0` and `1` are meaningful.
    pub value: u16,
    /// Who wrote this value last (`"Modbus TCP"`, `"UI"`, `"Simulator"`, ...).
    pub writer: String,
    /// Human friendly name, e.g. `HR_0123`.
    pub name: String,
}

/// The complete register bank.
#[derive(Clone)]
pub struct RegisterStore {
    /// One vector per [`Area`], indexable with `Area::index()`.
    pub cells: [Vec<Cell>; 4],
    /// Counter that every mutation moves on, wrapping at its end.
    pub revision: u64,
}

// ---------------------------------------------------------------------------
// Model
// ---------------------------------------------------------------------------

/// What a cell holds.
#[verifier::ext_equal]
pub struct CellView {
    pub value: u16,
    pub writer: Seq<char>,
    pub name: Seq<char>,
}

impl View for Cell {
    type V = CellView;

    open spec fn view(&self) -> CellView {
        CellView { value: self.value, writer: self.writer@, name: self.name@ }
    }
}

/// What vectors of cells hold.
pub open spec fn cell_views(cells: Seq<Cell>) -> Seq<CellView> {
    Seq::new(cells.len(), |i: int| cells[i]@)
}

/// What a store holds.
#[verifier::ext_equal]
pub struct StoreView {
    /// The cells of each area, by its position.
    pub areas: Seq<Seq<CellView>>,
    pub revision: u64,
}

impl View for RegisterStore {
    type V = StoreView;

    open spec fn view(&self) -> StoreView {
        StoreView {
            areas: Seq::new(4, |k: int| cell_views(self.cells[k]@)),
            revision: self.revision,
        }
    }
}

/// The next revision.
pub open spec fn next_revision(r: u64) -> u64 {
    if r == u64::MAX {
        0
    } else {
        (r + 1) as u64
    }
}

impl CellView {
    /// The cell after a write.
    pub open spec fn written(self, value: u16, writer: Seq<char>) -> CellView {
        CellView { value, writer, name: self.name }
    }
}

impl StoreView {
    /// The cells of an area.
    pub open spec fn cells(self, area: Area) -> Seq<CellView> {
        self.areas[area.position()]
    }

    /// Every area is there, and the cells of bit areas hold bits.
    pub open spec fn wf(self) -> bool {
        &&& self.areas.len() == 4
        &&& forall|area: Area, i: int|
            area.holds_bits() && 0 <= i < self.cells(area).len() ==> (#[trigger] self.cells(
                area,
            )[i]).value <= 1
    }

    /// True when both stores have cells of the same names in the same places.
    pub open spec fn same_layout(self, other: StoreView) -> bool {
        forall|area: Area|
            {
                &&& (#[trigger] self.cells(area)).len() == other.cells(area).len()
                &&& forall|i: int|
                    0 <= i < self.cells(area).len() ==> (#[trigger] self.cells(area)[i]).name
                        == other.cells(area)[i].name
            }
    }

    /// The store with other cells in one area.
    pub open spec fn with_cells(self, area: Area, cells: Seq<CellView>) -> StoreView {
        StoreView {
            areas: self.areas.update(area.position(), cells),
            revision: self.revision,
        }
    }

    /// The store with the next revision.
    pub open spec fn bumped(self) -> StoreView {
        StoreView { areas: self.areas, revision: next_revision(self.revision) }
    }

    /// The store with other cells in one area and the next revision.
    pub open spec fn replaced(self, area: Area, cells: Seq<CellView>) -> StoreView {
        self.with_cells(area, cells).bumped()
    }

    /// True when `addr..addr + qty` is a non-empty range of the area.
    pub open spec fn in_range(self, area: Area, addr: int, qty: int) -> bool {
        qty > 0 && addr + qty <= self.cells(area).len()
    }

    /// The values of a range.
    pub open spec fn values(self, area: Area, addr: int, qty: int) -> Seq<u16> {
        Seq::new(qty as nat, |i: int| self.cells(area)[addr + i].value)
    }

    /// The store after a write of one cell.
    pub open spec fn set(self, area: Area, addr: int, value: u16, writer: Seq<char>) -> StoreView {
        let cell = self.cells(area)[addr];
        let new = cell.written(area.masked(value), writer);
        if new == cell {
            self
        } else {
            self.replaced(area, self.cells(area).update(addr, new))
        }
    }

    /// The cells of an area after a write of a range.
    pub open spec fn overwritten(
        self,
        area: Area,
        addr: int,
        values: Seq<u16>,
        writer: Seq<char>,
    ) -> Seq<CellView> {
        Seq::new(
            self.cells(area).len(),
            |i: int|
                {
                    let cell = self.cells(area)[i];
                    if addr <= i < addr + values.len() {
                        cell.written(area.masked(values[i - addr]), writer)
                    } else {
                        cell
                    }
                },
        )
    }

    /// The store after a write of a range.
    pub open spec fn set_range(
        self,
        area: Area,
        addr: int,
        values: Seq<u16>,
        writer: Seq<char>,
    ) -> StoreView {
        self.replaced(area, self.overwritten(area, addr, values, writer))
    }

    /// The store after an area was filled with a repeating pattern.
    pub open spec fn filled(self, area: Area, values: Seq<u16>, writer: Seq<char>) -> StoreView {
        self.replaced(
            area,
            Seq::new(
                self.cells(area).len(),
                |i: int|
                    self.cells(area)[i].written(
                        area.masked(values[i % values.len() as int]),
                        writer,
                    ),
            ),
        )
    }

    /// The cells of an area after a reset.
    pub open spec fn zeroed(self, area: Area) -> Seq<CellView> {
        Seq::new(self.cells(area).len(), |i: int| self.cells(area)[i].written(0, "UI"@))
    }

    /// The store after a reset of an area.
    pub open spec fn reset(self, area: Area) -> StoreView {
        if self.zeroed(area) == self.cells(area) {
            self
        } else {
            self.replaced(area, self.zeroed(area))
        }
    }
}

/// The name of cell `i` of an area.
pub open spec fn cell_name(area: Area, i: nat) -> Seq<char> {
    area.name_prefix() + seq!['_'] + dec_padded(i, 4)
}

/// `size` cells of an area as they are at the start.
pub open spec fn fresh_cells(area: Area, size: nat) -> Seq<CellView> {
    Seq::new(
        size,
        |i: int| CellView { value: 0, writer: "—"@, name: cell_name(area, i as nat) },
    )
}

/// A store with `size` cells per area, all zeroed.
pub open spec fn fresh_store(size: nat) -> StoreView {
    StoreView {
        areas: seq![
            fresh_cells(Area::Coils, size),
            fresh_cells(Area::DiscreteInputs, size),
            fresh_cells(Area::HoldingRegisters, size),
            fresh_cells(Area::InputRegisters, size),
        ],
        revision: 0,
    }
}

// ---------------------------------------------------------------------------
// Operations
// ---------------------------------------------------------------------------

/// The cells of an area as they are at the start.
fn build_cells(area: Area, size: usize) -> (cells: Vec<Cell>)
    ensures
        cell_views(cells@) == fresh_cells(area, size as nat),
{
    let mut cells: Vec<Cell> = Vec::new();
    let mut i: usize = 0;
    while i < size
        invariant
            i <= size,
            cell_views(cells@) == fresh_cells(area, i as nat),
        decreases size - i,
    {
        let mut name = area.prefix().to_string();
        name.push('_');
        push_dec_padded(&mut name, i as u64, 4);
        proof {
            assert(name@ =~= cell_name(area, i as nat));
        }
        let ghost before = cells@;
        cells.push(Cell { value: 0, writer: "—".to_string(), name });
        proof {
            assert(cell_views(before).len() == i);
            assert forall|j: int| 0 <= j <= i implies cell_views(cells@)[j] == fresh_cells(
                area,
                (i + 1) as nat,
            )[j] by {
                if j < i {
                    assert(cell_views(cells@)[j] == cell_views(before)[j]);
                    assert(fresh_cells(area, (i + 1) as nat)[j] == fresh_cells(area, i as nat)[j]);
                }
            }
            assert(cell_views(cells@) =~= fresh_cells(area, (i + 1) as nat));
        }
        i = i + 1;
    }
    cells
}

impl RegisterStore {
    /// Create a store with `size` cells per area, all zeroed; at least one.
    pub fn new(size: usize) -> (store: Self)
        ensures
            store@ == fresh_store(if size == 0 { 1 } else { size as nat }),
            store@.wf(),
    {
        let size: usize = if size == 0 {
            1
        } else {
            size
        };
        let store = RegisterStore {
            cells: [
                build_cells(Area::Coils, size),
                build_cells(Area::DiscreteInputs, size),
                build_cells(Area::HoldingRegisters, size),
                build_cells(Area::InputRegisters, size),
            ],
            revision: 0,
        };
        proof {
            assert(store@.areas =~= fresh_store(size as nat).areas);
        }
        store
    }

    /// Number of cells in an area.
    pub fn len(&self, area: Area) -> (n: usize)
        ensures
            n == self@.cells(area).len(),
    {
        self.cells[area.index()].len()
    }

    /// Read a single cell.
    pub fn get(&self, area: Area, addr: usize) -> (v: Option<u16>)
        ensures
            v == (if addr < self@.cells(area).len() {
                Some(self@.cells(area)[addr as int].value)
            } else {
                None
            }),
    {
        let ix: usize = area.index();
        if addr < self.cells[ix].len() {
            Some(self.cells[ix][addr].value)
        } else {
            None
        }
    }

    /// Read a contiguous range of cells (`addr .. addr+qty`).
    /// Returns `None` when the range is empty or out of bounds.
    pub fn range(&self, area: Area, addr: usize, qty: usize) -> (v: Option<Vec<u16>>)
        ensures
            match v {
                Some(words) => self@.in_range(area, addr as int, qty as int) && words@
                    == self@.values(area, addr as int, qty as int),
                None => !self@.in_range(area, addr as int, qty as int),
            },
    {
        let ix: usize = area.index();
        let n: usize = self.cells[ix].len();
        if qty == 0 || addr > n || qty > n - addr {
            return None;
        }
        let mut words: Vec<u16> = Vec::new();
        let mut i: usize = 0;
        while i < qty
            invariant
                i <= qty,
                ix == area.position(),
                ix < 4,
                addr + qty <= self.cells[ix as int]@.len(),
                n == self.cells[ix as int]@.len(),
                words@ == self@.values(area, addr as int, i as int),
            decreases qty - i,
        {
            words.push(self.cells[ix][addr + i].value);
            proof {
                assert(words@ =~= self@.values(area, addr as int, i + 1));
            }
            i = i + 1;
        }
        Some(words)
    }
}

impl RegisterStore {
    /// Put a value and its writer into a cell that exists.
    pub(crate) fn put(&mut self, area: Area, addr: usize, value: u16, writer: &str)
        requires
            addr < old(self)@.cells(area).len(),
        ensures
            final(self)@ == old(self)@.with_cells(
                area,
                old(self)@.cells(area).update(
                    addr as int,
                    old(self)@.cells(area)[addr as int].written(value, writer@),
                ),
            ),
    {
        let ix: usize = area.index();
        let ghost before = self@;
        self.cells[ix][addr].value = value;
        self.cells[ix][addr].writer = writer.to_string();
        proof {
            let cells = before.cells(area).update(
                addr as int,
                before.cells(area)[addr as int].written(value, writer@),
            );
            assert forall|k: int| 0 <= k < 4 implies self@.areas[k] == before.with_cells(
                area,
                cells,
            ).areas[k] by {
                assert(self@.areas[k] =~= before.with_cells(area, cells).areas[k]);
            }
            assert(self@ =~= before.with_cells(area, cells));
        }
    }

    /// True when a cell holds other than this value by this writer.
    fn differs(&self, area: Area, addr: usize, value: u16, writer: &str) -> (b: bool)
        requires
            addr < self@.cells(area).len(),
        ensures
            b == (self@.cells(area)[addr as int].written(value, writer@) != self@.cells(
                area,
            )[addr as int]),
    {
        let ix: usize = area.index();
        let w = writer.to_string();
        self.cells[ix][addr].value != value || self.cells[ix][addr].writer != w
    }

    pub(crate) fn bump(&mut self)
        ensures
            final(self)@ == old(self)@.bumped(),
    {
        self.revision = self.revision.wrapping_add(1);
    }

    /// Write a single cell. Returns `false` when out of bounds.
    pub fn set(&mut self, area: Area, addr: usize, value: u16, writer: &str) -> (b: bool)
        ensures
            b == (addr < old(self)@.cells(area).len()),
            final(self)@ == (if b {
                old(self)@.set(area, addr as int, value, writer@)
            } else {
                old(self)@
            }),
    {
        if addr >= self.len(area) {
            return false;
        }
        let v: u16 = area.stored(value);
        if self.differs(area, addr, v, writer) {
            self.put(area, addr, v, writer);
            self.bump();
        }
        true
    }

    /// Write a range of cells. Returns `false` when it is empty or out of bounds
    /// (no partial write).
    pub fn set_range(&mut self, area: Area, addr: usize, values: &[u16], writer: &str) -> (b: bool)
        ensures
            b == old(self)@.in_range(area, addr as int, values@.len() as int),
            final(self)@ == (if b {
                old(self)@.set_range(area, addr as int, values@, writer@)
            } else {
                old(self)@
            }),
    {
        let n: usize = self.len(area);
        if values.len() == 0 || addr > n || values.len() > n - addr {
            return false;
        }
        let ghost before = self@;
        let mut i: usize = 0;
        proof {
            assert(before.overwritten(area, addr as int, values@.take(0), writer@)
                =~= before.cells(area));
            assert(before.with_cells(area, before.cells(area)) =~= before);
        }
        while i < values.len()
            invariant
                i <= values@.len(),
                addr + values@.len() <= n == before.cells(area).len(),
                before.areas.len() == 4,
                self@ == before.with_cells(
                    area,
                    before.overwritten(area, addr as int, values@.take(i as int), writer@),
                ),
            decreases values@.len() - i,
        {
            let v: u16 = area.stored(values[i]);
            let ghost now = before.overwritten(area, addr as int, values@.take(i as int), writer@);
            let ghost then = before.overwritten(area, addr as int, values@.take(i + 1), writer@);
            proof {
                assert(then =~= now.update(addr + i, now[addr + i].written(v, writer@)));
                assert(self@.cells(area) == now);
                assert(now.update(addr + i, now[addr + i]) =~= now);
                assert(self@.with_cells(area, then) =~= before.with_cells(area, then));
            }
            if self.differs(area, addr + i, v, writer) {
                self.put(area, addr + i, v, writer);
            }
            i = i + 1;
        }
        self.bump();
        proof {
            assert(values@.take(values@.len() as int) =~= values@);
        }
        true
    }

    /// Fill an area with a repeating pattern.
    pub fn fill(&mut self, area: Area, values: &[u16], writer: &str)
        ensures
            final(self)@ == (if values@.len() == 0 {
                old(self)@
            } else {
                old(self)@.filled(area, values@, writer@)
            }),
    {
        if values.len() == 0 {
            return;
        }
        let n: usize = self.len(area);
        let ghost before = self@;
        let ghost goal = before.filled(area, values@, writer@).cells(area);
        let mut i: usize = 0;
        proof {
            assert(goal.take(0) + before.cells(area).skip(0) =~= before.cells(area));
            assert(before.with_cells(area, before.cells(area)) =~= before);
        }
        while i < n
            invariant
                i <= n == before.cells(area).len(),
                values@.len() > 0,
                before.areas.len() == 4,
                goal == before.filled(area, values@, writer@).cells(area),
                self@ == before.with_cells(
                    area,
                    goal.take(i as int) + before.cells(area).skip(i as int),
                ),
            decreases n - i,
        {
            let v: u16 = area.stored(values[i % values.len()]);
            let ghost now = goal.take(i as int) + before.cells(area).skip(i as int);
            let ghost then = goal.take(i + 1) + before.cells(area).skip(i + 1);
            proof {
                assert(self@.cells(area) == now);
                assert(now[i as int] == before.cells(area)[i as int]);
                assert(then =~= now.update(i as int, now[i as int].written(v, writer@)));
                assert(now.update(i as int, now[i as int]) =~= now);
                assert(self@.with_cells(area, then) =~= before.with_cells(area, then));
            }
            if self.differs(area, i, v, writer) {
                self.put(area, i, v, writer);
            }
            i = i + 1;
        }
        self.bump();
        proof {
            assert(goal.take(n as int) + before.cells(area).skip(n as int) =~= goal);
        }
    }

    /// Reset one area to all-zero.
    pub fn reset_area(&mut self, area: Area)
        ensures
            final(self)@ == old(self)@.reset(area),
    {
        let n: usize = self.len(area);
        let ghost before = self@;
        let ghost goal = before.zeroed(area);
        let mut changed = false;
        let mut i: usize = 0;
        proof {
            assert(goal.take(0) + before.cells(area).skip(0) =~= before.cells(area));
            assert(before.with_cells(area, before.cells(area)) =~= before);
        }
        while i < n
            invariant
                i <= n == before.cells(area).len(),
                before.areas.len() == 4,
                goal == before.zeroed(area),
                changed <==> exists|k: int|
                    0 <= k < i && #[trigger] goal[k] != before.cells(area)[k],
                self@ == before.with_cells(
                    area,
                    goal.take(i as int) + before.cells(area).skip(i as int),
                ),
            decreases n - i,
        {
            let ghost now = goal.take(i as int) + before.cells(area).skip(i as int);
            let ghost then = goal.take(i + 1) + before.cells(area).skip(i + 1);
            proof {
                assert(self@.cells(area) == now);
                assert(now[i as int] == before.cells(area)[i as int]);
                assert(then =~= now.update(i as int, now[i as int].written(0, "UI"@)));
                assert(now.update(i as int, now[i as int]) =~= now);
                assert(self@.with_cells(area, then) =~= before.with_cells(area, then));
                assert(goal[i as int] == now[i as int].written(0, "UI"@));
            }
            if self.differs(area, i, 0, "UI") {
                self.put(area, i, 0, "UI");
                changed = true;
            }
            i = i + 1;
        }
        proof {
            assert(goal.take(n as int) + before.cells(area).skip(n as int) =~= goal);
            if !changed {
                assert(goal =~= before.cells(area));
                assert(before.with_cells(area, goal) =~= before);
            }
        }
        if changed {
            self.bump();
        }
    }
}

// ---------------------------------------------------------------------------
// Snapshots
// ---------------------------------------------------------------------------

/// A point-in-time row for the UI table.
#[derive(Clone, Debug)]
pub struct Row {
    /// 0-based address of the cell.
    pub addr: usize,
    /// Name of the cell.
    pub name: String,
    /// Value of the cell.
    pub value: u16,
    /// Who wrote the value last.
    pub writer: String,
    /// True when the value changed since the previous snapshot (for highlight).
    pub changed: bool,
}

/// A point-in-time snapshot of one area.
#[derive(Clone, Debug)]
pub struct AreaSnapshot {
    /// The area.
    pub area: Area,
    /// One row per cell, by address.
    pub rows: Vec<Row>,
    /// Store revision at snapshot time.
    pub revision: u64,
}

/// What a row shows.
#[verifier::ext_equal]
pub struct RowView {
    pub addr: int,
    pub cell: CellView,
    pub changed: bool,
}

impl View for Row {
    type V = RowView;

    open spec fn view(&self) -> RowView {
        RowView {
            addr: self.addr as int,
            cell: CellView { value: self.value, writer: self.writer@, name: self.name@ },
            changed: self.changed,
        }
    }
}

/// What rows show.
pub open spec fn row_views(rows: Seq<Row>) -> Seq<RowView> {
    Seq::new(rows.len(), |i: int| rows[i]@)
}

/// The rows of cells, none of them marked as changed.
pub open spec fn plain_rows(cells: Seq<CellView>) -> Seq<RowView> {
    Seq::new(cells.len(), |i: int| RowView { addr: i, cell: cells[i], changed: false })
}

/// Take a snapshot of one area.
pub fn snapshot_area(store: &RegisterStore, area: Area) -> (s: AreaSnapshot)
    ensures
        s.area == area,
        s.revision == store@.revision,
        row_views(s.rows@) == plain_rows(store@.cells(area)),
{
    let ix: usize = area.index();
    let n: usize = store.cells[ix].len();
    let mut rows: Vec<Row> = Vec::new();
    let mut i: usize = 0;
    while i < n
        invariant
            i <= n,
            ix == area.position(),
            ix < 4,
            n == store.cells[ix as int]@.len(),
            row_views(rows@) == plain_rows(store@.cells(area)).take(i as int),
        decreases n - i,
    {
        let ghost before = row_views(rows@);
        rows.push(
            Row {
                addr: i,
                name: store.cells[ix][i].name.clone(),
                value: store.cells[ix][i].value,
                writer: store.cells[ix][i].writer.clone(),
                changed: false,
            },
        );
        proof {
            let row = plain_rows(store@.cells(area))[i as int];
            assert(row_views(rows@) =~= before.push(row));
            assert(plain_rows(store@.cells(area)).take(i + 1) =~= before.push(row));
        }
        i = i + 1;
    }
    proof {
        assert(plain_rows(store@.cells(area)).take(n as int) =~= plain_rows(store@.cells(area)));
    }
    AreaSnapshot { area, rows, revision: store.revision }
}

// ---------------------------------------------------------------------------
// Laws
// ---------------------------------------------------------------------------

impl StoreView {
    /// True when nothing outside `area` differs.
    pub open spec fn same_elsewhere(self, other: StoreView, area: Area) -> bool {
        forall|a: Area| a != area ==> #[trigger] self.cells(a) == other.cells(a)
    }

    pub(crate) proof fn lemma_with_cells(self, area: Area, cells: Seq<CellView>)
        requires
            self.areas.len() == 4,
        ensures
            ({
                let after = self.with_cells(area, cells);
                &&& after.areas.len() == 4
                &&& after.cells(area) == cells
                &&& after.same_elsewhere(self, area)
            }),
    {
        let after = self.with_cells(area, cells);
        assert forall|a: Area| a != area implies #[trigger] after.cells(a) == self.cells(a) by {
            assert(a.position() != area.position());
        }
    }

    /// What one area keeps, the store keeps.
    pub(crate) proof fn lemma_keeps(self, before: StoreView, area: Area)
        requires
            before.wf(),
            self.areas.len() == 4,
            self.same_elsewhere(before, area),
            self.cells(area).len() == before.cells(area).len(),
            forall|i: int|
                0 <= i < self.cells(area).len() ==> (#[trigger] self.cells(area)[i]).name
                    == before.cells(area)[i].name,
            area.holds_bits() ==> forall|i: int|
                0 <= i < self.cells(area).len() ==> (#[trigger] self.cells(area)[i]).value <= 1,
        ensures
            self.wf(),
            self.same_layout(before),
    {
        assert forall|a: Area, i: int|
            a.holds_bits() && 0 <= i < self.cells(a).len() implies (#[trigger] self.cells(
            a,
        )[i]).value <= 1 by {
            if a != area {
                assert(before.cells(a)[i].value <= 1);
            }
        }
        assert forall|a: Area|
            {
                &&& (#[trigger] self.cells(a)).len() == before.cells(a).len()
                &&& forall|i: int|
                    0 <= i < self.cells(a).len() ==> (#[trigger] self.cells(a)[i]).name
                        == before.cells(a)[i].name
            } by {
            if a != area {
                assert(self.cells(a) == before.cells(a));
            }
        }
    }

    /// A write of one cell is read back, changes no other cell, and keeps names,
    /// sizes and the bits of bit areas.
    pub proof fn lemma_set(self, area: Area, addr: int, value: u16, writer: Seq<char>)
        requires
            self.wf(),
            0 <= addr < self.cells(area).len(),
        ensures
            ({
                let after = self.set(area, addr, value, writer);
                &&& after.wf()
                &&& after.same_layout(self)
                &&& after.same_elsewhere(self, area)
                &&& after.cells(area)[addr].value == area.masked(value)
                &&& after.cells(area)[addr].writer == writer
                &&& forall|i: int|
                    0 <= i < self.cells(area).len() && i != addr ==> #[trigger] after.cells(area)[i]
                        == self.cells(area)[i]
            }),
    {
        let after = self.set(area, addr, value, writer);
        let new = self.cells(area)[addr].written(area.masked(value), writer);
        self.lemma_with_cells(area, self.cells(area).update(addr, new));
        assert(self.cells(area).update(addr, self.cells(area)[addr]) =~= self.cells(area));
        assert(after.cells(area) == self.cells(area).update(addr, new));
        assert(after.same_elsewhere(self, area));
        after.lemma_keeps(self, area);
    }

    /// A write of a range is read back, changes no other cell, and keeps names,
    /// sizes and the bits of bit areas.
    pub proof fn lemma_set_range(self, area: Area, addr: int, values: Seq<u16>, writer: Seq<char>)
        requires
            self.wf(),
            0 <= addr,
            self.in_range(area, addr, values.len() as int),
        ensures
            ({
                let after = self.set_range(area, addr, values, writer);
                &&& after.wf()
                &&& after.same_layout(self)
                &&& after.same_elsewhere(self, area)
                &&& after.values(area, addr, values.len() as int) == values.map_values(
                    |v: u16| area.masked(v),
                )
                &&& forall|i: int|
                    0 <= i < self.cells(area).len() && !(addr <= i < addr + values.len())
                        ==> #[trigger] after.cells(area)[i] == self.cells(area)[i]
            }),
    {
        let after = self.set_range(area, addr, values, writer);
        self.lemma_with_cells(area, self.overwritten(area, addr, values, writer));
        assert(after.cells(area) == self.overwritten(area, addr, values, writer));
        assert(after.same_elsewhere(self, area));
        after.lemma_keeps(self, area);
        assert(after.values(area, addr, values.len() as int) =~= values.map_values(
            |v: u16| area.masked(v),
        ));
    }

    /// A fill repeats its pattern over the area, changes no other area, and keeps
    /// names, sizes and the bits of bit areas.
    pub proof fn lemma_filled(self, area: Area, values: Seq<u16>, writer: Seq<char>)
        requires
            self.wf(),
            values.len() > 0,
        ensures
            ({
                let after = self.filled(area, values, writer);
                &&& after.wf()
                &&& after.same_layout(self)
                &&& after.same_elsewhere(self, area)
                &&& forall|i: int|
                    0 <= i < self.cells(area).len() ==> (#[trigger] after.cells(area)[i]).value
                        == area.masked(values[i % values.len() as int])
            }),
    {
        let after = self.filled(area, values, writer);
        self.lemma_with_cells(area, after.cells(area));
        assert(after.same_elsewhere(self, area));
        after.lemma_keeps(self, area);
    }

    /// A reset leaves zeros in the area and changes no other area; a second one
    /// changes nothing more.
    pub proof fn lemma_reset(self, area: Area)
        requires
            self.wf(),
        ensures
            ({
                let after = self.reset(area);
                &&& after.wf()
                &&& after.same_layout(self)
                &&& after.same_elsewhere(self, area)
                &&& forall|i: int|
                    0 <= i < self.cells(area).len() ==> (#[trigger] after.cells(area)[i]).value == 0
                &&& after.reset(area) == after
            }),
    {
        let after = self.reset(area);
        self.lemma_with_cells(area, self.zeroed(area));
        assert(after.cells(area) =~= self.zeroed(area));
        assert(after.same_elsewhere(self, area));
        after.lemma_keeps(self, area);
        assert(after.zeroed(area) =~= after.cells(area));
    }
}

} // verus!
