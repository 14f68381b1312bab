//! Reproducible pseudo-random data: the demo mode and random fills, and the
//! switching of single bits.

use vstd::prelude::*;

use super::store::{Area, CellView, RegisterStore, StoreView};

verus! {

/// The next number of the pseudo-random sequence.
pub open spec fn next_random(x: u64) -> u64 {
    x.wrapping_mul(6_364_136_223_846_793_005).wrapping_add(1_442_695_040_888_963_407)
}

/// The number that the sequence of a tick starts from.
pub open spec fn tick_start(seed: u64) -> u64 {
    seed.wrapping_mul(0x9E37_79B9_7F4A_7C15).wrapping_add(0x1234_5678_9ABC_DEF0)
}

/// Element `n` of the sequence after `x`.
pub open spec fn random_at(x: u64, n: nat) -> u64
    decreases n,
{
    if n == 0 {
        x
    } else {
        random_at(next_random(x), (n - 1) as nat)
    }
}

/// The register value drawn from `x`.
pub open spec fn random_word(x: u64) -> u16 {
    ((x >> 17) ^ (x >> 1)) as u16
}

/// The address that write `k` to the coils goes to.
pub open spec fn coil_address(x: u64, k: u64, n: int) -> int {
    (x.wrapping_add((k * 7919) as u64) as usize) as int % n
}

/// The value that write `k` to the coils stores.
pub open spec fn coil_value(x: u64, k: u64) -> u16 {
    ((x >> ((3 + k * 7) as u64)) & 1) as u16
}

/// Cells, and whether one of them was written.
#[verifier::ext_equal]
pub struct Wiggle {
    pub cells: Seq<CellView>,
    pub changed: bool,
}

impl Wiggle {
    /// Store a value, unless the cell holds it already.
    pub open spec fn poke(self, addr: int, value: u16) -> Wiggle {
        if self.cells[addr].value == value {
            self
        } else {
            Wiggle {
                cells: self.cells.update(
                    addr,
                    self.cells[addr].written(value, "Simulator"@),
                ),
                changed: true,
            }
        }
    }

    /// `steps` writes to registers, drawn from the sequence after `x`.
    pub open spec fn registers(self, x: u64, steps: nat) -> Wiggle
        decreases steps,
    {
        if steps == 0 {
            self
        } else {
            let y = next_random(x);
            self.poke((y / 0x2_0000_0000) as int % self.cells.len() as int, random_word(y)).registers(
                y,
                (steps - 1) as nat,
            )
        }
    }

    /// The first `k` writes to coils, drawn from `x`.
    pub open spec fn coils(self, x: u64, k: nat) -> Wiggle
        decreases k,
    {
        if k == 0 {
            self
        } else {
            let before = self.coils(x, (k - 1) as nat);
            before.poke(
                coil_address(x, (k - 1) as u64, self.cells.len() as int),
                coil_value(x, (k - 1) as u64),
            )
        }
    }
}

impl StoreView {
    /// The store after a tick of the demo mode: sixteen writes to holding
    /// registers, then four to coils.
    pub open spec fn ticked(self, seed: u64) -> StoreView {
        let registers = self.cells(Area::HoldingRegisters);
        let coils = self.cells(Area::Coils);
        if registers.len() == 0 {
            self
        } else {
            let start = tick_start(seed);
            let last = random_at(start, 16);
            let w = Wiggle { cells: registers, changed: false }.registers(start, 16);
            let c = Wiggle { cells: coils, changed: false };
            let c = if coils.len() > 0 {
                c.coils(last, 4)
            } else {
                c
            };
            let moved = self.with_cells(Area::HoldingRegisters, w.cells).with_cells(
                Area::Coils,
                c.cells,
            );
            if w.changed || c.changed {
                moved.bumped()
            } else {
                moved
            }
        }
    }
}

/// The next number of the pseudo-random sequence.
fn advance(x: u64) -> (y: u64)
    ensures
        y == next_random(x),
{
    x.wrapping_mul(6_364_136_223_846_793_005).wrapping_add(1_442_695_040_888_963_407)
}

impl RegisterStore {
    /// Store a value as the simulator, unless the cell holds it already.
    fn poke(&mut self, area: Area, addr: usize, value: u16) -> (changed: bool)
        requires
            addr < old(self)@.cells(area).len(),
        ensures
            ({
                let w = (Wiggle { cells: old(self)@.cells(area), changed: false }).poke(
                    addr as int,
                    value,
                );
                &&& changed == w.changed
                &&& final(self)@ == old(self)@.with_cells(area, w.cells)
            }),
    {
        if self.cells[area.index()][addr].value != value {
            self.put(area, addr, value, "Simulator");
            true
        } else {
            proof {
                assert(self@.with_cells(area, self@.cells(area)) =~= self@);
            }
            false
        }
    }

    /// Sixteen writes to holding registers, drawn from the sequence after `start`.
    fn wiggle_registers(&mut self, start: u64, n: usize) -> (r: (u64, bool))
        requires
            n == old(self)@.cells(Area::HoldingRegisters).len(),
            n > 0,
        ensures
            r.0 == random_at(start, 16),
            ({
                let w = (Wiggle {
                    cells: old(self)@.cells(Area::HoldingRegisters),
                    changed: false,
                }).registers(start, 16);
                &&& r.1 == w.changed
                &&& final(self)@ == old(self)@.with_cells(Area::HoldingRegisters, w.cells)
            }),
    {
        let ghost before = self@;
        let ghost first = Wiggle { cells: before.cells(Area::HoldingRegisters), changed: false };
        let ghost mut now = first;
        let mut changed = false;
        let mut x: u64 = start;
        let mut i: u64 = 0;
        proof {
            assert(before.with_cells(Area::HoldingRegisters, now.cells) =~= before);
        }
        while i < 16
            invariant
                i <= 16,
                n == now.cells.len(),
                n > 0,
                before.areas.len() == 4,
                changed == now.changed,
                self@ == before.with_cells(Area::HoldingRegisters, now.cells),
                now.registers(x, (16 - i) as nat) == first.registers(start, 16),
                random_at(x, (16 - i) as nat) == random_at(start, 16),
            decreases 16 - i,
        {
            x = advance(x);
            assert((x >> 33) == x / 0x2_0000_0000) by (bit_vector);
            let addr: usize = (x >> 33) as usize % n;
            let v: u16 = ((x >> 17) ^ (x >> 1)) as u16;
            if self.poke(Area::HoldingRegisters, addr, v) {
                changed = true;
            }
            proof {
                now = now.poke(addr as int, v);
                assert(self@ =~= before.with_cells(Area::HoldingRegisters, now.cells));
            }
            i = i + 1;
        }
        (x, changed)
    }

    /// Four writes to coils, drawn from `x`.
    fn wiggle_coils(&mut self, x: u64, n: usize) -> (changed: bool)
        requires
            n == old(self)@.cells(Area::Coils).len(),
            n > 0,
        ensures
            ({
                let w = (Wiggle { cells: old(self)@.cells(Area::Coils), changed: false }).coils(
                    x,
                    4,
                );
                &&& changed == w.changed
                &&& final(self)@ == old(self)@.with_cells(Area::Coils, w.cells)
            }),
    {
        let ghost before = self@;
        let ghost w = Wiggle { cells: before.cells(Area::Coils), changed: false };
        let mut changed = false;
        let mut k: u64 = 0;
        proof {
            assert(before.with_cells(Area::Coils, w.cells) =~= before);
        }
        while k < 4
            invariant
                k <= 4,
                n == w.cells.len(),
                n > 0,
                before.areas.len() == 4,
                self@ == before.with_cells(Area::Coils, w.coils(x, k as nat).cells),
                w.coils(x, k as nat).cells.len() == n,
                changed == w.coils(x, k as nat).changed,
            decreases 4 - k,
        {
            let addr: usize = x.wrapping_add(k * 7919) as usize % n;
            let v: u16 = ((x >> (3 + k * 7)) & 1) as u16;
            let ghost now = w.coils(x, k as nat);
            if self.poke(Area::Coils, addr, v) {
                changed = true;
            }
            proof {
                assert(w.coils(x, k as nat + 1) == now.poke(addr as int, v));
                assert(self@ =~= before.with_cells(Area::Coils, w.coils(x, k as nat + 1).cells));
            }
            k = k + 1;
        }
        changed
    }

    /// Demo mode: deterministically "wiggle" some holding registers and coils.
    /// `seed` is the tick counter; the pseudo-random sequence is reproducible.
    pub fn simulate_tick(&mut self, seed: u64)
        ensures
            final(self)@ == old(self)@.ticked(seed),
    {
        let start: u64 = seed.wrapping_mul(0x9E37_79B9_7F4A_7C15).wrapping_add(
            0x1234_5678_9ABC_DEF0,
        );
        let n: usize = self.len(Area::HoldingRegisters);
        if n == 0 {
            return;
        }
        let (x, registers_changed): (u64, bool) = self.wiggle_registers(start, n);
        let coils: usize = self.len(Area::Coils);
        let coils_changed = if coils > 0 {
            self.wiggle_coils(x, coils)
        } else {
            proof {
                assert(self@.with_cells(Area::Coils, self@.cells(Area::Coils)) =~= self@);
            }
            false
        };
        if registers_changed || coils_changed {
            self.bump();
        }
    }
}

// ---------------------------------------------------------------------------
// Random values and single bits
// ---------------------------------------------------------------------------

/// The number that a random fill of `len` cells starts from.
pub open spec fn fill_seed(len: u64) -> u64 {
    len ^ 0xDEAD_BEEF
}

/// The cell value of an area drawn from `x`.
pub open spec fn random_cell(area: Area, x: u64) -> u16 {
    if area.holds_bits() {
        ((x >> 33) & 1) as u16
    } else {
        random_word(x)
    }
}

/// The values of a random fill.
pub open spec fn random_cells(area: Area, len: nat) -> Seq<u16> {
    Seq::new(len, |i: int| random_cell(area, random_at(fill_seed(len as u64), (i + 1) as nat)))
}

/// A word with one bit set or cleared.
pub open spec fn with_bit(w: u16, bit: u16, on: bool) -> u16 {
    if on {
        w | (1u16 << bit)
    } else {
        w & !(1u16 << bit)
    }
}

proof fn lemma_random_step(x: u64, n: nat)
    ensures
        random_at(x, n + 1) == next_random(random_at(x, n)),
    decreases n,
{
    if n > 0 {
        lemma_random_step(next_random(x), (n - 1) as nat);
    } else {
        reveal_with_fuel(random_at, 2);
    }
}

impl RegisterStore {
    /// Fill an area with pseudo-random values, always the same for one size.
    pub fn random_fill(&mut self, area: Area)
        ensures
            final(self)@ == (if old(self)@.cells(area).len() == 0 {
                old(self)@
            } else {
                old(self)@.set_range(
                    area,
                    0,
                    random_cells(area, old(self)@.cells(area).len()),
                    "UI"@,
                )
            }),
    {
        let len: usize = self.len(area);
        let mut values: Vec<u16> = Vec::new();
        let mut x: u64 = len as u64 ^ 0xDEAD_BEEF;
        let ghost start = x;
        let mut i: usize = 0;
        while i < len
            invariant
                i <= len,
                start == fill_seed(len as u64),
                x == random_at(start, i as nat),
                values@ == random_cells(area, len as nat).take(i as int),
            decreases len - i,
        {
            proof {
                lemma_random_step(start, i as nat);
            }
            x = advance(x);
            values.push(
                if area.is_bit() {
                    ((x >> 33) & 1) as u16
                } else {
                    ((x >> 17) ^ (x >> 1)) as u16
                },
            );
            proof {
                assert(values@ =~= random_cells(area, len as nat).take(i + 1));
            }
            i = i + 1;
        }
        proof {
            assert(values@ =~= random_cells(area, len as nat));
        }
        self.set_range(area, 0, &values, "UI");
    }

    /// Set or clear one bit of a cell. Returns `false` when out of bounds.
    pub fn set_cell_bit(&mut self, area: Area, addr: usize, bit: u16, on: bool) -> (b: bool)
        requires
            bit < 16,
        ensures
            b == (addr < old(self)@.cells(area).len()),
            final(self)@ == (if b {
                old(self)@.set(
                    area,
                    addr as int,
                    with_bit(old(self)@.cells(area)[addr as int].value, bit, on),
                    "UI"@,
                )
            } else {
                old(self)@
            }),
    {
        let current: u16 = match self.get(area, addr) {
            Some(v) => v,
            None => 0,
        };
        let value: u16 = if on {
            current | (1u16 << bit)
        } else {
            current & !(1u16 << bit)
        };
        self.set(area, addr, value, "UI")
    }
}

/// Setting or clearing a bit sets or clears that bit and no other.
pub proof fn lemma_with_bit(w: u16, bit: u16, on: bool, other: u16)
    requires
        bit < 16,
        other < 16,
    ensures
        ((with_bit(w, bit, on) >> bit) & 1 == 1) == on,
        other != bit ==> (with_bit(w, bit, on) >> other) & 1 == (w >> other) & 1,
{
    assert(((w | (1u16 << bit)) >> bit) & 1 == 1) by (bit_vector)
        requires
            bit < 16,
    ;
    assert(((w & !(1u16 << bit)) >> bit) & 1 == 0) by (bit_vector)
        requires
            bit < 16,
    ;
    if other != bit {
        assert(((w | (1u16 << bit)) >> other) & 1 == (w >> other) & 1) by (bit_vector)
            requires
                bit < 16,
                other < 16,
                other != bit,
        ;
        assert(((w & !(1u16 << bit)) >> other) & 1 == (w >> other) & 1) by (bit_vector)
            requires
                bit < 16,
                other < 16,
                other != bit,
        ;
    }
}

// ---------------------------------------------------------------------------
// Laws
// ---------------------------------------------------------------------------

/// The places where cells differ from what they were.
pub open spec fn changed_cells(before: Seq<CellView>, after: Seq<CellView>) -> Set<int> {
    Set::new(|i: int| 0 <= i < before.len() && after[i] != before[i])
}

/// At most `n` cells differ from what they were, and the simulator wrote them.
pub open spec fn simulated(before: Seq<CellView>, after: Seq<CellView>, n: nat) -> bool {
    let changed = changed_cells(before, after);
    &&& changed.finite()
    &&& changed.len() <= n
    &&& forall|i: int| #[trigger] changed.contains(i) ==> after[i].writer == "Simulator"@
}

impl StoreView {
    /// A step of the demo mode changes at most sixteen holding registers and four
    /// coils, as the simulator, and keeps the other areas, the names, the sizes and
    /// the bits of bit areas.
    pub proof fn lemma_ticked(self, seed: u64)
        requires
            self.wf(),
        ensures
            ({
                let after = self.ticked(seed);
                &&& after.wf()
                &&& after.same_layout(self)
                &&& after.cells(Area::DiscreteInputs) == self.cells(Area::DiscreteInputs)
                &&& after.cells(Area::InputRegisters) == self.cells(Area::InputRegisters)
                &&& simulated(
                    self.cells(Area::HoldingRegisters),
                    after.cells(Area::HoldingRegisters),
                    16,
                )
                &&& simulated(self.cells(Area::Coils), after.cells(Area::Coils), 4)
            }),
    {
        lemma_nothing_changed(self.cells(Area::HoldingRegisters), 16);
        lemma_nothing_changed(self.cells(Area::Coils), 4);
        let registers = self.cells(Area::HoldingRegisters);
        let coils = self.cells(Area::Coils);
        let start = tick_start(seed);
        let last = random_at(start, 16);
        if registers.len() > 0 {
            let w = Wiggle { cells: registers, changed: false };
            lemma_registers_keep(w, start, 16);
            lemma_registers_changed(w, start, 16);
            let middle = self.with_cells(Area::HoldingRegisters, w.registers(start, 16).cells);
            self.lemma_with_cells(Area::HoldingRegisters, w.registers(start, 16).cells);
            middle.lemma_keeps(self, Area::HoldingRegisters);
            assert(middle.cells(Area::Coils) == coils);
            let c = Wiggle { cells: coils, changed: false };
            let new = if coils.len() > 0 {
                lemma_coils_keep(c, last, 4);
                lemma_coils_changed(c, last, 4);
                c.coils(last, 4).cells
            } else {
                coils
            };
            middle.lemma_with_cells(Area::Coils, new);
            let moved = middle.with_cells(Area::Coils, new);
            moved.lemma_keeps(middle, Area::Coils);
            let after = self.ticked(seed);
            assert(after.areas == moved.areas);
            assert(forall|a: Area| #[trigger] after.cells(a) == moved.cells(a));
            assert forall|a: Area| true implies {
                &&& (#[trigger] after.cells(a)).len() == self.cells(a).len()
                &&& forall|i: int|
                    0 <= i < after.cells(a).len() ==> (#[trigger] after.cells(a)[i]).name
                        == self.cells(a)[i].name
            } by {
                assert(moved.cells(a).len() == middle.cells(a).len());
                assert(middle.cells(a).len() == self.cells(a).len());
                assert forall|i: int| 0 <= i < after.cells(a).len() implies (
                #[trigger] after.cells(a)[i]).name == self.cells(a)[i].name by {
                    assert(moved.cells(a)[i].name == middle.cells(a)[i].name);
                    assert(middle.cells(a)[i].name == self.cells(a)[i].name);
                }
            }
        }
    }
}

proof fn lemma_registers_keep(w: Wiggle, x: u64, steps: nat)
    requires
        w.cells.len() > 0,
    ensures
        ({
            let after = w.registers(x, steps).cells;
            &&& after.len() == w.cells.len()
            &&& forall|i: int|
                0 <= i < after.len() ==> (#[trigger] after[i]).name == w.cells[i].name
        }),
    decreases steps,
{
    if steps > 0 {
        let y = next_random(x);
        let addr = (y / 0x2_0000_0000) as int % w.cells.len() as int;
        let next = w.poke(addr, random_word(y));
        lemma_registers_keep(next, y, (steps - 1) as nat);
        assert(forall|i: int|
            0 <= i < next.cells.len() ==> (#[trigger] next.cells[i]).name == w.cells[i].name);
    }
}

proof fn lemma_coils_keep(w: Wiggle, x: u64, k: nat)
    requires
        w.cells.len() > 0,
        forall|i: int| 0 <= i < w.cells.len() ==> (#[trigger] w.cells[i]).value <= 1,
    ensures
        ({
            let after = w.coils(x, k).cells;
            &&& after.len() == w.cells.len()
            &&& forall|i: int|
                0 <= i < after.len() ==> (#[trigger] after[i]).name == w.cells[i].name
                    && after[i].value <= 1
        }),
    decreases k,
{
    if k > 0 {
        lemma_coils_keep(w, x, (k - 1) as nat);
        let shift = (3 + (k - 1) as u64 * 7) as u64;
        assert(((x >> shift) & 1) as u16 <= 1) by (bit_vector);
    }
}

proof fn lemma_nothing_changed(cells: Seq<CellView>, n: nat)
    ensures
        simulated(cells, cells, n),
{
    assert(changed_cells(cells, cells) =~= Set::empty());
}

proof fn lemma_one_more_changed(before: Set<int>, after: Set<int>, addr: int)
    requires
        before.finite(),
        after.subset_of(before.insert(addr)),
    ensures
        after.finite(),
        after.len() <= before.len() + 1,
{
    vstd::set_lib::lemma_len_subset(after, before.insert(addr));
}

proof fn lemma_registers_changed(w: Wiggle, x: u64, steps: nat)
    requires
        w.cells.len() > 0,
    ensures
        simulated(w.cells, w.registers(x, steps).cells, steps),
    decreases steps,
{
    if steps == 0 {
        lemma_nothing_changed(w.cells, 0);
    } else {
        let y = next_random(x);
        let addr = (y / 0x2_0000_0000) as int % w.cells.len() as int;
        let next = w.poke(addr, random_word(y));
        lemma_registers_changed(next, y, (steps - 1) as nat);
        let after = w.registers(x, steps).cells;
        let changed = changed_cells(w.cells, after);
        let later = changed_cells(next.cells, after);
        assert(changed.subset_of(later.insert(addr)));
        lemma_one_more_changed(later, changed, addr);
        assert forall|i: int| #[trigger] changed.contains(i) implies after[i].writer
            == "Simulator"@ by {
            if !later.contains(i) {
                assert(after[i] == next.cells[i]);
            }
        }
    }
}

proof fn lemma_coils_changed(w: Wiggle, x: u64, k: nat)
    requires
        w.cells.len() > 0,
        forall|i: int| 0 <= i < w.cells.len() ==> (#[trigger] w.cells[i]).value <= 1,
    ensures
        simulated(w.cells, w.coils(x, k).cells, k),
    decreases k,
{
    if k == 0 {
        lemma_nothing_changed(w.cells, 0);
    } else {
        lemma_coils_changed(w, x, (k - 1) as nat);
        lemma_coils_keep(w, x, (k - 1) as nat);
        let addr = coil_address(x, (k - 1) as u64, w.cells.len() as int);
        let earlier = changed_cells(w.cells, w.coils(x, (k - 1) as nat).cells);
        let after = w.coils(x, k).cells;
        let changed = changed_cells(w.cells, after);
        assert(changed.subset_of(earlier.insert(addr)));
        lemma_one_more_changed(earlier, changed, addr);
        assert forall|i: int| #[trigger] changed.contains(i) implies after[i].writer
            == "Simulator"@ by {
            if i != addr {
                assert(earlier.contains(i));
            }
        }
    }
}

} // verus!
