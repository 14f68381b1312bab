//! What every operation leaves in every cell of the register bank.

use vstd::prelude::*;

use super::demo::{coil_address, coil_value, next_random, random_at, random_cells, random_word, Wiggle};
use super::store::{fresh_store, plain_rows, Area, CellView, StoreView};
use crate::numerals::{digit_row, lemma_padded_numeral, spelled};
use crate::text::dec_padded;

verus! {

/// The place of an area in a store.
pub open spec fn place(area: Area) -> int {
    match area {
        Area::Coils => 0,
        Area::DiscreteInputs => 1,
        Area::HoldingRegisters => 2,
        Area::InputRegisters => 3,
    }
}

/// What a cell of an area keeps of a word: a coil its lowest bit.
pub open spec fn kept_of(area: Area, w: u16) -> u16 {
    if area is Coils || area is DiscreteInputs {
        w % 2
    } else {
        w
    }
}

/// The coils, the discrete inputs, the holding registers and the input registers
/// lie in this order, and a range is the values of its cells; it is there when it
/// is not empty and ends in the area.
pub proof fn lemma_ranges(store: StoreView, area: Area, addr: int, qty: int, i: int)
    requires
        0 <= i < qty,
    ensures
        store.cells(area) == store.areas[place(area)],
        store.in_range(area, addr, qty) <==> addr + qty <= store.areas[place(area)].len(),
        !store.in_range(area, addr, 0),
        store.values(area, addr, qty).len() == qty,
        store.values(area, addr, qty)[i] == store.areas[place(area)][addr + i].value,
{
}

proof fn lemma_lowest_bit(w: u16)
    by (bit_vector)
    ensures
        w & 1 == w % 2,
{
}

/// A write of one cell keeps its name, signs it, and touches no other; of a coil
/// or a discrete input the lowest bit is kept. The revision moves on exactly
/// where the cell changes.
pub proof fn lemma_cell_set(
    store: StoreView,
    area: Area,
    addr: int,
    value: u16,
    writer: Seq<char>,
    i: int,
)
    requires
        store.areas.len() == 4,
        0 <= addr < store.areas[place(area)].len(),
    ensures
        ({
            let after = store.set(area, addr, value, writer);
            let k: int = match area {
                Area::Coils => 0,
                Area::DiscreteInputs => 1,
                Area::HoldingRegisters => 2,
                Area::InputRegisters => 3,
            };
            let new = CellView {
                value: if area is Coils || area is DiscreteInputs {
                    value & 1
                } else {
                    value
                },
                writer,
                name: store.areas[k][addr].name,
            };
            &&& after.areas.len() == 4
            &&& 0 <= i < 4 && i != k ==> after.areas[i] == store.areas[i]
            &&& after.areas[k].len() == store.areas[k].len()
            &&& after.areas[k][addr] == new
            &&& 0 <= i < store.areas[k].len() && i != addr ==> after.areas[k][i]
                == store.areas[k][i]
            &&& after.revision == (if new == store.areas[k][addr] {
                store.revision
            } else {
                store.revision.wrapping_add(1)
            })
        }),
{
    lemma_lowest_bit(value);
}

/// A write of a range keeps the names of its cells, signs them, and touches no
/// other; of coils and discrete inputs the lowest bits are kept. The revision
/// moves on by one.
pub proof fn lemma_range_set(
    store: StoreView,
    area: Area,
    addr: int,
    values: Seq<u16>,
    writer: Seq<char>,
    i: int,
)
    requires
        store.areas.len() == 4,
        0 <= addr,
        addr + values.len() <= store.areas[place(area)].len(),
    ensures
        ({
            let after = store.set_range(area, addr, values, writer);
            let k: int = match area {
                Area::Coils => 0,
                Area::DiscreteInputs => 1,
                Area::HoldingRegisters => 2,
                Area::InputRegisters => 3,
            };
            &&& after.areas.len() == 4
            &&& 0 <= i < 4 && i != k ==> after.areas[i] == store.areas[i]
            &&& after.areas[k].len() == store.areas[k].len()
            &&& 0 <= i < store.areas[k].len() ==> after.areas[k][i] == if addr <= i < addr
                + values.len() {
                CellView {
                    value: if area is Coils || area is DiscreteInputs {
                        values[i - addr] & 1
                    } else {
                        values[i - addr]
                    },
                    writer,
                    name: store.areas[k][i].name,
                }
            } else {
                store.areas[k][i]
            }
            &&& after.revision == store.revision.wrapping_add(1)
        }),
{
    if addr <= i < addr + values.len() {
        lemma_lowest_bit(values[i - addr]);
    }
}

/// A fill repeats its pattern from the first cell of the area on and signs every
/// cell; no other area changes.
pub proof fn lemma_area_filled(
    store: StoreView,
    area: Area,
    values: Seq<u16>,
    writer: Seq<char>,
    i: int,
    round: int,
)
    requires
        store.areas.len() == 4,
        values.len() > 0,
    ensures
        ({
            let after = store.filled(area, values, writer);
            let k = place(area);
            let j = round * values.len() + i;
            &&& after.areas.len() == 4
            &&& 0 <= i < 4 && i != k ==> after.areas[i] == store.areas[i]
            &&& after.areas[k].len() == store.areas[k].len()
            &&& 0 <= i < values.len() && 0 <= round && j < store.areas[k].len()
                ==> after.areas[k][j] == (CellView {
                value: kept_of(area, values[i]),
                writer,
                name: store.areas[k][j].name,
            })
            &&& after.revision == store.revision.wrapping_add(1)
        }),
{
    let n = values.len() as int;
    let j = round * n + i;
    if 0 <= i < n && 0 <= round {
        assert(0 <= j && j % n == i) by (nonlinear_arith)
            requires
                j == round * n + i,
                0 <= i < n,
                0 <= round,
        {
            vstd::arithmetic::div_mod::lemma_fundamental_div_mod_converse(j, n, round, i);
        }
    }
}

/// A reset writes a zero by the UI to every cell of the area and touches no
/// other area; the revision moves on by one where that changes a cell.
pub proof fn lemma_area_reset(store: StoreView, area: Area, i: int)
    requires
        store.areas.len() == 4,
    ensures
        ({
            let after = store.reset(area);
            let k = place(area);
            &&& after.areas.len() == 4
            &&& 0 <= i < 4 && i != k ==> after.areas[i] == store.areas[i]
            &&& after.areas[k].len() == store.areas[k].len()
            &&& 0 <= i < store.areas[k].len() ==> after.areas[k][i] == (CellView {
                value: 0,
                writer: "UI"@,
                name: store.areas[k][i].name,
            })
            &&& after.areas == store.areas ==> after == store
            &&& after.areas != store.areas ==> after.revision == store.revision.wrapping_add(1)
        }),
{
    let k = place(area);
    if store.zeroed(area) == store.cells(area) {
        if 0 <= i < store.areas[k].len() {
            assert(store.zeroed(area)[i] == store.areas[k][i]);
        }
    } else {
        assert(store.reset(area).areas[k] == store.zeroed(area));
    }
}

/// A new store has as many cells in each area as asked for, all zero, not yet
/// written, and named after their area and their address in at least four
/// digits.
pub proof fn lemma_new_store(size: nat, k: int, i: nat)
    requires
        0 <= k < 4,
        i < size,
    ensures
        ({
            let store = fresh_store(size);
            let cell = store.areas[k][i as int];
            let prefix = if k == 0 {
                "COIL"@
            } else if k == 1 {
                "DI"@
            } else if k == 2 {
                "HR"@
            } else {
                "IR"@
            };
            let digits = dec_padded(i, 4);
            &&& store.areas.len() == 4
            &&& store.revision == 0
            &&& store.areas[k].len() == size
            &&& cell.value == 0
            &&& cell.writer == "—"@
            &&& cell.name == prefix + seq!['_'] + digits
            &&& digits.len() >= 4
            &&& digit_row(digits)
            &&& spelled(digits) == i
        }),
{
    lemma_padded_numeral(i, 4);
}

/// A snapshot has a row for each cell with its address, none of them marked.
pub proof fn lemma_rows(cells: Seq<CellView>, i: int)
    requires
        0 <= i < cells.len(),
    ensures
        plain_rows(cells).len() == cells.len(),
        plain_rows(cells)[i].addr == i,
        plain_rows(cells)[i].cell == cells[i],
        !plain_rows(cells)[i].changed,
{
}

// ---------------------------------------------------------------------------
// Pseudo-random data
// ---------------------------------------------------------------------------

/// True for the numbers of the linear congruential sequence of Knuth's MMIX.
pub open spec fn congruential(xs: Seq<u64>) -> bool {
    forall|t: int|
        0 <= t < xs.len() - 1 ==> #[trigger] xs[t + 1] == xs[t].wrapping_mul(
            6_364_136_223_846_793_005,
        ).wrapping_add(1_442_695_040_888_963_407)
}

proof fn lemma_drawn(xs: Seq<u64>, t: nat)
    requires
        congruential(xs),
        t < xs.len(),
    ensures
        random_at(xs[0], t) == xs[t as int],
    decreases t,
{
    if t > 0 {
        let rest = xs.skip(1);
        lemma_rest(xs);
        lemma_drawn(rest, (t - 1) as nat);
    }
}

/// A random fill takes its values from the congruential sequence that starts
/// from the number of cells, one number each: a bit of it for the bit areas, two
/// shifts of it for the others.
pub proof fn lemma_random_values(area: Area, len: u64, xs: Seq<u64>, i: int)
    requires
        0 <= i < len,
        xs.len() == len + 1,
        xs[0] == len ^ 0xDEAD_BEEF,
        congruential(xs),
    ensures
        random_cells(area, len as nat).len() == len,
        random_cells(area, len as nat)[i] == (if area is Coils || area is DiscreteInputs {
            ((xs[i + 1] >> 33) & 1) as u16
        } else {
            ((xs[i + 1] >> 17) ^ (xs[i + 1] >> 1)) as u16
        }),
{
    lemma_drawn(xs, (i + 1) as nat);
}

proof fn lemma_register_left(w: Wiggle, xs: Seq<u64>, steps: nat, i: int)
    requires
        w.cells.len() > 0,
        congruential(xs),
        xs.len() == steps + 1,
        0 <= i < w.cells.len(),
        forall|t: int|
            1 <= t <= steps ==> (#[trigger] xs[t]) as int / 0x2_0000_0000 % w.cells.len() as int
                != i,
    ensures
        w.registers(xs[0], steps).cells.len() == w.cells.len(),
        w.registers(xs[0], steps).cells[i] == w.cells[i],
    decreases steps,
{
    if steps > 0 {
        let rest = xs.skip(1);
        lemma_rest(xs);
        let y = xs[0int + 1];
        let addr = (y / 0x2_0000_0000) as int % w.cells.len() as int;
        assert(xs[1] as int / 0x2_0000_0000 % w.cells.len() as int != i);
        let next = w.poke(addr, random_word(y));
        assert forall|t: int| 1 <= t <= steps - 1 implies (#[trigger] rest[t]) as int
            / 0x2_0000_0000 % next.cells.len() as int != i by {
            assert(rest[t] == xs[t + 1]);
        }
        lemma_register_left(next, rest, (steps - 1) as nat, i);
        assert(rest[0] == y && y == next_random(xs[0]));
    }
}

proof fn lemma_rest(xs: Seq<u64>)
    requires
        congruential(xs),
        xs.len() > 1,
    ensures
        congruential(xs.skip(1)),
        xs[1] == next_random(xs[0]),
{
    let rest = xs.skip(1);
    assert(xs[0int + 1] == next_random(xs[0]));
    assert forall|u: int| 0 <= u < rest.len() - 1 implies #[trigger] rest[u + 1]
        == rest[u].wrapping_mul(6_364_136_223_846_793_005).wrapping_add(1_442_695_040_888_963_407)
        by {
        let v = u + 1;
        assert(xs[v + 1] == xs[v].wrapping_mul(6_364_136_223_846_793_005).wrapping_add(
            1_442_695_040_888_963_407,
        ));
    }
}

proof fn lemma_register_written(w: Wiggle, xs: Seq<u64>, steps: nat, s: int)
    requires
        w.cells.len() > 0,
        congruential(xs),
        xs.len() == steps + 1,
        1 <= s <= steps,
        forall|t: int|
            s < t <= steps ==> (#[trigger] xs[t]) as int / 0x2_0000_0000 % w.cells.len() as int
                != xs[s] as int / 0x2_0000_0000 % w.cells.len() as int,
    ensures
        ({
            let after = w.registers(xs[0], steps).cells;
            let addr = xs[s] as int / 0x2_0000_0000 % w.cells.len() as int;
            &&& after.len() == w.cells.len()
            &&& after[addr].value == ((xs[s] >> 17) ^ (xs[s] >> 1)) as u16
        }),
    decreases steps,
{
    let rest = xs.skip(1);
    lemma_rest(xs);
    let n = w.cells.len() as int;
    let y = xs[1];
    let first = (y / 0x2_0000_0000) as int % n;
    let next = w.poke(first, random_word(y));
    let addr = xs[s] as int / 0x2_0000_0000 % n;
    assert(rest[0] == y);
    if s == 1 {
        assert forall|t: int| 1 <= t <= steps - 1 implies (#[trigger] rest[t]) as int
            / 0x2_0000_0000 % next.cells.len() as int != addr by {
            assert(rest[t] == xs[t + 1]);
        }
        lemma_register_left(next, rest, (steps - 1) as nat, addr);
    } else {
        assert(rest[s - 1] == xs[s]);
        assert forall|t: int| s - 1 < t <= steps - 1 implies (#[trigger] rest[t]) as int
            / 0x2_0000_0000 % next.cells.len() as int != rest[s - 1] as int / 0x2_0000_0000
            % next.cells.len() as int by {
            assert(rest[t] == xs[t + 1]);
        }
        lemma_register_written(next, rest, (steps - 1) as nat, s - 1);
    }
}

/// A tick of the demo mode draws sixteen numbers of the congruential sequence
/// that its seed starts; each chooses a holding register and the value that it
/// has after the tick, unless a later one chooses the same register.
pub proof fn lemma_tick_registers(store: StoreView, seed: u64, xs: Seq<u64>, s: int)
    requires
        store.areas.len() == 4,
        store.areas[2].len() > 0,
        congruential(xs),
        xs.len() == 17,
        xs[0] == seed.wrapping_mul(0x9E37_79B9_7F4A_7C15).wrapping_add(0x1234_5678_9ABC_DEF0),
        1 <= s <= 16,
        forall|t: int|
            s < t <= 16 ==> (#[trigger] xs[t]) as int / 0x2_0000_0000 % store.areas[2].len() as int
                != xs[s] as int / 0x2_0000_0000 % store.areas[2].len() as int,
    ensures
        ({
            let after = store.ticked(seed);
            let addr = xs[s] as int / 0x2_0000_0000 % store.areas[2].len() as int;
            after.areas[2][addr].value == ((xs[s] >> 17) ^ (xs[s] >> 1)) as u16
        }),
{
    let w = Wiggle { cells: store.areas[2], changed: false };
    lemma_register_written(w, xs, 16, s);
    let after = store.ticked(seed);
    assert(after.areas[2] == w.registers(xs[0], 16).cells);
}

proof fn lemma_coil_written(w: Wiggle, x: u64, steps: nat, k: int)
    requires
        w.cells.len() > 0,
        0 <= k < steps <= 4,
        forall|t: int|
            k < t < steps ==> #[trigger] coil_address(x, t as u64, w.cells.len() as int)
                != coil_address(x, k as u64, w.cells.len() as int),
    ensures
        w.coils(x, steps).cells.len() == w.cells.len(),
        w.coils(x, steps).cells[coil_address(x, k as u64, w.cells.len() as int)].value
            == coil_value(x, k as u64),
    decreases steps,
{
    let m = (steps - 1) as nat;
    lemma_coil_count(w, x, m);
    if k < m {
        lemma_coil_written(w, x, m, k);
        assert(coil_address(x, m as u64, w.cells.len() as int) != coil_address(
            x,
            k as u64,
            w.cells.len() as int,
        ));
    }
}

proof fn lemma_coil_count(w: Wiggle, x: u64, steps: nat)
    requires
        w.cells.len() > 0,
    ensures
        w.coils(x, steps).cells.len() == w.cells.len(),
    decreases steps,
{
    if steps > 0 {
        lemma_coil_count(w, x, (steps - 1) as nat);
    }
}

/// The last number of a tick chooses four coils and their values, later ones
/// going over earlier ones.
pub proof fn lemma_tick_coils(store: StoreView, seed: u64, xs: Seq<u64>, k: int)
    requires
        store.areas.len() == 4,
        store.areas[0].len() > 0,
        store.areas[2].len() > 0,
        congruential(xs),
        xs.len() == 17,
        xs[0] == seed.wrapping_mul(0x9E37_79B9_7F4A_7C15).wrapping_add(0x1234_5678_9ABC_DEF0),
        0 <= k < 4,
        forall|t: int|
            k < t < 4 ==> (#[trigger] xs[16].wrapping_add((7919 * t) as u64) as usize) as int
                % store.areas[0].len() as int != (xs[16].wrapping_add(
                (7919 * k) as u64,
            ) as usize) as int % store.areas[0].len() as int,
    ensures
        ({
            let after = store.ticked(seed);
            let addr = (xs[16].wrapping_add((7919 * k) as u64) as usize) as int
                % store.areas[0].len() as int;
            after.areas[0][addr].value == ((xs[16] >> ((3 + 7 * k) as u64)) & 1) as u16
        }),
{
    let c = Wiggle { cells: store.areas[0], changed: false };
    let n = store.areas[0].len() as int;
    let x = xs[16];
    lemma_drawn(xs, 16);
    assert forall|t: int| k < t < 4 implies #[trigger] coil_address(x, t as u64, n)
        != coil_address(x, k as u64, n) by {
        assert((xs[16].wrapping_add((7919 * t) as u64) as usize) as int % n != (xs[16].wrapping_add(
            (7919 * k) as u64,
        ) as usize) as int % n);
    }
    lemma_coil_written(c, x, 4, k);
    let after = store.ticked(seed);
    assert(after.areas[0] == c.coils(x, 4).cells);
}

proof fn lemma_registers_unmarked(w: Wiggle, x: u64, steps: nat)
    requires
        w.cells.len() > 0,
    ensures
        w.registers(x, steps).cells.len() == w.cells.len(),
        w.changed ==> w.registers(x, steps).changed,
        !w.registers(x, steps).changed ==> w.registers(x, steps).cells == w.cells,
    decreases steps,
{
    if steps > 0 {
        let y = next_random(x);
        let addr = (y / 0x2_0000_0000) as int % w.cells.len() as int;
        lemma_registers_unmarked(w.poke(addr, random_word(y)), y, (steps - 1) as nat);
    }
}

proof fn lemma_coils_unmarked(w: Wiggle, x: u64, steps: nat)
    requires
        w.cells.len() > 0,
    ensures
        w.changed ==> w.coils(x, steps).changed,
        !w.coils(x, steps).changed ==> w.coils(x, steps).cells == w.cells,
    decreases steps,
{
    if steps > 0 {
        lemma_coils_unmarked(w, x, (steps - 1) as nat);
    }
}

proof fn lemma_coil_left(w: Wiggle, x: u64, steps: nat, i: int)
    requires
        w.cells.len() > 0,
        0 <= i < w.cells.len(),
        forall|t: int|
            0 <= t < steps ==> #[trigger] coil_address(x, t as u64, w.cells.len() as int) != i,
    ensures
        w.coils(x, steps).cells.len() == w.cells.len(),
        w.coils(x, steps).cells[i] == w.cells[i],
    decreases steps,
{
    if steps > 0 {
        let m = (steps - 1) as nat;
        lemma_coil_left(w, x, m, i);
        assert(coil_address(x, m as u64, w.cells.len() as int) != i);
    }
}

/// A tick touches no cell that none of its numbers chooses, and no other area.
/// The revision moves on by one where a cell changes, and otherwise by one or not
/// at all. Without holding registers nothing happens.
pub proof fn lemma_tick_leaves(store: StoreView, seed: u64, xs: Seq<u64>, i: int)
    requires
        store.areas.len() == 4,
        congruential(xs),
        xs.len() == 17,
        xs[0] == seed.wrapping_mul(0x9E37_79B9_7F4A_7C15).wrapping_add(0x1234_5678_9ABC_DEF0),
    ensures
        ({
            let after = store.ticked(seed);
            let (r, c) = (store.areas[2].len() as int, store.areas[0].len() as int);
            &&& r == 0 ==> after == store
            &&& after.areas.len() == 4
            &&& after.areas[1] == store.areas[1]
            &&& after.areas[3] == store.areas[3]
            &&& 0 <= i < r && (forall|t: int|
                1 <= t <= 16 ==> (#[trigger] xs[t]) as int / 0x2_0000_0000 % r != i)
                ==> after.areas[2][i] == store.areas[2][i]
            &&& 0 <= i < c && (forall|t: int|
                0 <= t < 4 ==> (#[trigger] xs[16].wrapping_add((7919 * t) as u64) as usize) as int
                    % c != i) ==> after.areas[0][i] == store.areas[0][i]
            &&& after.revision == store.revision || after.revision == store.revision.wrapping_add(1)
            &&& after.areas != store.areas ==> after.revision == store.revision.wrapping_add(1)
        }),
{
    let (r, c) = (store.areas[2].len() as int, store.areas[0].len() as int);
    let after = store.ticked(seed);
    if r > 0 {
        let w = Wiggle { cells: store.areas[2], changed: false };
        let d = Wiggle { cells: store.areas[0], changed: false };
        lemma_drawn(xs, 16);
        lemma_registers_unmarked(w, xs[0], 16);
        let coils = if c > 0 {
            d.coils(xs[16], 4)
        } else {
            d
        };
        if c > 0 {
            lemma_coils_unmarked(d, xs[16], 4);
        }
        assert(after.areas[2] == w.registers(xs[0], 16).cells);
        assert(after.areas[0] == coils.cells);
        if 0 <= i < r && (forall|t: int|
            1 <= t <= 16 ==> (#[trigger] xs[t]) as int / 0x2_0000_0000 % r != i) {
            lemma_register_left(w, xs, 16, i);
        }
        if 0 <= i < c && (forall|t: int|
            0 <= t < 4 ==> (#[trigger] xs[16].wrapping_add((7919 * t) as u64) as usize) as int % c
                != i) {
            assert forall|t: int| 0 <= t < 4 implies #[trigger] coil_address(xs[16], t as u64, c)
                != i by {
                assert((xs[16].wrapping_add((7919 * t) as u64) as usize) as int % c != i);
            }
            lemma_coil_left(d, xs[16], 4, i);
        }
        if !w.registers(xs[0], 16).changed && !coils.changed {
            assert(after.areas =~= store.areas);
        }
    }
}

} // verus!
