//! The register bank.

use iot_mock::model::{snapshot_area, Area, RegisterStore, ALL_AREAS, DEFAULT_AREA_SIZE};

#[test]
fn a_new_store_is_zeroed_and_named() {
    let s = RegisterStore::new(12);
    for (i, area) in ALL_AREAS.into_iter().enumerate() {
        assert_eq!(area.index(), i);
        assert_eq!(s.len(area), 12);
        assert_eq!(s.get(area, 11), Some(0));
        assert_eq!(s.get(area, 12), None);
    }
    assert_eq!(s.cells[0][3].name, "COIL_0003");
    assert_eq!(s.cells[1][11].name, "DI_0011");
    assert_eq!(s.cells[2][0].name, "HR_0000");
    assert_eq!(s.cells[3][7].name, "IR_0007");
    assert_eq!(s.cells[3][7].writer, "—");
    assert_eq!(s.revision, 0);
    assert_eq!(RegisterStore::new(0).len(Area::Coils), 1);
    assert_eq!(RegisterStore::new(10001).cells[2][10000].name, "HR_10000");
    assert_eq!(RegisterStore::new(DEFAULT_AREA_SIZE).len(Area::Coils), 1024);
}

#[test]
fn areas_know_their_kind() {
    assert!(Area::Coils.is_bit() && Area::DiscreteInputs.is_bit());
    assert!(!Area::HoldingRegisters.is_bit() && !Area::InputRegisters.is_bit());
    assert!(Area::Coils.writable() && Area::HoldingRegisters.writable());
    assert!(!Area::DiscreteInputs.writable() && !Area::InputRegisters.writable());
    assert_eq!(Area::InputRegisters.name(), "Input Registers");
    assert_eq!(Area::DiscreteInputs.name_zh(), "离散输入");
    assert_eq!(Area::HoldingRegisters.prefix(), "HR");
}

#[test]
fn a_write_bumps_the_revision_only_where_it_changes_something() {
    let mut s = RegisterStore::new(4);
    assert!(s.set(Area::HoldingRegisters, 1, 5, "UI"));
    assert_eq!(s.revision, 1);
    assert!(s.set(Area::HoldingRegisters, 1, 5, "UI"));
    assert_eq!(s.revision, 1);
    assert!(s.set(Area::HoldingRegisters, 1, 5, "Modbus TCP"));
    assert_eq!(s.revision, 2);
    assert_eq!(s.cells[2][1].writer, "Modbus TCP");
    assert!(!s.set(Area::HoldingRegisters, 4, 5, "UI"));
    assert_eq!(s.revision, 2);
    s.revision = u64::MAX;
    assert!(s.set(Area::HoldingRegisters, 0, 1, "UI"));
    assert_eq!(s.revision, 0);
}

#[test]
fn bit_areas_store_the_lowest_bit() {
    let mut s = RegisterStore::new(4);
    s.set(Area::Coils, 0, 0xFFFF, "UI");
    s.set(Area::Coils, 1, 0xFFFE, "UI");
    assert_eq!(s.range(Area::Coils, 0, 2), Some(vec![1, 0]));
    s.set_range(Area::DiscreteInputs, 1, &[2, 3, 4], "UI");
    assert_eq!(s.range(Area::DiscreteInputs, 0, 4), Some(vec![0, 0, 1, 0]));
}

#[test]
fn ranges_write_all_or_nothing() {
    let mut s = RegisterStore::new(4);
    assert!(s.set_range(Area::HoldingRegisters, 1, &[7, 8, 9], "UI"));
    assert_eq!(s.range(Area::HoldingRegisters, 0, 4), Some(vec![0, 7, 8, 9]));
    assert_eq!(s.revision, 1);
    assert!(s.set_range(Area::HoldingRegisters, 1, &[7, 8, 9], "UI"));
    assert_eq!(s.revision, 2);
    assert!(!s.set_range(Area::HoldingRegisters, 2, &[1, 1, 1], "UI"));
    assert!(!s.set_range(Area::HoldingRegisters, 0, &[], "UI"));
    assert!(!s.set_range(Area::HoldingRegisters, usize::MAX, &[1], "UI"));
    assert_eq!(s.range(Area::HoldingRegisters, 0, 4), Some(vec![0, 7, 8, 9]));
    assert_eq!(s.revision, 2);
    assert_eq!(s.range(Area::HoldingRegisters, 0, 0), None);
    assert_eq!(s.range(Area::HoldingRegisters, 3, 2), None);
    assert_eq!(s.range(Area::HoldingRegisters, usize::MAX, 2), None);
}

#[test]
fn a_fill_repeats_its_pattern() {
    let mut s = RegisterStore::new(5);
    s.fill(Area::InputRegisters, &[1, 2], "test");
    assert_eq!(s.range(Area::InputRegisters, 0, 5), Some(vec![1, 2, 1, 2, 1]));
    assert_eq!(s.cells[3][4].writer, "test");
    assert_eq!(s.revision, 1);
    s.fill(Area::InputRegisters, &[], "test");
    assert_eq!(s.revision, 1);
    s.fill(Area::Coils, &[3], "test");
    assert_eq!(s.range(Area::Coils, 0, 5), Some(vec![1; 5]));
}

#[test]
fn a_reset_zeroes_once() {
    let mut s = RegisterStore::new(3);
    s.set(Area::HoldingRegisters, 1, 5, "Modbus TCP");
    s.reset_area(Area::HoldingRegisters);
    assert_eq!(s.range(Area::HoldingRegisters, 0, 3), Some(vec![0; 3]));
    assert_eq!(s.cells[2][1].writer, "UI");
    assert_eq!(s.revision, 2);
    s.reset_area(Area::HoldingRegisters);
    assert_eq!(s.revision, 2);
}

/// The demo mode, worked out step by step.
fn expected_tick(n: usize, seed: u64) -> (Vec<u16>, Vec<u16>) {
    let mut regs = vec![0u16; n];
    let mut coils = vec![0u16; n];
    let mut x = seed
        .wrapping_mul(0x9E37_79B9_7F4A_7C15)
        .wrapping_add(0x1234_5678_9ABC_DEF0);
    for _ in 0..16 {
        x = x
            .wrapping_mul(6_364_136_223_846_793_005)
            .wrapping_add(1_442_695_040_888_963_407);
        regs[(x >> 33) as usize % n] = ((x >> 17) ^ (x >> 1)) as u16;
    }
    for k in 0..4u64 {
        coils[x.wrapping_add(k * 7919) as usize % n] = ((x >> (3 + k * 7)) & 1) as u16;
    }
    (regs, coils)
}

#[test]
fn the_demo_mode_is_reproducible() {
    for n in [1usize, 7, 256] {
        for seed in [0u64, 1, 12345, u64::MAX] {
            let mut s = RegisterStore::new(n);
            s.simulate_tick(seed);
            let (regs, coils) = expected_tick(n, seed);
            assert_eq!(s.range(Area::HoldingRegisters, 0, n), Some(regs));
            assert_eq!(s.range(Area::Coils, 0, n), Some(coils));
            assert_eq!(s.range(Area::InputRegisters, 0, n), Some(vec![0; n]));
            assert_eq!(s.revision, 1);
        }
    }
    let mut s = RegisterStore::new(64);
    s.simulate_tick(3);
    let touched = s.cells[2].iter().filter(|c| c.writer == "Simulator").count();
    assert!(touched > 0 && touched <= 16);
}

#[test]
fn random_values_depend_on_the_size_only() {
    let mut a = RegisterStore::new(9);
    let mut b = RegisterStore::new(9);
    b.set(Area::HoldingRegisters, 2, 77, "test");
    a.random_fill(Area::HoldingRegisters);
    b.random_fill(Area::HoldingRegisters);
    let mut seed = 9u64 ^ 0xDEAD_BEEF;
    let mut want = Vec::new();
    for _ in 0..9 {
        seed = seed
            .wrapping_mul(6_364_136_223_846_793_005)
            .wrapping_add(1_442_695_040_888_963_407);
        want.push(((seed >> 17) ^ (seed >> 1)) as u16);
    }
    assert_eq!(a.range(Area::HoldingRegisters, 0, 9), Some(want.clone()));
    assert_eq!(b.range(Area::HoldingRegisters, 0, 9), Some(want));
    assert_eq!(a.cells[2][0].writer, "UI");
    a.random_fill(Area::Coils);
    assert!(a.range(Area::Coils, 0, 9).unwrap().iter().all(|v| *v <= 1));
}

#[test]
fn single_bits_can_be_switched() {
    let mut s = RegisterStore::new(2);
    assert!(s.set_cell_bit(Area::HoldingRegisters, 1, 15, true));
    assert!(s.set_cell_bit(Area::HoldingRegisters, 1, 0, true));
    assert_eq!(s.get(Area::HoldingRegisters, 1), Some(0x8001));
    assert!(s.set_cell_bit(Area::HoldingRegisters, 1, 15, false));
    assert_eq!(s.get(Area::HoldingRegisters, 1), Some(1));
    assert!(!s.set_cell_bit(Area::HoldingRegisters, 2, 0, true));
    assert_eq!(s.cells[2][1].writer, "UI");
}

#[test]
fn snapshots_show_every_cell() {
    let mut s = RegisterStore::new(3);
    s.set(Area::HoldingRegisters, 2, 9, "UI");
    let snap = snapshot_area(&s, Area::HoldingRegisters);
    assert_eq!(snap.area, Area::HoldingRegisters);
    assert_eq!(snap.revision, 1);
    assert_eq!(snap.rows.len(), 3);
    assert_eq!(snap.rows[2].addr, 2);
    assert_eq!(snap.rows[2].name, "HR_0002");
    assert_eq!(snap.rows[2].value, 9);
    assert_eq!(snap.rows[2].writer, "UI");
    assert!(!snap.rows[2].changed);
}
