use elytra_sim::dp::{
    corner_keys, DPKey, DPKeyRepresentative, DPMeta, DPValue, GoodnessAtTick, DP, Y_POS_INIT,
};
use elytra_sim::grid::GridMeta;

fn rep(y_pos: f64, y_vel: f64, z_vel: f64) -> DPKeyRepresentative {
    DPKeyRepresentative(DPKey {
        y_pos: y_pos.to_bits(),
        y_vel: y_vel.to_bits(),
        z_vel: z_vel.to_bits(),
    })
}

fn coords(r: &DPKeyRepresentative) -> (f64, f64, f64) {
    (
        f64::from_bits(r.0.y_pos),
        f64::from_bits(r.0.y_vel),
        f64::from_bits(r.0.z_vel),
    )
}

fn value(goodness: f64) -> DPValue {
    DPValue {
        pitch: Some(3.0f32.to_bits()),
        goodness: goodness.to_bits(),
    }
}

#[test]
fn from_grid_meta_copies_the_velocity_axes() {
    let meta = GridMeta {
        width: 30,
        height: 20,
        y_vel_lo: (-1.0f64).to_bits(),
        y_vel_hi: 1.0f64.to_bits(),
        z_vel_lo: 0.5f64.to_bits(),
        z_vel_hi: 2.5f64.to_bits(),
    };
    let dp_meta = DPMeta::from_grid_meta(&meta, (-10.0f64).to_bits(), 10.0f64.to_bits(), 7);
    assert_eq!(f64::from_bits(dp_meta.y_pos_lo), -10.0);
    assert_eq!(f64::from_bits(dp_meta.y_pos_hi), 10.0);
    assert_eq!(f64::from_bits(dp_meta.y_vel_lo), -1.0);
    assert_eq!(f64::from_bits(dp_meta.y_vel_hi), 1.0);
    assert_eq!(f64::from_bits(dp_meta.z_vel_lo), 0.5);
    assert_eq!(f64::from_bits(dp_meta.z_vel_hi), 2.5);
    assert_eq!(dp_meta.y_pos_width, 7);
    assert_eq!(dp_meta.y_vel_width, 20);
    assert_eq!(dp_meta.z_vel_width, 30);
}

#[test]
fn from_yz_vel_starts_at_height_zero() {
    let k = DPKey::from_yz_vel(0.25f64.to_bits(), (-0.5f64).to_bits());
    assert_eq!(f64::from_bits(k.y_pos), 0.0);
    assert_eq!(k.y_pos, Y_POS_INIT);
    assert_eq!(f64::from_bits(k.y_vel), 0.25);
    assert_eq!(f64::from_bits(k.z_vel), -0.5);
}

#[test]
fn representatives_compare_bit_patterns() {
    assert!(rep(0.5, 0.1, 0.2) == rep(0.5, 0.1, 0.2));
    assert!(rep(0.5, 0.1, 0.2) != rep(0.5, 0.1, 0.3));
    // the two zeros have different bit patterns
    assert!(rep(0.0, 0.1, 0.2) != rep(-0.0, 0.1, 0.2));
    // a NaN is the same representative as itself
    assert!(rep(f64::NAN, 0.1, 0.2) == rep(f64::NAN, 0.1, 0.2));
}

#[test]
fn corner_keys_follow_the_index_bits() {
    let lo = rep(0.0, 0.1, 0.2);
    let hi = rep(0.5, 0.2, 0.3);
    let keys = corner_keys(&lo, &hi);
    assert_eq!(coords(&keys[0]), (0.0, 0.1, 0.2));
    assert_eq!(coords(&keys[1]), (0.0, 0.1, 0.3));
    assert_eq!(coords(&keys[2]), (0.0, 0.2, 0.2));
    assert_eq!(coords(&keys[3]), (0.0, 0.2, 0.3));
    assert_eq!(coords(&keys[4]), (0.5, 0.1, 0.2));
    assert_eq!(coords(&keys[5]), (0.5, 0.1, 0.3));
    assert_eq!(coords(&keys[6]), (0.5, 0.2, 0.2));
    assert_eq!(coords(&keys[7]), (0.5, 0.2, 0.3));
}

#[test]
fn empty_table_reports_every_corner_missing() {
    let lo = rep(0.0, 0.1, 0.2);
    let hi = rep(0.5, 0.2, 0.3);
    let table = GoodnessAtTick::empty();
    match table.corner_values(&lo, &hi) {
        Ok(_) => panic!("an empty table has no value"),
        Err(missing) => {
            assert_eq!(missing.len(), 8);
            let keys = corner_keys(&lo, &hi);
            for i in 0..8 {
                assert!(missing[i] == keys[i]);
            }
        }
    }
}

#[test]
fn filling_the_missing_corners_completes_the_box() {
    let lo = rep(0.0, 0.1, 0.2);
    let hi = rep(0.5, 0.2, 0.3);
    let mut table = GoodnessAtTick::empty();
    let missing = table.corner_values(&lo, &hi).unwrap_err();
    let values: Vec<DPValue> = (0..missing.len()).map(|i| value(i as f64)).collect();
    assert!(table.fill(&missing, &values));
    let found = table.corner_values(&lo, &hi).unwrap();
    for (i, v) in found.iter().enumerate() {
        assert_eq!(f64::from_bits(v.goodness), i as f64);
        assert_eq!(v.pitch, Some(3.0f32.to_bits()));
    }
}

#[test]
fn partly_filled_box_reports_the_rest_in_corner_order() {
    let lo = rep(0.0, 0.1, 0.2);
    let hi = rep(0.5, 0.2, 0.3);
    let keys = corner_keys(&lo, &hi);
    let mut table = GoodnessAtTick::empty();
    assert!(table.fill(&vec![keys[0], keys[5], keys[7]], &vec![value(1.0), value(2.0), value(3.0)]));
    let missing = table.corner_values(&lo, &hi).unwrap_err();
    assert_eq!(missing.len(), 5);
    for (m, k) in missing.iter().zip([1, 2, 3, 4, 6]) {
        assert!(*m == keys[k]);
    }
}

#[test]
fn fill_reports_keys_already_present() {
    let a = rep(0.0, 0.1, 0.2);
    let b = rep(0.5, 0.1, 0.2);
    let mut table = GoodnessAtTick::empty();
    assert!(table.fill(&vec![a], &vec![value(1.0)]));
    // `a` is already there
    assert!(!table.fill(&vec![b, a], &vec![value(2.0), value(5.0)]));
    // the later value wins
    let mut other = GoodnessAtTick::empty();
    assert!(!other.fill(&vec![b, b], &vec![value(2.0), value(4.0)]));
    let found = other.corner_values(&b, &b).unwrap();
    assert_eq!(f64::from_bits(found[0].goodness), 4.0);
}

#[test]
fn equal_bounds_repeat_corners() {
    // with both bounds equal, the eight corners are the same key: the list of
    // missing corners holds it eight times, and storing them is not fresh
    let a = rep(0.0, 0.1, 0.2);
    let mut table = GoodnessAtTick::empty();
    let missing = table.corner_values(&a, &a).unwrap_err();
    assert_eq!(missing.len(), 8);
    let values: Vec<DPValue> = (0..8).map(|i| value(i as f64)).collect();
    assert!(!table.fill(&missing, &values));
    assert!(table.corner_values(&a, &a).is_ok());
}

#[test]
fn ensure_tick_adds_empty_tables() {
    let mut dp = DP::empty();
    assert_eq!(dp.caches.len(), 0);
    dp.ensure_tick(0);
    assert_eq!(dp.caches.len(), 1);
    let a = rep(0.0, 0.1, 0.2);
    assert!(dp.caches[0].fill(&vec![a], &vec![value(1.0)]));
    dp.ensure_tick(3);
    assert_eq!(dp.caches.len(), 4);
    dp.ensure_tick(2);
    assert_eq!(dp.caches.len(), 4);
    // the first table keeps its entry, the new ones are empty
    assert!(dp.caches[0].corner_values(&a, &a).is_ok());
    assert_eq!(dp.caches[3].corner_values(&a, &a).unwrap_err().len(), 8);
}
