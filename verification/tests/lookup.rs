//! The stretch and squash tables.

use augur::tables::{build_squash, build_stretch};

#[test]
fn stretch_is_the_rounded_logit() {
    let t = build_stretch();
    assert_eq!(t.len(), 4096);
    for p in 0..4096 {
        let pc = (p as f64).clamp(1.0, 4095.0);
        let logit = (256.0 * (pc / (4096.0 - pc)).ln()).round().clamp(-2047.0, 2047.0);
        assert_eq!(t[p], logit as i32, "at {p}");
    }
}

#[test]
fn squash_is_the_rounded_logistic() {
    let t = build_squash();
    assert_eq!(t.len(), 4096);
    for i in 0..4096 {
        let d = i as f64 - 2048.0;
        let logistic = (4096.0 / (1.0 + (-d / 256.0).exp())).round().clamp(1.0, 4095.0);
        assert_eq!(t[i], logistic as i32, "at {i}");
    }
}

#[test]
fn table_landmarks() {
    let stretch = build_stretch();
    assert_eq!(stretch[2048], 0);
    assert_eq!(stretch[0], stretch[1]);
    assert_eq!(stretch[1], -2047);
    assert_eq!(stretch[4095], 2047);
    assert_eq!(stretch[3072], 281);
    let squash = build_squash();
    assert_eq!(squash[2048], 2048);
    assert_eq!(squash[2048 + 256], 2994);
    assert_eq!(squash[0], 1);
    assert_eq!(squash[4095], 4095);
}

#[test]
fn tables_are_odd_and_grow() {
    let stretch = build_stretch();
    for p in 1..4096 {
        assert_eq!(stretch[4096 - p], -stretch[p]);
        assert!(stretch[p - 1] <= stretch[p]);
    }
    let squash = build_squash();
    for i in 1..4096 {
        assert_eq!(squash[4096 - i], 4096 - squash[i]);
        assert!(squash[i - 1] <= squash[i]);
    }
}

#[test]
fn squash_nearly_undoes_stretch() {
    let stretch = build_stretch();
    let squash = build_squash();
    for p in 1..4096i32 {
        let back = squash[(stretch[p as usize] + 2048) as usize];
        assert!((back - p).abs() <= 2, "{p} came back as {back}");
    }
}
