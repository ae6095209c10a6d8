use simulations::stability::{dominant_genotypes, StabilityWindow, STABILITY_WINDOW};

fn snapshot_of_wild_type() -> [i64; 10] {
    let mut s = [-1; 10];
    s[0] = 0;
    s
}

#[test]
fn identical_snapshots_are_stable() {
    let mut window = StabilityWindow::new();
    for _ in 0..STABILITY_WINDOW {
        assert!(!window.stable_state());
        window.push(snapshot_of_wild_type());
    }
    assert_eq!(window.len(), STABILITY_WINDOW);
    assert!(window.stable_state());
}

#[test]
fn one_differing_snapshot_is_not_stable() {
    for position in [0, 17, STABILITY_WINDOW - 1] {
        let mut window = StabilityWindow::new();
        for i in 0..STABILITY_WINDOW {
            let mut s = snapshot_of_wild_type();
            if i == position {
                s[1] = 3;
            }
            window.push(s);
        }
        assert!(!window.stable_state());
    }
}

#[test]
fn old_snapshots_leave_the_window() {
    let mut window = StabilityWindow::new();
    let mut other = snapshot_of_wild_type();
    other[0] = 5;
    window.push(other);
    for _ in 0..STABILITY_WINDOW {
        window.push(snapshot_of_wild_type());
    }
    assert_eq!(window.len(), STABILITY_WINDOW);
    assert!(window.stable_state());
}

#[test]
fn dominant_set_is_sorted_capped_and_padded() {
    assert_eq!(dominant_genotypes(&vec![]), [-1; 10]);
    assert_eq!(
        dominant_genotypes(&vec![7, 3, 12]),
        [3, 7, 12, -1, -1, -1, -1, -1, -1, -1]
    );
    let many: Vec<usize> = (0..20).rev().collect();
    assert_eq!(dominant_genotypes(&many), [0, 1, 2, 3, 4, 5, 6, 7, 8, 9]);
}
