use mpx::filter::{apply_filter, paeth, select_best_filter, undo_filter};
use mpx::FilterType;

fn roundtrip(filter: FilterType, row: &[u8], prev: &[u8], stride: usize) {
    let mut filtered = vec![0u8; row.len()];
    let prev_owned = prev.to_vec();
    apply_filter(filter, row, &prev_owned, &mut filtered, stride);

    // Decoder gets the filtered data and reconstructs
    let mut reconstructed = filtered.clone();
    undo_filter(filter, &mut reconstructed, &prev_owned, stride);

    assert_eq!(reconstructed, row, "filter {:?} roundtrip failed", filter);
}

#[test]
fn all_filters_roundtrip_8bit() {
    let row: Vec<u8> = (0..256).map(|i| (i * 3 % 256) as u8).collect();
    let prev: Vec<u8> = (0..256).map(|i| (i * 7 % 256) as u8).collect();
    for filter in [
        FilterType::NoFilter,
        FilterType::Sub,
        FilterType::Up,
        FilterType::Average,
        FilterType::Paeth,
    ] {
        roundtrip(filter, &row, &prev, 1);
    }
}

#[test]
fn all_filters_roundtrip_16bit() {
    // 16-bit plane: 128 samples = 256 bytes, stride = 2
    let row: Vec<u8> = (0u16..128).flat_map(|v| v.to_le_bytes()).collect();
    let prev: Vec<u8> = (64u16..192).flat_map(|v| v.to_le_bytes()).collect();
    for filter in [
        FilterType::NoFilter,
        FilterType::Sub,
        FilterType::Up,
        FilterType::Average,
        FilterType::Paeth,
    ] {
        roundtrip(filter, &row, &prev, 2);
    }
}

#[test]
fn paeth_known_values() {
    // PNG spec example: a=10, b=20, c=15 → paeth should return 10
    assert_eq!(paeth(10, 20, 15), 10);
    // a=10, b=10, c=5 → p=15, pa=5, pb=5, pc=10 → a or b (tie goes to a)
    assert_eq!(paeth(10, 10, 5), 10);
}

#[test]
fn select_best_picks_reasonable_filter() {
    // Horizontal gradient — Sub should win (residuals = constant)
    let row: Vec<u8> = (0..256u16).map(|i| (i % 256) as u8).collect();
    let prev: Vec<u8> = (0..256u16).map(|i| (i % 256) as u8).collect();
    let chosen = select_best_filter(&row, &prev, 1);
    // Any filter that produces near-zero residuals is valid — just not None
    assert_ne!(chosen, FilterType::NoFilter);
    println!("select_best for gradient: {:?}", chosen);
}

// ── Further cases ────────────────────────────────────────────────────────────

#[test]
fn paeth_picks_b_then_c() {
    // a=0, b=10, c=10 → p=0: pa=0 → a
    assert_eq!(paeth(0, 10, 10), 0);
    // a=10, b=0, c=10 → p=0: pa=10, pb=0, pc=10 → b
    assert_eq!(paeth(10, 0, 10), 0);
    // a=20, b=30, c=25 → p=25: pa=5, pb=5 → a (a wins the tie with b)
    assert_eq!(paeth(20, 30, 25), 20);
    // a=40, b=65, c=50 → p=55: pa=15, pb=10, pc=5 → c
    assert_eq!(paeth(40, 65, 50), 50);
    // a=200, b=100, c=50 → p=250: pa=50, pb=150, pc=200 → a
    assert_eq!(paeth(200, 100, 50), 200);
    // a=0, b=11, c=6 → p=5: pa=5, pb=6, pc=1 → c (a is nearer than b, c nearer still)
    assert_eq!(paeth(0, 11, 6), 6);
    // a=0, b=8, c=2 → p=6: pa=6, pb=2, pc=4 → b
    assert_eq!(paeth(0, 8, 2), 8);
}

#[test]
fn sub_filter_exact_residuals() {
    let row = [10u8, 20, 30, 5];
    let prev = [0u8; 4];
    let mut out = [0u8; 4];
    apply_filter(FilterType::Sub, &row, &prev, &mut out, 1);
    assert_eq!(out, [10, 10, 10, 231]);
    let mut out2 = [0u8; 4];
    apply_filter(FilterType::Sub, &row, &prev, &mut out2, 2);
    assert_eq!(out2, [10, 20, 20, 241]);
}

#[test]
fn up_and_average_exact_residuals() {
    let row = [10u8, 20, 30, 40];
    let prev = [5u8, 25, 30, 0];
    let mut up = [0u8; 4];
    apply_filter(FilterType::Up, &row, &prev, &mut up, 1);
    assert_eq!(up, [5, 251, 0, 40]);
    let mut avg = [0u8; 4];
    apply_filter(FilterType::Average, &row, &prev, &mut avg, 1);
    // i=0: a=0,b=5 → 2 → 8; i=1: a=10,b=25 → 17 → 3; i=2: a=20,b=30 → 25 → 5; i=3: a=30,b=0 → 15 → 25
    assert_eq!(avg, [8, 3, 5, 25]);
}

#[test]
fn adaptive_is_applied_and_undone_as_paeth() {
    let row: Vec<u8> = (0..64).map(|i| (i * 13 % 256) as u8).collect();
    let prev: Vec<u8> = (0..64).map(|i| (i * 5 % 256) as u8).collect();
    let mut a = vec![0u8; 64];
    let mut p = vec![0u8; 64];
    apply_filter(FilterType::Adaptive, &row, &prev, &mut a, 1);
    apply_filter(FilterType::Paeth, &row, &prev, &mut p, 1);
    assert_eq!(a, p);
    undo_filter(FilterType::Adaptive, &mut a, &prev, 1);
    assert_eq!(a, row);
}

#[test]
fn none_filter_copies() {
    let row = [1u8, 2, 3];
    let prev = [9u8, 9, 9];
    let mut out = [0u8; 3];
    apply_filter(FilterType::NoFilter, &row, &prev, &mut out, 1);
    assert_eq!(out, row);
    undo_filter(FilterType::NoFilter, &mut out, &prev, 1);
    assert_eq!(out, row);
}

#[test]
fn select_best_prefers_up_for_repeated_rows() {
    // Noisy row identical to the row above: Up gives all-zero residuals.
    let row: Vec<u8> = (0..128u32).map(|i| ((i * 7919) % 251) as u8).collect();
    let chosen = select_best_filter(&row, &row, 1);
    assert_eq!(chosen, FilterType::Up);
}

#[test]
fn select_best_ties_go_to_sub() {
    // All zeros: every candidate costs 0; the first (Sub) is kept.
    let row = vec![0u8; 32];
    assert_eq!(select_best_filter(&row, &row, 1), FilterType::Sub);
}

#[test]
fn undo_sub_with_stride_zero_doubles() {
    // stride 0: the "left" byte is the byte itself
    let mut row = [1u8, 2, 200];
    undo_filter(FilterType::Sub, &mut row, &[], 0);
    assert_eq!(row, [2, 4, 144]);
}
