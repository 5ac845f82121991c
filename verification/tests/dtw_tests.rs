use dtw::dtw::{Accesor, DynamicWindow, FastDTW, FixedDTW, StandardDTW, UnsafeDTW, STRACDistance};
use dtw::windowed::WindowedDTW;

#[test]
fn it_works() {
    assert_eq!(2 + 2, 4);
    let distance = STRACDistance::default();
    let dtw = StandardDTW::new(&distance);
    let chain1: Vec<u64> = vec![1, 2, 3];
    let chain2: Vec<u64> = vec![1, 2, 3];
    let (result, ops) = dtw.calculate(&chain1, &chain2);

    println!("{:?}", ops);
    assert_eq!(result as f64, 0.0);
}

#[test]
fn test1() {
    assert_eq!(2 + 2, 4);
    let distance = STRACDistance::default();
    let dtw = StandardDTW::new(&distance);
    let chain1: Vec<u64> = vec![1, 2, 3, 5];
    let chain2: Vec<u64> = vec![1, 2, 4];
    let (result, ops) = dtw.calculate(&chain1, &chain2);
    println!("{:?}", ops);
    assert_eq!(result as f64, 3.0);
}

#[test]
fn testfast() {
    assert_eq!(2 + 2, 4);
    let distance = STRACDistance::default();
    let dtw = StandardDTW::new(&distance);

    let fastdtw = FastDTW::new(&distance, 2, 100, &dtw);
    let chain1: Vec<u64> = vec![1, 2, 3, 5, 1, 2, 3];
    let chain2: Vec<u64> = vec![1, 2, 4, 5, 6, 7, 8];
    let (result, ops) = fastdtw.calculate(&chain1, &chain2);
    println!("{:?}", ops);
    assert_eq!(result as f64, 8.0);
}

#[test]
fn testfast2() {
    assert_eq!(2 + 2, 4);
    let distance = STRACDistance::default();
    let dtw = StandardDTW::new(&distance);

    let fastdtw = FastDTW::new(&distance, 2, 10, &dtw);
    let chain2: Vec<u64> = vec![
        18446744071612399615,
        2692975965417482751,
        2676586395008836901,
        18446743133734905125,
        18446744072261074943,
        12225488737194213375,
        18446648525771614633,
        4991472727824007167,
        288230376151711743,
        18446744073703912105,
        18446648713712893951,
        6872316420869324799,
        2676586395008836901,
        18385141895277126949,
        18446744073709551615,
        4557430888798879743,
        4557430888798830399,
        4557430888798830399,
        3026418949580341055,
        18446744073709551615,
        18446648673895972863,
        18422331914565189631,
        12225307061520433151,
        18446744073709551615,
        18446744073703867717,
        2676650416768245673,
        2676586395008836901,
        18446744070037775653,
        18446744073709551615,
        4557430888798830399,
        4557430888798830399,
        4557430888798830399,
        18446743154586550271,
        18446744073709551615,
        12225489209634929663,
        18446744071688380255,
        6893227250828290363,
        2676586395012652895,
        2676586395008836901,
        2089670227099909925,
        18446744073709551615,
        18446744073709496831,
        12197231332752883711,
        6872398473367388159,
        2676586395008851807,
        2676586395008836901,
        18446744073709551615,
        18392488947314851839,
        18446718784928088063,
        18446744073709551615,
        18446743133734905125,
        18446744073709551615,
        4557430888798830399,
        4557430888798830399,
        18446744070475693887,
        4557430888798879743,
        4557430888798830399,
        4557430888798830399,
        3026418949580341055,
        18446744073709551615,
        12225488738637053951,
        2692975965417482665,
        2676586395008836901,
        18446743133734905125,
        18446744073694674943,
        18446508778221207551,
    ];
    let chain1: Vec<u64> = vec![
        18446744073709551615,
        2676827028518338559,
        18446743133734905125,
        18446744073709551615,
        4557430888798830399,
        18446743245841973055,
        18446743274845634559,
        12225489207950704639,
        12249790986447749119,
        1849195666009074089,
        18446744073709529369,
        4557431168072762879,
        4557430888798830399,
        4557430888798830399,
        18386508428693421887,
        18446744073709551615,
        9765923333140381695,
        18446611614896981895,
        18394389728041369599,
        12225378830423949311,
        18446744073709551529,
        12225489209634929577,
        1873497191583055871,
    ];
    let (result, ops) = fastdtw.calculate(&chain1, &chain2);
    println!("{:?}", ops);
    // The projected band covers an optimal warping path of these
    // traces, so the approximation meets the exact cost.
    assert_eq!(result as f64, 75.0);
    let (exact, _) = dtw.calculate(&chain1, &chain2);
    assert_eq!(exact as f64, 75.0);
}

#[test]
fn testfast3() {
    assert_eq!(2 + 2, 4);
    let distance = STRACDistance::default();
    let dtw = StandardDTW::new(&distance);

    let fastdtw = FastDTW::new(&distance, 2, 10, &dtw);
    let chain2: Vec<u64> = vec![
        12184914412422823935,
        5044031582654955519,
        18374686479671601477,
        18446744072261052675,
        18422331914565189631,
        6872316740139745279,
        6872316169532286303,
        2676586395008836901,
        18385141895277126949,
        2676827028518338559,
        2676586395008836901,
        18446744073709551615,
        18446744073709551615,
    ];
    let chain1: Vec<u64> = vec![
        6872398473367388159,
        2676586395008851807,
        2676586395008836901,
        18446744073709551615,
        4557430892032688127,
        4557430888798830399,
        6872398102544727871,
        2676586395008851807,
        2676586395008836901,
        18382849253996232703,
        18446744073709551615,
        18446744073323675433,
        18446744073709551615,
    ];
    let (result, ops) = fastdtw.calculate(&chain1, &chain2);
    println!("{:?}", ops);
    assert_eq!(result as f64, 18.0);
}

#[test]
fn test_eq() {
    assert_eq!(2 + 2, 4);
    let distance = STRACDistance::default();
    let dtw = StandardDTW::new(&distance);
    let chain1: Vec<u64> = vec![1, 2, 3, 5];
    let chain2: Vec<u64> = vec![1, 2, 4];
    let (result, ops) = dtw.calculate(&chain1, &chain2);

    let _dtw1 = FixedDTW::new(&distance);
    let (result2, ops2) = dtw.calculate(&chain1, &chain2);

    let _dtw2 = UnsafeDTW::new(&distance);
    let (result3, ops3) = dtw.calculate(&chain1, &chain2);

    assert_eq!(result, result2);
    assert_eq!(result2, result3);
    assert_eq!(ops, ops2);
    assert_eq!(ops2, ops3);
}

// The exact cost of any sequence against itself is zero under the
// default oracle.
#[test]
fn self_alignment_is_free() {
    let distance = STRACDistance::default();
    let dtw = StandardDTW::new(&distance);
    let chain: Vec<u64> = vec![5, 5, 7, 9, 7, 5];
    let (result, _) = dtw.calculate(&chain, &chain);
    assert_eq!(result as f64, 0.0);
    let fixed = FixedDTW::new(&distance);
    let (result2, _) = fixed.calculate(&chain, &chain);
    assert_eq!(result2 as f64, 0.0);
}

// The exact cost is symmetric in its two sequences.
#[test]
fn cost_is_symmetric() {
    let distance = STRACDistance::default();
    let dtw = StandardDTW::new(&distance);
    let a: Vec<u64> = vec![1, 2, 3, 5, 8, 2];
    let b: Vec<u64> = vec![2, 3, 3, 1];
    let (ab, _) = dtw.calculate(&a, &b);
    let (ba, _) = dtw.calculate(&b, &a);
    assert_eq!(ab, ba);
    assert_eq!(ab as f64, 6.0);
}

// The full-matrix variant, its second entry point and the
// linear-memory variant produce bit-identical costs.
#[test]
fn variants_agree() {
    let distance = STRACDistance::default();
    let a: Vec<u64> = vec![1, 2, 3, 5, 8, 2, 9, 9, 1];
    let b: Vec<u64> = vec![2, 3, 3, 1, 9, 2];
    let (s, _) = StandardDTW::new(&distance).calculate(&a, &b);
    let (u, _) = UnsafeDTW::new(&distance).calculate(&a, &b);
    let (f, _) = FixedDTW::new(&distance).calculate(&a, &b);
    assert_eq!(s, u);
    assert_eq!(s, f);
}

// At or below the base size FastDTW delegates, so its cost equals the
// exact cost; above it, on these traces, it still dominates it.
#[test]
fn fastdtw_bounds_exact_cost() {
    let distance = STRACDistance::default();
    let dtw = StandardDTW::new(&distance);
    let a: Vec<u64> = vec![4, 8, 15, 16, 23, 42, 4, 8, 15, 16, 23, 42, 7];
    let b: Vec<u64> = vec![4, 8, 15, 15, 23, 42, 4, 9, 15, 16, 23, 42, 7];
    let (exact, _) = dtw.calculate(&a, &b);
    let fast_delegating = FastDTW::new(&distance, 2, 100, &dtw);
    let (c1, _) = fast_delegating.calculate(&a, &b);
    assert_eq!(c1, exact);
    let fast = FastDTW::new(&distance, 2, 10, &dtw);
    let (c2, _) = fast.calculate(&a, &b);
    assert!(c2 >= exact);
}

// Every emitted warping path steps by one row, one column or both,
// starts next to the bottom-right corner and ends at the origin.
#[test]
fn warp_path_is_monotone() {
    let distance = STRACDistance::default();
    let dtw = StandardDTW::new(&distance);
    let a: Vec<u64> = vec![1, 2, 3, 5, 8, 2];
    let b: Vec<u64> = vec![2, 3, 3, 1];
    let (_, ops) = dtw.calculate(&a, &b);
    let (path, min_i, min_j) = ops.unwrap();
    assert_eq!(min_i, 0);
    assert_eq!(min_j, 0);
    assert!(!path.is_empty());
    let (i0, j0) = path[0];
    assert!(a.len() - i0 <= 1 && b.len() - j0 <= 1);
    assert_eq!(*path.last().unwrap(), (0, 0));
    let mut prev = (a.len(), b.len());
    for &(i, j) in &path {
        let di = prev.0 - i;
        let dj = prev.1 - j;
        assert!((di, dj) == (1, 0) || (di, dj) == (0, 1) || (di, dj) == (1, 1));
        prev = (i, j);
    }
}

// An empty sequence against m tokens costs m gaps, and the path is m
// single-axis steps.
#[test]
fn empty_against_nonempty() {
    let distance = STRACDistance::default();
    let dtw = StandardDTW::new(&distance);
    let a: Vec<u64> = vec![];
    let b: Vec<u64> = vec![9, 9, 9, 9];
    let (cost, ops) = dtw.calculate(&a, &b);
    assert_eq!(cost as f64, 4.0);
    let (path, _, _) = ops.unwrap();
    assert_eq!(path.len(), 4);
    for (k, &(i, j)) in path.iter().enumerate() {
        assert_eq!(i, 0);
        assert_eq!(j, 3 - k);
    }
}

// Single-element sequences: the one interior cell costs the
// substitution unless two gaps are cheaper.
#[test]
fn single_element_sequences() {
    let distance = STRACDistance::default();
    let dtw = StandardDTW::new(&distance);
    let a: Vec<u64> = vec![7];
    let b: Vec<u64> = vec![7];
    let (same, _) = dtw.calculate(&a, &b);
    assert_eq!(same as f64, 0.0);
    let c: Vec<u64> = vec![9];
    let (diff, _) = dtw.calculate(&a, &c);
    assert_eq!(diff as f64, 2.0);
}

// Halving keeps the even-indexed elements; halving twice keeps every
// fourth.
#[test]
fn half_of_half_strides_by_four() {
    let chain: Vec<u64> = vec![10, 11, 12, 13, 14, 15, 16, 17, 18];
    let half = chain.get_half();
    assert_eq!(half, vec![10, 12, 14, 16]);
    let quarter = half.get_half();
    assert_eq!(quarter.len(), chain.len() / 4);
    for (k, &v) in quarter.iter().enumerate() {
        assert_eq!(v, chain[4 * k]);
    }
}

// A band that admits the whole grid forces nothing out: the banded
// cost is bit-identical to the exact full-matrix cost.
#[test]
fn full_window_forces_nothing_out() {
    let distance = STRACDistance::default();
    let a: Vec<u64> = vec![1, 5, 3];
    let b: Vec<u64> = vec![1, 2, 3];
    let mut window = DynamicWindow::new(4, 3);
    window.init(4);
    let wdtw = WindowedDTW::new(window, &distance);
    let (cost, ops) = wdtw.calculate(&a, &b);
    let (exact, _) = StandardDTW::new(&distance).calculate(&a, &b);
    assert_eq!(cost, exact);
    assert_eq!(cost as f64, 2.0);
    assert!(ops.is_some());
}

#[test]
fn dynamic_window_expand_grows_monotonically() {
    let mut w = DynamicWindow::new(5, 10);
    assert_eq!(w.get_min(2), None);
    assert_eq!(w.get_max(2), None);
    assert!(!w.is_in_range(2, 4));
    w.expand(2, 4);
    assert_eq!(w.get_limits(2), (Some(4), Some(4)));
    w.expand(2, 7);
    assert_eq!(w.get_limits(2), (Some(4), Some(7)));
    w.expand(2, 5);
    assert_eq!(w.get_limits(2), (Some(4), Some(7)));
    assert!(w.is_in_range(2, 4));
    assert!(w.is_in_range(2, 7));
    assert!(!w.is_in_range(2, 8));
    // Rows beyond the height are ignored.
    w.expand(9, 1);
    assert_eq!(w.get_limits(0), (None, None));
}

#[test]
fn dynamic_window_rows_replicate() {
    let mut w = DynamicWindow::new(4, 6);
    w.set_range(1, 3, 2);
    w.replicate_last_row();
    assert_eq!(w.get_limits(3), (Some(1), Some(3)));
    w.set_min(0, 0);
    w.set_max(2, 0);
    let mut w2 = DynamicWindow::new(3, 5);
    w2.init(2);
    assert_eq!(w2.get_limits(0), (Some(0), Some(5)));
    assert_eq!(w2.get_limits(1), (Some(0), Some(5)));
    assert_eq!(w2.get_limits(2), (None, None));
}
