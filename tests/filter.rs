use png_pong::filter::{filter_scanline, paeth_predictor, unfilter_scanline};
use png_pong::DecodeError;

#[test]
fn test_filter() {
    let mut line1 = Vec::with_capacity(1 << 16);
    let mut line2 = Vec::with_capacity(1 << 16);
    for p in 0..256 {
        for q in 0..256 {
            line1.push(q as u8);
            line2.push(p as u8);
        }
    }

    let mut filtered = vec![99u8; 1 << 16];
    let mut unfiltered = vec![66u8; 1 << 16];
    for filter_type in 0..5 {
        let len = filtered.len();
        filter_scanline(&mut filtered, &line1, Some(&line2), len, 1, filter_type);
        unfilter_scanline(&mut unfiltered, &filtered, Some(&line2), 1, filter_type, len).unwrap();
        assert_eq!(unfiltered, line1, "prev+filter={}", filter_type);
    }
    for filter_type in 0..5 {
        let len = filtered.len();
        filter_scanline(&mut filtered, &line1, None, len, 1, filter_type);
        unfilter_scanline(&mut unfiltered, &filtered, None, 1, filter_type, len).unwrap();
        assert_eq!(unfiltered, line1, "none+filter={}", filter_type);
    }
}

#[test]
fn filter_without_previous_line_round_trips() {
    let line: Vec<u8> = (0..40u32).map(|i| (i * 37 % 256) as u8).collect();
    for ft in 0..5u8 {
        for stride in 1..5usize {
            let mut f = vec![0u8; line.len()];
            filter_scanline(&mut f, &line, None, line.len(), stride, ft);
            let mut r = vec![0u8; line.len()];
            unfilter_scanline(&mut r, &f, None, stride, ft, line.len()).unwrap();
            assert_eq!(r, line);
        }
    }
}

#[test]
fn filter_sub_values() {
    let line = vec![10u8, 20, 5, 255];
    let mut f = vec![0u8; 4];
    filter_scanline(&mut f, &line, None, 4, 1, 1);
    assert_eq!(f, vec![10, 10, 241, 250]);
    let prev = vec![1u8, 2, 3, 4];
    filter_scanline(&mut f, &line, Some(&prev), 4, 1, 2);
    assert_eq!(f, vec![9, 18, 2, 251]);
    filter_scanline(&mut f, &line, Some(&prev), 4, 1, 3);
    assert_eq!(f, vec![10, 14, 250, 251]);
}

#[test]
fn paeth_picks_nearest() {
    assert_eq!(paeth_predictor(10, 20, 10), 20);
    assert_eq!(paeth_predictor(20, 10, 10), 20);
    assert_eq!(paeth_predictor(10, 10, 20), 10);
    assert_eq!(paeth_predictor(0, 0, 0), 0);
    assert_eq!(paeth_predictor(100, 50, 75), 75);
}

#[test]
fn unknown_filter_type_is_rejected() {
    let mut r = vec![7u8; 3];
    let e = unfilter_scanline(&mut r, &[1, 2, 3], None, 1, 5, 3);
    assert_eq!(e, Err(DecodeError::IllegalFilterType));
    assert_eq!(r, vec![7, 7, 7]);
}
