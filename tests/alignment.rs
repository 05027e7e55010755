use feed_align::compositor::{apply_shift, channel_plane, diff, diff_thresholded, flip};
use feed_align::error::AlignmentError;
use feed_align::frame::Frame;
use feed_align::roi::{region_sums, window_rects};
use feed_align::shift_search::{get_shift, search, ShiftVector};
use feed_align::suppression::Rect;

fn textured(width: usize, height: usize, seed: u64) -> Frame {
    let mut state = seed.wrapping_mul(6364136223846793005).wrapping_add(1442695040888963407);
    let mut data = Vec::with_capacity(width * height * 3);
    for _ in 0..width * height * 3 {
        state ^= state << 13;
        state ^= state >> 7;
        state ^= state << 17;
        data.push((state >> 24) as u8);
    }
    Frame::from_data(width, height, data).unwrap()
}

fn shift(dx: i64, dy: i64) -> ShiftVector {
    ShiftVector { dx, dy }
}

#[test]
fn identical_large_frames_give_zero_shift() {
    let a = textured(640, 480, 1);
    let b = a.duplicate();
    assert_eq!(search(&a, &b, 20), Ok(shift(0, 0)));
}

#[test]
fn large_translation_is_recovered() {
    let a = textured(640, 480, 2);
    let b = apply_shift(&a, shift(15, -8));
    assert_eq!(search(&a, &b, 20), Ok(shift(-15, 8)));
}

#[test]
fn small_translations_are_recovered() {
    let a = textured(48, 40, 3);
    for (dx, dy) in [(0, 0), (3, 2), (-4, 5), (7, -6), (-9, -9), (1, 0)] {
        let b = apply_shift(&a, shift(dx, dy));
        assert_eq!(search(&a, &b, 8), Ok(shift(-dx, -dy)), "dx={} dy={}", dx, dy);
    }
}

#[test]
fn flat_frames_pick_first_offset() {
    let a = Frame::filled(40, 30, [9, 9, 9]);
    let b = Frame::filled(40, 30, [9, 9, 9]);
    assert_eq!(search(&a, &b, 10), Ok(shift(-15, -10)));
}

#[test]
fn flat_frames_of_different_color_pick_first_offset() {
    let a = Frame::filled(21, 17, [0, 50, 100]);
    let b = Frame::filled(21, 17, [255, 0, 7]);
    assert_eq!(search(&a, &b, 5), Ok(shift(-8, -6)));
}

#[test]
fn search_rejects_empty_frames() {
    let a = Frame::filled(0, 10, [0, 0, 0]);
    let b = Frame::filled(10, 10, [0, 0, 0]);
    assert_eq!(search(&a, &b, 3), Err(AlignmentError::EmptyFrame));
    assert_eq!(search(&b, &a, 3), Err(AlignmentError::EmptyFrame));
}

#[test]
fn search_rejects_windows_that_do_not_fit() {
    let a = Frame::filled(10, 8, [1, 2, 3]);
    let b = Frame::filled(12, 12, [1, 2, 3]);
    assert_eq!(search(&a, &b, 0), Err(AlignmentError::InvalidWindowSize));
    assert_eq!(search(&a, &b, 8), Err(AlignmentError::InvalidWindowSize));
    assert_eq!(search(&b, &a, 9), Err(AlignmentError::InvalidWindowSize));
    assert_eq!(search(&a, &b, 7), Ok(shift(-2, -2)));
}

#[test]
fn get_shift_keeps_previous_shift_on_error() {
    let a = Frame::filled(10, 10, [1, 2, 3]);
    let mut s = shift(-138, -50);
    assert_eq!(get_shift(&a, &a, 10, &mut s), Err(AlignmentError::InvalidWindowSize));
    assert_eq!(s, shift(-138, -50));
    let t = textured(30, 30, 4);
    let moved = apply_shift(&t, shift(2, -3));
    assert_eq!(get_shift(&t, &moved, 6, &mut s), Ok(()));
    assert_eq!(s, shift(-2, 3));
}

#[test]
fn apply_shift_moves_origin_and_fills_black() {
    let mut f = Frame::filled(4, 3, [0, 0, 0]);
    f.set(2, 1, 0, 200);
    f.set(2, 1, 2, 17);
    f.set(0, 0, 1, 5);
    let g = apply_shift(&f, shift(1, 1));
    assert_eq!((g.width, g.height), (4, 3));
    assert_eq!(g.get(1, 0, 0), 200);
    assert_eq!(g.get(1, 0, 2), 17);
    assert_eq!(g.get(3, 2, 0), 0);
    assert_eq!(g.get(2, 1, 0), 0);
    let h = apply_shift(&f, shift(-2, -1));
    assert_eq!(h.get(2, 1, 1), 5);
    assert_eq!(h.get(0, 0, 1), 0);
}

#[test]
fn shift_there_and_back_restores_the_overlap() {
    let f = textured(12, 9, 5);
    let g = apply_shift(&apply_shift(&f, shift(3, -2)), shift(-3, 2));
    for y in 0..9 {
        for x in 0..12 {
            for c in 0..3 {
                let inside = x >= 3 && y + 2 < 9;
                let want = if inside { f.get(x, y, c) } else { 0 };
                assert_eq!(g.get(x, y, c), want);
            }
        }
    }
}

#[test]
fn diff_of_frame_with_itself_is_black() {
    let f = textured(9, 7, 6);
    let d = diff(&f, &f).unwrap();
    assert_eq!((d.width, d.height), (9, 7));
    assert!(d.data.iter().all(|v| *v == 0));
}

#[test]
fn diff_is_symmetric_and_absolute() {
    let a = textured(8, 5, 7);
    let b = textured(8, 5, 8);
    let ab = diff(&a, &b).unwrap();
    let ba = diff(&b, &a).unwrap();
    assert_eq!(ab.data, ba.data);
    for i in 0..a.data.len() {
        assert_eq!(ab.data[i], a.data[i].abs_diff(b.data[i]));
    }
    let x = Frame::filled(1, 1, [10, 200, 0]);
    let y = Frame::filled(1, 1, [250, 100, 0]);
    assert_eq!(diff(&x, &y).unwrap().data, vec![240, 100, 0]);
}

#[test]
fn diff_rejects_size_mismatch() {
    let a = Frame::filled(4, 4, [0, 0, 0]);
    let b = Frame::filled(4, 5, [0, 0, 0]);
    assert!(matches!(diff(&a, &b), Err(AlignmentError::DimensionMismatch)));
    assert!(matches!(diff_thresholded(&b, &a, 3), Err(AlignmentError::DimensionMismatch)));
}

#[test]
fn threshold_zeroes_small_differences() {
    let x = Frame::filled(1, 1, [10, 20, 30]);
    let y = Frame::filled(1, 1, [14, 15, 30]);
    assert_eq!(diff_thresholded(&x, &y, 5).unwrap().data, vec![0, 5, 0]);
    assert_eq!(diff_thresholded(&x, &y, 6).unwrap().data, vec![0, 0, 0]);
    assert_eq!(diff_thresholded(&x, &y, 0).unwrap().data, vec![4, 5, 0]);
}

#[test]
fn frame_from_data_checks_length() {
    assert!(Frame::from_data(2, 2, vec![0; 12]).is_some());
    assert!(Frame::from_data(2, 2, vec![0; 11]).is_none());
    assert!(Frame::from_data(usize::MAX, 2, vec![]).is_none());
    let f = Frame::from_data(2, 1, vec![1, 2, 3, 4, 5, 6]).unwrap();
    assert_eq!(f.get(1, 0, 2), 6);
    assert!(!f.is_empty());
    assert!(Frame::filled(0, 3, [0, 0, 0]).is_empty());
}

#[test]
fn measurement_windows_are_centered_and_moved() {
    let (moved, center) = window_rects(640, 480, 35, shift(-93, 0)).unwrap();
    assert_eq!(center, Rect { x: 302, y: 222, width: 35, height: 35 });
    assert_eq!(moved, Rect { x: 209, y: 222, width: 35, height: 35 });
    let (moved, center) = window_rects(30, 20, 25, shift(2, 0)).unwrap();
    assert_eq!(center, Rect { x: 2, y: -2, width: 25, height: 25 });
    assert_eq!(moved, Rect { x: 4, y: -2, width: 25, height: 25 });
    let (_, center) = window_rects(30, 20, 23, shift(0, 0)).unwrap();
    assert_eq!(center.y, (20i32 - 23) / 2);
    assert_eq!(center.y, -1);
    assert!(window_rects(30, 20, 4, shift(i64::MAX, 0)).is_none());
}

#[test]
fn region_sums_add_each_channel() {
    let mut f = Frame::filled(5, 4, [1, 2, 3]);
    f.set(2, 2, 0, 101);
    let r = Rect { x: 1, y: 1, width: 3, height: 2 };
    assert_eq!(region_sums(&f, r), Some([6 + 100, 12, 18]));
    assert_eq!(region_sums(&f, Rect { x: 3, y: 0, width: 3, height: 1 }), None);
    assert_eq!(region_sums(&f, Rect { x: -1, y: 0, width: 1, height: 1 }), None);
    assert_eq!(region_sums(&f, Rect { x: 0, y: 0, width: 0, height: 0 }), Some([0, 0, 0]));
}

#[test]
fn flip_mirrors_rows_and_columns() {
    let f = Frame::from_data(3, 2, (0..18).collect()).unwrap();
    let both = flip(&f, true, true);
    assert_eq!(both.get(0, 0, 0), f.get(2, 1, 0));
    assert_eq!(both.get(2, 1, 2), f.get(0, 0, 2));
    let rows = flip(&f, false, true);
    assert_eq!(rows.data, vec![9, 10, 11, 12, 13, 14, 15, 16, 17, 0, 1, 2, 3, 4, 5, 6, 7, 8]);
    let cols = flip(&f, true, false);
    assert_eq!(cols.data, vec![6, 7, 8, 3, 4, 5, 0, 1, 2, 15, 16, 17, 12, 13, 14, 9, 10, 11]);
    assert_eq!(flip(&f, false, false).data, f.data);
}

#[test]
fn channel_plane_repeats_one_channel() {
    let f = Frame::from_data(2, 1, vec![1, 2, 3, 4, 5, 6]).unwrap();
    assert_eq!(channel_plane(&f, 0).data, vec![1, 1, 1, 4, 4, 4]);
    assert_eq!(channel_plane(&f, 2).data, vec![3, 3, 3, 6, 6, 6]);
}
