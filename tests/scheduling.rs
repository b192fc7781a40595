use raytracer::color::write_color;
use raytracer::frame::Frame;
use raytracer::schedule::{output_row, RowCounter};

#[test]
fn counter_hands_out_each_row_once_then_stops() {
    let mut c = RowCounter::new(3);
    assert_eq!(c.claim(), Some(0));
    assert_eq!(c.claim(), Some(1));
    assert_eq!(c.claim(), Some(2));
    assert_eq!(c.claim(), None);
    assert_eq!(c.claim(), None);
    assert_eq!(c.claimed(), 5);
}

#[test]
fn counter_over_no_rows_is_done_at_once() {
    let mut c = RowCounter::new(0);
    assert_eq!(c.claim(), None);
}

#[test]
fn output_row_flips_vertically() {
    assert_eq!(output_row(3, 0), 2);
    assert_eq!(output_row(3, 2), 0);
    assert_eq!(output_row(1, 0), 0);
}

#[test]
fn four_workers_write_every_row_exactly_once() {
    let height: u32 = 7;
    let width: u32 = 2;
    let workers = 4;
    let mut counter = RowCounter::new(height);
    let mut frame = Frame::new(width, height);
    let mut writes = vec![0u32; height as usize];
    let mut done = vec![false; workers];
    let mut turn = 0;
    while done.iter().any(|d| !d) {
        let w = turn % workers;
        turn += 1;
        if done[w] {
            continue;
        }
        match counter.claim() {
            Some(row) => {
                let px = [row as u8, w as u8, 9];
                frame.commit_row(row, &vec![px; width as usize]);
                writes[output_row(height, row) as usize] += 1;
            }
            None => done[w] = true,
        }
    }
    assert!(writes.iter().all(|&n| n == 1));
    // each of the four workers made one last claim that found no row
    assert_eq!(counter.claimed(), height as u64 + workers as u64);
    for y in 0..height {
        let row = height - 1 - y;
        assert_eq!(frame.pixel(0, y)[0], row as u8);
        assert_eq!(frame.pixel(1, y)[0], row as u8);
    }
}

#[test]
fn new_frame_is_black() {
    let f = Frame::new(3, 2);
    assert_eq!(f.width(), 3);
    assert_eq!(f.height(), 2);
    for y in 0..2 {
        for x in 0..3 {
            assert_eq!(f.pixel(x, y), [0, 0, 0]);
        }
    }
}

#[test]
fn committed_row_lands_flipped_and_leaves_others() {
    let mut f = Frame::new(2, 3);
    f.commit_row(0, &vec![[1, 2, 3], [4, 5, 6]]);
    assert_eq!(f.pixel(0, 2), [1, 2, 3]);
    assert_eq!(f.pixel(1, 2), [4, 5, 6]);
    assert_eq!(f.pixel(0, 0), [0, 0, 0]);
    assert_eq!(f.pixel(1, 1), [0, 0, 0]);
}

#[test]
fn frame_bytes_are_row_major_from_top() {
    let mut f = Frame::new(2, 2);
    f.commit_row(1, &vec![[10, 11, 12], [13, 14, 15]]);
    f.commit_row(0, &vec![[20, 21, 22], [23, 24, 25]]);
    let raw = f.into_raw();
    assert_eq!(raw, vec![10, 11, 12, 13, 14, 15, 20, 21, 22, 23, 24, 25]);
}

#[test]
fn write_color_black() {
    assert_eq!(write_color([0, 0, 0]), "0 0 0");
}

#[test]
fn write_color_mixed_widths() {
    assert_eq!(write_color([255, 10, 7]), "255 10 7");
    assert_eq!(write_color([100, 99, 1]), "100 99 1");
}

#[test]
fn ppm_text_of_small_frame() {
    let mut f = Frame::new(2, 2);
    f.commit_row(1, &vec![[1, 2, 3], [40, 50, 60]]);
    f.commit_row(0, &vec![[255, 0, 7], [100, 9, 10]]);
    assert_eq!(f.to_ppm(), "P3\n2 2\n255\n1 2 3\n40 50 60\n255 0 7\n100 9 10\n");
}

#[test]
fn ppm_text_of_empty_frame_is_header_only() {
    let f = Frame::new(0, 0);
    assert_eq!(f.to_ppm(), "P3\n0 0\n255\n");
}

#[test]
fn decimal_numerals_of_large_values() {
    let mut s = String::from("n=");
    raytracer::color::append_decimal(&mut s, 4294967295);
    assert_eq!(s, "n=4294967295");
    let mut z = String::new();
    raytracer::color::append_decimal(&mut z, 0);
    assert_eq!(z, "0");
}
