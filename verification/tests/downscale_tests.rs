use tilt_maze::downscale::downscale_half;

#[test]
fn two_by_two_averages_each_channel() {
    let bytes: Vec<u8> = vec![
        0, 10, 20, 255, 4, 10, 21, 255, // bottom row
        8, 10, 22, 255, 12, 11, 23, 255, // top row
    ];
    let (out, w, h) = downscale_half(&bytes, 2, 2);
    assert_eq!((w, h), (1, 1));
    assert_eq!(out, vec![6, 10, 21, 255]);
}

#[test]
fn rows_come_out_top_first() {
    // 2 wide, 4 high; stored bottom row first; each row a single grey
    let mut bytes = Vec::new();
    for v in [10u8, 20, 30, 40] {
        for _ in 0..2 {
            bytes.extend_from_slice(&[v, v, v, v]);
        }
    }
    let (out, w, h) = downscale_half(&bytes, 2, 4);
    assert_eq!((w, h), (1, 2));
    // the first output row averages the two top rows (30 and 40)
    assert_eq!(out, vec![35, 35, 35, 35, 15, 15, 15, 15]);
}

#[test]
fn odd_sizes_drop_the_last_column_and_first_row() {
    // 3 by 3; pixel value = 10 * row + column
    let mut bytes = Vec::new();
    for y in 0..3u8 {
        for x in 0..3u8 {
            let v = 10 * y + x;
            bytes.extend_from_slice(&[v, v, v, v]);
        }
    }
    let (out, w, h) = downscale_half(&bytes, 3, 3);
    assert_eq!((w, h), (1, 1));
    // rows 1 and 2, columns 0 and 1: (10 + 11 + 20 + 21) / 4 = 15
    assert_eq!(out, vec![15, 15, 15, 15]);
}

#[test]
fn rounding_down() {
    let bytes: Vec<u8> = vec![255, 0, 1, 3, 255, 0, 1, 0, 255, 0, 0, 0, 254, 1, 0, 0];
    let (out, _, _) = downscale_half(&bytes, 2, 2);
    assert_eq!(out, vec![254, 0, 0, 0]);
}

#[test]
fn too_small_gives_nothing() {
    let (out, w, h) = downscale_half(&[], 1, 7);
    assert!(out.is_empty());
    assert_eq!((w, h), (0, 3));
    let (out, w, h) = downscale_half(&[], 6, 1);
    assert!(out.is_empty());
    assert_eq!((w, h), (3, 0));
}

#[test]
fn uniform_capture_stays_uniform() {
    let mut bytes = Vec::new();
    for _ in 0..(6 * 4) {
        bytes.extend_from_slice(&[1, 2, 3, 4]);
    }
    let (out, w, h) = downscale_half(&bytes, 6, 4);
    assert_eq!((w, h), (3, 2));
    assert_eq!(out.len(), 24);
    for (i, b) in out.iter().enumerate() {
        assert_eq!(*b as usize, i % 4 + 1);
    }
}
