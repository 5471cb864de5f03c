use in_one_weekend::{encode_header, encode_image, encode_pixel};

fn text(bytes: Vec<u8>) -> String {
    String::from_utf8(bytes).unwrap()
}

#[test]
fn black_pixel_record() {
    assert_eq!(text(encode_pixel(0, 0, 0)), "0 0 0\n");
}

#[test]
fn white_pixel_record() {
    assert_eq!(text(encode_pixel(255, 255, 255)), "255 255 255\n");
}

#[test]
fn mixed_pixel_record() {
    assert_eq!(text(encode_pixel(127, 0, 255)), "127 0 255\n");
}

#[test]
fn out_of_range_channels_are_written_as_they_are() {
    assert_eq!(text(encode_pixel(-1, 256, 10)), "-1 256 10\n");
    assert_eq!(text(encode_pixel(-40, 1000, -7)), "-40 1000 -7\n");
}

#[test]
fn extreme_channel_values() {
    assert_eq!(
        text(encode_pixel(i32::MIN, i32::MAX, 0)),
        "-2147483648 2147483647 0\n"
    );
}

#[test]
fn header_of_small_image() {
    assert_eq!(text(encode_header(2, 2)), "P3\n2 2\n255\n");
}

#[test]
fn header_of_wide_image() {
    assert_eq!(text(encode_header(256, 100)), "P3\n256 100\n255\n");
    assert_eq!(
        text(encode_header(u32::MAX, 10)),
        "P3\n4294967295 10\n255\n"
    );
}

#[test]
fn two_by_two_image() {
    let pixels = vec![(0, 0, 0), (255, 0, 0), (0, 255, 0), (255, 255, 255)];
    let image = text(encode_image(2, 2, &pixels).unwrap());
    assert_eq!(image, "P3\n2 2\n255\n0 0 0\n255 0 0\n0 255 0\n255 255 255\n");
    assert_eq!(image.lines().count(), 3 + 4);
}

#[test]
fn image_rows_come_in_order() {
    let pixels = vec![(1, 2, 3), (4, 5, 6), (7, 8, 9)];
    let image = text(encode_image(3, 1, &pixels).unwrap());
    assert_eq!(image, "P3\n3 1\n255\n1 2 3\n4 5 6\n7 8 9\n");
}

#[test]
fn image_with_wrong_pixel_count() {
    let pixels = vec![(0, 0, 0), (255, 0, 0), (0, 255, 0)];
    assert_eq!(encode_image(2, 2, &pixels), None);
    assert_eq!(encode_image(1, 1, &Vec::new()), None);
}

#[test]
fn empty_image_is_header_only() {
    assert_eq!(text(encode_image(0, 5, &Vec::new()).unwrap()), "P3\n0 5\n255\n");
}
