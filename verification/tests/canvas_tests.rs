use ppm::Colour;
use ppm::PPM;
use ppm::Point;

#[test]
fn fresh_canvas_is_black() {
    let c = PPM::new(4, 3);
    assert_eq!(c.width, 4);
    assert_eq!(c.height, 3);
    for x in 0..4isize {
        for y in 0..3isize {
            assert_eq!(c.get_pixel(&Point(x, y)), Colour(0, 0, 0));
        }
    }
}

#[test]
fn set_pixel_reads_back_and_touches_nothing_else() {
    let mut c = PPM::new(7, 5);
    c.set_pixel(&Point(3, 2), &Colour(10, 20, 30));
    for x in 0..7isize {
        for y in 0..5isize {
            let expected = if (x, y) == (3, 2) {
                Colour(10, 20, 30)
            } else {
                Colour(0, 0, 0)
            };
            assert_eq!(c.get_pixel(&Point(x, y)), expected);
        }
    }
}

#[test]
fn set_pixel_unchecked_overwrites() {
    let mut c = PPM::new(2, 2);
    c.set_pixel_unchecked(&Point(1, 0), &Colour(1, 2, 3));
    c.set_pixel_unchecked(&Point(1, 0), &Colour(9, 8, 7));
    assert_eq!(c.get_pixel(&Point(1, 0)), Colour(9, 8, 7));
    assert_eq!(c.get_pixel(&Point(0, 0)), Colour(0, 0, 0));
    assert_eq!(c.get_pixel(&Point(0, 1)), Colour(0, 0, 0));
    assert_eq!(c.get_pixel(&Point(1, 1)), Colour(0, 0, 0));
}

#[test]
fn row_major_layout() {
    // pixel (x, y) sits at byte offset (x + y * width) * 3 of the data
    let mut c = PPM::new(3, 2);
    c.set_pixel(&Point(2, 1), &Colour(0xAA, 0xBB, 0xCC));
    let bytes = c.to_bytes();
    let data = &bytes[bytes.len() - 3 * 2 * 3..];
    let off = (2 + 1 * 3) * 3;
    assert_eq!(&data[off..off + 3], &[0xAA, 0xBB, 0xCC]);
}
