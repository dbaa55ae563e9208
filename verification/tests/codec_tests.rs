use ppm::Colour;
use ppm::PPM;
use ppm::Point;

#[test]
fn two_by_two_exact_bytes() {
    let mut c = PPM::new(2, 2);
    c.set_pixel(&Point(0, 0), &Colour(1, 2, 3));
    c.set_pixel(&Point(1, 0), &Colour(4, 5, 6));
    c.set_pixel(&Point(0, 1), &Colour(7, 8, 9));
    c.set_pixel(&Point(1, 1), &Colour(10, 11, 12));
    let bytes = c.to_bytes();
    let mut expected: Vec<u8> = b"P6\n2 2\n255\n".to_vec();
    expected.extend_from_slice(&[1, 2, 3, 4, 5, 6, 7, 8, 9, 10, 11, 12]);
    assert_eq!(bytes, expected);
}

#[test]
fn zero_size_canvas_serializes_to_bare_header() {
    let c = PPM::new(0, 0);
    assert_eq!(c.to_bytes(), b"P6\n0 0\n255\n".to_vec());
}

#[test]
fn multi_digit_dimensions_in_header() {
    let c = PPM::new(123, 45);
    let bytes = c.to_bytes();
    let header: Vec<u8> = b"P6\n123 45\n255\n".to_vec();
    assert_eq!(&bytes[..header.len()], &header[..]);
    assert_eq!(bytes.len(), header.len() + 123 * 45 * 3);
}

#[test]
fn round_trip_pattern() {
    // fill a canvas with a deterministic pattern, serialize, decode by hand,
    // and compare the reconstructed grid pixel for pixel
    let w: usize = 31;
    let h: usize = 17;
    let mut c = PPM::new(w, h);
    for x in 0..w as isize {
        for y in 0..h as isize {
            let col = Colour(
                (x * 7 % 256) as u8,
                (y * 13 % 256) as u8,
                ((x + y) * 29 % 256) as u8,
            );
            c.set_pixel(&Point(x, y), &col);
        }
    }
    let bytes = c.to_bytes();

    // reference decode of the header "P6\n<w> <h>\n255\n"
    assert_eq!(&bytes[..3], b"P6\n");
    let sp = 3 + bytes[3..].iter().position(|&b| b == b' ').unwrap();
    let nl = sp + 1 + bytes[sp + 1..].iter().position(|&b| b == b'\n').unwrap();
    let dw: usize = std::str::from_utf8(&bytes[3..sp]).unwrap().parse().unwrap();
    let dh: usize = std::str::from_utf8(&bytes[sp + 1..nl]).unwrap().parse().unwrap();
    assert_eq!(&bytes[nl..nl + 5], b"\n255\n");
    let data = &bytes[nl + 5..];
    assert_eq!(dw, w);
    assert_eq!(dh, h);
    assert_eq!(data.len(), w * h * 3);
    for x in 0..w {
        for y in 0..h {
            let off = (x + y * w) * 3;
            let got = Colour(data[off], data[off + 1], data[off + 2]);
            assert_eq!(got, c.get_pixel(&Point(x as isize, y as isize)));
        }
    }
}

#[test]
fn out_of_range_checked_write_is_refused() {
    let mut c = PPM::new(3, 3);
    assert!(!c.set_pixel(&Point(-1, 0), &Colour(1, 1, 1)));
    assert!(!c.set_pixel(&Point(0, -1), &Colour(1, 1, 1)));
    assert!(!c.set_pixel(&Point(3, 0), &Colour(1, 1, 1)));
    assert!(!c.set_pixel(&Point(0, 3), &Colour(1, 1, 1)));
    // nothing was painted
    for x in 0..3isize {
        for y in 0..3isize {
            assert_eq!(c.get_pixel(&Point(x, y)), Colour(0, 0, 0));
        }
    }
    assert!(c.set_pixel(&Point(2, 2), &Colour(1, 1, 1)));
    assert_eq!(c.get_pixel(&Point(2, 2)), Colour(1, 1, 1));
}

#[test]
fn decode_inverts_serialization() {
    let mut c = PPM::new(5, 4);
    c.set_pixel(&Point(0, 0), &Colour(255, 0, 0));
    c.set_pixel(&Point(4, 3), &Colour(0, 0, 255));
    c.set_pixel(&Point(2, 1), &Colour(17, 34, 51));
    let bytes = c.to_bytes();
    let d = PPM::from_bytes(&bytes).unwrap();
    assert_eq!(d.width, 5);
    assert_eq!(d.height, 4);
    for x in 0..5isize {
        for y in 0..4isize {
            assert_eq!(d.get_pixel(&Point(x, y)), c.get_pixel(&Point(x, y)));
        }
    }
}

#[test]
fn decode_zero_size_round_trip() {
    let c = PPM::new(0, 7);
    let d = PPM::from_bytes(&c.to_bytes()).unwrap();
    assert_eq!(d.width, 0);
    assert_eq!(d.height, 7);
}

#[test]
fn decode_rejects_malformed_input() {
    assert!(PPM::from_bytes(&b"".to_vec()).is_none());
    assert!(PPM::from_bytes(&b"P5\n2 2\n255\n".to_vec()).is_none());
    assert!(PPM::from_bytes(&b"P6\n2 2\n255\n".to_vec()).is_none()); // data missing
    assert!(PPM::from_bytes(&b"P6\n2 2\n254\n".to_vec()).is_none());
    assert!(PPM::from_bytes(&b"P6\n2x 2\n255\n".to_vec()).is_none());
    assert!(PPM::from_bytes(&b"P6\n2 2 255".to_vec()).is_none());
    let mut ok: Vec<u8> = b"P6\n1 1\n255\n".to_vec();
    ok.extend_from_slice(&[9, 9, 9]);
    let c = PPM::from_bytes(&ok).unwrap();
    assert_eq!(c.width, 1);
    assert_eq!(c.height, 1);
    assert_eq!(c.get_pixel(&Point(0, 0)), Colour(9, 9, 9));
    let mut long: Vec<u8> = b"P6\n1 1\n255\n".to_vec();
    long.extend_from_slice(&[9, 9, 9, 9]); // one byte too many
    assert!(PPM::from_bytes(&long).is_none());
}
