use ppm::Colour;
use ppm::PPM;
use ppm::Point;

fn plotted(c: &PPM, background: Colour) -> Vec<(isize, isize)> {
    let mut out: Vec<(isize, isize)> = Vec::new();
    for y in 0..c.height as isize {
        for x in 0..c.width as isize {
            if c.get_pixel(&Point(x, y)) != background {
                out.push((x, y));
            }
        }
    }
    out
}

#[test]
fn single_point_line() {
    let mut c = PPM::new(9, 9);
    c.draw_line(&Point(4, 6), &Point(4, 6), &Colour(1, 2, 3));
    let hits = plotted(&c, Colour(0, 0, 0));
    assert_eq!(hits, vec![(4, 6)]);
    assert_eq!(c.get_pixel(&Point(4, 6)), Colour(1, 2, 3));
}

#[test]
fn horizontal_line_eleven_pixels() {
    let mut c = PPM::new(12, 8);
    c.draw_line(&Point(0, 5), &Point(10, 5), &Colour(7, 7, 7));
    let hits = plotted(&c, Colour(0, 0, 0));
    let expected: Vec<(isize, isize)> = (0..=10).map(|x| (x, 5)).collect();
    assert_eq!(hits.len(), 11);
    assert_eq!(hits, expected);
    for &(x, y) in &hits {
        assert_eq!(y, 5);
        assert_eq!(c.get_pixel(&Point(x, y)), Colour(7, 7, 7));
    }
}

#[test]
fn vertical_line() {
    let mut c = PPM::new(4, 9);
    c.draw_line(&Point(2, 7), &Point(2, 1), &Colour(5, 6, 8));
    let hits = plotted(&c, Colour(0, 0, 0));
    let expected: Vec<(isize, isize)> = (1..=7).map(|y| (2, y)).collect();
    assert_eq!(hits, expected);
}

#[test]
fn diagonal_line_six_pixels() {
    let mut c = PPM::new(8, 8);
    c.draw_line(&Point(0, 0), &Point(5, 5), &Colour(9, 9, 9));
    let hits = plotted(&c, Colour(0, 0, 0));
    let expected: Vec<(isize, isize)> = (0..=5).map(|k| (k, k)).collect();
    assert_eq!(hits, expected);
}

#[test]
fn swapped_endpoints_same_pixels_horizontal() {
    let mut a = PPM::new(16, 4);
    let mut b = PPM::new(16, 4);
    a.draw_line(&Point(2, 1), &Point(13, 1), &Colour(1, 1, 1));
    b.draw_line(&Point(13, 1), &Point(2, 1), &Colour(1, 1, 1));
    assert_eq!(plotted(&a, Colour(0, 0, 0)), plotted(&b, Colour(0, 0, 0)));
}

#[test]
fn swapped_endpoints_same_pixels_diagonal() {
    let mut a = PPM::new(10, 10);
    let mut b = PPM::new(10, 10);
    a.draw_line(&Point(1, 8), &Point(8, 1), &Colour(1, 1, 1));
    b.draw_line(&Point(8, 1), &Point(1, 8), &Colour(1, 1, 1));
    assert_eq!(plotted(&a, Colour(0, 0, 0)), plotted(&b, Colour(0, 0, 0)));
}

#[test]
fn long_diagonal_connected_and_exact_endpoints() {
    let mut c = PPM::new(421, 421);
    let colour = Colour(0, 255, 0);
    c.draw_line(&Point(69, 69), &Point(420, 420), &colour);
    let hits = plotted(&c, Colour(0, 0, 0));
    assert_eq!(*hits.first().unwrap(), (69, 69));
    assert_eq!(*hits.last().unwrap(), (420, 420));
    // gap-free eight-connected path: successive plotted pixels touch
    for w in hits.windows(2) {
        let (x0, y0) = w[0];
        let (x1, y1) = w[1];
        assert!((x1 - x0).abs() <= 1 && (y1 - y0).abs() <= 1);
    }
    // this segment is an exact diagonal
    let expected: Vec<(isize, isize)> = (69..=420).map(|k| (k, k)).collect();
    assert_eq!(hits, expected);
}

#[test]
fn shallow_slope_one_pixel_per_column() {
    let mut c = PPM::new(12, 6);
    c.draw_line(&Point(0, 1), &Point(9, 4), &Colour(3, 3, 3));
    let hits = plotted(&c, Colour(0, 0, 0));
    // endpoints exact, one pixel in every column from 0 to 9
    assert!(hits.contains(&(0, 1)));
    assert!(hits.contains(&(9, 4)));
    for x in 0..=9isize {
        assert_eq!(hits.iter().filter(|p| p.0 == x).count(), 1);
    }
}
