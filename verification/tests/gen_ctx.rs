use mandalas::ops::GenerationContext;
use rand::StdRng;

fn inside(p: (usize, usize, usize), size: (usize, usize, usize)) -> bool {
    (p.0 < size.0 || p.0 == 0) && (p.1 < size.1 || p.1 == 0) && (p.2 < size.2 || p.2 == 0)
}

#[test]
fn starts_at_the_centre() {
    let mut gen = GenerationContext::new((10, 20, 30), StdRng::new().unwrap());
    let window = gen.advance();
    for p in &window[..5] {
        assert_eq!(*p, (5, 10, 15));
    }
}

#[test]
fn moves_halfway_to_a_corner() {
    let size = (100, 60, 8);
    let mut gen = GenerationContext::new(size, StdRng::new().unwrap());
    let mut last = (50, 30, 4);
    for _ in 0..1000 {
        let window = gen.advance();
        assert_eq!(window[4], last);
        let next = window[5];
        let corners = [0, size.0];
        let ok = corners.iter().any(|&cx| {
            [0, size.1].iter().any(|&cy| {
                [0, size.2].iter().any(|&cz| next == ((last.0 + cx) / 2, (last.1 + cy) / 2, (last.2 + cz) / 2))
            })
        });
        assert!(ok);
        assert!(inside(next, size));
        last = next;
    }
}

#[test]
fn history_slides() {
    let mut gen = GenerationContext::new((7, 7, 7), StdRng::new().unwrap());
    let first = gen.advance();
    let second = gen.advance();
    assert_eq!(&second[..5], &first[1..]);
}

#[test]
fn empty_axis_stays_at_zero() {
    let mut gen = GenerationContext::new((0, 9, 1), StdRng::new().unwrap());
    for _ in 0..100 {
        let p = gen.advance()[5];
        assert_eq!(p.0, 0);
        assert_eq!(p.2, 0);
        assert!(p.1 < 9);
    }
}

#[test]
fn steps_towards_a_chosen_corner() {
    let mut gen = GenerationContext::new((100, 60, 8), StdRng::new().unwrap());
    assert_eq!(gen.step_towards(0)[5], (25, 15, 2));
    assert_eq!(gen.step_towards(7)[5], (62, 37, 5));
    assert_eq!(gen.step_towards(1)[5], (81, 18, 2));
    let window = gen.step_towards(6);
    assert_eq!(window[..5], [(50, 30, 4), (50, 30, 4), (25, 15, 2), (62, 37, 5), (81, 18, 2)]);
    assert_eq!(window[5], (40, 39, 5));
}
