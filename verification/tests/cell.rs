use sudoku::Cell;

#[test]
fn cell_test() {
    // zero cell
    let c = Cell::new(0);
    assert_eq!(0, c.values());
    assert_eq!(Cell::new(0), c.min());
    assert_eq!(0, c.count());
    assert!(c.single());
    assert!(!c.solvable());
    assert!(!c.solved());
    assert_eq!("0", c.to_string());

    // solved cell
    let c = Cell::new(500055550);
    assert_eq!(5, c.values());
    assert_eq!(1, c.count());
    assert_eq!(Cell::new(5), c.min());
    assert!(c.single());
    assert!(c.solvable());
    assert!(c.solved());
    assert_eq!("5", c.to_string());

    // unsolved cell
    let c = Cell::new(1257007);
    assert_eq!(1257, c.values());
    assert_eq!(4, c.count());
    assert_eq!(Cell::new(1), c.min());
    assert!(!c.single());
    assert!(c.solvable());
    assert!(!c.solved());
    assert_eq!("1257", c.to_string());

    // full cell
    let c = Cell::full();
    assert_eq!(123456789, c.values());
    assert_eq!(9, c.count());

    // operators
    assert!(Cell::new(12) == Cell::new(21));
    assert!(Cell::new(0) != Cell::new(1));
    assert_eq!(Cell::new(1234589), Cell::new(12345) + Cell::new(98));
    assert_eq!(Cell::new(34), Cell::new(12345) - Cell::new(1256));
    assert_eq!(Cell::new(7), Cell::new(123457) & Cell::new(987));
    assert_eq!(Cell::new(13), !Cell::new(2456789));

    // assignment operators
    let mut c = Cell::new(123);
    c += Cell::new(4);
    assert_eq!(Cell::new(1234), c);
    c -= Cell::new(4);
    assert_eq!(Cell::new(123), c);
    c &= Cell::new(13);
    assert_eq!(Cell::new(13), c);
}

#[test]
fn literal_round_trips() {
    for (n, digits) in [(0, 0), (500055550, 5), (1257007, 1257), (987654321, 123456789), (90210, 129)] {
        let c = Cell::new(n);
        assert_eq!(digits, c.values());
        assert_eq!(c, Cell::new(c.values()));
        assert_eq!(c.values(), Cell::new(c.values()).values());
    }
}

#[test]
fn every_set_round_trips() {
    // every set of digits, built from single digits
    for mask in 0u32..512 {
        let mut c = Cell::new(0);
        let mut count = 0;
        let mut least = 0;
        for d in (1..=9).rev() {
            if mask & (1 << (d - 1)) != 0 {
                c += Cell::new(d);
                count += 1;
                least = d;
            }
        }
        assert_eq!(count, c.count());
        assert_eq!(c, Cell::new(c.values()));
        assert_eq!(Cell::new(least), c.min());
        assert_eq!(count <= 1, c.single());
        assert_eq!(count >= 1, c.solvable());
        assert_eq!(count == 1, c.solved());
        assert_eq!(c.values().to_string(), c.to_string());
        assert_eq!(c, !!c);
        assert_eq!(9 - count, (!c).count());
    }
}

#[test]
fn zero_digits_are_ignored() {
    assert_eq!(Cell::new(0), Cell::new(1000) - Cell::new(1));
    assert_eq!(Cell::new(7), Cell::new(7000));
    assert_eq!(Cell::new(7), Cell::new(70707));
    assert_eq!(0, Cell::new(0).count());
    assert_eq!(4_294_967_295u32, u32::MAX);
    // the digits of the greatest literal: 4294967295
    assert_eq!(245679, Cell::new(u32::MAX).values());
}

#[test]
fn full_has_all_nine() {
    let c = Cell::full();
    assert_eq!(9, c.count());
    assert_eq!(123456789, c.values());
    assert_eq!("123456789", c.to_string());
    assert_eq!(Cell::new(123456789), c);
    assert_eq!(Cell::new(1), c.min());
    assert!(!c.single());
    assert!(c.solvable());
    assert!(!c.solved());
    assert_eq!(Cell::new(0), !c);
    assert_eq!(c, !Cell::new(0));
}

#[test]
fn set_algebra() {
    let sets = [0, 1, 9, 19, 123, 456, 2468, 13579, 123456789];
    for a in sets {
        for b in sets {
            let (a, b) = (Cell::new(a), Cell::new(b));
            // (a + b) - b is within a
            let rest = (a + b) - b;
            assert_eq!(rest, rest & a);
            assert_eq!(a - b, rest);
            assert_eq!(a, a & a);
            assert_eq!(a, !!a);
            assert_eq!(a + b, b + a);
            assert_eq!(a & b, b & a);
            assert_eq!(a & b, a - !b);
            assert_eq!(!(a + b), !a & !b);
            assert_eq!((a + b).count() + (a & b).count(), a.count() + b.count());
        }
    }
}

#[test]
fn min_is_the_smallest_candidate() {
    assert_eq!(Cell::new(2), Cell::new(92).min());
    assert_eq!(Cell::new(9), Cell::new(9).min());
    assert_eq!(Cell::new(3), Cell::new(3456789).min());
    assert_eq!(Cell::new(0), Cell::new(0).min());
    assert_eq!(1, Cell::new(98765).min().count());
    assert_eq!(5, Cell::new(98765).min().values());
}

#[test]
fn single_and_solved() {
    assert!(Cell::new(0).single());
    assert!(Cell::new(8).single());
    assert!(!Cell::new(18).single());
    assert!(!Cell::new(123).single());
    assert!(!Cell::new(0).solved());
    assert!(Cell::new(8).solved());
    assert!(!Cell::new(18).solved());
}

#[test]
fn assignment_operators_change_in_place() {
    let mut c = Cell::new(0);
    c += Cell::new(159);
    assert_eq!(159, c.values());
    c += Cell::new(15);
    assert_eq!(159, c.values());
    c -= Cell::new(5678);
    assert_eq!(19, c.values());
    c &= Cell::new(123);
    assert_eq!(1, c.values());
    c &= Cell::new(9);
    assert_eq!(0, c.values());
}
