use x800::colour::Colour;

#[test]
fn power_to_colour_zero_test() {
    assert_eq!(Colour::from_power(0), Colour::default());
}

#[test]
fn power_to_colour_cycle_test() {
    for power in 0..=255_u8 {
        assert_eq!(
            Colour::from_power(power as u32),
            Colour::from_power(power as u32 % 13)
        );
    }
}

#[test]
fn colour_walks_the_box() {
    assert_eq!(Colour::from_power(1), Colour { row: 5, column: 18 });
    assert_eq!(Colour::from_power(3), Colour { row: 1, column: 18 });
    assert_eq!(Colour::from_power(4), Colour { row: 0, column: 18 });
    assert_eq!(Colour::from_power(6), Colour { row: 0, column: 22 });
    assert_eq!(Colour::from_power(7), Colour { row: 0, column: 23 });
    assert_eq!(Colour::from_power(9), Colour { row: 4, column: 23 });
    assert_eq!(Colour::from_power(10), Colour { row: 5, column: 23 });
    assert_eq!(Colour::from_power(12), Colour { row: 5, column: 27 });
    assert_eq!(Colour::from_power(13), Colour::default());
    assert_eq!(Colour::from_power(14), Colour { row: 5, column: 18 });
}

#[test]
fn colour_palette_indices() {
    assert_eq!(Colour::default().palette(), (0, 15));
    assert!(Colour::default().is_plain());
    assert_eq!(Colour { row: 5, column: 18 }.palette(), (214, 0));
    assert_eq!(Colour { row: 0, column: 23 }.palette(), (39, 0));
    assert!(!Colour::from_power(2).is_plain());
}
