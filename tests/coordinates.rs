use minesweeper::Coordinates;

#[test]
fn safely_handles_underflow_with_coordinates() {
    let coordinates = Coordinates { x: 0, y: 0 };
    let coordinates = coordinates - Coordinates { x: 1, y: 1 };
    assert_eq!(coordinates, Coordinates { x: 0, y: 0 });
}

#[test]
fn saturates_on_overflow_with_coordinates() {
    let coordinates = Coordinates { x: 40_000, y: 40_000 };
    let coordinates = coordinates + Coordinates { x: 40_000, y: 40_000 };
    assert_eq!(coordinates, Coordinates { x: 65_535, y: 65_535 });
}

// Offsets saturate at zero instead of wrapping around.
#[test]
fn underflows_with_i8() {
    let coordinates = Coordinates { x: 0, y: 0 };
    let coordinates = coordinates + (-1, -1);
    assert_eq!(coordinates, Coordinates { x: 0, y: 0 });
}

#[test]
fn safely_handles_potential_overflows_with_i8() {
    let coordinates = Coordinates { x: 40_000, y: 40_000 };
    let coordinates = coordinates + (100, 100);
    assert_eq!(coordinates, Coordinates { x: 40_100, y: 40_100 });
}

#[test]
fn offset_saturates_at_the_top() {
    let coordinates = Coordinates { x: 65_535, y: 10 } + (1, -1);
    assert_eq!(coordinates, Coordinates { x: 65_535, y: 9 });
}

#[test]
fn checked_offset_refuses_to_leave_the_range() {
    let origin = Coordinates { x: 0, y: 5 };
    assert_eq!(origin.checked_offset((-1, 0)), None);
    assert_eq!(origin.checked_offset((1, 1)), Some(Coordinates { x: 1, y: 6 }));
    assert_eq!(Coordinates { x: 3, y: 65_535 }.checked_offset((0, 1)), None);
}
