use std::cell::RefCell;
use thaimeleon_lib::thaimeleon_scheme::NamedHues;

fn sample() -> NamedHues<u32> {
    NamedHues {
        red: 1,
        orange: 2,
        yellow: 3,
        cyan: 4,
        green: 5,
        blue: 6,
        purple: 7,
        magenta: 8,
    }
}

#[test]
fn map_applies_to_every_hue() {
    let doubled = sample().map(|x| x * 2);
    assert_eq!(
        doubled,
        NamedHues { red: 2, orange: 4, yellow: 6, cyan: 8, green: 10, blue: 12, purple: 14, magenta: 16 }
    );
}

#[test]
fn map_goes_through_hues_in_order() {
    let order = RefCell::new(vec![]);
    let _ = sample().map(|x| order.borrow_mut().push(x));
    // red, orange, yellow, green, cyan, blue, purple, magenta
    assert_eq!(order.into_inner(), vec![1, 2, 3, 5, 4, 6, 7, 8]);
}

#[test]
fn try_map_succeeds_when_every_hue_does() {
    let mapped: Result<NamedHues<u64>, String> = sample().try_map(|x| Ok(x as u64 + 10));
    assert_eq!(
        mapped,
        Ok(NamedHues { red: 11, orange: 12, yellow: 13, cyan: 14, green: 15, blue: 16, purple: 17, magenta: 18 })
    );
}

#[test]
fn try_map_stops_at_the_first_failure() {
    let seen = RefCell::new(vec![]);
    let mapped: Result<NamedHues<u32>, u32> = sample().try_map(|x| {
        seen.borrow_mut().push(x);
        if x == 4 || x == 6 { Err(x) } else { Ok(x) }
    });
    // green (5) comes before cyan (4), which fails before blue (6) is tried.
    assert_eq!(mapped, Err(4));
    assert_eq!(seen.into_inner(), vec![1, 2, 3, 5, 4]);
}
