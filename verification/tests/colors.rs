use piet::codel::{Codel, Direction};
use piet::pietcolor::{Hue, Lightness, PietColor};

fn c(hue: Hue, lightness: Lightness) -> PietColor {
    PietColor { hue, lightness }
}

#[test]
fn hue_distances_follow_the_spectral_wheel() {
    assert_eq!(Hue::Red.diff_to(&Hue::Red), 0);
    assert_eq!(Hue::Red.diff_to(&Hue::Yellow), 1);
    assert_eq!(Hue::Red.diff_to(&Hue::Magenta), 5);
    assert_eq!(Hue::Yellow.diff_to(&Hue::Red), 5);
    assert_eq!(Hue::Magenta.diff_to(&Hue::Red), 1);
    assert_eq!(Hue::Cyan.diff_to(&Hue::Green), 5);
    assert_eq!(Hue::Green.diff_to(&Hue::Cyan), 1);
}

#[test]
fn achromatic_pairings_yield_the_sentinel() {
    assert_eq!(Hue::White.diff_to(&Hue::Red), 6);
    assert_eq!(Hue::Red.diff_to(&Hue::White), 6);
    assert_eq!(Hue::Black.diff_to(&Hue::Black), 6);
    assert_eq!(Hue::White.diff_to(&Hue::Black), 6);
    assert_eq!(Hue::Smoke.diff_to(&Hue::Red), 6);
    assert_eq!(Hue::Red.diff_to(&Hue::Smoke), 6);
}

#[test]
fn lightness_distances_cycle_forward() {
    assert_eq!(Lightness::Light.diff_to(&Lightness::Light), 0);
    assert_eq!(Lightness::Light.diff_to(&Lightness::Normal), 1);
    assert_eq!(Lightness::Light.diff_to(&Lightness::Dark), 2);
    assert_eq!(Lightness::Normal.diff_to(&Lightness::Dark), 1);
    assert_eq!(Lightness::Normal.diff_to(&Lightness::Light), 2);
    assert_eq!(Lightness::Dark.diff_to(&Lightness::Light), 1);
    assert_eq!(Lightness::Dark.diff_to(&Lightness::Normal), 2);
}

#[test]
fn color_diff_pairs_hue_and_lightness() {
    let a = c(Hue::Red, Lightness::Normal);
    let b = c(Hue::Yellow, Lightness::Dark);
    assert_eq!(a.diff_to(&b), (1, 1));
    assert_eq!(b.diff_to(&a), (5, 2));
}

#[test]
fn codel_diff_uses_its_colors() {
    let a = Codel { color: c(Hue::Blue, Lightness::Light), x: 0, y: 0 };
    let b = Codel { color: c(Hue::Blue, Lightness::Dark), x: 1, y: 0 };
    assert_eq!(a.diff_to(&b), (0, 2));
}

#[test]
fn rotate_four_times_is_identity() {
    for d in [Direction::Right, Direction::Left, Direction::Down, Direction::Up] {
        assert_eq!(d.rotate().rotate().rotate().rotate(), d);
    }
    assert_eq!(Direction::Right.rotate(), Direction::Down);
    assert_eq!(Direction::Down.rotate(), Direction::Left);
    assert_eq!(Direction::Left.rotate(), Direction::Up);
    assert_eq!(Direction::Up.rotate(), Direction::Right);
}

#[test]
fn opposite_twice_is_identity() {
    for d in [Direction::Right, Direction::Left, Direction::Down, Direction::Up] {
        assert_eq!(d.opposite().opposite(), d);
    }
    assert_eq!(Direction::Left.opposite(), Direction::Right);
    assert_eq!(Direction::Right.opposite(), Direction::Left);
}

#[test]
fn relative_to_names_the_perpendicular() {
    let r = Direction::Right;
    let l = Direction::Left;
    assert_eq!(r.relative_to(Direction::Right), Direction::Down);
    assert_eq!(l.relative_to(Direction::Right), Direction::Up);
    assert_eq!(r.relative_to(Direction::Down), Direction::Left);
    assert_eq!(l.relative_to(Direction::Down), Direction::Right);
    assert_eq!(r.relative_to(Direction::Left), Direction::Up);
    assert_eq!(l.relative_to(Direction::Left), Direction::Down);
    assert_eq!(r.relative_to(Direction::Up), Direction::Right);
    assert_eq!(l.relative_to(Direction::Up), Direction::Left);
}

#[test]
fn to_vector_steps_one_cell() {
    assert_eq!(Direction::Right.to_vector(), (1, 0));
    assert_eq!(Direction::Left.to_vector(), (-1, 0));
    assert_eq!(Direction::Down.to_vector(), (0, 1));
    assert_eq!(Direction::Up.to_vector(), (0, -1));
}

#[test]
fn choose_codel_picks_the_farther_coordinate() {
    let red = c(Hue::Red, Lightness::Normal);
    let a = Codel { color: red, x: 1, y: 5 };
    let b = Codel { color: red, x: 4, y: 2 };
    assert_eq!(Direction::Right.choose_codel(&a, &b), Some(b));
    assert_eq!(Direction::Left.choose_codel(&a, &b), Some(a));
    assert_eq!(Direction::Down.choose_codel(&a, &b), Some(a));
    assert_eq!(Direction::Up.choose_codel(&a, &b), Some(b));
    let tie = Codel { color: red, x: 1, y: 9 };
    assert_eq!(Direction::Right.choose_codel(&a, &tie), None);
}

#[test]
fn compare_to_breaks_ties_with_the_codel_chooser() {
    let red = c(Hue::Red, Lightness::Normal);
    let a = Codel { color: red, x: 2, y: 1 };
    let b = Codel { color: red, x: 2, y: 3 };
    // same x: with dp Right the chooser decides along the perpendicular
    assert_eq!(a.compare_to(&b, Direction::Right, Direction::Right), b);
    assert_eq!(a.compare_to(&b, Direction::Right, Direction::Left), a);
    assert_eq!(a.compare_to(&a, Direction::Right, Direction::Left), a);
}
