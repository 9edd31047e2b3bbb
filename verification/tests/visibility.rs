use rt::visibility::{in_shadow, nearest_hit, resolve, surface_color, visible_param, Roots};

#[test]
fn a_miss_shows_nothing() {
    assert_eq!(visible_param(None), None);
}

#[test]
fn a_grazing_ray_shows_nothing() {
    assert_eq!(visible_param(Some((4, 4))), None);
    assert_eq!(visible_param(Some((0, 0))), None);
}

#[test]
fn the_near_side_is_seen() {
    assert_eq!(visible_param(Some((3, 8))), Some(3));
    assert_eq!(visible_param(Some((8, 3))), Some(3));
    assert_eq!(visible_param(Some((0, 5))), Some(0));
}

#[test]
fn a_near_side_behind_the_origin_is_not_seen() {
    assert_eq!(visible_param(Some((-8, -3))), None);
    assert_eq!(visible_param(Some((-1, 6))), None);
    assert_eq!(visible_param(Some((6, -1))), None);
    assert_eq!(visible_param(Some((i64::MIN, i64::MAX))), None);
}

#[test]
fn no_sphere_no_hit() {
    let hits: Vec<Roots> = vec![];
    assert_eq!(nearest_hit(&hits), None);
    let hits: Vec<Roots> = vec![None, Some((2, 2)), Some((-4, 9))];
    assert_eq!(nearest_hit(&hits), None);
}

#[test]
fn the_nearer_of_two_spheres_is_shown() {
    let hits: Vec<Roots> = vec![Some((900, 1100)), Some((850, 1050))];
    assert_eq!(nearest_hit(&hits), Some((1, 850)));
    let hits: Vec<Roots> = vec![Some((850, 1050)), Some((900, 1100))];
    assert_eq!(nearest_hit(&hits), Some((0, 850)));
}

#[test]
fn the_first_of_equally_near_spheres_is_shown() {
    let hits: Vec<Roots> = vec![None, Some((7, 12)), Some((20, 7)), Some((7, 8))];
    assert_eq!(nearest_hit(&hits), Some((1, 7)));
}

#[test]
fn spheres_that_are_not_seen_do_not_count() {
    let hits: Vec<Roots> = vec![Some((-5, 3)), Some((1, 1)), None, Some((40, 30)), Some((35, 90))];
    assert_eq!(nearest_hit(&hits), Some((3, 30)));
}

#[test]
fn a_sphere_ahead_of_the_point_casts_a_shadow() {
    let probes: Vec<Roots> = vec![None, Some((3, 9))];
    assert!(in_shadow(&probes, 0));
}

#[test]
fn one_crossing_ahead_is_enough_for_a_shadow() {
    let probes: Vec<Roots> = vec![None, Some((-3, 9))];
    assert!(in_shadow(&probes, 0));
    let probes: Vec<Roots> = vec![None, Some((9, -3))];
    assert!(in_shadow(&probes, 0));
}

#[test]
fn a_sphere_behind_the_point_casts_no_shadow() {
    let probes: Vec<Roots> = vec![None, Some((-9, -3)), Some((0, -2)), Some((0, 0)), None];
    assert!(!in_shadow(&probes, 0));
}

#[test]
fn the_sphere_that_was_hit_casts_no_shadow_on_itself() {
    let probes: Vec<Roots> = vec![Some((1, 200)), None];
    assert!(!in_shadow(&probes, 0));
    assert!(in_shadow(&probes, 1));
}

#[test]
fn the_hit_sphere_is_left_out_by_position_not_by_value() {
    let probes: Vec<Roots> = vec![Some((1, 200)), Some((1, 200))];
    assert!(in_shadow(&probes, 0));
    assert!(in_shadow(&probes, 1));
}

#[test]
fn no_spheres_no_shadow() {
    let probes: Vec<Roots> = vec![];
    assert!(!in_shadow(&probes, 0));
}

#[test]
fn taking_the_occluder_away_lights_the_point() {
    let with: Vec<Roots> = vec![Some((-200, 0)), Some((40, 60)), None];
    let without: Vec<Roots> = vec![Some((-200, 0)), None];
    assert!(in_shadow(&with, 0));
    assert!(!in_shadow(&without, 0));
    assert_eq!(surface_color(&with, 0, (9u8, 9u8, 9u8), (0u8, 0u8, 0u8)), (0, 0, 0));
    assert_eq!(surface_color(&without, 0, (9u8, 9u8, 9u8), (0u8, 0u8, 0u8)), (9, 9, 9));
}

#[test]
fn a_pixel_that_sees_nothing_has_no_colour() {
    let hits: Vec<Roots> = vec![None, Some((-3, -1)), Some((2, 2))];
    let asked = std::cell::Cell::new(0);
    let color = resolve(
        &hits,
        |_, _| {
            asked.set(asked.get() + 1);
            (Vec::new(), 5u8)
        },
        0u8,
    );
    assert_eq!(color, None);
    assert_eq!(asked.get(), 0);
}

#[test]
fn a_pixel_shows_the_lit_colour_of_the_nearest_sphere() {
    let hits: Vec<Roots> = vec![Some((900, 1100)), None, Some((850, 1050))];
    let asked = std::cell::RefCell::new(Vec::new());
    let color = resolve(
        &hits,
        |k, t| {
            asked.borrow_mut().push((k, t));
            (vec![Some((-100, -50)), None, Some((-40, 0))], (k, t))
        },
        (usize::MAX, 0),
    );
    assert_eq!(color, Some((2, 850)));
    assert_eq!(asked.into_inner(), vec![(2, 850)]);
}

#[test]
fn a_pixel_in_shadow_is_dark() {
    let hits: Vec<Roots> = vec![Some((900, 1100)), Some((850, 1050))];
    let color = resolve(&hits, |_, _| (vec![Some((10, 30)), Some((-5, 0))], "lit"), "dark");
    assert_eq!(color, Some("dark"));
    let color = resolve(&hits, |_, _| (vec![None, Some((10, 30))], "lit"), "dark");
    assert_eq!(color, Some("lit"));
}
