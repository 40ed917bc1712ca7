use zharko::camera::{Bounce, Path, Step};

/// Walks a path of the given depth through the given answers of a scene and
/// returns the step it ended with and how many answers it took in.
fn walk(depth: i32, scene: &[Bounce]) -> (Step, usize) {
    let mut path = Path::new(depth);
    let mut step = path.start();
    let mut asked = 0;
    while step == Step::Intersect {
        step = path.after(scene[asked]);
        asked += 1;
    }
    (step, asked)
}

#[test]
fn a_path_without_depth_is_black_before_the_scene_is_asked() {
    assert_eq!(Path::new(0).start(), Step::Black);
    assert_eq!(Path::new(-1).start(), Step::Black);
    assert_eq!(Path::new(i32::MIN).start(), Step::Black);
    assert_eq!(walk(0, &[Bounce::Missed]), (Step::Black, 0));
    assert_eq!(walk(0, &[Bounce::Scattered, Bounce::Missed]), (Step::Black, 0));
}

#[test]
fn a_path_without_depth_stays_black_whatever_is_reported() {
    for bounce in [Bounce::Missed, Bounce::Absorbed, Bounce::Scattered] {
        let mut path = Path::new(0);
        assert_eq!(path.after(bounce), Step::Black);
        assert_eq!(path.left(), 0);
        let mut below = Path::new(-7);
        assert_eq!(below.after(bounce), Step::Black);
        assert_eq!(below.left(), 0);
    }
}

#[test]
fn a_path_with_depth_starts_by_asking_the_scene() {
    assert_eq!(Path::new(1).start(), Step::Intersect);
    assert_eq!(Path::new(50).start(), Step::Intersect);
    assert_eq!(Path::new(i32::MAX).start(), Step::Intersect);
    assert_eq!(Path::new(50).left(), 50);
}

#[test]
fn a_miss_ends_in_the_background() {
    let mut path = Path::new(3);
    assert_eq!(path.after(Bounce::Missed), Step::Background);
    assert_eq!(path.left(), 0);
    assert_eq!(path.start(), Step::Black);
}

#[test]
fn an_absorbed_ray_ends_in_black() {
    let mut path = Path::new(3);
    assert_eq!(path.after(Bounce::Absorbed), Step::Black);
    assert_eq!(path.left(), 0);
}

#[test]
fn a_scatter_costs_one_bounce() {
    let mut path = Path::new(3);
    assert_eq!(path.after(Bounce::Scattered), Step::Intersect);
    assert_eq!(path.left(), 2);
    assert_eq!(path.after(Bounce::Scattered), Step::Intersect);
    assert_eq!(path.left(), 1);
    assert_eq!(path.after(Bounce::Scattered), Step::Black);
    assert_eq!(path.left(), 0);
}

#[test]
fn the_last_bounce_may_still_reach_the_background() {
    assert_eq!(
        walk(2, &[Bounce::Scattered, Bounce::Missed]),
        (Step::Background, 2)
    );
    assert_eq!(walk(1, &[Bounce::Missed]), (Step::Background, 1));
}

#[test]
fn a_scene_that_always_scatters_is_asked_depth_times() {
    let mirrors = [Bounce::Scattered; 64];
    for depth in 0..=50 {
        assert_eq!(walk(depth, &mirrors), (Step::Black, depth as usize));
    }
}

#[test]
fn a_walk_stops_at_the_first_bounce_that_ends_it() {
    let scene = [
        Bounce::Scattered,
        Bounce::Scattered,
        Bounce::Absorbed,
        Bounce::Missed,
    ];
    assert_eq!(walk(10, &scene), (Step::Black, 3));
    let open = [Bounce::Scattered, Bounce::Missed, Bounce::Absorbed];
    assert_eq!(walk(10, &open), (Step::Background, 2));
}
