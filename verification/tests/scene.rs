use path_tracer::{nearest, reaches, Nearest, Scene};

struct Ball {
    center: [f64; 3],
    radius: f64,
}

fn meet(ball: &Ball, origin: [f64; 3], direction: [f64; 3]) -> Option<f64> {
    let op = [ball.center[0] - origin[0], ball.center[1] - origin[1], ball.center[2] - origin[2]];
    let b = op[0] * direction[0] + op[1] * direction[1] + op[2] * direction[2];
    let det = b * b - (op[0] * op[0] + op[1] * op[1] + op[2] * op[2]) + ball.radius * ball.radius;
    if det < 0.0 {
        return None;
    }
    let det = det.sqrt();
    if b - det > 1e-4 {
        Some(b - det)
    } else if b + det > 1e-4 {
        Some(b + det)
    } else {
        None
    }
}

fn key(distance: Option<f64>) -> Option<u64> {
    path_tracer::distance::distance_key(distance?.to_bits())
}

fn distance(key: u64) -> f64 {
    f64::from_bits(path_tracer::distance::key_bits(key).unwrap())
}

#[test]
fn nearest_prefers_the_smaller_key() {
    let candidates = vec![Some(30u64), None, Some(10), Some(20)];
    assert_eq!(nearest(&candidates), Some(Nearest { index: 2, key: 10 }));
}

#[test]
fn nearest_of_nothing_is_nothing() {
    assert_eq!(nearest(&vec![]), None);
    assert_eq!(nearest(&vec![None, None]), None);
}

#[test]
fn nearest_keeps_the_earlier_of_two_equals() {
    let candidates = vec![Some(7u64), Some(5), Some(5), Some(9), Some(5)];
    assert_eq!(nearest(&candidates), Some(Nearest { index: 1, key: 5 }));
}

#[test]
fn nearest_takes_the_largest_key_where_it_is_alone() {
    assert_eq!(nearest(&vec![None, Some(u64::MAX)]), Some(Nearest { index: 1, key: u64::MAX }));
    assert_eq!(nearest(&vec![Some(0)]), Some(Nearest { index: 0, key: 0 }));
}

#[test]
fn reaches_only_the_nearest() {
    let candidates = vec![Some(30u64), None, Some(10), Some(10)];
    assert!(reaches(&candidates, 2));
    assert!(!reaches(&candidates, 0));
    assert!(!reaches(&candidates, 1));
    assert!(!reaches(&candidates, 3));
    assert!(!reaches(&candidates, 4));
    assert!(!reaches(&vec![], 0));
}

#[test]
fn scene_hands_out_identities_in_order() {
    let mut scene: Scene<&str> = Scene::new();
    assert_eq!(scene.len(), 0);
    assert_eq!(scene.add("wall", false), 0);
    assert_eq!(scene.add("lamp", true), 1);
    assert_eq!(scene.add("floor", false), 2);
    assert_eq!(scene.len(), 3);
    assert_eq!(*scene.get(1), "lamp");
    assert!(scene.is_emissive(1));
    assert!(!scene.is_emissive(0));
}

#[test]
fn lights_are_the_emissive_primitives_in_order() {
    let mut scene: Scene<u8> = Scene::new();
    assert!(scene.lights().is_empty());
    for (i, emissive) in [false, true, true, false, true].into_iter().enumerate() {
        scene.add(i as u8, emissive);
    }
    assert_eq!(scene.lights(), vec![1, 2, 4]);
}

#[test]
fn intersect_finds_the_first_ball_on_the_ray() {
    let mut scene = Scene::new();
    scene.add(Ball { center: [0.0, 0.0, 500.0], radius: 100.0 }, false);
    scene.add(Ball { center: [0.0, 0.0, 200.0], radius: 100.0 }, false);
    scene.add(Ball { center: [0.0, 300.0, 0.0], radius: 100.0 }, false);
    let origin = [0.0, 0.0, 0.0];
    let hit = scene.intersect(|b: &Ball| key(meet(b, origin, [0.0, 0.0, 1.0]))).unwrap();
    assert_eq!(hit.index, 1);
    assert_eq!(distance(hit.key), 100.0);
    let hit = scene.intersect(|b: &Ball| key(meet(b, origin, [0.0, 1.0, 0.0]))).unwrap();
    assert_eq!(hit.index, 2);
    assert_eq!(distance(hit.key), 200.0);
    assert_eq!(scene.intersect(|b: &Ball| key(meet(b, origin, [1.0, 0.0, 0.0]))), None);
}

#[test]
fn intersect_asks_about_each_primitive_once_and_in_order() {
    let mut scene = Scene::new();
    for i in 0..5u64 {
        scene.add(i, false);
    }
    let asked = std::cell::RefCell::new(Vec::new());
    let hit = scene.intersect(|p: &u64| {
        asked.borrow_mut().push(*p);
        Some(10 - *p)
    });
    assert_eq!(hit, Some(Nearest { index: 4, key: 6 }));
    assert_eq!(*asked.borrow(), vec![0, 1, 2, 3, 4]);
}

#[test]
fn intersect_of_an_empty_scene_is_nothing() {
    let scene: Scene<Ball> = Scene::new();
    assert_eq!(scene.intersect(|_: &Ball| Some(1)), None);
    assert!(!scene.shadow_cast(|_: &Ball| Some(1), 0));
}

#[test]
fn a_light_behind_a_ball_is_not_reached() {
    let mut scene = Scene::new();
    let blocker = scene.add(Ball { center: [0.0, 10.0, 0.0], radius: 2.0 }, false);
    let lamp = scene.add(Ball { center: [0.0, 20.0, 0.0], radius: 2.0 }, true);
    assert_eq!(scene.lights(), vec![lamp]);
    let up = [0.0, 1.0, 0.0];
    let below = [0.0, 0.0, 0.0];
    assert!(!scene.shadow_cast(|b: &Ball| key(meet(b, below, up)), lamp));
    assert!(scene.shadow_cast(|b: &Ball| key(meet(b, below, up)), blocker));
    let above = [0.0, 13.0, 0.0];
    assert!(scene.shadow_cast(|b: &Ball| key(meet(b, above, up)), lamp));
    let aside = [5.0, 0.0, 0.0];
    assert!(!scene.shadow_cast(|b: &Ball| key(meet(b, aside, up)), lamp));
}

#[test]
fn sample_lights_aims_at_each_light_once() {
    let mut scene = Scene::new();
    scene.add(Ball { center: [0.0, 10.0, 0.0], radius: 2.0 }, false);
    scene.add(Ball { center: [0.0, 20.0, 0.0], radius: 2.0 }, true);
    scene.add(Ball { center: [30.0, 0.0, 0.0], radius: 2.0 }, true);
    let from = [0.0, 0.0, 0.0];
    let sampled = std::cell::RefCell::new(Vec::new());
    let lights = scene.sample_lights(
        |b: &Ball| {
            sampled.borrow_mut().push(b.center);
            let length = (b.center[0] * b.center[0] + b.center[1] * b.center[1] + b.center[2] * b.center[2]).sqrt();
            ([b.center[0] / length, b.center[1] / length, b.center[2] / length], 12.0)
        },
        |s: &([f64; 3], f64), b: &Ball| key(meet(b, from, s.0)),
    );
    assert_eq!(*sampled.borrow(), vec![[0.0, 20.0, 0.0], [30.0, 0.0, 0.0]]);
    assert_eq!(lights.len(), 2);
    assert_eq!(lights[0].light, 1);
    assert_eq!(lights[1].light, 2);
    assert!(!lights[0].visible);
    assert!(lights[1].visible);
    let received: f64 = lights.iter().filter(|l| l.visible).map(|l| l.sample.1).sum();
    assert_eq!(received, 12.0);
}

#[test]
fn an_occluded_light_sends_nothing() {
    let mut scene = Scene::new();
    scene.add(Ball { center: [0.0, 10.0, 0.0], radius: 2.0 }, false);
    scene.add(Ball { center: [0.0, 20.0, 0.0], radius: 2.0 }, true);
    let aim = |from: [f64; 3]| {
        let lights = scene.sample_lights(
            |_: &Ball| ([0.0, 1.0, 0.0], 5.0),
            |s: &([f64; 3], f64), b: &Ball| key(meet(b, from, s.0)),
        );
        lights.iter().filter(|l| l.visible).map(|l| l.sample.1).sum::<f64>()
    };
    assert_eq!(aim([0.0, 0.0, 0.0]), 0.0);
    assert!(aim([0.0, 13.0, 0.0]) > 0.0);
}

#[test]
fn a_scene_without_lights_samples_nothing() {
    let mut scene = Scene::new();
    scene.add(1u8, false);
    scene.add(2u8, false);
    let lights = scene.sample_lights(|_: &u8| 0u8, |_: &u8, _: &u8| Some(1));
    assert!(lights.is_empty());
}

#[test]
fn geometry_intersection() {
    let mut scene = Scene::new();
    scene.add(Ball { center: [0.0, 0.0, 200.0], radius: 100.0 }, false);
    let origin = [0.0, 0.0, 0.0];
    match scene.intersect(|b: &Ball| key(meet(b, origin, [0.0, 0.0, 1.0]))) {
        Some(hit) => assert_eq!(distance(hit.key), 100.0),
        None => panic!("unexpected"),
    }
    match scene.intersect(|b: &Ball| key(meet(b, origin, [0.0, 1.0, 0.0]))) {
        Some(_) => panic!("unexpected"),
        None => {}
    }
}
