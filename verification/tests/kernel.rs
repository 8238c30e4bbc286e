use raytracer::bodies::{Plane, Sphere};
use raytracer::color::Color;
use raytracer::fixed::{isqrt, ONE};
use raytracer::geometry::{generate_scene, SceneObject};
use raytracer::random::draw_pairs;
use raytracer::ray_tracing::{
    bounce_direction, camera_ray, cast_ray, cast_ray_along, cosine_direction,
    create_coordinate_system, nearest_hit, perfect_reflection, random_cosine_direction,
    bounce_ray, in_range, scr_to_ndc, scr_to_ndc_f32, shade_hit, trace_ray, HitRecord,
    EMISSION_STRENGTH, SURFACE_OFFSET,
};
use raytracer::vector::{dot_wide, normalize, Vec3};

fn v(x: i64, y: i64, z: i64) -> Vec3 {
    Vec3 { x, y, z }
}

fn sphere(center: Vec3, radius: i64, color: Color, roughness: i64) -> SceneObject {
    SceneObject::SphereObj(Sphere {
        center,
        radius,
        color,
        roughness,
        emissive: false,
        emission_color: Color::blank(),
    })
}

fn lamp(center: Vec3, radius: i64, emission_color: Color) -> SceneObject {
    SceneObject::SphereObj(Sphere {
        center,
        radius,
        color: Color::white(),
        roughness: ONE,
        emissive: true,
        emission_color,
    })
}

fn floor(color: Color, roughness: i64) -> SceneObject {
    SceneObject::PlaneObj(Plane {
        point: v(0, -1_000_000, 0),
        normal: v(0, 1_000_000, 0),
        color,
        roughness,
        is_checkered: false,
        emissive: false,
        emission_color: Color::blank(),
    })
}

fn down_and_ahead() -> Vec3 {
    normalize(v(0, -1_000_000, -2_000_000))
}

#[test]
fn constants_have_their_values() {
    assert_eq!(EMISSION_STRENGTH, 7_500_000);
    assert_eq!(SURFACE_OFFSET, 100);
}

#[test]
fn scr_to_ndc_f32_maps_the_window() {
    assert_eq!(scr_to_ndc_f32(0, 0, 4, 2), (-2_000_000, 1_000_000));
    assert_eq!(scr_to_ndc_f32(2_000_000, 1_000_000, 4, 2), (0, 0));
    assert_eq!(scr_to_ndc_f32(4_000_000, 2_000_000, 4, 2), (2_000_000, -1_000_000));
    assert_eq!(scr_to_ndc_f32(1_500_000, 250_000, 4, 2), (-500_000, 750_000));
    assert_eq!(scr_to_ndc_f32(100_000_000, 50_000_000, 1200, 700), (-1_428_571, 857_142));
}

#[test]
fn scr_to_ndc_maps_pixel_corners() {
    assert_eq!(scr_to_ndc(0, 0, 4, 2), (-2_000_000, 1_000_000));
    assert_eq!(scr_to_ndc(2, 1, 4, 2), (0, 0));
    assert_eq!(scr_to_ndc(100, 50, 1200, 700), (-1_428_571, 857_142));
    assert_eq!(scr_to_ndc(100, 50, 1200, 700), scr_to_ndc_f32(100_000_000, 50_000_000, 1200, 700));
}

#[test]
fn camera_ray_looks_down_the_negative_axis() {
    assert_eq!(camera_ray(2, 1, 0, 0, 4, 2), v(0, 0, -1_000_000));
    assert_eq!(camera_ray(0, 0, 0, 0, 4, 2), v(-816_496, 408_248, -408_248));
    assert_eq!(camera_ray(1, 0, 500_000, 250_000, 4, 2), v(-371_390, 557_086, -742_781));
    assert_eq!(camera_ray(3, 1, 999_999, 999_999, 4, 2), v(816_496, -408_248, -408_248));
}

#[test]
fn perfect_reflection_mirrors_about_the_normal() {
    assert_eq!(
        perfect_reflection(v(600_000, -800_000, 0), v(0, 1_000_000, 0)),
        v(600_000, 800_000, 0)
    );
    assert_eq!(perfect_reflection(v(0, 0, -1_000_000), v(0, 0, 1_000_000)), v(0, 0, 1_000_000));
    assert_eq!(
        perfect_reflection(v(577_350, -577_350, 577_350), v(0, 1_000_000, 0)),
        v(577_350, 577_350, 577_350)
    );
    // Along the surface nothing changes.
    assert_eq!(perfect_reflection(v(1_000_000, 0, 0), v(0, 1_000_000, 0)), v(1_000_000, 0, 0));
}

#[test]
fn perfect_reflection_of_units_is_a_unit_with_the_dot_product_negated() {
    let directions = [
        v(600_000, -800_000, 0),
        v(0, -600_000, 800_000),
        v(-280_000, -960_000, 0),
        v(1_000_000, 0, 0),
        v(0, 0, -1_000_000),
        v(360_000, -480_000, -800_000),
    ];
    let normals = [
        v(0, 1_000_000, 0),
        v(600_000, 800_000, 0),
        v(0, 280_000, 960_000),
        v(-1_000_000, 0, 0),
        v(480_000, 600_000, 640_000),
    ];
    for d in directions {
        assert_eq!(dot_wide(d, d), 1_000_000_000_000);
        for n in normals {
            assert_eq!(dot_wide(n, n), 1_000_000_000_000);
            let r = perfect_reflection(d, n);
            let square = dot_wide(r, r);
            assert!(square <= 1_000_000_000_000, "{:?} {:?} {:?}", d, n, r);
            assert!(square >= 1_000_000_000_000 - 6_000_000, "{:?} {:?} {:?}", d, n, r);
            let sum = dot_wide(r, n) + dot_wide(d, n);
            assert!(sum.abs() <= 3_000_000, "{:?} {:?} {:?}", d, n, r);
        }
    }
}

#[test]
fn create_coordinate_system_spans_the_surface() {
    assert_eq!(
        create_coordinate_system(v(0, 1_000_000, 0)),
        (v(1_000_000, 0, 0), v(0, 0, -1_000_000))
    );
    assert_eq!(
        create_coordinate_system(v(0, 0, 1_000_000)),
        (v(1_000_000, 0, 0), v(0, 1_000_000, 0))
    );
    assert_eq!(
        create_coordinate_system(v(600_000, 800_000, 0)),
        (v(800_000, -600_000, 0), v(0, 0, -1_000_000))
    );
}

#[test]
fn create_coordinate_system_changes_the_seed_along_the_first_axis() {
    assert_eq!(
        create_coordinate_system(v(1_000_000, 0, 0)),
        (v(0, 1_000_000, 0), v(0, 0, 1_000_000))
    );
    assert_eq!(
        create_coordinate_system(v(-1_000_000, 0, 0)),
        (v(0, 1_000_000, 0), v(0, 0, -1_000_000))
    );
}

#[test]
fn create_coordinate_system_of_no_normal_is_degenerate() {
    assert_eq!(create_coordinate_system(v(0, 0, 0)), (v(0, 0, 0), v(0, 0, 0)));
}

#[test]
fn cosine_direction_follows_the_draws() {
    let up = v(0, 1_000_000, 0);
    assert_eq!(cosine_direction(up, 0, 0), v(0, 1_000_000, 0));
    assert_eq!(cosine_direction(up, 0, 500_000), v(707_106, 707_106, 0));
    assert_eq!(cosine_direction(up, 250_000, 999_999), v(0, 1_000, -999_999));
    assert_eq!(cosine_direction(up, 125_000, 250_000), v(353_553, 866_025, -353_553));
    assert_eq!(cosine_direction(up, 999_999, 999_999), v(999_998, 1_000, 5));
    assert_eq!(cosine_direction(up, 700_000, 300_000), v(-169_254, 836_660, 520_914));
    let slanted = v(600_000, 800_000, 0);
    assert_eq!(cosine_direction(slanted, 0, 0), v(600_000, 800_000, 0));
    assert_eq!(cosine_direction(slanted, 125_000, 250_000), v(802_457, 480_688, -353_553));
    assert_eq!(cosine_direction(v(1_000_000, 0, 0), 700_000, 300_000), v(836_660, -169_254, -520_914));
    assert_eq!(cosine_direction(v(0, 0, 1_000_000), 700_000, 300_000), v(-169_254, -520_914, 836_660));
}

#[test]
fn cosine_direction_has_the_cosine_that_the_second_draw_asks_for() {
    // An eighth of a turn about the normal, and a cosine of one half.
    assert_eq!(cosine_direction(v(0, 0, 1_000_000), 125_000, 750_000), v(612_371, 612_371, 500_000));
    assert_eq!(cosine_direction(v(0, 1_000_000, 0), 125_000, 750_000), v(612_371, 500_000, -612_371));
    let normals = [
        v(0, 1_000_000, 0),
        v(1_000_000, 0, 0),
        v(0, 0, -1_000_000),
        v(600_000, 800_000, 0),
        v(0, 280_000, -960_000),
        v(480_000, 600_000, 640_000),
    ];
    for n in normals {
        assert_eq!(dot_wide(n, n), 1_000_000_000_000);
        let mut r1: i64 = 0;
        while r1 < ONE {
            let mut r2: i64 = 0;
            while r2 < ONE {
                let s = cosine_direction(n, r1, r2);
                let cosine = isqrt(((ONE - r2) * ONE) as u128) as i128 * ONE as i128;
                assert!((dot_wide(s, n) - cosine).abs() <= 9_000_000, "{:?} {} {}", n, r1, r2);
                r2 += 33_331;
            }
            r1 += 41_233;
        }
    }
}

#[test]
fn cosine_direction_stays_above_the_surface() {
    let normals = [
        v(0, 1_000_000, 0),
        v(1_000_000, 0, 0),
        v(0, 0, -1_000_000),
        v(600_000, 800_000, 0),
        v(577_350, 577_350, 577_350),
        v(-408_731, 0, 912_655),
    ];
    for n in normals {
        let mut r1: i64 = 0;
        while r1 < ONE {
            let mut r2: i64 = 0;
            while r2 < ONE {
                let s = cosine_direction(n, r1, r2);
                assert!(dot_wide(s, n) > 0, "{:?} {} {} {:?}", n, r1, r2, s);
                let cosine = isqrt(((ONE - r2) * ONE) as u128) as i128 * ONE as i128;
                assert!((dot_wide(s, n) - cosine).abs() <= 15_000_000, "{:?} {} {}", n, r1, r2);
                let square = dot_wide(s, s);
                assert!(square >= 1_000_000_000_000 - 31_000_000, "{:?}", s);
                assert!(square <= 1_000_000_000_000 + 9_000_000, "{:?}", s);
                r2 += 33_331;
            }
            assert!(dot_wide(cosine_direction(n, r1, 999_999), n) > 0);
            r1 += 41_233;
        }
    }
}

#[test]
fn random_cosine_direction_gives_unit_vectors_above_the_surface() {
    let normals = [v(0, 1_000_000, 0), v(600_000, 0, -800_000), v(577_350, 577_350, 577_350)];
    for n in normals {
        for _ in 0..200 {
            let s = random_cosine_direction(n);
            assert!(dot_wide(s, n) > 0, "{:?} {:?}", n, s);
            let square = dot_wide(s, s);
            assert!(square >= 1_000_000_000_000 - 31_000_000, "{:?}", s);
            assert!(square <= 1_000_000_000_000 + 9_000_000, "{:?}", s);
        }
    }
}

#[test]
fn random_cosine_direction_varies() {
    let n = v(0, 1_000_000, 0);
    let first = random_cosine_direction(n);
    let mut differs = false;
    for _ in 0..50 {
        if random_cosine_direction(n) != first {
            differs = true;
        }
    }
    assert!(differs);
}

#[test]
fn draw_pairs_draws_below_one() {
    let draws = draw_pairs(500);
    assert_eq!(draws.len(), 500);
    for pair in &draws {
        assert!(0 <= pair.0 && pair.0 < ONE, "{:?}", pair);
        assert!(0 <= pair.1 && pair.1 < ONE, "{:?}", pair);
    }
    assert!(draws.iter().any(|pair| *pair != draws[0]));
    assert_eq!(draw_pairs(0).len(), 0);
}

#[test]
fn bounce_direction_without_roughness_is_the_mirror_direction() {
    let d = down_and_ahead();
    let n = v(0, 1_000_000, 0);
    let mirror = perfect_reflection(d, n);
    assert_eq!(mirror, v(0, 447_213, -894_427));
    for sample in [v(0, 1_000_000, 0), v(707_106, 707_106, 0), v(-169_988, 836_691, 520_626)] {
        assert_eq!(bounce_direction(d, n, sample, 0), mirror.normalize());
    }
    assert_eq!(bounce_direction(d, n, v(1, 2, 3), 0), v(0, 447_213, -894_427));
}

#[test]
fn bounce_direction_of_full_roughness_is_the_sampled_direction() {
    let n = v(0, 1_000_000, 0);
    for sample in [v(0, 1_000_000, 0), v(707_106, 707_106, 0), v(-169_988, 836_691, 520_626)] {
        for d in [down_and_ahead(), v(600_000, -800_000, 0), v(0, -1_000_000, 0)] {
            assert_eq!(bounce_direction(d, n, sample, ONE), sample.normalize());
        }
    }
    assert_eq!(
        bounce_direction(down_and_ahead(), n, v(0, 1_000_000, 0), ONE),
        v(0, 1_000_000, 0)
    );
}

#[test]
fn bounce_direction_in_between_blends_the_two() {
    let n = v(0, 1_000_000, 0);
    let sample = cosine_direction(n, 125_000, 250_000);
    assert_eq!(
        bounce_direction(down_and_ahead(), n, sample, 500_000),
        v(191_542, 711_466, -676_111)
    );
}

#[test]
fn nearest_hit_finds_nothing_in_an_empty_scene() {
    assert_eq!(nearest_hit(v(0, 0, 0), v(0, 0, -1_000_000), &Vec::new()), None);
}

#[test]
fn nearest_hit_describes_the_surface() {
    let scene = vec![lamp(v(0, 0, -5_000_000), 1_000_000, Color::new(255, 128, 0, 255))];
    let hit = nearest_hit(v(0, 0, 0), v(0, 0, -1_000_000), &scene);
    assert_eq!(
        hit,
        Some(HitRecord {
            t: 4_000_000,
            point: v(0, 0, -4_000_000),
            normal: v(0, 0, 1_000_000),
            color: Color::white(),
            emissive: true,
            emission_color: Color::new(255, 128, 0, 255),
            roughness: ONE,
        })
    );
}

#[test]
fn nearest_hit_takes_the_normal_of_a_sphere_from_its_centre() {
    let scene = vec![sphere(v(0, 0, -5_000_000), 1_000_000, Color::new(1, 1, 1, 255), 0)];
    let direction = normalize(v(100_000, 0, -1_000_000));
    assert_eq!(direction, v(99_503, 0, -995_037));
    let hit = nearest_hit(v(0, 0, 0), direction, &scene).unwrap();
    assert_eq!(hit.t, 4_107_732);
    assert_eq!(hit.point, v(408_731, 0, -4_087_345));
    assert_eq!(hit.normal, v(408_731, 0, 912_655));
}

#[test]
fn nearest_hit_takes_the_colour_of_a_checkered_plane_at_the_hit() {
    let scene = generate_scene();
    let white = nearest_hit(v(0, 0, 0), camera_ray(1100, 650, 500_000, 500_000, 1200, 700), &scene)
        .unwrap();
    assert_eq!(white.t, 2_265_098);
    assert_eq!(white.point, v(1_665_558, -999_999, -1_164_724));
    assert_eq!(white.normal, v(0, 1_000_000, 0));
    assert_eq!(white.color, Color::white());
    assert_eq!(white.roughness, 100_000);
    let dark = nearest_hit(v(0, 0, 0), camera_ray(600, 650, 500_000, 500_000, 1200, 700), &scene)
        .unwrap();
    assert_eq!(dark.point, v(1_662, -999_999, -1_164_725));
    assert_eq!(dark.color, Color::new(60, 60, 60, 255));
}

#[test]
fn nearest_hit_takes_the_nearer_of_two_shapes_in_either_order() {
    let near = sphere(v(0, 0, -5_000_000), 1_000_000, Color::new(1, 1, 1, 255), 0);
    let far = sphere(v(0, 0, -9_000_000), 1_000_000, Color::new(2, 2, 2, 255), 0);
    let origin = v(0, 0, 0);
    let ahead = v(0, 0, -1_000_000);
    assert_eq!(nearest_hit(origin, ahead, &vec![near, far]).unwrap().color, Color::new(1, 1, 1, 255));
    assert_eq!(nearest_hit(origin, ahead, &vec![far, near]).unwrap().color, Color::new(1, 1, 1, 255));
    assert_eq!(nearest_hit(origin, ahead, &vec![far, near]).unwrap().t, 4_000_000);
}

#[test]
fn nearest_hit_takes_the_earlier_of_two_shapes_at_one_distance() {
    let one = sphere(v(0, 0, -5_000_000), 1_000_000, Color::new(1, 1, 1, 255), 0);
    let other = sphere(v(0, 0, -5_000_000), 1_000_000, Color::new(3, 3, 3, 255), 0);
    let origin = v(0, 0, 0);
    let ahead = v(0, 0, -1_000_000);
    assert_eq!(nearest_hit(origin, ahead, &vec![one, other]).unwrap().color, Color::new(1, 1, 1, 255));
    assert_eq!(nearest_hit(origin, ahead, &vec![other, one]).unwrap().color, Color::new(3, 3, 3, 255));
}

#[test]
fn nearest_hit_passes_over_what_lies_behind() {
    let behind = sphere(v(0, 0, 5_000_000), 1_000_000, Color::new(1, 1, 1, 255), 0);
    let around = sphere(v(0, 0, 0), 1_000_000, Color::new(2, 2, 2, 255), 0);
    let ahead = sphere(v(0, 0, -9_000_000), 1_000_000, Color::new(3, 3, 3, 255), 0);
    let origin = v(0, 0, 0);
    let direction = v(0, 0, -1_000_000);
    assert_eq!(nearest_hit(origin, direction, &vec![behind, around]), None);
    assert_eq!(
        nearest_hit(origin, direction, &vec![behind, around, ahead]).unwrap().color,
        Color::new(3, 3, 3, 255)
    );
}

#[test]
fn nearest_hit_sees_however_far() {
    let origin = v(0, 0, 0);
    let ahead = v(0, 0, -1_000_000);
    let far = sphere(v(0, 0, -1_001_000_000), 1_000_000, Color::white(), 0);
    assert_eq!(nearest_hit(origin, ahead, &vec![far]).unwrap().t, 1_000_000_000);
    let farther = sphere(v(0, 0, -90_000_000_000), 1_000_000, Color::white(), 0);
    let hit = nearest_hit(origin, ahead, &vec![farther, far]).unwrap();
    assert_eq!(hit.t, 1_000_000_000);
    let hit = nearest_hit(origin, ahead, &vec![farther]).unwrap();
    assert_eq!(hit.t, 89_999_000_000);
    assert_eq!(hit.point, v(0, 0, -89_999_000_000));
}

#[test]
fn nearest_hit_finds_nothing_along_no_direction() {
    let scene = generate_scene();
    assert_eq!(nearest_hit(v(0, 0, 0), v(0, 0, 0), &scene), None);
}

#[test]
fn shade_hit_adds_emission_and_tinted_bounce() {
    let hit = HitRecord {
        t: 1,
        point: v(0, 0, 0),
        normal: v(0, 1_000_000, 0),
        color: Color::new(200, 100, 50, 255),
        emissive: true,
        emission_color: Color::new(255, 128, 0, 255),
        roughness: 0,
    };
    let bounced = v(1_000_000, 2_000_000, 3_000_000);
    assert_eq!(shade_hit(hit, bounced, 2), v(8_284_313, 4_549_012, 588_234));
    let dull = HitRecord { emissive: false, ..hit };
    assert_eq!(shade_hit(dull, bounced, 2), v(784_313, 784_312, 588_234));
    assert_eq!(shade_hit(hit, v(0, 0, 0), 1), v(7_500_000, 3_764_700, 0));
}

#[test]
fn cast_ray_along_sees_a_lamp_straight_ahead() {
    let scene = vec![lamp(v(0, 0, -5_000_000), 1_000_000, Color::new(255, 128, 0, 255))];
    let draws = vec![(0, 0), (0, 0)];
    let origin = v(0, 0, 0);
    let ahead = v(0, 0, -1_000_000);
    assert_eq!(cast_ray_along(origin, ahead, &scene, 1, &draws, 0), v(7_500_000, 3_764_700, 0));
    assert_eq!(cast_ray_along(origin, ahead, &scene, 2, &draws, 0), v(7_500_000, 3_764_700, 0));
    assert_eq!(cast_ray_along(origin, v(0, 0, 1_000_000), &scene, 2, &draws, 0), v(0, 0, 0));
}

#[test]
fn cast_ray_along_follows_a_mirror_to_the_lamp() {
    let scene = vec![
        floor(Color::new(200, 100, 50, 255), 0),
        lamp(v(0, 1_000_000, -6_000_000), 1_000_000, Color::white()),
    ];
    let draws = vec![(0, 0), (0, 0), (0, 0)];
    let origin = v(0, 0, 0);
    let d = down_and_ahead();
    assert_eq!(d, v(0, -447_213, -894_427));
    assert_eq!(cast_ray_along(origin, d, &scene, 0, &draws, 0), v(0, 0, 0));
    assert_eq!(cast_ray_along(origin, d, &scene, 1, &draws, 0), v(0, 0, 0));
    assert_eq!(cast_ray_along(origin, d, &scene, 2, &draws, 0), v(5_882_347, 2_941_170, 1_470_585));
    assert_eq!(cast_ray_along(origin, d, &scene, 3, &draws, 0), v(5_882_347, 2_941_170, 1_470_585));
}

#[test]
fn cast_ray_along_follows_the_draws_on_a_rough_floor() {
    let scene = vec![
        floor(Color::new(200, 100, 50, 255), ONE),
        lamp(v(0, 3_000_000, -2_000_000), 1_000_000, Color::white()),
    ];
    let origin = v(0, 0, 0);
    let d = down_and_ahead();
    // Straight up from the floor hangs the lamp.
    assert_eq!(
        cast_ray_along(origin, d, &scene, 2, &vec![(0, 0), (0, 0)], 0),
        v(5_882_347, 2_941_170, 1_470_585)
    );
    // The other draws send the path past it.
    for pair in [(125_000, 250_000), (250_000, 999_999), (700_000, 300_000), (0, 500_000)] {
        assert_eq!(cast_ray_along(origin, d, &scene, 2, &vec![pair, (0, 0)], 0), v(0, 0, 0));
    }
}

#[test]
fn cast_ray_along_starts_at_the_given_draw() {
    let scene = vec![
        floor(Color::new(200, 100, 50, 255), ONE),
        lamp(v(0, 3_000_000, -2_000_000), 1_000_000, Color::white()),
    ];
    let draws = vec![(125_000, 250_000), (0, 0), (0, 0)];
    let d = down_and_ahead();
    assert_eq!(cast_ray_along(v(0, 0, 0), d, &scene, 2, &draws, 0), v(0, 0, 0));
    assert_eq!(cast_ray_along(v(0, 0, 0), d, &scene, 2, &draws, 1), v(5_882_347, 2_941_170, 1_470_585));
}

#[test]
fn cast_ray_along_through_the_room() {
    let scene = generate_scene();
    let draws = vec![(125_000, 250_000), (700_000, 300_000), (250_000, 999_999), (0, 500_000), (999_999, 999_999)];
    let origin = v(0, 0, 0);
    let at_the_light = camera_ray(600, 100, 500_000, 500_000, 1200, 700);
    assert_eq!(at_the_light, v(1_162, 580_467, -814_283));
    for bounces in [1, 2, 3, 5] {
        assert_eq!(
            cast_ray_along(origin, at_the_light, &scene, bounces, &draws, 0),
            v(7_294_117, 7_294_117, 7_500_000)
        );
    }
    let at_the_ball = camera_ray(600, 350, 500_000, 500_000, 1200, 700);
    assert_eq!(at_the_ball, v(1_427, -1_427, -999_998));
    assert_eq!(cast_ray_along(origin, at_the_ball, &scene, 5, &draws, 0), v(0, 0, 0));
}

#[test]
fn cast_ray_without_bounces_is_dark() {
    let scene = generate_scene();
    let far_away = v(i64::MAX, i64::MIN, 123);
    assert_eq!(cast_ray(v(0, 0, 0), v(0, 0, -1_000_000), &scene, 0), v(0, 0, 0));
    assert_eq!(cast_ray(far_away, far_away, &scene, 0), v(0, 0, 0));
    assert_eq!(cast_ray(far_away, far_away, &scene, -3), v(0, 0, 0));
    assert_eq!(cast_ray(v(0, 0, 0), camera_ray(600, 100, 0, 0, 1200, 700), &scene, 0), v(0, 0, 0));
}

#[test]
fn cast_ray_in_an_empty_scene_is_dark() {
    let scene: Vec<SceneObject> = Vec::new();
    let far_away = v(i64::MAX, i64::MIN, 123);
    assert_eq!(cast_ray(v(0, 0, 0), v(0, 0, -1_000_000), &scene, 5), v(0, 0, 0));
    assert_eq!(cast_ray(far_away, far_away, &scene, 5), v(0, 0, 0));
    assert_eq!(cast_ray(far_away, far_away, &scene, i32::MAX), v(0, 0, 0));
}

#[test]
fn cast_ray_with_one_bounce_sees_only_what_emits() {
    let scene = generate_scene();
    let origin = v(0, 0, 0);
    let at_the_light = camera_ray(600, 100, 500_000, 500_000, 1200, 700);
    let at_the_floor = camera_ray(600, 650, 500_000, 500_000, 1200, 700);
    for _ in 0..20 {
        assert_eq!(cast_ray(origin, at_the_light, &scene, 1), v(7_294_117, 7_294_117, 7_500_000));
        assert_eq!(cast_ray(origin, at_the_floor, &scene, 1), v(0, 0, 0));
    }
}

#[test]
fn cast_ray_stays_within_what_the_bounces_can_emit() {
    let scene = generate_scene();
    let origin = v(0, 0, 0);
    for (x, y) in [(600, 350), (100, 600), (600, 650), (300, 300), (600, 20), (1100, 100)] {
        let direction = camera_ray(x, y, 500_000, 500_000, 1200, 700);
        for bounces in [1, 2, 5, 10] {
            for _ in 0..10 {
                let radiance = cast_ray(origin, direction, &scene, bounces);
                for channel in [radiance.x, radiance.y, radiance.z] {
                    assert!(0 <= channel && channel <= bounces as i64 * EMISSION_STRENGTH);
                }
            }
        }
    }
}

#[test]
fn cast_ray_gathers_bounced_light() {
    let scene = generate_scene();
    let origin = v(0, 0, 0);
    let at_the_ceiling = camera_ray(600, 20, 500_000, 500_000, 1200, 700);
    let mut lit = 0;
    for _ in 0..400 {
        if cast_ray(origin, at_the_ceiling, &scene, 5) != v(0, 0, 0) {
            lit += 1;
        }
    }
    assert!(lit > 0);
}

#[test]
fn trace_ray_sees_the_light_through_its_pixel() {
    let scene = generate_scene();
    for jitter in [(0, 0), (500_000, 500_000), (999_999, 999_999)] {
        assert_eq!(
            trace_ray(600, 100, jitter.0, jitter.1, 1200, 700, &scene, 1),
            v(7_294_117, 7_294_117, 7_500_000)
        );
    }
    assert_eq!(trace_ray(600, 650, 500_000, 500_000, 1200, 700, &scene, 1), v(0, 0, 0));
}

#[test]
fn trace_ray_without_bounces_or_scene_is_dark() {
    let scene = generate_scene();
    assert_eq!(trace_ray(600, 100, 0, 0, 1200, 700, &scene, 0), v(0, 0, 0));
    assert_eq!(trace_ray(600, 100, 0, 0, 1200, 700, &Vec::new(), 5), v(0, 0, 0));
}

#[test]
fn trace_ray_takes_any_number_of_bounces() {
    let scene = generate_scene();
    for bounces in [100, 1_000] {
        let radiance = trace_ray(600, 350, 500_000, 500_000, 1200, 700, &scene, bounces);
        for channel in [radiance.x, radiance.y, radiance.z] {
            assert!(0 <= channel && channel <= bounces as i64 * EMISSION_STRENGTH);
        }
    }
}

#[test]
fn cast_ray_sees_a_lamp_two_thousand_units_ahead() {
    let scene = vec![lamp(v(0, 0, -2_000_000_000), 1_000_000, Color::white())];
    let origin = v(0, 0, 0);
    let ahead = v(0, 0, -1_000_000);
    assert_eq!(nearest_hit(origin, ahead, &scene).unwrap().t, 1_999_000_000);
    assert_eq!(cast_ray(origin, ahead, &scene, 1), v(7_500_000, 7_500_000, 7_500_000));
    assert_eq!(
        cast_ray_along(origin, ahead, &scene, 1, &vec![(0, 0)], 0),
        v(7_500_000, 7_500_000, 7_500_000)
    );
}

fn glowing_floor_and_ceiling() -> Vec<SceneObject> {
    vec![
        SceneObject::PlaneObj(Plane {
            point: v(0, -1_000_000, 0),
            normal: v(0, 1_000_000, 0),
            color: Color::white(),
            roughness: 0,
            is_checkered: false,
            emissive: true,
            emission_color: Color::new(255, 128, 0, 255),
        }),
        SceneObject::PlaneObj(Plane {
            point: v(0, 100_000_000, 0),
            normal: v(0, -1_000_000, 0),
            color: Color::white(),
            roughness: ONE,
            is_checkered: false,
            emissive: true,
            emission_color: Color::new(0, 255, 0, 255),
        }),
    ]
}

#[test]
fn cast_ray_along_goes_on_within_the_coordinate_range() {
    let scene = glowing_floor_and_ceiling();
    let origin = v(0, 50_000_000, 0);
    let grazing = v(1_000_000, -1_000, 0);
    let draws = vec![(0, 0), (0, 0), (0, 0)];
    let hit = nearest_hit(origin, grazing, &scene).unwrap();
    assert_eq!(hit.point, v(51_000_000_000, -1_000_000, 0));
    assert_eq!(cast_ray_along(origin, grazing, &scene, 1, &draws, 0), v(7_500_000, 3_764_700, 0));
    assert_eq!(cast_ray_along(origin, grazing, &scene, 2, &draws, 0), v(7_500_000, 11_264_700, 0));
    assert_eq!(cast_ray_along(origin, grazing, &scene, 3, &draws, 0), v(7_500_000, 11_264_700, 0));
}

#[test]
fn cast_ray_along_ends_where_it_leaves_the_coordinate_range() {
    let scene = glowing_floor_and_ceiling();
    let origin = v(0, 50_000_000, 0);
    let grazing = v(1_000_000, -100, 0);
    let draws = vec![(0, 0), (0, 0), (0, 0)];
    let hit = nearest_hit(origin, grazing, &scene).unwrap();
    assert_eq!(hit.t, 510_000_000_000);
    assert_eq!(hit.point, v(510_000_000_000, -1_000_000, 0));
    let (next_origin, _) = bounce_ray(grazing, hit, 0, 0);
    assert_eq!(next_origin, v(510_000_000_000, -999_900, 0));
    assert!(!in_range(next_origin));
    for bounces in [1, 2, 3] {
        assert_eq!(
            cast_ray_along(origin, grazing, &scene, bounces, &draws, 0),
            v(7_500_000, 3_764_700, 0)
        );
        assert_eq!(cast_ray(origin, grazing, &scene, bounces), v(7_500_000, 3_764_700, 0));
    }
}

#[test]
fn in_range_tells_the_coordinate_range() {
    assert!(in_range(v(0, 0, 0)));
    assert!(in_range(v(100_000_000_000, -100_000_000_000, 0)));
    assert!(!in_range(v(100_000_000_001, 0, 0)));
    assert!(!in_range(v(0, 0, -100_000_000_001)));
}

#[test]
fn bounce_ray_lifts_the_origin_off_the_surface() {
    let scene = vec![floor(Color::new(200, 100, 50, 255), 0)];
    let d = down_and_ahead();
    let hit = nearest_hit(v(0, 0, 0), d, &scene).unwrap();
    assert_eq!(hit.point, v(0, -999_999, -2_000_001));
    let (next_origin, next_direction) = bounce_ray(d, hit, 125_000, 250_000);
    assert_eq!(next_origin, v(0, -999_899, -2_000_001));
    assert_eq!(next_direction, v(0, 447_213, -894_427));
}

#[test]
fn perfect_reflection_of_normalised_vectors_negates_the_dot_product() {
    let vectors = [
        v(1, 2, 3),
        v(-5, 1, 0),
        v(123_456, -654_321, 7),
        v(1, 1, 1),
        v(-7, -8, 9),
        v(1_000_000, 1, -1),
        v(3, -4, 12),
        v(0, 1, -1),
    ];
    for a in vectors {
        for b in vectors {
            let d = a.normalize();
            let n = b.normalize();
            let r = perfect_reflection(d, n);
            let square = dot_wide(r, r);
            assert!(square >= 1_000_000_000_000 - 6_000_000, "{:?} {:?} {:?}", d, n, r);
            assert!(square < 1_000_001 * 1_000_001, "{:?} {:?} {:?}", d, n, r);
            let sum = dot_wide(r, n) + dot_wide(d, n);
            assert!(sum.abs() <= 32_000_000, "{:?} {:?} {:?}", d, n, r);
        }
    }
}

#[test]
fn create_coordinate_system_is_orthonormal_within_rounding() {
    let vectors = [
        v(0, 1, 0),
        v(1, 2, 3),
        v(-5, 1, 0),
        v(123_456, -654_321, 7),
        v(1, 1, 1),
        v(-7, -8, 9),
        v(1_000_000, 1, -1),
        v(95, 30, 0),
        v(-9, 0, 4),
    ];
    for a in vectors {
        let n = a.normalize();
        let (t, b) = create_coordinate_system(n);
        for u in [t, b] {
            let square = dot_wide(u, u);
            assert!(square >= 1_000_000_000_000 - 6_000_000, "{:?} {:?}", n, u);
            assert!(square < 1_000_001 * 1_000_001, "{:?} {:?}", n, u);
        }
        assert!(dot_wide(t, b).abs() <= 3_000_000, "{:?}", n);
        assert!(dot_wide(t, n).abs() <= 3_000_000, "{:?}", n);
        assert!(dot_wide(b, n).abs() <= 3_000_000, "{:?}", n);
    }
}

#[test]
fn cast_ray_in_a_scene_without_lights_is_dark() {
    let scene = vec![
        floor(Color::new(200, 100, 50, 255), 300_000),
        sphere(v(0, 0, -5_000_000), 1_000_000, Color::white(), 0),
        sphere(v(2_000_000, 1_000_000, -4_000_000), 1_000_000, Color::new(9, 200, 30, 255), ONE),
    ];
    let origin = v(0, 0, 0);
    for (x, y) in [(1, 1), (4, 3), (7, 5), (2, 6)] {
        let direction = camera_ray(x, y, 500_000, 500_000, 8, 8);
        for bounces in [1, 2, 5, 50] {
            assert_eq!(cast_ray(origin, direction, &scene, bounces), v(0, 0, 0));
        }
    }
}

#[test]
fn perfect_reflection_twice_gives_the_direction_back() {
    let units = [
        v(600_000, -800_000, 0),
        v(0, -600_000, 800_000),
        v(-280_000, -960_000, 0),
        v(1_000_000, 0, 0),
        v(360_000, -480_000, -800_000),
        v(0, 280_000, 960_000),
        v(480_000, 600_000, 640_000),
    ];
    for d in units {
        for n in units {
            let back = perfect_reflection(perfect_reflection(d, n), n);
            assert!((back.x - d.x).abs() <= 12, "{:?} {:?} {:?}", d, n, back);
            assert!((back.y - d.y).abs() <= 12, "{:?} {:?} {:?}", d, n, back);
            assert!((back.z - d.z).abs() <= 12, "{:?} {:?} {:?}", d, n, back);
        }
    }
}
