use raytracer::bodies::{Plane, Sphere};
use raytracer::color::Color;
use raytracer::fixed::ONE;
use raytracer::geometry::{generate_scene, SceneObject};
use raytracer::ray_tracing::EMISSION_STRENGTH;
use raytracer::render::{
    accumulate, average_radiance, new_buffer, render_frame, render_pixel, render_row,
};
use raytracer::vector::{vec3_to_color, Vec3};

fn v(x: i64, y: i64, z: i64) -> Vec3 {
    Vec3 { x, y, z }
}

fn glowing_wall(point: Vec3, normal: Vec3) -> SceneObject {
    SceneObject::PlaneObj(Plane {
        point,
        normal,
        color: Color::white(),
        roughness: ONE,
        is_checkered: false,
        emissive: true,
        emission_color: Color::new(255, 128, 0, 255),
    })
}

#[test]
fn generate_scene_builds_the_room() {
    let scene = generate_scene();
    assert_eq!(scene.len(), 8);
    assert_eq!(
        scene[0],
        SceneObject::SphereObj(Sphere {
            center: v(0, 1_700_000, -2_500_000),
            radius: 400_000,
            color: Color::new(248, 248, 255, 255),
            roughness: 1_000_000,
            emissive: true,
            emission_color: Color::new(248, 248, 255, 255),
        })
    );
    assert_eq!(
        scene[1],
        SceneObject::SphereObj(Sphere {
            center: v(0, -675_000, -2_500_000),
            radius: 300_000,
            color: Color::white(),
            roughness: 0,
            emissive: false,
            emission_color: Color::blank(),
        })
    );
    assert_eq!(
        scene[2],
        SceneObject::SphereObj(Sphere {
            center: v(1_000_000, 0, -4_000_000),
            radius: 1_200_000,
            color: Color::new(135, 206, 235, 255),
            roughness: 750_000,
            emissive: false,
            emission_color: Color::blank(),
        })
    );
    assert_eq!(
        scene[3],
        SceneObject::PlaneObj(Plane {
            point: v(0, -1_000_000, 0),
            normal: v(0, 1_000_000, 0),
            color: Color::white(),
            roughness: 100_000,
            is_checkered: true,
            emissive: false,
            emission_color: Color::blank(),
        })
    );
    let walls = [
        (v(0, 2_000_000, 0), v(0, -1_000_000, 0), Color::new(220, 220, 220, 255), 800_000),
        (v(0, 0, -5_000_000), v(0, 0, 1_000_000), Color::new(180, 180, 200, 255), 80_000),
        (v(-2_000_000, 0, 0), v(1_000_000, 0, 0), Color::new(200, 100, 100, 255), 80_000),
        (v(2_000_000, 0, 0), v(-1_000_000, 0, 0), Color::new(100, 200, 100, 255), 80_000),
    ];
    for (i, (point, normal, color, roughness)) in walls.into_iter().enumerate() {
        assert_eq!(
            scene[4 + i],
            SceneObject::PlaneObj(Plane {
                point,
                normal,
                color,
                roughness,
                is_checkered: false,
                emissive: false,
                emission_color: Color::blank(),
            })
        );
    }
}

#[test]
fn generate_scene_is_the_same_every_time() {
    assert_eq!(generate_scene(), generate_scene());
}

#[test]
fn scene_objects_intersect_as_their_shapes_do() {
    let scene = generate_scene();
    let origin = v(0, 0, 0);
    let ahead = v(0, 0, -1_000_000);
    // The blue ball, the back wall and nothing else lie straight ahead.
    assert_eq!(scene[0].intersect(origin, ahead), None);
    assert_eq!(scene[1].intersect(origin, ahead), None);
    assert_eq!(scene[2].intersect(origin, ahead), Some(3_336_675));
    assert_eq!(scene[3].intersect(origin, ahead), None);
    assert_eq!(scene[5].intersect(origin, ahead), Some(5_000_000));
    assert_eq!(scene[6].intersect(origin, ahead), None);
}

#[test]
fn average_radiance_is_the_mean_of_each_channel() {
    assert_eq!(average_radiance(&vec![v(1, 2, 3), v(2, 2, 2), v(2, 3, 5)]), v(1, 2, 3));
    assert_eq!(average_radiance(&vec![v(-1, -2, -3), v(-2, -2, -2), v(-2, -3, -5)]), v(-1, -2, -3));
    assert_eq!(average_radiance(&vec![v(10, 0, 7)]), v(10, 0, 7));
    assert_eq!(
        average_radiance(&vec![v(7_500_000, 0, 0), v(0, 0, 0), v(0, 7_500_000, 0), v(0, 0, 0)]),
        v(1_875_000, 1_875_000, 0)
    );
}

#[test]
fn average_radiance_of_equal_samples_is_the_sample() {
    let sample = v(333_333, 1_234_567, 5);
    for count in 1..20 {
        assert_eq!(average_radiance(&vec![sample; count]), sample);
    }
}

#[test]
fn render_pixel_of_what_emits_is_its_emission() {
    let scene = generate_scene();
    assert_eq!(render_pixel(600, 100, 1200, 700, &scene, 1, 8), v(7_294_117, 7_294_117, 7_500_000));
    assert_eq!(render_pixel(600, 650, 1200, 700, &scene, 1, 8), v(0, 0, 0));
}

#[test]
fn render_pixel_without_bounces_is_dark() {
    let scene = generate_scene();
    assert_eq!(render_pixel(600, 100, 1200, 700, &scene, 0, 4), v(0, 0, 0));
    assert_eq!(render_pixel(600, 100, 1200, 700, &scene, -1, 4), v(0, 0, 0));
}

#[test]
fn render_pixel_stays_within_what_the_bounces_can_emit() {
    let scene = generate_scene();
    for (x, y) in [(0, 0), (1199, 699), (600, 350), (100, 600), (600, 20)] {
        for bounces in [1, 3, 5, 200] {
            let radiance = render_pixel(x, y, 1200, 700, &scene, bounces, 3);
            for channel in [radiance.x, radiance.y, radiance.z] {
                assert!(0 <= channel && channel <= bounces as i64 * EMISSION_STRENGTH);
            }
        }
    }
}

#[test]
fn render_row_has_one_radiance_for_each_pixel() {
    let scene = generate_scene();
    let row = render_row(10, 24, 14, &scene, 3, 2);
    assert_eq!(row.len(), 24);
    for radiance in row {
        for channel in [radiance.x, radiance.y, radiance.z] {
            assert!(0 <= channel && channel <= 3 * EMISSION_STRENGTH);
        }
    }
}

#[test]
fn render_row_goes_from_left_to_right() {
    // A glowing wall on the left: the rays of the left half of the window
    // meet it, those of the right half nothing.
    let scene = vec![glowing_wall(v(-2_000_000, 0, 0), v(1_000_000, 0, 0))];
    let row = render_row(1, 8, 4, &scene, 1, 3);
    assert_eq!(row.len(), 8);
    for x in 0..3 {
        assert_eq!(row[x], v(7_500_000, 3_764_700, 0));
    }
    for x in 4..8 {
        assert_eq!(row[x], v(0, 0, 0));
    }
}

#[test]
fn render_frame_goes_row_after_row() {
    let scene = vec![glowing_wall(v(-2_000_000, 0, 0), v(1_000_000, 0, 0))];
    let frame = render_frame(&scene, 8, 4, 1, 3);
    assert_eq!(frame.len(), 32);
    for y in 0..4 {
        for x in 0..3 {
            assert_eq!(frame[y * 8 + x], v(7_500_000, 3_764_700, 0));
        }
        for x in 4..8 {
            assert_eq!(frame[y * 8 + x], v(0, 0, 0));
        }
    }
}

#[test]
fn render_frame_starts_at_the_top() {
    // A glowing floor: the rays of the lower rows meet it, those of the
    // upper rows nothing.
    let scene = vec![glowing_wall(v(0, -1_000_000, 0), v(0, 1_000_000, 0))];
    let frame = render_frame(&scene, 6, 4, 1, 3);
    assert_eq!(frame.len(), 24);
    for x in 0..6 {
        assert_eq!(frame[x], v(0, 0, 0));
        assert_eq!(frame[6 + x], v(0, 0, 0));
        assert_eq!(frame[18 + x], v(7_500_000, 3_764_700, 0));
    }
}

#[test]
fn render_frame_of_the_room_stays_in_range() {
    let scene = generate_scene();
    let frame = render_frame(&scene, 16, 9, 5, 2);
    assert_eq!(frame.len(), 144);
    let mut lit = 0;
    for radiance in &frame {
        for channel in [radiance.x, radiance.y, radiance.z] {
            assert!(0 <= channel && channel <= 5 * EMISSION_STRENGTH);
        }
        if *radiance != v(0, 0, 0) {
            lit += 1;
        }
    }
    assert!(lit > 0);
}

#[test]
fn new_buffer_is_empty_of_light() {
    let buffer = new_buffer(12);
    assert_eq!(buffer.len(), 12);
    assert!(buffer.iter().all(|sum| *sum == v(0, 0, 0)));
    assert_eq!(new_buffer(0).len(), 0);
}

#[test]
fn accumulate_adds_the_frame_and_shows_the_mean() {
    let mut buffer = vec![v(700_000, 1_000_000, 0), v(0, 0, 0)];
    let frame = vec![v(200_000, 3_000_000, 1), v(500_000, 250_000, 1_000_000)];
    let picture = accumulate(&mut buffer, &frame, 2);
    assert_eq!(buffer, vec![v(900_000, 4_000_000, 1), v(500_000, 250_000, 1_000_000)]);
    assert_eq!(picture, vec![Color::new(114, 255, 0, 255), Color::new(63, 31, 127, 255)]);
}

#[test]
fn accumulate_of_no_pixels_shows_nothing() {
    let mut buffer = new_buffer(0);
    assert_eq!(accumulate(&mut buffer, &Vec::new(), 1), Vec::new());
    assert_eq!(buffer.len(), 0);
}

#[test]
fn accumulate_of_equal_frames_shows_the_frame() {
    let colours = [v(333_333, 1_234_567, 5), v(0, 0, 0), v(1_000_000, 500_000, 7_500_000)];
    let frame: Vec<Vec3> = colours.to_vec();
    let shown: Vec<Color> = colours.iter().map(|c| vec3_to_color(*c)).collect();
    assert_eq!(shown[0], Color::new(84, 255, 0, 255));
    let mut buffer = new_buffer(3);
    for count in 1..=50u32 {
        let picture = accumulate(&mut buffer, &frame, count);
        assert_eq!(picture, shown);
        for (sum, c) in buffer.iter().zip(colours.iter()) {
            assert_eq!(sum.x, c.x * count as i64);
            assert_eq!(sum.x / count as i64, c.x);
            assert_eq!(sum.y / count as i64, c.y);
            assert_eq!(sum.z / count as i64, c.z);
        }
    }
}

#[test]
fn accumulate_refines_a_rendered_picture() {
    let scene = generate_scene();
    let mut buffer = new_buffer(12 * 7);
    let mut picture = Vec::new();
    for count in 1..=4u32 {
        let frame = render_frame(&scene, 12, 7, 3, 1);
        picture = accumulate(&mut buffer, &frame, count);
    }
    assert_eq!(picture.len(), 84);
    assert!(picture.iter().all(|c| c.a == 255));
    for sum in &buffer {
        for channel in [sum.x, sum.y, sum.z] {
            assert!(0 <= channel && channel <= 4 * 3 * EMISSION_STRENGTH);
        }
    }
}
