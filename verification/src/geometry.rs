//! The scene: an ordered sequence of shapes, built once and then only
//! read.
use vstd::prelude::*;
use crate::bodies::plane::{plane_hit, ray_plane_intersect, Plane};
use crate::bodies::sphere::{ray_sphere_intersect, sphere_hit, Sphere};
use crate::bodies::{COORD_MAX, DISTANCE_MAX};
use crate::color::Color;
use crate::fixed::{abs, ONE};
use crate::vector::{within, Vec3, V3};

verus! {

/// A shape of the scene.
#[derive(Copy, Clone, Debug, PartialEq, Eq, Structural)]
pub enum SceneObject {
    SphereObj(Sphere),
    PlaneObj(Plane),
}

impl SceneObject {
    /// The shape is well formed.
    pub open spec fn wf(&self) -> bool {
        match *self {
            SceneObject::SphereObj(sphere) => sphere.wf(),
            SceneObject::PlaneObj(plane) => plane.wf(),
        }
    }

    /// The shape emits light.
    pub open spec fn emits(&self) -> bool {
        match *self {
            SceneObject::SphereObj(sphere) => sphere.emissive,
            SceneObject::PlaneObj(plane) => plane.emissive,
        }
    }

    /// The ray parameter at which the ray from `origin` along `direction`
    /// meets the shape, if it does.
    pub open spec fn hit(&self, origin: V3, direction: V3) -> Option<int> {
        match *self {
            SceneObject::SphereObj(sphere) => sphere_hit(origin, direction, sphere),
            SceneObject::PlaneObj(plane) => plane_hit(origin, direction, plane),
        }
    }

    /// The parameter at which the ray from `origin` along `direction`
    /// meets the shape, if it does.
    pub fn intersect(&self, origin: Vec3, direction: Vec3) -> (t: Option<i64>)
        requires
            within(origin@, COORD_MAX as int),
            within(direction@, ONE as int),
            self.wf(),
        ensures
            match t {
                Some(v) => self.hit(origin@, direction@) == Some(v as int) && abs(v as int)
                    <= DISTANCE_MAX,
                None => self.hit(origin@, direction@) is None,
            },
    {
        match self {
            SceneObject::SphereObj(sphere) => ray_sphere_intersect(origin, direction, *sphere),
            SceneObject::PlaneObj(plane) => ray_plane_intersect(origin, direction, *plane),
        }
    }
}

/// Every shape of the scene is well formed.
pub open spec fn scene_wf(scene: Seq<SceneObject>) -> bool {
    forall|i: int| 0 <= i < scene.len() ==> (#[trigger] scene[i]).wf()
}

/// The vector with the given components, which fit in it.
pub open spec fn position(v: V3) -> Vec3 {
    Vec3 { x: v.x as i64, y: v.y as i64, z: v.z as i64 }
}

/// A plane of one colour that emits no light.
pub open spec fn wall(point: V3, normal: V3, color: Color, roughness: int) -> Plane {
    Plane {
        point: position(point),
        normal: position(normal),
        color,
        roughness: roughness as i64,
        is_checkered: false,
        emissive: false,
        emission_color: Color::spec_blank(),
    }
}

/// The five planes of the room: a checkered floor, the ceiling, the back
/// wall, a reddish wall on the left and a greenish one on the right.
pub open spec fn room_planes() -> Seq<SceneObject> {
    seq![
        SceneObject::PlaneObj(
            Plane {
                is_checkered: true,
                ..wall(
                    V3 { x: 0, y: -1_000_000, z: 0 },
                    V3 { x: 0, y: 1_000_000, z: 0 },
                    Color::spec_white(),
                    100_000,
                )
            },
        ),
        SceneObject::PlaneObj(
            wall(
                V3 { x: 0, y: 2_000_000, z: 0 },
                V3 { x: 0, y: -1_000_000, z: 0 },
                Color { r: 220, g: 220, b: 220, a: 255 },
                800_000,
            ),
        ),
        SceneObject::PlaneObj(
            wall(
                V3 { x: 0, y: 0, z: -5_000_000 },
                V3 { x: 0, y: 0, z: 1_000_000 },
                Color { r: 180, g: 180, b: 200, a: 255 },
                80_000,
            ),
        ),
        SceneObject::PlaneObj(
            wall(
                V3 { x: -2_000_000, y: 0, z: 0 },
                V3 { x: 1_000_000, y: 0, z: 0 },
                Color { r: 200, g: 100, b: 100, a: 255 },
                80_000,
            ),
        ),
        SceneObject::PlaneObj(
            wall(
                V3 { x: 2_000_000, y: 0, z: 0 },
                V3 { x: -1_000_000, y: 0, z: 0 },
                Color { r: 100, g: 200, b: 100, a: 255 },
                80_000,
            ),
        ),
    ]
}

/// The three spheres of the room: a light under the ceiling, a small
/// mirror ball on the floor and a large matte blue ball.
pub open spec fn room_spheres() -> Seq<SceneObject> {
    seq![
        SceneObject::SphereObj(
            Sphere {
                center: position(V3 { x: 0, y: 1_700_000, z: -2_500_000 }),
                radius: 400_000,
                color: Color { r: 248, g: 248, b: 255, a: 255 },
                roughness: 1_000_000,
                emissive: true,
                emission_color: Color { r: 248, g: 248, b: 255, a: 255 },
            },
        ),
        SceneObject::SphereObj(
            Sphere {
                center: position(V3 { x: 0, y: -675_000, z: -2_500_000 }),
                radius: 300_000,
                color: Color::spec_white(),
                roughness: 0,
                emissive: false,
                emission_color: Color::spec_blank(),
            },
        ),
        SceneObject::SphereObj(
            Sphere {
                center: position(V3 { x: 1_000_000, y: 0, z: -4_000_000 }),
                radius: 1_200_000,
                color: Color { r: 135, g: 206, b: 235, a: 255 },
                roughness: 750_000,
                emissive: false,
                emission_color: Color::spec_blank(),
            },
        ),
    ]
}

/// Appends the planes of the room to the scene.
fn add_room_planes(scene: &mut Vec<SceneObject>)
    ensures
        final(scene)@ == old(scene)@ + room_planes(),
{
    // Floor, checkered.
    scene.push(
        SceneObject::PlaneObj(
            Plane {
                point: Vec3 { x: 0, y: -1_000_000, z: 0 },
                normal: Vec3 { x: 0, y: 1_000_000, z: 0 },
                color: Color::white(),
                roughness: 100_000,
                is_checkered: true,
                emissive: false,
                emission_color: Color::blank(),
            },
        ),
    );
    // Ceiling.
    scene.push(
        SceneObject::PlaneObj(
            Plane {
                point: Vec3 { x: 0, y: 2_000_000, z: 0 },
                normal: Vec3 { x: 0, y: -1_000_000, z: 0 },
                color: Color::new(220, 220, 220, 255),
                roughness: 800_000,
                is_checkered: false,
                emissive: false,
                emission_color: Color::blank(),
            },
        ),
    );
    // Back wall.
    scene.push(
        SceneObject::PlaneObj(
            Plane {
                point: Vec3 { x: 0, y: 0, z: -5_000_000 },
                normal: Vec3 { x: 0, y: 0, z: 1_000_000 },
                color: Color::new(180, 180, 200, 255),
                roughness: 80_000,
                is_checkered: false,
                emissive: false,
                emission_color: Color::blank(),
            },
        ),
    );
    // Left wall, reddish.
    scene.push(
        SceneObject::PlaneObj(
            Plane {
                point: Vec3 { x: -2_000_000, y: 0, z: 0 },
                normal: Vec3 { x: 1_000_000, y: 0, z: 0 },
                color: Color::new(200, 100, 100, 255),
                roughness: 80_000,
                is_checkered: false,
                emissive: false,
                emission_color: Color::blank(),
            },
        ),
    );
    // Right wall, greenish.
    scene.push(
        SceneObject::PlaneObj(
            Plane {
                point: Vec3 { x: 2_000_000, y: 0, z: 0 },
                normal: Vec3 { x: -1_000_000, y: 0, z: 0 },
                color: Color::new(100, 200, 100, 255),
                roughness: 80_000,
                is_checkered: false,
                emissive: false,
                emission_color: Color::blank(),
            },
        ),
    );
    assert(scene@ =~= old(scene)@ + room_planes());
}

/// The scene: the three spheres, then the five planes of the room around
/// them.
pub fn generate_scene() -> (scene: Vec<SceneObject>)
    ensures
        scene@ == room_spheres() + room_planes(),
        scene_wf(scene@),
{
    let mut scene: Vec<SceneObject> = Vec::new();
    // Ceiling light.
    scene.push(
        SceneObject::SphereObj(
            Sphere {
                center: Vec3 { x: 0, y: 1_700_000, z: -2_500_000 },
                radius: 400_000,
                color: Color::new(248, 248, 255, 255),
                roughness: 1_000_000,
                emissive: true,
                emission_color: Color::new(248, 248, 255, 255),
            },
        ),
    );
    // Small mirror ball in the centre.
    scene.push(
        SceneObject::SphereObj(
            Sphere {
                center: Vec3 { x: 0, y: -675_000, z: -2_500_000 },
                radius: 300_000,
                color: Color::white(),
                roughness: 0,
                emissive: false,
                emission_color: Color::blank(),
            },
        ),
    );
    // Large matte blue ball.
    scene.push(
        SceneObject::SphereObj(
            Sphere {
                center: Vec3 { x: 1_000_000, y: 0, z: -4_000_000 },
                radius: 1_200_000,
                color: Color::new(135, 206, 235, 255),
                roughness: 750_000,
                emissive: false,
                emission_color: Color::blank(),
            },
        ),
    );
    assert(scene@ =~= room_spheres());
    add_room_planes(&mut scene);
    proof {
        lemma_room_wf();
    }
    scene
}

/// Every shape of the room is well formed.
pub proof fn lemma_room_wf()
    ensures
        scene_wf(room_spheres() + room_planes()),
{
    let scene = room_spheres() + room_planes();
    assert forall|i: int| 0 <= i < scene.len() implies (#[trigger] scene[i]).wf() by {
        if i < 3 {
            assert(scene[i] == room_spheres()[i]);
        } else {
            assert(scene[i] == room_planes()[i - 3]);
        }
    }
}

} // verus!
