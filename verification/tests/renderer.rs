use olive3d::depth::{depth_key, DEPTH_FLOOR};
use olive3d::renderer::{triangle_bounding_box, PixelBox, Renderer};

const WHITE: u32 = 0xFFFFFFFF;
const BLACK: u32 = 0xFF000000;

fn key(depth: f32) -> i32 {
    depth_key(depth.to_bits()).unwrap()
}

#[test]
fn depth_keys_order_like_depths() {
    let depths = [
        f32::NEG_INFINITY,
        f32::MIN,
        -1.0e10,
        -2.5,
        -1.0,
        -f32::MIN_POSITIVE,
        -1.0e-45,
        0.0,
        1.0e-45,
        f32::MIN_POSITIVE,
        0.5,
        1.0,
        255.0,
        f32::MAX,
        f32::INFINITY,
    ];
    for a in depths {
        for b in depths {
            assert_eq!(key(a) < key(b), a < b, "{a} {b}");
            assert_eq!(key(a) == key(b), a == b, "{a} {b}");
        }
    }
}

#[test]
fn depth_key_values() {
    assert_eq!(key(0.0), 0);
    assert_eq!(key(-0.0), 0);
    assert_eq!(key(1.0), 0x3F80_0000);
    assert_eq!(key(-1.0), -0x3F80_0000);
    assert_eq!(key(f32::INFINITY), 0x7F80_0000);
    assert_eq!(key(f32::NEG_INFINITY), -0x7F80_0000);
    assert_eq!(key(f32::MIN), DEPTH_FLOOR);
}

#[test]
fn depth_key_refuses_what_is_not_a_number() {
    assert_eq!(depth_key(f32::NAN.to_bits()), None);
    assert_eq!(depth_key(0x7F80_0001), None);
    assert_eq!(depth_key(0xFFFF_FFFF), None);
    assert_eq!(depth_key((0.0f32 / 0.0).to_bits()), None);
}

#[test]
fn new_renderer_takes_the_frame_as_it_is() {
    let mut buffer = vec![5u32; 12];
    let mut depth = vec![3i32; 12];
    let renderer = Renderer::new(&mut buffer, &mut depth, 4, 3);
    assert_eq!((renderer.width, renderer.height, renderer.stride), (4, 3, 4));
    assert_eq!(renderer.buffer.to_vec(), vec![5u32; 12]);
    assert_eq!(renderer.z_buffer.to_vec(), vec![3i32; 12]);
}

#[test]
fn fill_clears_pixels_and_depths() {
    let mut buffer = vec![5u32; 6];
    let mut depth = vec![3i32; 6];
    let mut renderer = Renderer::new(&mut buffer, &mut depth, 3, 2);
    renderer.fill(BLACK);
    assert_eq!(buffer, vec![BLACK; 6]);
    assert_eq!(depth, vec![DEPTH_FLOOR; 6]);
}

#[test]
fn draw_pixel_writes_one_pixel() {
    let mut buffer = vec![0u32; 12];
    let mut depth = vec![0i32; 12];
    let mut renderer = Renderer::new(&mut buffer, &mut depth, 4, 3);
    renderer.draw_pixel_unchecked(1, 2, 7);
    renderer.draw_pixel_unchecked(3, 0, 9);
    let mut expected = vec![0u32; 12];
    expected[9] = 7;
    expected[3] = 9;
    assert_eq!(buffer, expected);
    assert_eq!(depth, vec![0i32; 12]);
}

#[test]
fn first_fragment_on_a_cleared_cell_is_drawn() {
    let mut buffer = vec![0u32; 4];
    let mut depth = vec![0i32; 4];
    let mut renderer = Renderer::new(&mut buffer, &mut depth, 2, 2);
    renderer.fill(BLACK);
    assert!(renderer.depth_test(0, 0, key(-1.0e30)));
    assert!(renderer.depth_test(1, 0, key(0.0)));
    assert!(renderer.depth_test(0, 1, key(f32::MAX)));
    assert!(renderer.depth_test(1, 1, DEPTH_FLOOR + 1));
    assert_eq!(depth, vec![key(-1.0e30), 0, key(f32::MAX), DEPTH_FLOOR + 1]);
    assert_eq!(buffer, vec![BLACK; 4]);
}

#[test]
fn fragment_at_the_floor_is_not_drawn() {
    let mut buffer = vec![0u32; 1];
    let mut depth = vec![0i32; 1];
    let mut renderer = Renderer::new(&mut buffer, &mut depth, 1, 1);
    renderer.fill(BLACK);
    assert!(!renderer.depth_test(0, 0, key(f32::MIN)));
    assert!(!renderer.depth_test(0, 0, key(f32::NEG_INFINITY)));
    assert_eq!(depth, vec![DEPTH_FLOOR]);
}

#[test]
fn later_fragment_is_drawn_only_when_strictly_greater() {
    let mut buffer = vec![0u32; 1];
    let mut depth = vec![0i32; 1];
    let mut renderer = Renderer::new(&mut buffer, &mut depth, 1, 1);
    renderer.fill(BLACK);
    assert!(renderer.depth_test(0, 0, key(0.5)));
    assert!(!renderer.depth_test(0, 0, key(0.5)));
    assert!(!renderer.depth_test(0, 0, key(0.25)));
    assert_eq!(renderer.z_buffer[0], key(0.5));
    assert!(renderer.depth_test(0, 0, key(0.75)));
    assert_eq!(depth, vec![key(0.75)]);
}

#[test]
fn bounding_box_takes_smallest_and_largest() {
    assert_eq!(triangle_bounding_box((0, 0), (10, 0), (0, 10)), ((0, 0), (10, 10)));
    assert_eq!(triangle_bounding_box((5, -3), (-7, 9), (2, 2)), ((-7, -3), (5, 9)));
    assert_eq!(triangle_bounding_box((4, 4), (4, 4), (4, 4)), ((4, 4), (4, 4)));
    assert_eq!(triangle_bounding_box((1, 3), (2, 1), (3, 2)), ((1, 1), (3, 3)));
}

#[test]
fn clamp_box_cuts_to_the_frame() {
    let mut buffer = vec![0u32; 200];
    let mut depth = vec![0i32; 200];
    let renderer = Renderer::new(&mut buffer, &mut depth, 20, 10);
    assert_eq!(
        renderer.clamp_box((0, 0), (10, 10)),
        PixelBox { x_min: 0, y_min: 0, x_max: 10, y_max: 10 }
    );
    assert_eq!(
        renderer.clamp_box((-5, -7), (25, 30)),
        PixelBox { x_min: 0, y_min: 0, x_max: 20, y_max: 10 }
    );
    assert_eq!(
        renderer.clamp_box((3, 4), (7, 8)),
        PixelBox { x_min: 3, y_min: 4, x_max: 7, y_max: 8 }
    );
}

#[test]
fn clamp_box_leaves_nothing_of_a_box_beside_the_frame() {
    let mut buffer = vec![0u32; 200];
    let mut depth = vec![0i32; 200];
    let renderer = Renderer::new(&mut buffer, &mut depth, 20, 10);
    let left = renderer.clamp_box((-9, 2), (-1, 5));
    assert_eq!((left.x_min, left.x_max), (0, 0));
    let right = renderer.clamp_box((30, 2), (40, 5));
    assert_eq!((right.x_min, right.x_max), (20, 20));
    let far = renderer.clamp_box((i32::MIN, i32::MIN), (i32::MIN, i32::MIN));
    assert_eq!(far, PixelBox { x_min: 0, y_min: 0, x_max: 0, y_max: 0 });
}

#[test]
fn clamp_box_handles_a_frame_wider_than_any_coordinate() {
    let mut buffer: Vec<u32> = Vec::new();
    let mut depth: Vec<i32> = Vec::new();
    let renderer = Renderer::new(&mut buffer, &mut depth, u32::MAX, 0);
    let b = renderer.clamp_box((-1, -1), (i32::MAX, i32::MAX));
    assert_eq!(b, PixelBox { x_min: 0, y_min: 0, x_max: i32::MAX as u32, y_max: 0 });
}

#[test]
fn draw_segment_paints_the_walk_and_its_end_point() {
    let mut buffer = vec![0u32; 6 * 4];
    let mut depth = vec![1i32; 6 * 4];
    let mut renderer = Renderer::new(&mut buffer, &mut depth, 6, 4);
    renderer.draw_segment(0, 0, 5, 2, 8);
    let expected = vec![
        8, 8, 0, 0, 0, 0,
        0, 0, 8, 8, 0, 0,
        0, 0, 0, 0, 8, 8,
        0, 0, 0, 0, 0, 0,
    ];
    assert_eq!(buffer, expected);
    assert_eq!(depth, vec![1i32; 24]);
}

#[test]
fn draw_segment_paints_a_single_pixel() {
    let mut buffer = vec![0u32; 9];
    let mut depth = vec![0i32; 9];
    let mut renderer = Renderer::new(&mut buffer, &mut depth, 3, 3);
    renderer.draw_segment(1, 1, 1, 1, 4);
    assert_eq!(buffer, vec![0, 0, 0, 0, 4, 0, 0, 0, 0]);
}

#[test]
fn draw_segment_reaches_the_corners_of_the_frame() {
    let mut buffer = vec![0u32; 9];
    let mut depth = vec![0i32; 9];
    let mut renderer = Renderer::new(&mut buffer, &mut depth, 3, 3);
    renderer.draw_segment(2, 2, 0, 0, 1);
    renderer.draw_segment(0, 2, 2, 0, 2);
    assert_eq!(buffer, vec![1, 0, 2, 0, 2, 0, 2, 0, 1]);
}

#[test]
fn renderer_writes_its_frame_as_an_image_file() {
    let mut buffer = vec![0xFF010203u32, 0x00040506];
    let mut depth = vec![0i32; 2];
    let renderer = Renderer::new(&mut buffer, &mut depth, 1, 2);
    let mut expected = b"P6\n1 2 255\n".to_vec();
    expected.extend_from_slice(&[3, 2, 1, 6, 5, 4]);
    assert_eq!(renderer.to_ppm_bytes(), expected);
}

fn barycentric(p: (f32, f32), v: [(f32, f32); 3]) -> (f32, f32, f32) {
    let a = (v[2].0 - v[0].0, v[1].0 - v[0].0, v[0].0 - p.0);
    let b = (v[2].1 - v[0].1, v[1].1 - v[0].1, v[0].1 - p.1);
    let u = (a.1 * b.2 - a.2 * b.1, a.2 * b.0 - a.0 * b.2, a.0 * b.1 - a.1 * b.0);
    if u.2.abs() < 1.0 {
        return (-1.0, 1.0, 1.0);
    }
    (1.0 - (u.0 + u.1) / u.2, u.1 / u.2, u.0 / u.2)
}

fn fill_triangle(renderer: &mut Renderer, verts: [(f32, f32, f32); 3], color: Option<u32>) {
    let flat = [(verts[0].0, verts[0].1), (verts[1].0, verts[1].1), (verts[2].0, verts[2].1)];
    let corner = |v: (f32, f32)| (v.0.round() as i32, v.1.round() as i32);
    let (low, high) = triangle_bounding_box(corner(flat[0]), corner(flat[1]), corner(flat[2]));
    let area = renderer.clamp_box(low, high);
    for y in area.y_min..area.y_max {
        for x in area.x_min..area.x_max {
            let bc = barycentric((x as f32 + 0.5, y as f32 + 0.5), flat);
            if bc.0 < 0.0 || bc.1 < 0.0 || bc.2 < 0.0 {
                continue;
            }
            let z = 1.0 / (bc.0 / verts[0].2 + bc.1 / verts[1].2 + bc.2 / verts[2].2);
            let drawn = match depth_key(z.to_bits()) {
                Some(k) => renderer.depth_test(x, y, k),
                None => false,
            };
            if drawn {
                if let Some(pixel) = color {
                    renderer.draw_pixel_unchecked(x, y, pixel);
                }
            }
        }
    }
}

#[test]
fn triangle_paints_the_pixels_whose_centres_lie_inside() {
    let mut buffer = vec![0u32; 400];
    let mut depth = vec![0i32; 400];
    let mut renderer = Renderer::new(&mut buffer, &mut depth, 20, 20);
    renderer.fill(BLACK);
    let verts = [(0.0, 0.0, 1.0), (10.0, 0.0, 1.0), (0.0, 10.0, 1.0)];
    fill_triangle(&mut renderer, verts, Some(WHITE));
    let flat = [(0.0, 0.0), (10.0, 0.0), (0.0, 10.0)];
    let mut painted = 0;
    for y in 0..20u32 {
        for x in 0..20u32 {
            let bc = barycentric((x as f32 + 0.5, y as f32 + 0.5), flat);
            let inside = bc.0 >= 0.0 && bc.1 >= 0.0 && bc.2 >= 0.0;
            assert_eq!(inside, x + y <= 9);
            let pixel = buffer[(y * 20 + x) as usize];
            assert_eq!(pixel, if inside { WHITE } else { BLACK }, "{x} {y}");
            let z = key(1.0 / (bc.0 + bc.1 + bc.2));
            assert_eq!(depth[(y * 20 + x) as usize], if inside { z } else { DEPTH_FLOOR });
            painted += inside as u32;
        }
    }
    assert_eq!(painted, 55);
}

#[test]
fn nearer_triangle_covers_and_farther_one_does_not() {
    let mut buffer = vec![0u32; 100];
    let mut depth = vec![0i32; 100];
    let mut renderer = Renderer::new(&mut buffer, &mut depth, 10, 10);
    renderer.fill(BLACK);
    let at = |z: f32| [(0.0, 0.0, z), (8.0, 0.0, z), (0.0, 8.0, z)];
    fill_triangle(&mut renderer, at(2.0), Some(1));
    fill_triangle(&mut renderer, at(1.0), Some(2));
    assert_eq!(renderer.buffer[0], 1);
    fill_triangle(&mut renderer, at(3.0), Some(3));
    assert_eq!(renderer.buffer[0], 3);
    // a discarded fragment leaves the pixel but takes the depth
    fill_triangle(&mut renderer, at(4.0), None);
    assert_eq!(renderer.buffer[0], 3);
    assert_eq!(renderer.z_buffer[0], key(4.0));
}

#[test]
fn triangle_without_area_paints_nothing() {
    let mut buffer = vec![0u32; 100];
    let mut depth = vec![0i32; 100];
    let mut renderer = Renderer::new(&mut buffer, &mut depth, 10, 10);
    renderer.fill(BLACK);
    fill_triangle(&mut renderer, [(1.0, 1.0, 1.0), (5.0, 5.0, 1.0), (9.0, 9.0, 1.0)], Some(WHITE));
    fill_triangle(&mut renderer, [(3.0, 3.0, 1.0), (3.0, 3.0, 1.0), (7.0, 2.0, 1.0)], Some(WHITE));
    assert_eq!(buffer, vec![BLACK; 100]);
    assert_eq!(depth, vec![DEPTH_FLOOR; 100]);
}
