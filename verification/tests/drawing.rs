use meshwalk::indices::{line_indices, mask_vertices, visible_indices, UNUSED_MARK};
use meshwalk::mesh::ObjVertex;
use meshwalk::motion::{Key, Motion};
use meshwalk::rank::key_of;

#[test]
fn kept_faces_are_flattened_in_order() {
    let faces = vec![vec![0, 1, 2], vec![0, 2, 3], vec![3, 2, 4]];
    assert_eq!(
        visible_indices(&faces, &vec![true, false, true]),
        Some(vec![0, 1, 2, 3, 2, 4])
    );
    assert_eq!(
        visible_indices(&faces, &vec![true, true, true]),
        Some(vec![0, 1, 2, 0, 2, 3, 3, 2, 4])
    );
    assert_eq!(visible_indices(&faces, &vec![false, false, false]), Some(vec![]));
}

#[test]
fn flags_must_match_the_faces() {
    let faces = vec![vec![0, 1, 2]];
    assert_eq!(visible_indices(&faces, &vec![]), None);
    assert_eq!(visible_indices(&faces, &vec![true, true]), None);
}

#[test]
fn a_kept_index_must_fit_the_buffer() {
    let faces = vec![vec![0, 1, 4294967296], vec![0, 1, 2]];
    assert_eq!(visible_indices(&faces, &vec![true, true]), None);
    assert_eq!(visible_indices(&faces, &vec![false, true]), Some(vec![0, 1, 2]));
}

#[test]
fn unused_vertices_are_blanked_and_marked() {
    let positions = vec![[1, 2, 3], [4, 5, 6], [7, 8, 9]];
    let out = mask_vertices(&positions, &vec![2, 0, 2]);
    assert_eq!(
        out,
        vec![
            ObjVertex { position: [1, 2, 3], normal: [0, 0, 0], texture: [0, 0] },
            ObjVertex { position: [0, 0, 0], normal: [0, 0, 0], texture: [UNUSED_MARK, UNUSED_MARK] },
            ObjVertex { position: [7, 8, 9], normal: [0, 0, 0], texture: [0, 0] },
        ]
    );
    assert_eq!(f32::from_bits(UNUSED_MARK), -1.0);
}

#[test]
fn a_row_of_vertices_is_drawn_as_segments() {
    assert_eq!(line_indices(4), vec![0, 1, 1, 2, 2, 3]);
    assert_eq!(line_indices(2), vec![0, 1]);
    assert_eq!(line_indices(1), Vec::<u32>::new());
    assert_eq!(line_indices(0), Vec::<u32>::new());
}

#[test]
fn height_keys_order_like_the_numbers() {
    let values = [
        f32::NEG_INFINITY,
        -1.0e30,
        -2.5,
        -1.0,
        -1.0e-30,
        -0.0,
        0.0,
        1.0e-30,
        1.0,
        2.5,
        1.0e30,
        f32::INFINITY,
    ];
    for a in values {
        for b in values {
            assert_eq!(key_of(a.to_bits()).cmp(&key_of(b.to_bits())), a.total_cmp(&b));
        }
    }
    assert_eq!(key_of(0), 0x8000_0000);
    assert_eq!(key_of(0x8000_0000), 0x7FFF_FFFF);
    assert_eq!(key_of(0x3F80_0000), 0xBF80_0000);
}

#[test]
fn keys_steer_the_camera() {
    let still = Motion::still();
    assert_eq!(still, Motion { vertical: 0, forward: 0, turn: 0 });
    assert_eq!(still.steer(Key::ArrowUp, true), (Motion { vertical: 1, forward: 0, turn: 0 }, false));
    assert_eq!(still.steer(Key::ArrowDown, true), (Motion { vertical: -1, forward: 0, turn: 0 }, false));
    assert_eq!(still.steer(Key::W, true), (Motion { vertical: 0, forward: 1, turn: 0 }, false));
    assert_eq!(still.steer(Key::S, true), (Motion { vertical: 0, forward: -1, turn: 0 }, false));
    assert_eq!(still.steer(Key::A, true), (Motion { vertical: 0, forward: 0, turn: 1 }, false));
    assert_eq!(still.steer(Key::D, true), (Motion { vertical: 0, forward: 0, turn: -1 }, false));
    let moving = Motion { vertical: 1, forward: -1, turn: 1 };
    assert_eq!(moving.steer(Key::A, false), (Motion { vertical: 1, forward: -1, turn: 0 }, false));
    assert_eq!(moving.steer(Key::ArrowDown, false), (Motion { vertical: 0, forward: -1, turn: 1 }, false));
    assert_eq!(moving.steer(Key::M, true), (moving, true));
    assert_eq!(moving.steer(Key::M, false), (moving, true));
    assert_eq!(moving.steer(Key::Other, true), (moving, false));
}
