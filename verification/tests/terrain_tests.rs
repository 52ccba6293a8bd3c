use marching_squares::terrain::{triangles_for, Terrain, DEFAULT_THRESHOLD};
use marching_squares::{Error, SCALAR_ONE};

const ABOVE: u32 = 900;
const BELOW: u32 = 100;

#[test]
fn create_rejects_small_grids() {
    assert_eq!(
        Terrain::new(1, 5, vec![0; 5]).err(),
        Some(Error::InvalidDimension)
    );
    assert_eq!(
        Terrain::new(5, 1, vec![0; 5]).err(),
        Some(Error::InvalidDimension)
    );
    assert_eq!(
        Terrain::new(0, 0, vec![]).err(),
        Some(Error::InvalidDimension)
    );
}

#[test]
fn create_rejects_wrong_sample_count() {
    assert_eq!(
        Terrain::new(2, 2, vec![0; 3]).err(),
        Some(Error::InvalidDimension)
    );
    assert_eq!(
        Terrain::new(2, 2, vec![0; 5]).err(),
        Some(Error::InvalidDimension)
    );
}

#[test]
fn create_rejects_out_of_range_sample() {
    assert_eq!(
        Terrain::new(2, 2, vec![0, 0, 0, SCALAR_ONE + 1]).err(),
        Some(Error::InvalidValue)
    );
}

#[test]
fn create_accepts_minimal_grid() {
    let t = Terrain::new(2, 2, vec![0, 0, 0, 0]).unwrap();
    assert_eq!(t.width(), 2);
    assert_eq!(t.height(), 2);
    assert_eq!(t.index_values(), vec![0]);
}

#[test]
fn case_encoding_all_corners() {
    // A single cell: corners are (top-left, top-right, bottom-right,
    // bottom-left) = (values[0], values[1], values[3], values[2]).
    let t = Terrain::new(2, 2, vec![ABOVE, ABOVE, ABOVE, ABOVE]).unwrap();
    assert_eq!(t.index_values(), vec![15]);
    let t = Terrain::new(2, 2, vec![BELOW, BELOW, BELOW, BELOW]).unwrap();
    assert_eq!(t.index_values(), vec![0]);
}

#[test]
fn case_encoding_single_corners() {
    // Only top-left above the threshold: most significant bit.
    let t = Terrain::new(2, 2, vec![ABOVE, BELOW, BELOW, BELOW]).unwrap();
    assert_eq!(t.index_values(), vec![8]);
    // Only top-right.
    let t = Terrain::new(2, 2, vec![BELOW, ABOVE, BELOW, BELOW]).unwrap();
    assert_eq!(t.index_values(), vec![4]);
    // Only bottom-left.
    let t = Terrain::new(2, 2, vec![BELOW, BELOW, ABOVE, BELOW]).unwrap();
    assert_eq!(t.index_values(), vec![1]);
    // Only bottom-right.
    let t = Terrain::new(2, 2, vec![BELOW, BELOW, BELOW, ABOVE]).unwrap();
    assert_eq!(t.index_values(), vec![2]);
}

#[test]
fn sample_equal_to_threshold_counts_as_below() {
    let t = Terrain::new(2, 2, vec![DEFAULT_THRESHOLD; 4]).unwrap();
    assert_eq!(t.index_values(), vec![0]);
    let t = Terrain::new(2, 2, vec![DEFAULT_THRESHOLD + 1; 4]).unwrap();
    assert_eq!(t.index_values(), vec![15]);
}

#[test]
fn rebuild_is_deterministic() {
    let values = vec![0, 500, 1000, 250, 750, 330, 331, 400, 200];
    let a = Terrain::new(3, 3, values.clone()).unwrap();
    let b = Terrain::new(3, 3, values).unwrap();
    assert_eq!(a.index_values(), b.index_values());
}

#[test]
fn edit_rejections_leave_terrain_unchanged() {
    let mut t = Terrain::new(2, 2, vec![ABOVE, BELOW, BELOW, BELOW]).unwrap();
    let before = t.index_values();
    assert_eq!(t.modify_scalar_field(2, 0, 0).err(), Some(Error::OutOfBounds));
    assert_eq!(t.modify_scalar_field(0, 2, 0).err(), Some(Error::OutOfBounds));
    assert_eq!(
        t.modify_scalar_field(0, 0, SCALAR_ONE + 1).err(),
        Some(Error::InvalidValue)
    );
    assert_eq!(t.index_values(), before);
}

#[test]
fn edit_rebuilds_index_grid() {
    let mut t = Terrain::new(2, 2, vec![BELOW, BELOW, BELOW, BELOW]).unwrap();
    assert_eq!(t.index_values(), vec![0]);
    t.modify_scalar_field(0, 0, ABOVE).unwrap();
    assert_eq!(t.index_values(), vec![8]);
    t.modify_scalar_field(1, 1, ABOVE).unwrap();
    assert_eq!(t.index_values(), vec![10]);
}

#[test]
fn edit_twice_same_value_same_grid() {
    let mut once = Terrain::new(3, 3, vec![200; 9]).unwrap();
    let mut twice = Terrain::new(3, 3, vec![200; 9]).unwrap();
    once.modify_scalar_field(1, 1, ABOVE).unwrap();
    twice.modify_scalar_field(1, 1, ABOVE).unwrap();
    twice.modify_scalar_field(1, 1, ABOVE).unwrap();
    assert_eq!(once.index_values(), twice.index_values());
}

#[test]
fn table_entries_are_whole_triangles_in_the_unit_cell() {
    for index in 0..16u8 {
        let list = triangles_for(index);
        assert_eq!(list.len() % 6, 0, "entry {index}");
        // Vertex count (pairs of coordinates) is a multiple of 3.
        assert_eq!((list.len() / 2) % 3, 0, "entry {index}");
        for &half in &list {
            assert!(half <= 2, "entry {index}");
        }
    }
}

#[test]
fn table_ends_are_fixed() {
    assert!(triangles_for(0).is_empty());
    // The full square: two triangles.
    assert_eq!(
        triangles_for(15),
        vec![0, 0, 0, 2, 2, 2, 0, 0, 2, 2, 2, 0]
    );
    assert_eq!(triangles_for(1), vec![0, 1, 0, 2, 1, 2]);
}

#[test]
fn saddle_cases_emit_two_triangle_pairs() {
    assert_eq!(triangles_for(5).len(), 12);
    assert_eq!(triangles_for(10).len(), 12);
    assert_eq!(triangles_for(7).len(), 18);
}

#[test]
fn boundary_scenario_all_zero_field() {
    let t = Terrain::new(3, 3, vec![0; 9]).unwrap();
    assert_eq!(t.index_values(), vec![0, 0, 0, 0]);
}
