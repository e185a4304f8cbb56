use tracer::obj_file::fan_triangulation;
use tracer::obj_file::vertex_fields;
use tracer::obj_file::parse_group;
use tracer::obj_file::parse_polygon;
use tracer::text::parse_usize;

#[test]
fn a_group_line_yields_its_name() {
    assert_eq!(parse_group(b"g FirstGroup"), Some(b"FirstGroup".to_vec()));
    assert_eq!(parse_group(b"g SecondGroup"), Some(b"SecondGroup".to_vec()));
}

#[test]
fn other_lines_are_no_group() {
    assert_eq!(parse_group(b"v -1 1 0"), None);
    assert_eq!(parse_group(b"f 1 2 3"), None);
    assert_eq!(parse_group(b"gibberish"), None);
    assert_eq!(parse_group(b""), None);
}

#[test]
fn a_face_line_yields_its_vertex_numbers() {
    assert_eq!(parse_polygon(b"f 1 2 3"), Some(vec![1, 2, 3]));
    assert_eq!(parse_polygon(b"f 1 3 4"), Some(vec![1, 3, 4]));
    assert_eq!(parse_polygon(b"f 1 2 3 4 5"), Some(vec![1, 2, 3, 4, 5]));
}

#[test]
fn a_face_field_is_read_up_to_its_first_slash() {
    assert_eq!(parse_polygon(b"f 1/1/1 2//2 3/3/3"), Some(vec![1, 2, 3]));
    assert_eq!(parse_polygon(b"f 1/2/3 3/2/1 4/2/1"), Some(vec![1, 3, 4]));
}

#[test]
fn unreadable_face_fields_are_dropped() {
    assert_eq!(parse_polygon(b"f 1 x 3"), Some(vec![1, 3]));
    assert_eq!(parse_polygon(b"f //"), Some(vec![]));
}

#[test]
fn other_lines_are_no_face() {
    assert_eq!(parse_polygon(b"v 1 0 0"), None);
    assert_eq!(parse_polygon(b"g FirstGroup"), None);
    assert_eq!(
        parse_polygon(b"There was a young lady named Bright"),
        None
    );
}

#[test]
fn a_polygon_becomes_a_fan_of_triangles() {
    let triangles = fan_triangulation(&[1, 2, 3, 4, 5]);
    assert_eq!(triangles, vec![(1, 2, 3), (1, 3, 4), (1, 4, 5)]);
}

#[test]
fn a_triangle_is_its_own_fan() {
    assert_eq!(fan_triangulation(&[1, 2, 3]), vec![(1, 2, 3)]);
}

#[test]
fn an_edge_gives_no_triangle() {
    assert_eq!(fan_triangulation(&[7, 9]), vec![]);
}

#[test]
fn a_vertex_line_is_cut_into_coordinate_fields() {
    assert_eq!(
        vertex_fields(b"v -1.0000 0.5000 0.0000"),
        vec![b"-1.0000".to_vec(), b"0.5000".to_vec(), b"0.0000".to_vec()]
    );
    assert_eq!(
        vertex_fields(b"v -1 1 0  "),
        vec![b"-1".to_vec(), b"1".to_vec(), b"0".to_vec()]
    );
}

#[test]
fn numbers_parse_as_std_reads_a_usize() {
    assert_eq!(parse_usize(b"0"), Some(0));
    assert_eq!(parse_usize(b"42"), Some(42));
    assert_eq!(parse_usize(b"+42"), Some(42));
    assert_eq!(parse_usize(b""), None);
    assert_eq!(parse_usize(b"+"), None);
    assert_eq!(parse_usize(b"4 2"), None);
    assert_eq!(parse_usize(b"-1"), None);
    assert_eq!(parse_usize(b"1.5"), None);
    assert_eq!(parse_usize(b"18446744073709551615"), Some(usize::MAX));
    assert_eq!(parse_usize(b"18446744073709551616"), None);
    assert_eq!(parse_usize(b"99999999999999999999999"), None);
}
