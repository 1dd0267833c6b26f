use olive3d::model::{parse_corner, parse_record, Corner, FaceTable, MeshError, Record, Span};

fn span(start: usize, end: usize) -> Span {
    Span { start, end }
}

fn corner(vertex: usize, uv: usize, normal: usize) -> Corner {
    Corner { vertex, uv, normal }
}

#[test]
fn blank_lines_say_nothing() {
    assert_eq!(parse_record(b""), Ok(Record::Blank));
    assert_eq!(parse_record(b"  \t \r\n"), Ok(Record::Blank));
}

#[test]
fn unknown_records_are_ignored() {
    assert_eq!(parse_record(b"# a comment"), Ok(Record::Ignored));
    assert_eq!(parse_record(b"g head"), Ok(Record::Ignored));
    assert_eq!(parse_record(b"vp 1 2 3"), Ok(Record::Ignored));
    assert_eq!(parse_record(b"vv 1 2 3"), Ok(Record::Ignored));
    assert_eq!(parse_record(b"F 1/1/1 2/2/2 3/3/3"), Ok(Record::Ignored));
    assert_eq!(parse_record(b"s 1"), Ok(Record::Ignored));
}

#[test]
fn position_record_gives_three_fields() {
    let line = b"v 0.5 -1e3  2";
    let record = parse_record(line).unwrap();
    assert_eq!(record, Record::Position(span(2, 5), span(6, 10), span(12, 13)));
    if let Record::Position(x, y, z) = record {
        assert_eq!(&line[x.start..x.end], b"0.5");
        assert_eq!(&line[y.start..y.end], b"-1e3");
        assert_eq!(&line[z.start..z.end], b"2");
    }
}

#[test]
fn normal_and_texture_records_give_their_fields() {
    assert_eq!(
        parse_record(b"vn 1 2 3"),
        Ok(Record::Normal(span(3, 4), span(5, 6), span(7, 8)))
    );
    assert_eq!(parse_record(b"\tvt 0.25 0.75 0"), Ok(Record::TexCoord(span(4, 8), span(9, 13))));
}

#[test]
fn fields_behind_the_needed_ones_are_not_read() {
    assert_eq!(
        parse_record(b"v 1 2 3 4 5"),
        Ok(Record::Position(span(2, 3), span(4, 5), span(6, 7)))
    );
    assert_eq!(
        parse_record(b"f 1/2/3 4/5/6 7/8/9 10/11/12"),
        Ok(Record::Face(corner(0, 1, 2), corner(3, 4, 5), corner(6, 7, 8)))
    );
}

#[test]
fn records_with_too_few_fields_are_refused() {
    assert_eq!(parse_record(b"v"), Err(MeshError::MissingField));
    assert_eq!(parse_record(b"v 1 2"), Err(MeshError::MissingField));
    assert_eq!(parse_record(b"vn 1 2 "), Err(MeshError::MissingField));
    assert_eq!(parse_record(b"vt 1"), Err(MeshError::MissingField));
    assert_eq!(parse_record(b"f"), Err(MeshError::MissingField));
    assert_eq!(parse_record(b"f 1/1/1 2/2/2"), Err(MeshError::MissingField));
}

#[test]
fn face_indices_count_from_one() {
    assert_eq!(
        parse_record(b"f 1/1/1 2/2/2 3/3/3"),
        Ok(Record::Face(corner(0, 0, 0), corner(1, 1, 1), corner(2, 2, 2)))
    );
    assert_eq!(
        parse_record(b"f 24/1/24 25/2/25 26/3/26"),
        Ok(Record::Face(corner(23, 0, 23), corner(24, 1, 24), corner(25, 2, 25)))
    );
}

#[test]
fn corner_reads_three_indices() {
    assert_eq!(parse_corner(b"12/7/+3", span(0, 7)), Ok(corner(11, 6, 2)));
    assert_eq!(parse_corner(b"12/7/3/99", span(0, 9)), Ok(corner(11, 6, 2)));
    assert_eq!(parse_corner(b"xx5/6/7yy", span(2, 7)), Ok(corner(4, 5, 6)));
}

#[test]
fn corner_with_bad_indices_is_refused() {
    assert_eq!(parse_corner(b"0/1/1", span(0, 5)), Err(MeshError::InvalidIndex));
    assert_eq!(parse_corner(b"1/0/1", span(0, 5)), Err(MeshError::InvalidIndex));
    assert_eq!(parse_corner(b"1/1/0", span(0, 5)), Err(MeshError::InvalidIndex));
    assert_eq!(parse_corner(b"-1/1/1", span(0, 6)), Err(MeshError::InvalidIndex));
    assert_eq!(parse_corner(b"1//1", span(0, 4)), Err(MeshError::InvalidIndex));
    assert_eq!(parse_corner(b"a/1/1", span(0, 5)), Err(MeshError::InvalidIndex));
    assert_eq!(parse_corner(b"1/1/", span(0, 4)), Err(MeshError::InvalidIndex));
    assert_eq!(parse_corner(b"", span(0, 0)), Err(MeshError::InvalidIndex));
    assert_eq!(
        parse_corner(b"1/1/99999999999999999999999", span(0, 27)),
        Err(MeshError::InvalidIndex)
    );
}

#[test]
fn corner_with_too_few_indices_is_refused() {
    assert_eq!(parse_corner(b"1", span(0, 1)), Err(MeshError::MissingField));
    assert_eq!(parse_corner(b"1/2", span(0, 3)), Err(MeshError::MissingField));
    assert_eq!(parse_record(b"f 1/2 3/4 5/6"), Err(MeshError::MissingField));
    assert_eq!(parse_record(b"f 1/2/3 4/5/6 7"), Err(MeshError::MissingField));
}

#[test]
fn face_table_keeps_faces_in_order() {
    let mut table = FaceTable::new();
    assert_eq!(table.nfaces(), 0);
    table.push_face(corner(0, 1, 2), corner(3, 4, 5), corner(6, 7, 8));
    table.push_face(corner(9, 10, 11), corner(12, 13, 14), corner(15, 16, 17));
    assert_eq!(table.nfaces(), 2);
    assert_eq!(table.corner(0, 0), corner(0, 1, 2));
    assert_eq!(table.corner(0, 2), corner(6, 7, 8));
    assert_eq!(table.corner(1, 1), corner(12, 13, 14));
    assert_eq!(table.facet_vrt, vec![0, 3, 6, 9, 12, 15]);
    assert_eq!(table.facet_tex, vec![1, 4, 7, 10, 13, 16]);
    assert_eq!(table.facet_nrm, vec![2, 5, 8, 11, 14, 17]);
}

#[test]
fn face_table_checks_its_indices() {
    let mut table = FaceTable::new();
    assert_eq!(table.check_range(0, 0, 0), Ok(()));
    table.push_face(corner(0, 1, 2), corner(3, 4, 5), corner(6, 7, 8));
    assert_eq!(table.check_range(7, 8, 9), Ok(()));
    assert_eq!(table.check_range(100, 100, 100), Ok(()));
    assert_eq!(table.check_range(6, 8, 9), Err(MeshError::IndexOutOfRange));
    assert_eq!(table.check_range(7, 7, 9), Err(MeshError::IndexOutOfRange));
    assert_eq!(table.check_range(7, 8, 8), Err(MeshError::IndexOutOfRange));
}
