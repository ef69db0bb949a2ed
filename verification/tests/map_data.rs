use rqtl::{Chromosome, MapData, Marker, TableError};

fn position(s: &str) -> Option<f32> {
    s.parse::<f32>().ok()
}

fn names<P>(markers: &[Marker<P>]) -> Vec<&str> {
    markers.iter().map(|m| m.name.as_str()).collect()
}

fn labels<P>(map: &MapData<P>) -> Vec<&str> {
    map.chromosomes.iter().map(|(c, _)| c.as_str()).collect()
}

#[test]
fn chromosomes_stand_in_the_order_of_first_occurrence() {
    let rows = vec![
        ("m1".to_string(), "1".to_string(), 1.0f32),
        ("m2".to_string(), "2".to_string(), 5.0f32),
        ("m3".to_string(), "1".to_string(), 2.0f32),
    ];
    let map = MapData::from_rows(rows);
    assert_eq!(labels(&map), vec!["1", "2"]);
    assert_eq!(names(map.get_chr("1").unwrap()), vec!["m1", "m3"]);
    assert_eq!(names(map.get_chr("2").unwrap()), vec!["m2"]);
    assert_eq!(map.get_chr("1").unwrap()[1].pos, 2.0);
    assert_eq!(map.get_chr("2").unwrap()[0].pos, 5.0);
}

#[test]
fn markers_are_not_sorted_by_position() {
    let map = MapData::read_csv(
        position,
        b"marker,chr,pos\nc,X,9.5\na,2,7.25\nb,X,1.5\nd,10,3\ne,2,0.5\nf,X,4\n",
    )
    .unwrap();
    assert_eq!(labels(&map), vec!["X", "2", "10"]);
    assert_eq!(names(map.get_chr("X").unwrap()), vec!["c", "b", "f"]);
    assert_eq!(names(map.get_chr("2").unwrap()), vec!["a", "e"]);
    assert_eq!(names(map.get_chr("10").unwrap()), vec!["d"]);
    let x: Vec<f32> = map.get_chr("X").unwrap().iter().map(|m| m.pos).collect();
    assert_eq!(x, vec![9.5, 1.5, 4.0]);
}

#[test]
fn lookup_of_an_unknown_chromosome_finds_nothing() {
    let map = MapData::read_csv(position, b"marker,chr,pos\na,1,0.5\n").unwrap();
    assert!(map.get_chr("2").is_none());
    assert!(map.get_chr("").is_none());
    assert!(map.get_chr("1").is_some());
    let empty: MapData<f32> = MapData::new();
    assert!(empty.chromosomes.is_empty());
    assert!(empty.get_chr("1").is_none());
}

#[test]
fn push_adds_to_the_end() {
    let mut map: MapData<u32> = MapData::new();
    map.push("a".to_string(), "2", 10);
    map.push("b".to_string(), "1", 20);
    map.push("c".to_string(), "2", 5);
    map.push("d".to_string(), "1", 1);
    map.push("e".to_string(), "3", 7);
    assert_eq!(labels(&map), vec!["2", "1", "3"]);
    assert_eq!(names(map.get_chr("2").unwrap()), vec!["a", "c"]);
    assert_eq!(names(map.get_chr("1").unwrap()), vec!["b", "d"]);
    assert_eq!(names(map.get_chr("3").unwrap()), vec!["e"]);
}

#[test]
fn columns_are_found_by_their_names() {
    let map = MapData::read_csv(
        position,
        b"# a physical map\npos,note,chr,marker\n1.5,x,1,a\n# skipped,,,\n2.5,y,2,b\n0.5,z,1,c\n",
    )
    .unwrap();
    assert_eq!(labels(&map), vec!["1", "2"]);
    assert_eq!(names(map.get_chr("1").unwrap()), vec!["a", "c"]);
    assert_eq!(map.get_chr("1").unwrap()[1].pos, 0.5);
    assert_eq!(map.get_chr("2").unwrap()[0].pos, 2.5);
}

#[test]
fn header_has_to_name_each_column_once() {
    assert_eq!(
        MapData::read_csv(position, b"marker,chr\na,1\n").unwrap_err(),
        TableError::RowShape { row: 0 }
    );
    assert_eq!(
        MapData::read_csv(position, b"marker,chrom,pos\na,1,2\n").unwrap_err(),
        TableError::RowShape { row: 0 }
    );
    assert_eq!(
        MapData::read_csv(position, b"marker,chr,pos,chr\na,1,2,1\n").unwrap_err(),
        TableError::RowShape { row: 0 }
    );
    assert_eq!(MapData::read_csv(position, b"").unwrap_err(), TableError::RowShape { row: 0 });
}

#[test]
fn row_without_a_field_is_a_shape_error() {
    assert_eq!(
        MapData::read_csv(position, b"marker,chr,pos\na,1,2\nb,1\nc,1,3\n").unwrap_err(),
        TableError::RowShape { row: 2 }
    );
    assert_eq!(
        MapData::read_csv(position, b"marker,chr,pos\na,1,2,9\n").unwrap_err(),
        TableError::RowShape { row: 1 }
    );
}

#[test]
fn position_that_is_no_number_is_a_position_error() {
    assert_eq!(
        MapData::read_csv(position, b"marker,chr,pos\na,1,2\nb,1,far\n").unwrap_err(),
        TableError::PositionParse { row: 2 }
    );
    assert_eq!(
        MapData::read_csv(position, b"marker,chr,pos\na,1,\n").unwrap_err(),
        TableError::PositionParse { row: 1 }
    );
    assert_eq!(
        MapData::read_csv(position, b"marker,chr,pos\na,1\nb,1,far\n").unwrap_err(),
        TableError::RowShape { row: 1 }
    );
    assert_eq!(
        MapData::read_csv(position, b"marker,chr,pos\na,1,\xff\n").unwrap_err(),
        TableError::Source
    );
}

#[test]
fn split_records_give_the_map() {
    let rows: Vec<Vec<String>> = vec![
        vec!["chr".into(), "marker".into(), "pos".into()],
        vec!["2".into(), "a".into(), "30".into()],
        vec!["1".into(), "b".into(), "10".into()],
        vec!["2".into(), "c".into(), "20".into()],
    ];
    let map = MapData::from_records(|s: &str| s.parse::<u64>().ok(), &rows).unwrap();
    assert_eq!(labels(&map), vec!["2", "1"]);
    assert_eq!(names(map.get_chr("2").unwrap()), vec!["a", "c"]);
    assert_eq!(map.get_chr("2").unwrap()[1].pos, 20);
}

#[test]
fn a_new_chromosome_is_empty() {
    let c: Chromosome<f32> = Chromosome::new();
    assert!(c.markers.is_empty());
}
