use rqtl::{Geno, TableError};

fn s(v: &[&str]) -> Vec<String> {
    v.iter().map(|x| x.to_string()).collect()
}

#[test]
fn raw_cells_are_kept_under_the_row_identifier() {
    let g = Geno::parse_transposed_geno(b"marker,i1,i2,i3\nm2,B,D,-\nm1,H,B,NA\n").unwrap();
    assert_eq!(g.ids, s(&["i1", "i2", "i3"]));
    assert_eq!(g.genos.len(), 2);
    assert_eq!(g.genos.get("m1"), Some(&s(&["H", "B", "NA"])));
    assert_eq!(g.genos.get("m2"), Some(&s(&["B", "D", "-"])));
    assert_eq!(g.genos.get("m3"), None);
    assert_eq!(g.genos.get("marker"), None);
}

#[test]
fn rows_are_walked_in_the_order_of_their_identifiers() {
    let g = Geno::parse_transposed_geno(b"marker,i1\nm2,B\nm10,D\nm1,H\n").unwrap();
    let keys: Vec<&str> = g.genos.entries().iter().map(|(k, _)| k.as_str()).collect();
    assert_eq!(keys, vec!["m1", "m10", "m2"]);
}

#[test]
fn the_last_of_two_rows_with_one_identifier_stays() {
    let g = Geno::parse_transposed_geno(b"marker,i1,i2\nm1,B,D\nm2,H,H\nm1,D,B\n").unwrap();
    assert_eq!(g.genos.len(), 2);
    assert_eq!(g.genos.get("m1"), Some(&s(&["D", "B"])));
    assert_eq!(g.genos.get("m2"), Some(&s(&["H", "H"])));
}

#[test]
fn every_row_has_one_cell_for_each_column_identifier() {
    let g = Geno::parse_transposed_geno(b"marker,i1,i2\nm1,B,D\nm2,H,H\n").unwrap();
    for (_, cells) in g.genos.entries() {
        assert_eq!(cells.len(), g.ids.len());
    }
}

#[test]
fn comment_lines_are_skipped() {
    let g = Geno::parse_transposed_geno(b"#c\nmarker,i1\n#m0,B\nm1,D\n#end\n").unwrap();
    assert_eq!(g.ids, s(&["i1"]));
    assert_eq!(g.genos.len(), 1);
    assert_eq!(g.genos.get("m1"), Some(&s(&["D"])));
}

#[test]
fn malformed_rows_are_shape_errors() {
    assert_eq!(
        Geno::parse_transposed_geno(b"marker,i1,i2\nm1,B,D\nm2,H\n").unwrap_err(),
        TableError::RowShape { row: 2 }
    );
    assert_eq!(
        Geno::parse_transposed_geno(b"marker,i1,i2\nm1,B,D,D\n").unwrap_err(),
        TableError::RowShape { row: 1 }
    );
    assert_eq!(Geno::parse_transposed_geno(b"").unwrap_err(), TableError::RowShape { row: 0 });
    assert_eq!(
        Geno::parse_transposed_geno(b"marker,i1\nm1,\xc3\x28\n").unwrap_err(),
        TableError::Source
    );
}

#[test]
fn split_records_give_the_keyed_table() {
    let rows = vec![s(&["marker", "i1"]), s(&["m1", "B"]), s(&["m1", "D"])];
    let g = Geno::from_records(&rows).unwrap();
    assert_eq!(g.ids, s(&["i1"]));
    assert_eq!(g.genos.get("m1"), Some(&s(&["D"])));
    let bad = vec![s(&["marker", "i1"]), s(&["m1"])];
    assert_eq!(Geno::from_records(&bad).unwrap_err(), TableError::RowShape { row: 1 });
    let no_header: Vec<Vec<String>> = vec![vec![], s(&["m1"])];
    assert_eq!(Geno::from_records(&no_header).unwrap_err(), TableError::RowShape { row: 0 });
}

#[test]
fn the_first_repeated_identifier_is_found() {
    let rows = vec![
        s(&["marker", "i1"]),
        s(&["m1", "B"]),
        s(&["m2", "D"]),
        s(&["m3", "D"]),
        s(&["m2", "H"]),
        s(&["m1", "H"]),
    ];
    assert_eq!(Geno::repeated_key(&rows), Some(4));
    let header_is_no_row = vec![s(&["m1", "i1"]), s(&["m1", "B"]), s(&["m2", "D"])];
    assert_eq!(Geno::repeated_key(&header_is_no_row), None);
    let twice_in_a_row = vec![s(&["marker", "i1"]), s(&["m1", "B"]), s(&["m1", "B"])];
    assert_eq!(Geno::repeated_key(&twice_in_a_row), Some(2));
    let with_empty_records: Vec<Vec<String>> =
        vec![s(&["marker"]), vec![], s(&["a"]), vec![], s(&["b"]), s(&["a", "x"])];
    assert_eq!(Geno::repeated_key(&with_empty_records), Some(5));
    let none: Vec<Vec<String>> = Vec::new();
    assert_eq!(Geno::repeated_key(&none), None);
}
