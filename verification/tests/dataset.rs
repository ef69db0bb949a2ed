use rqtl::{Control, CrossInfo, Dataset, Dict, Files, TableError};

fn control_with(codes: &[(&str, u8)]) -> Control {
    let mut genotypes = Dict::new();
    for (k, v) in codes {
        genotypes.insert(k.to_string(), *v);
    }
    Control {
        description: String::new(),
        crosstype: String::from("f2"),
        files: Files {
            geno: None,
            founder_geno: None,
            pheno: None,
            covar: None,
            phenocovar: None,
            gmap: None,
            pmap: None,
        },
        sep: ',',
        na_strings: vec![String::from("NA")],
        comment_char: String::from("#"),
        alleles: vec!['B', 'D'],
        x_chr: None,
        genotypes,
        geno_transposed: None,
        founder_geno_transposed: None,
        cross_info: CrossInfo { file: String::new(), data: Dict::new() },
        sex: None,
    }
}

fn bdh() -> Control {
    control_with(&[("B", 1), ("D", 2), ("H", 3)])
}

fn records(rows: &[&[&str]]) -> Vec<Vec<String>> {
    rows.iter().map(|r| r.iter().map(|s| s.to_string()).collect()).collect()
}

/// The cells in the order of the source: record after record, each from
/// left to right.
fn file_order<T: Copy>(d: &Dataset<T>) -> Vec<T> {
    let mut out = Vec::new();
    for r in 0..d.row_ids.len() {
        for c in 0..d.ids.len() {
            out.push(*d.data.get(c, r).unwrap());
        }
    }
    out
}

fn digit(s: &str) -> Option<u32> {
    s.parse::<u32>().ok()
}

#[test]
fn end_to_end_genotype_table() {
    let d = Dataset::read_geno_csv(&bdh(), b"id,ind1,ind2\nm1,B,D\nm2,H,B\n").unwrap();
    assert_eq!(d.first_entry, "id");
    assert_eq!(d.ids, vec!["ind1", "ind2"]);
    assert_eq!(d.row_ids, vec!["m1", "m2"]);
    assert_eq!(file_order(&d), vec![1, 2, 3, 1]);
}

#[test]
fn end_to_end_from_records() {
    let rows = records(&[&["id", "ind1", "ind2"], &["m1", "B", "D"], &["m2", "H", "B"]]);
    let d = Dataset::from_geno_records(&bdh(), &rows).unwrap();
    assert_eq!(d.ids, vec!["ind1", "ind2"]);
    assert_eq!(d.row_ids, vec!["m1", "m2"]);
    assert_eq!(file_order(&d), vec![1, 2, 3, 1]);
}

#[test]
fn axis_zero_runs_over_the_column_identifiers() {
    let d = Dataset::read_csv(digit, b"id,a,b,c\nr1,1,2,3\nr2,4,5,6\n", b',', b'#').unwrap();
    assert_eq!(d.data.shape(), [3, 2]);
    assert_eq!(d.data.dim(), (3, 2));
    assert_eq!(d.data.get(0, 0), Some(&1));
    assert_eq!(d.data.get(1, 0), Some(&2));
    assert_eq!(d.data.get(2, 0), Some(&3));
    assert_eq!(d.data.get(0, 1), Some(&4));
    assert_eq!(d.data.get(1, 1), Some(&5));
    assert_eq!(d.data.get(2, 1), Some(&6));
    assert_eq!(d.data.get(3, 0), None);
    assert_eq!(d.data.get(0, 2), None);
}

#[test]
fn element_count_is_the_product_of_the_identifier_counts() {
    let d = Dataset::read_csv(digit, b"id,a,b,c\nr1,1,2,3\nr2,4,5,6\n", b',', b'#').unwrap();
    assert_eq!(d.ids.len() * d.row_ids.len(), d.data.len());
    assert_eq!(d.data.len(), 6);

    let header_only = Dataset::read_csv(digit, b"id,a,b,c\n", b',', b'#').unwrap();
    assert_eq!(header_only.ids.len(), 3);
    assert_eq!(header_only.row_ids.len(), 0);
    assert_eq!(header_only.data.len(), 0);
    assert_eq!(header_only.data.shape(), [3, 0]);

    let no_columns = Dataset::read_csv(digit, b"id\nr1\nr2\n", b',', b'#').unwrap();
    assert_eq!(no_columns.ids.len(), 0);
    assert_eq!(no_columns.row_ids, vec!["r1", "r2"]);
    assert_eq!(no_columns.data.len(), 0);
    assert_eq!(no_columns.data.shape(), [0, 2]);
}

#[test]
fn transpose_swaps_the_axes_and_keeps_the_identifiers() {
    let d = Dataset::read_csv(digit, b"id,a,b,c\nr1,1,2,3\nr2,4,5,6\n", b',', b'#').unwrap();
    let t = d.transpose();
    assert_eq!(t.data.shape(), [2, 3]);
    assert_eq!(t.ids, vec!["a", "b", "c"]);
    assert_eq!(t.row_ids, vec!["r1", "r2"]);
    assert_eq!(t.first_entry, "id");
    let mut seen = Vec::new();
    for i in 0..2 {
        for j in 0..3 {
            seen.push(*t.data.get(i, j).unwrap());
        }
    }
    assert_eq!(seen, vec![1, 2, 3, 4, 5, 6]);
}

#[test]
fn transpose_twice_gives_the_dataset_back() {
    let text = b"id,a,b,c\nr1,1,2,3\nr2,4,5,6\n";
    let d = Dataset::read_csv(digit, text, b',', b'#').unwrap();
    let back = Dataset::read_csv(digit, text, b',', b'#').unwrap().transpose().transpose();
    assert_eq!(back.first_entry, d.first_entry);
    assert_eq!(back.ids, d.ids);
    assert_eq!(back.row_ids, d.row_ids);
    assert_eq!(back.data.shape(), d.data.shape());
    for i in 0..3 {
        for j in 0..2 {
            assert_eq!(back.data.get(i, j), d.data.get(i, j));
        }
    }
    assert_eq!(back.data, d.data);
}

#[test]
fn short_row_is_a_shape_error_with_its_row() {
    let r = Dataset::read_geno_csv(&bdh(), b"id,ind1,ind2\nm1,B,D\nm2,H\nm3,B,B\n");
    assert_eq!(r.unwrap_err(), TableError::RowShape { row: 2 });
}

#[test]
fn long_row_is_a_shape_error_with_its_row() {
    let r = Dataset::read_geno_csv(&bdh(), b"id,ind1,ind2\nm1,B,D,H\nm2,H,B\n");
    assert_eq!(r.unwrap_err(), TableError::RowShape { row: 1 });
}

#[test]
fn shape_error_counts_records_not_lines() {
    let r = Dataset::read_geno_csv(&bdh(), b"# top\nid,ind1,ind2\n# mid\nm1,B,D\n\nm2,H\n");
    assert_eq!(r.unwrap_err(), TableError::RowShape { row: 2 });
}

#[test]
fn missing_header_is_a_shape_error_of_row_zero() {
    assert_eq!(
        Dataset::read_geno_csv(&bdh(), b"").unwrap_err(),
        TableError::RowShape { row: 0 }
    );
    assert_eq!(
        Dataset::read_geno_csv(&bdh(), b"# only a comment\n").unwrap_err(),
        TableError::RowShape { row: 0 }
    );
    let none: Vec<Vec<String>> = Vec::new();
    assert_eq!(
        Dataset::from_geno_records(&bdh(), &none).unwrap_err(),
        TableError::RowShape { row: 0 }
    );
    let empty_header: Vec<Vec<String>> = vec![vec![]];
    assert_eq!(
        Dataset::from_geno_records(&bdh(), &empty_header).unwrap_err(),
        TableError::RowShape { row: 0 }
    );
}

#[test]
fn rejected_cell_is_a_parse_error_with_row_and_column() {
    let r = Dataset::read_csv(digit, b"id,a,b\nr1,1,2\nr2,3,x\nr3,y,4\n", b',', b'#');
    assert_eq!(r.unwrap_err(), TableError::CellParse { row: 2, col: 2 });
}

#[test]
fn the_first_failure_in_reading_order_is_reported() {
    let shape_first = Dataset::read_csv(digit, b"id,a,b\nr1,1\nr2,3,x\n", b',', b'#');
    assert_eq!(shape_first.unwrap_err(), TableError::RowShape { row: 1 });
    let cell_first = Dataset::read_csv(digit, b"id,a,b\nr1,1,x\nr2,3\n", b',', b'#');
    assert_eq!(cell_first.unwrap_err(), TableError::CellParse { row: 1, col: 2 });
    let shape_before_cell = Dataset::read_csv(digit, b"id,a,b\nr1,x\n", b',', b'#');
    assert_eq!(shape_before_cell.unwrap_err(), TableError::RowShape { row: 1 });
}

#[test]
fn text_that_is_not_utf8_is_a_source_error() {
    let r = Dataset::read_geno_csv(&bdh(), b"id,ind1\nm1,\xff\xfe\n");
    assert_eq!(r.unwrap_err(), TableError::Source);
}

#[test]
fn comment_lines_are_no_records() {
    let text = b"#comment\n# another\nid,ind1,ind2\n#comment\nm1,B,D\n#m9,H,H\nm2,H,B\n#end\n";
    let d = Dataset::read_geno_csv(&bdh(), text).unwrap();
    assert_eq!(d.first_entry, "id");
    assert_eq!(d.ids, vec!["ind1", "ind2"]);
    assert_eq!(d.row_ids, vec!["m1", "m2"]);
    assert_eq!(file_order(&d), vec![1, 2, 3, 1]);
}

#[test]
fn delimiter_and_comment_prefix_are_the_callers() {
    let d = Dataset::read_csv(digit, b"% note\nid\ta\tb\nr1\t1\t2\n% more\nr2\t3\t4\n", b'\t', b'%')
        .unwrap();
    assert_eq!(d.ids, vec!["a", "b"]);
    assert_eq!(d.row_ids, vec!["r1", "r2"]);
    assert_eq!(file_order(&d), vec![1, 2, 3, 4]);

    let hash_is_data = Dataset::read_csv(
        |s: &str| Some(s.len()),
        b"id;a\n#r1;xx\nr2;yyy\n",
        b';',
        b'%',
    )
    .unwrap();
    assert_eq!(hash_is_data.row_ids, vec!["#r1", "r2"]);
    assert_eq!(file_order(&hash_is_data), vec![2, 3]);
}

#[test]
fn duplicate_column_identifiers_are_kept() {
    let d = Dataset::read_csv(digit, b"id,a,a,b\nr1,1,2,3\nr1,4,5,6\n", b',', b'#').unwrap();
    assert_eq!(d.ids, vec!["a", "a", "b"]);
    assert_eq!(d.row_ids, vec!["r1", "r1"]);
    assert_eq!(file_order(&d), vec![1, 2, 3, 4, 5, 6]);
}

#[test]
fn quoted_fields_are_one_cell() {
    let d = Dataset::read_csv(
        |s: &str| Some(s.to_string()),
        b"id,\"a,b\",c\nr1,\"x\"\"y\",z\n",
        b',',
        b'#',
    )
    .unwrap();
    assert_eq!(d.ids, vec!["a,b", "c"]);
    assert_eq!(file_order_owned(&d), vec!["x\"y", "z"]);
}

fn file_order_owned(d: &Dataset<String>) -> Vec<String> {
    let mut out = Vec::new();
    for r in 0..d.row_ids.len() {
        for c in 0..d.ids.len() {
            out.push(d.data.get(c, r).unwrap().clone());
        }
    }
    out
}

#[test]
fn unknown_genotype_calls_translate_to_zero() {
    let d = Dataset::read_geno_csv(&bdh(), b"id,i1,i2,i3\nm1,B,X,-\nm2,,H,b\n").unwrap();
    assert_eq!(file_order(&d), vec![1, 0, 0, 0, 3, 0]);
}

#[test]
fn generic_reader_takes_the_cross_info_translator() {
    let mut ctrl = bdh();
    ctrl.cross_info.data.insert("BxD".to_string(), 0);
    ctrl.cross_info.data.insert("DxB".to_string(), 1);
    let ok = Dataset::read_csv(
        |s: &str| ctrl.parse_cross_info(s),
        b"id,cross\ni1,BxD\ni2,DxB\n",
        b',',
        b'#',
    )
    .unwrap();
    assert_eq!(file_order(&ok), vec![0, 1]);
    let bad = Dataset::read_csv(
        |s: &str| ctrl.parse_cross_info(s),
        b"id,cross\ni1,BxD\ni2,HxH\n",
        b',',
        b'#',
    );
    assert_eq!(bad.unwrap_err(), TableError::CellParse { row: 2, col: 1 });
}

#[test]
fn datasets_are_equal_when_all_their_parts_are() {
    let text = b"id,a,b\nr1,1,2\nr2,3,4\n";
    let d = Dataset::read_csv(digit, text, b',', b'#').unwrap();
    let same = Dataset::read_csv(digit, b"# note\nid,a,b\nr1,1,2\nr2,3,4", b',', b'#').unwrap();
    assert_eq!(d, same);
    let other_cell = Dataset::read_csv(digit, b"id,a,b\nr1,1,2\nr2,3,5\n", b',', b'#').unwrap();
    assert_ne!(d, other_cell);
    let other_id = Dataset::read_csv(digit, b"id,a,c\nr1,1,2\nr2,3,4\n", b',', b'#').unwrap();
    assert_ne!(d, other_id);
    let flipped = Dataset::read_csv(digit, b"id,a,b\nr1,1,3\nr2,2,4\n", b',', b'#')
        .unwrap()
        .transpose();
    assert_eq!(d.data, flipped.data);
    assert_ne!(d.data, Dataset::read_csv(digit, text, b',', b'#').unwrap().transpose().data);
}
