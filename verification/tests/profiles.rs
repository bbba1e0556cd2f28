use mlst_typing::error::TypingError;
use mlst_typing::profiles::{profiles_from_rows, read_profiles};

fn row(fields: &[&str]) -> Vec<String> {
    let mut out = Vec::new();
    for field in fields {
        out.push(field.to_string());
    }
    out
}

fn names(fields: &[&str]) -> Vec<String> {
    row(fields)
}

#[test]
fn header_gives_the_schema_in_column_order() {
    let rows = vec![row(&["ST", "aroA", "cpn60", "dpr"]), row(&["5", "1", "2", "1"])];
    let table = profiles_from_rows(&rows).expect("sound table");
    assert_eq!(table.loci, names(&["aroA", "cpn60", "dpr"]));
    assert_eq!(table.profiles.len(), 1);
    assert_eq!(table.profiles.get(&5), Some(&vec![1, 2, 1]));
}

#[test]
fn annotation_column_is_left_out_of_schema_and_rows() {
    let rows = vec![
        row(&["ST", "aroA", "cpn60", "dpr", "clonal_complex"]),
        row(&["5", "1", "2", "1", ""]),
        row(&["7", "1", "2", "2", "complex 7"]),
    ];
    let table = profiles_from_rows(&rows).expect("sound table");
    assert_eq!(table.loci, names(&["aroA", "cpn60", "dpr"]));
    assert_eq!(table.profiles.get(&5), Some(&vec![1, 2, 1]));
    assert_eq!(table.profiles.get(&7), Some(&vec![1, 2, 2]));
}

#[test]
fn annotation_column_is_found_by_name_wherever_it_stands() {
    let rows = vec![
        row(&["ST", "aroA", "clonal_complex", "dpr"]),
        row(&["5", "1", "cc1", "3"]),
    ];
    let table = profiles_from_rows(&rows).expect("sound table");
    assert_eq!(table.loci, names(&["aroA", "dpr"]));
    assert_eq!(table.profiles.get(&5), Some(&vec![1, 3]));
}

#[test]
fn trailing_blank_field_is_dropped() {
    let rows = vec![row(&["ST", "aroA", "cpn60"]), row(&["3", "4", "5", ""])];
    let table = profiles_from_rows(&rows).expect("sound table");
    assert_eq!(table.profiles.get(&3), Some(&vec![4, 5]));
}

#[test]
fn only_one_trailing_blank_field_is_dropped() {
    let rows = vec![row(&["ST", "aroA", "cpn60"]), row(&["3", "4", "", ""])];
    assert_eq!(
        profiles_from_rows(&rows).err(),
        Some(TypingError::MalformedProfileRow { row: 1, field: "".to_string() })
    );
}

#[test]
fn blank_field_before_the_end_is_malformed() {
    let rows = vec![row(&["ST", "aroA", "cpn60"]), row(&["3", "", "5"])];
    assert_eq!(
        profiles_from_rows(&rows).err(),
        Some(TypingError::MalformedProfileRow { row: 1, field: "".to_string() })
    );
}

#[test]
fn white_space_around_fields_does_not_count() {
    let rows = vec![
        row(&[" ST ", " aroA", "cpn60 ", "\tclonal_complex "]),
        row(&[" 5", "1 ", " 2 ", " "]),
    ];
    let table = profiles_from_rows(&rows).expect("sound table");
    assert_eq!(table.loci, names(&["aroA", "cpn60"]));
    assert_eq!(table.profiles.get(&5), Some(&vec![1, 2]));
}

#[test]
fn later_row_with_the_same_st_wins() {
    let rows = vec![
        row(&["ST", "aroA", "cpn60"]),
        row(&["5", "1", "2"]),
        row(&["6", "3", "3"]),
        row(&["5", "9", "8"]),
    ];
    let table = profiles_from_rows(&rows).expect("sound table");
    assert_eq!(table.profiles.len(), 2);
    assert_eq!(table.profiles.get(&5), Some(&vec![9, 8]));
    assert_eq!(table.profiles.get(&6), Some(&vec![3, 3]));
}

#[test]
fn non_numeric_st_is_malformed() {
    let rows = vec![
        row(&["ST", "aroA", "cpn60"]),
        row(&["5", "1", "2"]),
        row(&["seven", "1", "3"]),
        row(&["8", "1", "4"]),
    ];
    assert_eq!(
        profiles_from_rows(&rows).err(),
        Some(TypingError::MalformedProfileRow { row: 2, field: "seven".to_string() })
    );
}

#[test]
fn non_numeric_allele_is_malformed() {
    let rows = vec![row(&["ST", "aroA", "cpn60"]), row(&["5", "1", " 2x "])];
    assert_eq!(
        profiles_from_rows(&rows).err(),
        Some(TypingError::MalformedProfileRow { row: 1, field: "2x".to_string() })
    );
}

#[test]
fn st_is_looked_at_before_the_alleles() {
    let rows = vec![row(&["ST", "aroA"]), row(&["x", "y"])];
    assert_eq!(
        profiles_from_rows(&rows).err(),
        Some(TypingError::MalformedProfileRow { row: 1, field: "x".to_string() })
    );
}

#[test]
fn number_too_large_for_an_allele_is_malformed() {
    let rows = vec![row(&["ST", "aroA"]), row(&["5", "65536"])];
    assert_eq!(
        profiles_from_rows(&rows).err(),
        Some(TypingError::MalformedProfileRow { row: 1, field: "65536".to_string() })
    );
    let rows = vec![row(&["ST", "aroA"]), row(&["65536", "1"])];
    assert_eq!(
        profiles_from_rows(&rows).err(),
        Some(TypingError::MalformedProfileRow { row: 1, field: "65536".to_string() })
    );
}

#[test]
fn first_malformed_row_is_the_one_reported() {
    let rows = vec![
        row(&["ST", "aroA"]),
        row(&["1", "1"]),
        row(&["2", "b"]),
        row(&["c", "3"]),
    ];
    assert_eq!(
        profiles_from_rows(&rows).err(),
        Some(TypingError::MalformedProfileRow { row: 2, field: "b".to_string() })
    );
}

#[test]
fn row_without_any_field_is_malformed() {
    let rows = vec![row(&["ST", "aroA"]), row(&[])];
    assert_eq!(
        profiles_from_rows(&rows).err(),
        Some(TypingError::MalformedProfileRow { row: 1, field: "".to_string() })
    );
}

#[test]
fn rows_are_not_held_to_the_length_of_the_schema() {
    let rows = vec![row(&["ST", "aroA", "cpn60"]), row(&["5", "1"]), row(&["6", "1", "2", "3"])];
    let table = profiles_from_rows(&rows).expect("sound table");
    assert_eq!(table.profiles.get(&5), Some(&vec![1]));
    assert_eq!(table.profiles.get(&6), Some(&vec![1, 2, 3]));
}

#[test]
fn table_without_rows_is_empty() {
    let table = profiles_from_rows(&vec![]).expect("empty table");
    assert!(table.loci.is_empty());
    assert!(table.profiles.is_empty());
}

#[test]
fn header_alone_gives_a_schema_without_profiles() {
    let table = profiles_from_rows(&vec![row(&["ST", "aroA", "dpr"])]).expect("sound table");
    assert_eq!(table.loci, names(&["aroA", "dpr"]));
    assert!(table.profiles.is_empty());
    let table = profiles_from_rows(&vec![row(&["ST"])]).expect("sound table");
    assert!(table.loci.is_empty());
    let table = profiles_from_rows(&vec![row(&[])]).expect("sound table");
    assert!(table.loci.is_empty());
}

#[test]
fn read_profiles_takes_tab_separated_bytes() {
    let data = b"ST\taroA\tcpn60\tdpr\tclonal_complex\n5\t1\t2\t1\t\n7\t1\t2\t2\tcc7\n";
    let table = read_profiles(data).expect("sound table");
    assert_eq!(table.loci, names(&["aroA", "cpn60", "dpr"]));
    assert_eq!(table.profiles.len(), 2);
    assert_eq!(table.profiles.get(&5), Some(&vec![1, 2, 1]));
    assert_eq!(table.profiles.get(&7), Some(&vec![1, 2, 2]));
}

#[test]
fn read_profiles_does_not_split_at_commas() {
    let data = b"ST\ta,b\n5\t1\n";
    let table = read_profiles(data).expect("sound table");
    assert_eq!(table.loci, names(&["a,b"]));
    assert_eq!(table.profiles.get(&5), Some(&vec![1]));
}

#[test]
fn read_profiles_passes_over_empty_lines() {
    let data = b"ST\taroA\n\n5\t1\n\n6\t2\n";
    let table = read_profiles(data).expect("sound table");
    assert_eq!(table.profiles.len(), 2);
    assert_eq!(table.profiles.get(&6), Some(&vec![2]));
}

#[test]
fn read_profiles_reports_a_malformed_row() {
    let data = b"ST\taroA\tcpn60\n5\t1\t2\nST-6\t1\t3\n";
    assert_eq!(
        read_profiles(data).err(),
        Some(TypingError::MalformedProfileRow { row: 2, field: "ST-6".to_string() })
    );
}

#[test]
fn read_profiles_reports_rows_of_unequal_length_as_unreadable() {
    let data = b"ST\taroA\tcpn60\n5\t1\n";
    assert!(matches!(read_profiles(data), Err(TypingError::UnreadableTable { .. })));
}

#[test]
fn read_profiles_reports_bytes_that_are_no_text_as_unreadable() {
    let data = b"ST\taroA\n5\t\xff\xfe\n";
    assert!(matches!(read_profiles(data), Err(TypingError::UnreadableTable { .. })));
}

#[test]
fn read_profiles_of_nothing_is_an_empty_table() {
    let table = read_profiles(b"").expect("empty table");
    assert!(table.loci.is_empty());
    assert!(table.profiles.is_empty());
}

#[test]
fn read_profiles_reports_a_malformed_row_that_comes_before_unreadable_text() {
    let data = b"ST\taroA\nx\t1\n5\t1\t2\n";
    assert_eq!(
        read_profiles(data).err(),
        Some(TypingError::MalformedProfileRow { row: 1, field: "x".to_string() })
    );
}

#[test]
fn read_profiles_reports_unreadable_text_that_comes_before_a_malformed_row() {
    let data = b"ST\taroA\n5\t1\n6\t1\t2\nx\t1\n";
    assert!(matches!(read_profiles(data), Err(TypingError::UnreadableTable { .. })));
}

#[test]
fn row_that_ends_before_the_annotation_column_keeps_its_fields() {
    let rows = vec![
        row(&["ST", "aroA", "cpn60", "clonal_complex"]),
        row(&["5", "1", "2"]),
        row(&["6", "1"]),
    ];
    let table = profiles_from_rows(&rows).expect("sound table");
    assert_eq!(table.profiles.get(&5), Some(&vec![1, 2]));
    assert_eq!(table.profiles.get(&6), Some(&vec![1]));
}

#[test]
fn only_the_first_annotation_column_is_left_out() {
    let rows = vec![
        row(&["ST", "clonal_complex", "aroA", "clonal_complex"]),
        row(&["5", "cc", "1", "2"]),
    ];
    let table = profiles_from_rows(&rows).expect("sound table");
    assert_eq!(table.loci, names(&["aroA", "clonal_complex"]));
    assert_eq!(table.profiles.get(&5), Some(&vec![1, 2]));
}

#[test]
fn annotation_column_is_told_by_its_exact_name() {
    let rows = vec![
        row(&["ST", "aroA", "Clonal_Complex"]),
        row(&["5", "1", "2"]),
    ];
    let table = profiles_from_rows(&rows).expect("sound table");
    assert_eq!(table.loci, names(&["aroA", "Clonal_Complex"]));
    assert_eq!(table.profiles.get(&5), Some(&vec![1, 2]));
}

#[test]
fn row_order_does_not_change_the_table() {
    let header = row(&["ST", "aroA", "cpn60"]);
    let data = vec![row(&["5", "1", "2"]), row(&["6", "3", "3"]), row(&["7", "9", "8"])];
    let forward = vec![header.clone(), data[0].clone(), data[1].clone(), data[2].clone()];
    let backward = vec![header.clone(), data[2].clone(), data[1].clone(), data[0].clone()];
    let first = profiles_from_rows(&forward).expect("sound table");
    let second = profiles_from_rows(&backward).expect("sound table");
    assert_eq!(first.loci, second.loci);
    assert_eq!(first.profiles, second.profiles);
    assert_eq!(first.profiles.len(), 3);
}
