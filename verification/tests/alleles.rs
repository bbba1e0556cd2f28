use mlst_typing::alleles::{
    best_allele, calls_from_rows, hits_from_rows, ordered_calls, parse_res, AlleleCall, Hit,
};
use mlst_typing::error::TypingError;

fn hit(locus: &str, allele: u16, score: u32) -> Hit {
    Hit { locus: locus.to_string(), allele, score }
}

fn call(locus: &str, allele: u16) -> AlleleCall {
    AlleleCall { locus: locus.to_string(), allele }
}

fn record(fields: &[&str]) -> Vec<String> {
    let mut out = Vec::new();
    for field in fields {
        out.push(field.to_string());
    }
    out
}

#[test]
fn highest_score_wins_and_a_tie_keeps_the_first() {
    let hits = vec![hit("A", 1, 10), hit("A", 2, 15), hit("A", 2, 15), hit("A", 3, 5)];
    assert_eq!(best_allele(&hits, &"A".to_string()), Some(2));
}

#[test]
fn tie_between_different_alleles_keeps_the_first_seen() {
    let hits = vec![hit("A", 4, 20), hit("A", 9, 20), hit("A", 1, 20)];
    assert_eq!(best_allele(&hits, &"A".to_string()), Some(4));
    let hits = vec![hit("A", 9, 20), hit("A", 4, 20)];
    assert_eq!(best_allele(&hits, &"A".to_string()), Some(9));
}

#[test]
fn later_hit_wins_only_with_a_strictly_greater_score() {
    let hits = vec![hit("A", 1, 10), hit("A", 2, 11)];
    assert_eq!(best_allele(&hits, &"A".to_string()), Some(2));
    let hits = vec![hit("A", 1, 10), hit("A", 2, 10)];
    assert_eq!(best_allele(&hits, &"A".to_string()), Some(1));
    let hits = vec![hit("A", 1, 10), hit("A", 2, 9)];
    assert_eq!(best_allele(&hits, &"A".to_string()), Some(1));
}

#[test]
fn score_of_zero_still_counts_as_evidence() {
    let hits = vec![hit("A", 3, 0), hit("A", 4, 0)];
    assert_eq!(best_allele(&hits, &"A".to_string()), Some(3));
}

#[test]
fn hits_of_other_loci_do_not_count() {
    let hits = vec![hit("A", 1, 10), hit("B", 2, 99), hit("a", 3, 50)];
    assert_eq!(best_allele(&hits, &"A".to_string()), Some(1));
    assert_eq!(best_allele(&hits, &"B".to_string()), Some(2));
    assert_eq!(best_allele(&hits, &"C".to_string()), None);
    assert_eq!(best_allele(&vec![], &"A".to_string()), None);
}

#[test]
fn calls_follow_the_schema_and_leave_out_loci_without_hits() {
    let schema = vec!["aroA".to_string(), "cpn60".to_string(), "dpr".to_string()];
    let hits = vec![hit("dpr", 7, 5), hit("aroA", 1, 10), hit("gki", 3, 80), hit("aroA", 2, 30)];
    assert_eq!(ordered_calls(&schema, &hits), vec![call("aroA", 2), call("dpr", 7)]);
    assert_eq!(ordered_calls(&schema, &vec![]), vec![]);
    assert_eq!(ordered_calls(&vec![], &hits), vec![]);
}

#[test]
fn hit_rows_are_read_in_order() {
    let rows = vec![
        record(&["aroA-1", " 10 ", "x"]),
        record(&["cpn60-12", "4294967295", "y"]),
        record(&["a-3-b", "0", "z"]),
    ];
    assert_eq!(
        hits_from_rows(&rows),
        Ok(vec![hit("aroA", 1, 10), hit("cpn60", 12, 4294967295), hit("a", 3, 0)])
    );
    assert_eq!(hits_from_rows(&vec![]), Ok(vec![]));
}

#[test]
fn identifier_without_a_dash_is_malformed() {
    let rows = vec![record(&["aroA-1", "10"]), record(&["cpn60", "10"])];
    assert_eq!(
        hits_from_rows(&rows),
        Err(TypingError::MalformedHitRecord { row: 1, field: "cpn60".to_string() })
    );
}

#[test]
fn hit_with_a_non_numeric_allele_is_malformed() {
    let rows = vec![record(&["aroA-x", "10"])];
    assert_eq!(
        hits_from_rows(&rows),
        Err(TypingError::MalformedHitRecord { row: 0, field: "aroA-x".to_string() })
    );
    let rows = vec![record(&["aroA- 1", "10"])];
    assert_eq!(
        hits_from_rows(&rows),
        Err(TypingError::MalformedHitRecord { row: 0, field: "aroA- 1".to_string() })
    );
    let rows = vec![record(&["aroA-70000", "10"])];
    assert_eq!(
        hits_from_rows(&rows),
        Err(TypingError::MalformedHitRecord { row: 0, field: "aroA-70000".to_string() })
    );
}

#[test]
fn non_numeric_score_is_malformed() {
    let rows = vec![record(&["aroA-1", "10"]), record(&["aroA-2", " high "])];
    assert_eq!(
        hits_from_rows(&rows),
        Err(TypingError::MalformedHitRecord { row: 1, field: " high ".to_string() })
    );
    let rows = vec![record(&["aroA-2", "-3"])];
    assert_eq!(
        hits_from_rows(&rows),
        Err(TypingError::MalformedHitRecord { row: 0, field: "-3".to_string() })
    );
    let rows = vec![record(&["aroA-2", "4294967296"])];
    assert_eq!(
        hits_from_rows(&rows),
        Err(TypingError::MalformedHitRecord { row: 0, field: "4294967296".to_string() })
    );
}

#[test]
fn score_is_looked_at_before_the_identifier() {
    let rows = vec![record(&["aroA", "x"])];
    assert_eq!(
        hits_from_rows(&rows),
        Err(TypingError::MalformedHitRecord { row: 0, field: "x".to_string() })
    );
}

#[test]
fn record_with_a_missing_field_is_malformed() {
    let rows = vec![record(&["aroA-1"])];
    assert_eq!(
        hits_from_rows(&rows),
        Err(TypingError::MalformedHitRecord { row: 0, field: "aroA-1".to_string() })
    );
    let rows = vec![record(&["aroA-1", "3"]), record(&[])];
    assert_eq!(
        hits_from_rows(&rows),
        Err(TypingError::MalformedHitRecord { row: 1, field: "".to_string() })
    );
}

#[test]
fn malformed_record_fails_even_where_it_would_not_win() {
    let schema = vec!["aroA".to_string()];
    let rows = vec![record(&["aroA-1", "100"]), record(&["aroA-x", "1"])];
    assert_eq!(
        calls_from_rows(&rows, &schema),
        Err(TypingError::MalformedHitRecord { row: 1, field: "aroA-x".to_string() })
    );
    let rows = vec![record(&["aroA-1", "100"]), record(&["other-x", "1"])];
    assert_eq!(
        calls_from_rows(&rows, &schema),
        Err(TypingError::MalformedHitRecord { row: 1, field: "other-x".to_string() })
    );
}

#[test]
fn calls_from_rows_resolves_each_locus() {
    let schema = vec!["A".to_string(), "B".to_string(), "C".to_string()];
    let rows = vec![
        record(&["A-1", "10"]),
        record(&["C-4", "7"]),
        record(&["A-2", "15"]),
        record(&["A-2", "15"]),
        record(&["A-3", "5"]),
        record(&["C-5", "7"]),
    ];
    assert_eq!(calls_from_rows(&rows, &schema), Ok(vec![call("A", 2), call("C", 4)]));
}

#[test]
fn parse_res_passes_over_the_header_row() {
    let data = b"#Template\tScore\tExpected\naroA-1\t     120\t1\naroA-3\t     240\t1\ndpr-9\t      14\t0\n";
    let schema = vec!["aroA".to_string(), "cpn60".to_string(), "dpr".to_string()];
    assert_eq!(parse_res(data, &schema), Ok(vec![call("aroA", 3), call("dpr", 9)]));
}

#[test]
fn parse_res_of_a_header_alone_calls_nothing() {
    let schema = vec!["aroA".to_string()];
    assert_eq!(parse_res(b"#Template\tScore\n", &schema), Ok(vec![]));
    assert_eq!(parse_res(b"", &schema), Ok(vec![]));
}

#[test]
fn parse_res_reports_a_malformed_record() {
    let data = b"#Template\tScore\naroA-1\t12\naroA_2\t13\n";
    let schema = vec!["aroA".to_string()];
    assert_eq!(
        parse_res(data, &schema),
        Err(TypingError::MalformedHitRecord { row: 1, field: "aroA_2".to_string() })
    );
}

#[test]
fn parse_res_reports_rows_of_unequal_length_as_unreadable() {
    let data = b"#Template\tScore\naroA-1\t12\t5\n";
    let schema = vec!["aroA".to_string()];
    assert!(matches!(parse_res(data, &schema), Err(TypingError::UnreadableTable { .. })));
}

#[test]
fn parse_res_reports_a_malformed_record_that_comes_before_unreadable_text() {
    let data = b"#Template\tScore\naroA\t12\naroA-2\t13\t1\n";
    let schema = vec!["aroA".to_string()];
    assert_eq!(
        parse_res(data, &schema),
        Err(TypingError::MalformedHitRecord { row: 0, field: "aroA".to_string() })
    );
}

#[test]
fn parse_res_reports_text_that_is_no_utf8_as_unreadable() {
    let data = b"#Template\tScore\naroA-1\t12\n\xffroA-2\t13\n";
    let schema = vec!["aroA".to_string()];
    assert!(matches!(parse_res(data, &schema), Err(TypingError::UnreadableTable { .. })));
}

#[test]
fn parse_res_takes_the_score_from_the_second_column() {
    let data = b"#Template\tScore\tExpected\tTemplate_length\naroA-1\t5\t900\t1\naroA-2\t6\t1\t900\n";
    let schema = vec!["aroA".to_string()];
    assert_eq!(parse_res(data, &schema), Ok(vec![call("aroA", 2)]));
}
