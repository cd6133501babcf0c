use posemir::io::csv::csv_to_2d_point_i64;
use posemir::io::csv::get_i64_value_at;
use posemir::io::csv::records_to_points;
use posemir::io::csv::CsvError;
use posemir::point_set::point::Point2Di64;

#[test]
fn csv_test_csv_to_int_points() {
    let content = "x, y \n -1, 2 \n 0, 3 \n 2, 1 \n";

    let mut points = csv_to_2d_point_i64(content).unwrap();
    points.sort();

    assert_eq!(Point2Di64 { x: -1, y: 2 }, points[0]);
    assert_eq!(Point2Di64 { x: 0, y: 3 }, points[1]);
    assert_eq!(Point2Di64 { x: 2, y: 1 }, points[2]);
}

#[test]
fn csv_keeps_the_order_of_the_rows_and_ignores_further_columns() {
    let content = "x,y,z\n5,6,a\n-3,+4,b\n";
    assert_eq!(
        Ok(vec![
            Point2Di64 { x: 5, y: 6 },
            Point2Di64 { x: -3, y: 4 }
        ]),
        csv_to_2d_point_i64(content)
    );
}

#[test]
fn csv_with_header_only_gives_no_points() {
    assert_eq!(Ok(Vec::new()), csv_to_2d_point_i64("x,y\n"));
    assert_eq!(Ok(Vec::new()), csv_to_2d_point_i64(""));
}

#[test]
fn csv_reports_a_missing_value() {
    assert_eq!(
        Err(CsvError::MissingValue(1)),
        csv_to_2d_point_i64("x\n1\n")
    );
    assert_eq!(
        Err(CsvError::MissingValue(0)),
        records_to_points(&vec![Vec::new()])
    );
}

#[test]
fn csv_reports_a_value_that_is_no_integer() {
    assert_eq!(
        Err(CsvError::InvalidInteger(0)),
        csv_to_2d_point_i64("x,y\n1.5,2\n")
    );
    assert_eq!(
        Err(CsvError::InvalidInteger(1)),
        csv_to_2d_point_i64("x,y\n1,two\n")
    );
    assert_eq!(
        Err(CsvError::InvalidInteger(1)),
        csv_to_2d_point_i64("x,y\n1,\n")
    );
    assert_eq!(
        Err(CsvError::InvalidInteger(0)),
        csv_to_2d_point_i64("x,y\n9223372036854775808,1\n")
    );
}

#[test]
fn csv_reports_rows_of_unequal_length() {
    assert_eq!(
        Err(CsvError::Malformed),
        csv_to_2d_point_i64("x,y\n1,2\n3,4,5\n")
    );
}

#[test]
fn csv_values_are_trimmed_and_parsed() {
    let record = vec![
        " 12 ".to_string(),
        "\t-7\n".to_string(),
        "+0".to_string(),
        "1 2".to_string(),
        "-".to_string(),
        "-9223372036854775808".to_string(),
    ];
    assert_eq!(Ok(12), get_i64_value_at(&record, 0));
    assert_eq!(Ok(-7), get_i64_value_at(&record, 1));
    assert_eq!(Ok(0), get_i64_value_at(&record, 2));
    assert_eq!(Err(CsvError::InvalidInteger(3)), get_i64_value_at(&record, 3));
    assert_eq!(Err(CsvError::InvalidInteger(4)), get_i64_value_at(&record, 4));
    assert_eq!(Ok(i64::MIN), get_i64_value_at(&record, 5));
    assert_eq!(Err(CsvError::MissingValue(6)), get_i64_value_at(&record, 6));
    assert_eq!(
        "Value missing in a column".to_string(),
        CsvError::MissingValue(6).message()
    );
}
