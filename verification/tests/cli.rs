use rain_stream::cli::{csv_path_from_args, AppError};

#[test]
fn one_argument_is_the_csv_path() {
    let args = vec!["rain-stream".to_string(), "input.csv".to_string()];
    assert_eq!(csv_path_from_args(&args).unwrap(), "input.csv");
}

#[test]
fn missing_or_extra_arguments_are_refused() {
    let none = vec!["rain-stream".to_string()];
    assert!(matches!(csv_path_from_args(&none), Err(AppError::ArgsLengthError)));
    let two = vec!["rain-stream".to_string(), "a.csv".to_string(), "b.csv".to_string()];
    assert!(matches!(csv_path_from_args(&two), Err(AppError::ArgsLengthError)));
}
