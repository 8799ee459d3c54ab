use sitecrawl::args::{get_depth_from_args, get_pattern_file_from_args, split_elapsed};

#[test]
fn test_depth_parsing() {
    // default when no -d= argument is given
    assert_eq!(get_depth_from_args(vec!["program".to_string()]), 3);

    // plain values
    assert_eq!(
        get_depth_from_args(vec!["program".to_string(), "-d=5".to_string()]),
        5
    );
    assert_eq!(
        get_depth_from_args(vec![
            "program".to_string(),
            "http://example.com".to_string(),
            "-d=2".to_string()
        ]),
        2
    );

    // an unparsable value falls back to the default
    assert_eq!(
        get_depth_from_args(vec!["program".to_string(), "-d=invalid".to_string()]),
        3
    );

    // the first -d= argument wins
    assert_eq!(
        get_depth_from_args(vec![
            "program".to_string(),
            "-d=4".to_string(),
            "-d=6".to_string()
        ]),
        4
    );

    // a negative value does not parse as unsigned and falls back
    assert_eq!(
        get_depth_from_args(vec!["program".to_string(), "-d=-1".to_string()]),
        3
    );
}

#[test]
fn test_pattern_file_parsing() {
    assert_eq!(get_pattern_file_from_args(vec!["program".to_string()]), None);

    assert_eq!(
        get_pattern_file_from_args(vec!["program".to_string(), "-x=patterns.txt".to_string()]),
        Some("patterns.txt".to_string())
    );

    assert_eq!(
        get_pattern_file_from_args(vec![
            "program".to_string(),
            "-x=patterns1.txt".to_string(),
            "-x=patterns2.txt".to_string()
        ]),
        Some("patterns1.txt".to_string())
    );
}

#[test]
fn test_depth_with_plus_sign() {
    // a leading plus is accepted, as the standard number parser does
    assert_eq!(
        get_depth_from_args(vec!["program".to_string(), "-d=+7".to_string()]),
        7
    );
    // overflow falls back to the default
    assert_eq!(
        get_depth_from_args(vec!["program".to_string(), "-d=99999999999".to_string()]),
        3
    );
}

#[test]
fn test_split_elapsed() {
    assert_eq!(split_elapsed(0), (0, 0, 0));
    assert_eq!(split_elapsed(59), (0, 0, 59));
    assert_eq!(split_elapsed(61), (0, 1, 1));
    assert_eq!(split_elapsed(3661), (1, 1, 1));
    assert_eq!(split_elapsed(7325), (2, 2, 5));
}
