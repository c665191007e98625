use neovide::geometry::format_dimensions;
use neovide::geometry::parse_dimension_str;
use neovide::geometry::window_geometry;
use neovide::geometry::window_geometry_or_default;
use neovide::geometry::window_geometry_saved;
use neovide::geometry::GeometrySource;

#[test]
fn parse_valid_dimensions() {
    assert_eq!(parse_dimension_str("100x50"), Ok((100, 50)));
    assert_eq!(parse_dimension_str("1x1"), Ok((1, 1)));
    assert_eq!(parse_dimension_str("120x110"), Ok((120, 110)));
}

#[test]
fn parse_zero_dimension_is_rejected() {
    assert_eq!(
        parse_dimension_str("0x50"),
        Err("Invalid geometry: 0x50\nWindow dimensions should be greater than 0.\nValid format: <width>x<height>".to_string())
    );
    assert_eq!(
        parse_dimension_str("50x0"),
        Err("Invalid geometry: 50x0\nWindow dimensions should be greater than 0.\nValid format: <width>x<height>".to_string())
    );
}

#[test]
fn parse_non_numeric_component_is_rejected() {
    assert_eq!(
        parse_dimension_str("abcx50"),
        Err("Invalid geometry: abcx50\nValid format: <width>x<height>".to_string())
    );
}

#[test]
fn parse_wrong_component_count_is_rejected() {
    assert_eq!(
        parse_dimension_str("100"),
        Err("Invalid geometry: 100\nValid format: <width>x<height>".to_string())
    );
    assert_eq!(
        parse_dimension_str("10x20x30"),
        Err("Invalid geometry: 10x20x30\nValid format: <width>x<height>".to_string())
    );
    assert_eq!(
        parse_dimension_str(""),
        Err("Invalid geometry: \nValid format: <width>x<height>".to_string())
    );
}

#[test]
fn parse_overflowing_component_is_rejected() {
    assert_eq!(
        parse_dimension_str("18446744073709551615x1"),
        Ok((u64::MAX, 1))
    );
    assert_eq!(
        parse_dimension_str("18446744073709551616x1"),
        Err("Invalid geometry: 18446744073709551616x1\nValid format: <width>x<height>".to_string())
    );
}

#[test]
fn format_then_parse_round_trip() {
    let cases: [(u64, u64); 5] = [(1, 1), (80, 24), (120, 110), (u64::MAX, 1), (12345, 678)];
    for (w, h) in cases {
        let rendered = format_dimensions(w, h);
        assert_eq!(rendered, format!("{}x{}", w, h));
        assert_eq!(parse_dimension_str(&rendered), Ok((w, h)));
    }
}

#[test]
fn cli_first_geometry_argument_wins() {
    let args = vec![
        "neovide".to_string(),
        "--geometry=80x24".to_string(),
        "--geometry=10x10".to_string(),
    ];
    assert_eq!(window_geometry(&args), Some(Ok((80, 24))));
}

#[test]
fn cli_without_geometry_argument() {
    let args = vec!["neovide".to_string(), "--noIdle".to_string()];
    assert_eq!(window_geometry(&args), None);
}

#[test]
fn cli_malformed_geometry_argument() {
    let args = vec!["--geometry=40".to_string()];
    assert_eq!(
        window_geometry(&args),
        Some(Err(
            "Invalid geometry: 40\nValid format: <width>x<height>".to_string()
        ))
    );
}

#[test]
fn saved_ignored_when_remembering_disabled() {
    let read = Some(Ok("window_dimensions=90x30".to_string()));
    assert_eq!(window_geometry_saved(false, &read), None);
}

#[test]
fn saved_first_matching_line_wins() {
    let content = "something_else=4\nwindow_dimensions=100x50\nwindow_dimensions=7x7";
    let read = Some(Ok(content.to_string()));
    assert_eq!(window_geometry_saved(true, &read), Some(Ok((100, 50))));
}

#[test]
fn saved_without_matching_line() {
    let read = Some(Ok("something_else=4\n".to_string()));
    assert_eq!(window_geometry_saved(true, &read), None);
}

#[test]
fn saved_read_failure_is_surfaced() {
    let read = Some(Err("could not read settings file".to_string()));
    assert_eq!(
        window_geometry_saved(true, &read),
        Some(Err("could not read settings file".to_string()))
    );
}

#[test]
fn saved_cache_path_unavailable_is_surfaced() {
    assert_eq!(
        window_geometry_saved(true, &None),
        Some(Err("Cache directory path is not available".to_string()))
    );
}

#[test]
fn saved_malformed_record_is_an_error() {
    let read = Some(Ok("window_dimensions=0x50".to_string()));
    assert_eq!(
        window_geometry_saved(true, &read),
        Some(Err(
            "Invalid geometry: 0x50\nWindow dimensions should be greater than 0.\nValid format: <width>x<height>".to_string()
        ))
    );
}

#[test]
fn resolution_prefers_valid_cli_argument() {
    let args = vec!["--geometry=80x24".to_string()];
    let read = Some(Ok("window_dimensions=120x110".to_string()));
    let r = window_geometry_or_default(&args, true, &read, 100, 50);
    assert_eq!((r.width, r.height), (80, 24));
    assert_eq!(r.source, GeometrySource::CliArgument);
    assert!(r.recovered_error.is_none());
}

#[test]
fn resolution_uses_persisted_record() {
    let args = vec!["neovide".to_string()];
    let read = Some(Ok("window_dimensions=120x110".to_string()));
    let r = window_geometry_or_default(&args, true, &read, 100, 50);
    assert_eq!((r.width, r.height), (120, 110));
    assert_eq!(r.source, GeometrySource::PersistedFile);
    assert!(r.recovered_error.is_none());
}

#[test]
fn resolution_ignores_persisted_record_when_disabled() {
    let args: Vec<String> = vec![];
    let read = Some(Ok("window_dimensions=120x110".to_string()));
    let r = window_geometry_or_default(&args, false, &read, 100, 50);
    assert_eq!((r.width, r.height), (100, 50));
    assert_eq!(r.source, GeometrySource::Default);
    assert!(r.recovered_error.is_none());
}

#[test]
fn resolution_of_freshly_created_file_uses_its_record() {
    let args: Vec<String> = vec![];
    let read = Some(Ok(neovide::settings::default_settings_file_content().to_string()));
    let r = window_geometry_or_default(&args, true, &read, 100, 50);
    assert_eq!((r.width, r.height), (120, 110));
    assert_eq!(r.source, GeometrySource::PersistedFile);
}

#[test]
fn resolution_malformed_cli_skips_persisted_state() {
    let args = vec!["--geometry=0x9".to_string()];
    let read = Some(Ok("window_dimensions=120x110".to_string()));
    let r = window_geometry_or_default(&args, true, &read, 100, 50);
    assert_eq!((r.width, r.height), (100, 50));
    assert_eq!(r.source, GeometrySource::Default);
    assert_eq!(
        r.recovered_error,
        Some("Invalid geometry: 0x9\nWindow dimensions should be greater than 0.\nValid format: <width>x<height>".to_string())
    );
}

#[test]
fn resolution_read_failure_falls_back_to_default() {
    let args: Vec<String> = vec![];
    let read = Some(Err("could not read settings file".to_string()));
    let r = window_geometry_or_default(&args, true, &read, 100, 50);
    assert_eq!((r.width, r.height), (100, 50));
    assert_eq!(r.source, GeometrySource::Default);
    assert_eq!(
        r.recovered_error,
        Some("could not read settings file".to_string())
    );
}
