use neovide::resize::resize_command;
use neovide::resize::ResizeCommand;
use neovide::settings::settings_file_name;
use neovide::settings::CacheSettings;

#[test]
fn resize_with_zero_dimension_drops_the_event() {
    assert_eq!(resize_command(0, 500, 0, 25), None);
    assert_eq!(resize_command(500, 0, 50, 0), None);
}

#[test]
fn resize_round_trip_is_stable() {
    // Forward computation: an 80 by 24 cell grid with a 10.0 by 20.0 pixel
    // font becomes an 800 by 481 pixel window (the height carries a one
    // pixel rounding guard).
    let font_width = 10.0f32;
    let font_height = 20.0f32;
    let pixel_width = (80f32 * font_width) as u32;
    let pixel_height = (24f32 * font_height + 1.0) as u32;
    assert_eq!(pixel_width, 800);
    assert_eq!(pixel_height, 481);

    // Inverse computation on the first resize notification, with the
    // matching one pixel bias: the grid size comes back unchanged.
    let grid_width = ((pixel_width + 1) as f32 / font_width) as u32;
    let grid_height = ((pixel_height + 1) as f32 / font_height) as u32;
    let command = resize_command(pixel_width, pixel_height, grid_width, grid_height);
    assert_eq!(
        command,
        Some(ResizeCommand {
            width: 80,
            height: 24,
        })
    );
}

#[test]
fn cache_settings_start_with_no_path() {
    let settings = CacheSettings::default();
    assert_eq!(settings.stdpath, "");
}

#[test]
fn settings_file_has_a_fixed_name() {
    assert_eq!(settings_file_name(), "neovide_settings.txt");
}
