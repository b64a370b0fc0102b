use scratchgen::settings::{
    fixed_seed, image_bound, image_weight, output_target, parse_fit, parse_mode, resolve_settings, same_text,
    tile_count, CommandLine, ConfigFile, Fit, Mode,
};

fn defaults() -> CommandLine {
    CommandLine {
        pool: Vec::new(),
        mode: "constrained".to_string(),
        tile_size: 256,
        fit: "cover".to_string(),
        grid_size: 3,
        seed: 0,
        background: "#000000".to_string(),
        allow_repeat_when_pool_small: false,
    }
}

fn empty_file() -> ConfigFile {
    ConfigFile {
        pool: None,
        mode: None,
        tile_size: None,
        fit: None,
        grid_size: None,
        seed: None,
        background: None,
        allow_repeat_when_pool_small: None,
    }
}

#[test]
fn modes_by_name() {
    assert_eq!(parse_mode("independent"), Mode::Independent);
    assert_eq!(parse_mode("without_replacement"), Mode::WithoutReplacement);
    assert_eq!(parse_mode("constrained"), Mode::Constrained);
    assert_eq!(parse_mode("anything"), Mode::Constrained);
}

#[test]
fn fits_by_name() {
    assert_eq!(parse_fit("cover"), Fit::Cover);
    assert_eq!(parse_fit("contain"), Fit::Contain);
    assert_eq!(parse_fit("stretch"), Fit::Stretch);
    assert_eq!(parse_fit("Cover"), Fit::Stretch);
}

#[test]
fn text_equality() {
    assert!(same_text("abc", "abc"));
    assert!(!same_text("abc", "abd"));
}

#[test]
fn defaults_without_file() {
    let s = resolve_settings(defaults(), empty_file());
    assert!(s.pool.is_empty());
    assert_eq!(s.mode, "constrained");
    assert_eq!(s.tile_size, 256);
    assert_eq!(s.fit, "cover");
    assert_eq!(s.grid_size, 3);
    assert_eq!(s.seed, 0);
    assert_eq!(s.background, "#000000");
    assert!(!s.allow_repeat);
}

#[test]
fn file_fills_in_defaults() {
    let file = ConfigFile {
        pool: Some(vec!["images/*".to_string()]),
        mode: Some("independent".to_string()),
        tile_size: Some(64),
        fit: Some("contain".to_string()),
        grid_size: Some(5),
        seed: Some(42),
        background: Some("#ffffff".to_string()),
        allow_repeat_when_pool_small: Some(true),
    };
    let s = resolve_settings(defaults(), file);
    assert_eq!(s.pool, vec!["images/*".to_string()]);
    assert_eq!(s.mode, "independent");
    assert_eq!(s.tile_size, 64);
    assert_eq!(s.fit, "contain");
    assert_eq!(s.grid_size, 5);
    assert_eq!(s.seed, 42);
    assert_eq!(s.background, "#ffffff");
    assert!(s.allow_repeat);
}

#[test]
fn command_line_overrides_file() {
    let mut cli = defaults();
    cli.pool = vec!["a/*.png".to_string()];
    cli.mode = "without_replacement".to_string();
    cli.tile_size = 100;
    cli.fit = "stretch".to_string();
    cli.grid_size = 4;
    cli.seed = 9;
    cli.background = "#123456".to_string();
    let file = ConfigFile {
        pool: Some(vec!["images/*".to_string()]),
        mode: Some("independent".to_string()),
        tile_size: Some(64),
        fit: Some("contain".to_string()),
        grid_size: Some(5),
        seed: Some(42),
        background: Some("#ffffff".to_string()),
        allow_repeat_when_pool_small: Some(false),
    };
    let s = resolve_settings(cli, file);
    assert_eq!(s.pool, vec!["a/*.png".to_string()]);
    assert_eq!(s.mode, "without_replacement");
    assert_eq!(s.tile_size, 100);
    assert_eq!(s.fit, "stretch");
    assert_eq!(s.grid_size, 4);
    assert_eq!(s.seed, 9);
    assert_eq!(s.background, "#123456");
    assert!(!s.allow_repeat);
}

#[test]
fn grid_has_at_least_two_per_side() {
    let mut cli = defaults();
    cli.grid_size = 1;
    assert_eq!(resolve_settings(cli, empty_file()).grid_size, 2);
    let mut file = empty_file();
    file.grid_size = Some(0);
    assert_eq!(resolve_settings(defaults(), file).grid_size, 2);
    assert_eq!(tile_count(3), 9);
}

#[test]
fn seeds_and_outputs() {
    assert_eq!(fixed_seed(0), None);
    assert_eq!(fixed_seed(42), Some(42));
    assert_eq!(output_target(Some(1), Some(2)), Some(1));
    assert_eq!(output_target(None, Some(2)), Some(2));
    assert_eq!(output_target::<u8>(None, None), None);
}

#[test]
fn weights_prefer_file_name_and_bounds_prefer_path() {
    assert_eq!(image_weight(Some(1.5), Some(2.5)), Some(2.5));
    assert_eq!(image_weight(Some(1.5), None), Some(1.5));
    assert_eq!(image_bound(Some(1), Some(2), 0), 1);
    assert_eq!(image_bound(None, Some(2), 0), 2);
    assert_eq!(image_bound(None, None, 7), 7);
}
