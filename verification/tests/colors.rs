use mindmap::colors::{depth_fill_rgb, DepthColorConfig};
use mindmap::node::Rgb;

#[test]
fn default_cycling() {
    let config = DepthColorConfig::new();
    assert_eq!(config.get_fill_index(0), 0);
    assert_eq!(config.get_fill_index(5), 5);
    assert_eq!(config.get_fill_index(40), 0); // wraps at 40
    assert_eq!(config.get_fill_index(41), 1);
}

#[test]
fn override_takes_precedence() {
    let mut config = DepthColorConfig::new();
    config.set_fill_index(0, 10); // depth%8==0 maps to index 10
    assert_eq!(config.get_fill_index(0), 10);
    assert_eq!(config.get_fill_index(8), 10); // same depth%8
    assert_eq!(config.get_fill_index(1), 1); // unaffected
}

#[test]
fn preview_takes_precedence_over_override() {
    let mut config = DepthColorConfig::new();
    config.set_fill_index(0, 10);
    config.set_preview(Some((0, 20)));
    assert_eq!(config.get_fill_index(0), 20);
    assert_eq!(config.get_fill_index(8), 20); // same depth%8
    config.set_preview(None);
    assert_eq!(config.get_fill_index(0), 10); // back to override
}

#[test]
fn reset_clears_overrides() {
    let mut config = DepthColorConfig::new();
    config.set_fill_index(0, 10);
    assert!(config.has_overrides());
    config.reset_all();
    assert!(!config.has_overrides());
    assert_eq!(config.get_fill_index(0), 0);
}

#[test]
fn override_index_is_taken_modulo_palette() {
    let mut config = DepthColorConfig::new();
    config.set_fill_index(13, 45);
    assert_eq!(config.get_fill_index(5), 5);
    assert_eq!(config.get_fill_index(21), 5);
    assert_eq!(config.get_fill_index(3), 3);
}

#[test]
fn preview_index_is_taken_modulo_palette() {
    let mut config = DepthColorConfig::default();
    config.set_preview(Some((2, 83)));
    assert_eq!(config.get_fill_index(10), 3);
    assert_eq!(config.get_fill_index(11), 11);
    assert!(!config.has_overrides());
}

#[test]
fn palette_lookup_wraps() {
    assert_eq!(depth_fill_rgb(0), Rgb { r: 255, g: 250, b: 214 });
    assert_eq!(depth_fill_rgb(39), Rgb { r: 128, g: 134, b: 200 });
    assert_eq!(depth_fill_rgb(41), Rgb { r: 214, g: 236, b: 255 });
    assert_eq!(depth_fill_rgb(25), Rgb { r: 108, g: 182, b: 240 });
}
