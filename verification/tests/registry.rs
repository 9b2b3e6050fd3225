use style_registry::registry::StyleRegistry;
use style_registry::style::ColorOpacity;
use style_registry::style::Style;
use style_registry::style::derived_opacity;

// Fixed-point scales of 255: 204 is a default factor of four fifths.
const DEFAULT: u8 = 204;

#[test]
fn derived_opacity_exact_values() {
    assert_eq!(derived_opacity(255, 255), 255);
    assert_eq!(derived_opacity(0, 204), 0);
    assert_eq!(derived_opacity(204, 0), 0);
    assert_eq!(derived_opacity(128, 204), 102);
    assert_eq!(derived_opacity(64, 204), 51);
    assert_eq!(derived_opacity(96, 204), 76);
    assert_eq!(derived_opacity(1, 255), 1);
}

#[test]
fn default_style_absent_when_never_set() {
    let registry = StyleRegistry::new();
    assert_eq!(registry.default_style(), None);
    assert!(registry.defined_styles().is_empty());
}

#[test]
fn default_style_returns_stored_value() {
    let mut registry = StyleRegistry::new();
    let style = Style::new(Some(1), Some(2));
    registry.set_style(style, 0, DEFAULT);
    assert_eq!(registry.default_style(), Some(style));
}

#[test]
fn opacity_applied_at_definition() {
    let mut registry = StyleRegistry::new();
    let opacity = ColorOpacity { background: 128, foreground: 96 };
    registry.set_opacity(5, opacity, DEFAULT);

    registry.set_style(Style::new(Some(5), None), 10, DEFAULT);
    let stored = registry.defined_styles()[&10];
    assert_eq!(stored.background_opacity, Some(102));
    assert_eq!(stored.foreground_opacity, None);

    registry.set_style(Style::new(None, Some(5)), 11, DEFAULT);
    let stored = registry.defined_styles()[&11];
    assert_eq!(stored.background_opacity, None);
    assert_eq!(stored.foreground_opacity, Some(76));
}

#[test]
fn definition_skips_colors_without_opacity() {
    let mut registry = StyleRegistry::new();
    registry.set_style(Style::new(Some(3), Some(4)), 1, DEFAULT);
    let stored = registry.defined_styles()[&1];
    assert_eq!(stored.background_opacity, None);
    assert_eq!(stored.foreground_opacity, None);
}

#[test]
fn propagation_on_opacity_change() {
    let mut registry = StyleRegistry::new();
    registry.set_style(Style::new(Some(7), None), 1, DEFAULT);
    registry.set_style(Style::new(None, Some(7)), 2, DEFAULT);

    let opacity = ColorOpacity { background: 128, foreground: 96 };
    registry.set_opacity(7, opacity, DEFAULT);

    let background_user = registry.defined_styles()[&1];
    assert_eq!(background_user.background_opacity, Some(102));
    assert_eq!(background_user.foreground_opacity, None);

    let foreground_user = registry.defined_styles()[&2];
    assert_eq!(foreground_user.background_opacity, None);
    assert_eq!(foreground_user.foreground_opacity, Some(76));
}

#[test]
fn set_opacity_updates_both_sides_of_a_dual_style() {
    let mut registry = StyleRegistry::new();
    registry.set_style(Style::new(Some(5), Some(5)), 1, DEFAULT);
    let opacity = ColorOpacity { background: 128, foreground: 96 };
    registry.set_opacity(5, opacity, DEFAULT);
    let stored = registry.defined_styles()[&1];
    assert_eq!(stored.background_opacity, Some(102));
    assert_eq!(stored.foreground_opacity, Some(76));
}

#[test]
fn no_interference_between_colors() {
    let mut registry = StyleRegistry::new();
    registry.set_style(Style::new(Some(1), Some(1)), 10, DEFAULT);
    registry.set_style(Style::new(Some(2), Some(2)), 20, DEFAULT);
    let untouched_before = registry.defined_styles()[&20];

    let opacity = ColorOpacity { background: 50, foreground: 60 };
    registry.set_opacity(1, opacity, DEFAULT);

    assert_eq!(registry.defined_styles()[&20], untouched_before);
    let updated = registry.defined_styles()[&10];
    assert_eq!(updated.background_opacity, Some(derived_opacity(50, DEFAULT)));
    assert_eq!(updated.foreground_opacity, Some(derived_opacity(60, DEFAULT)));
}

#[test]
fn replacement_is_total_but_old_index_entries_remain() {
    let mut registry = StyleRegistry::new();
    registry.set_style(Style::new(Some(4), None), 3, DEFAULT);
    registry.set_style(Style::new(Some(9), None), 3, DEFAULT);

    // The redefinition replaced the stored value outright.
    let stored = registry.defined_styles()[&3];
    assert_eq!(stored.background, Some(9));
    assert_eq!(stored.background_opacity, None);
    assert_eq!(registry.defined_styles().len(), 1);

    // The reverse-index entry from the first definition is never pruned, so
    // a later opacity change for the abandoned color still rewrites the
    // style's background opacity.
    let opacity = ColorOpacity { background: 128, foreground: 0 };
    registry.set_opacity(4, opacity, DEFAULT);
    let stored = registry.defined_styles()[&3];
    assert_eq!(stored.background, Some(9));
    assert_eq!(stored.background_opacity, Some(102));
}

#[test]
fn example_scenario_single_color() {
    let mut registry = StyleRegistry::new();
    let first = ColorOpacity { background: 128, foreground: 128 };
    registry.set_opacity(5, first, DEFAULT);

    registry.set_style(Style::new(Some(5), None), 10, DEFAULT);
    assert_eq!(
        registry.defined_styles()[&10].background_opacity,
        Some(derived_opacity(128, DEFAULT))
    );

    // A style on another color takes no part in what follows.
    registry.set_style(Style::new(Some(6), None), 11, DEFAULT);

    let second = ColorOpacity { background: 64, foreground: 64 };
    registry.set_opacity(5, second, DEFAULT);
    assert_eq!(
        registry.defined_styles()[&10].background_opacity,
        Some(derived_opacity(64, DEFAULT))
    );
    assert_eq!(registry.defined_styles()[&11].background_opacity, None);
}

#[test]
fn global_rescale_touches_only_configured_colors() {
    let mut registry = StyleRegistry::new();
    let opacity = ColorOpacity { background: 128, foreground: 96 };
    registry.set_opacity(1, opacity, DEFAULT);
    registry.set_style(Style::new(Some(1), None), 10, DEFAULT);
    registry.set_style(Style::new(Some(2), None), 20, DEFAULT);

    registry.update_all_styles_opacity(102);

    // The configured color is rescaled at the new factor.
    assert_eq!(
        registry.defined_styles()[&10].background_opacity,
        Some(derived_opacity(128, 102))
    );
    // The unconfigured color keeps the opacity it had: none.
    assert_eq!(registry.defined_styles()[&20].background_opacity, None);
}

#[test]
fn global_rescale_updates_both_sides_of_a_dual_style() {
    let mut registry = StyleRegistry::new();
    registry.set_style(Style::new(Some(5), Some(5)), 1, DEFAULT);
    let opacity = ColorOpacity { background: 128, foreground: 96 };
    registry.set_opacity(5, opacity, DEFAULT);

    registry.update_all_styles_opacity(102);

    // The foreground pass collects against the background-updated table, so
    // a style using the color on both sides ends with both sides at the new
    // factor — neither write undoes the other.
    let stored = registry.defined_styles()[&1];
    assert_eq!(stored.background_opacity, Some(derived_opacity(128, 102)));
    assert_eq!(stored.foreground_opacity, Some(derived_opacity(96, 102)));
}

#[test]
fn global_rescale_is_idempotent() {
    let mut registry = StyleRegistry::new();
    let first = ColorOpacity { background: 128, foreground: 96 };
    let second = ColorOpacity { background: 64, foreground: 32 };
    registry.set_opacity(1, first, DEFAULT);
    registry.set_opacity(2, second, DEFAULT);
    registry.set_style(Style::new(Some(1), None), 10, DEFAULT);
    registry.set_style(Style::new(None, Some(2)), 20, DEFAULT);
    registry.set_style(Style::new(Some(1), Some(2)), 30, DEFAULT);
    registry.set_style(Style::new(Some(3), None), 40, DEFAULT);

    registry.update_all_styles_opacity(102);
    let after_once = registry.defined_styles().clone();
    registry.update_all_styles_opacity(102);
    assert_eq!(registry.defined_styles(), &after_once);
}

#[test]
fn default_registry_is_empty() {
    let registry = StyleRegistry::default();
    assert_eq!(registry.default_style(), None);
    assert!(registry.defined_styles().is_empty());
}
