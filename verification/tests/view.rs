use justgui::just_client::{JustParam, JustRecipe};
use justgui::layout::{sync_entries, LayoutConfig, RecipeViewEntry};
use justgui::theme::Color;
use justgui::view::{initial_param_values, param_hint, recipe_color, recipe_lists, set_param_value, setting_data};

fn param(name: &str, default: Option<&str>, variadic: bool) -> JustParam {
    JustParam {
        name: name.to_string(),
        default_value: default.unwrap_or("").to_string(),
        has_default: default.is_some(),
        variadic,
    }
}

fn recipe(name: &str, params: Vec<JustParam>, private: bool) -> JustRecipe {
    JustRecipe { name: name.to_string(), doc: String::new(), params, is_private: private }
}

#[test]
fn hints_for_each_kind_of_param() {
    assert_eq!(param_hint(&param("a", None, true)), "(space-separated)");
    assert_eq!(param_hint(&param("a", Some("dev"), false)), "[dev]");
    assert_eq!(param_hint(&param("a", None, false)), "(required)");
}

#[test]
fn settings_rows_detect_booleans_in_any_case() {
    let d = setting_data("DEBUG", "TrUe");
    assert!(d.is_bool && d.bool_value);
    assert_eq!(d.key, "DEBUG");
    assert_eq!(d.value, "TrUe");
    let d = setting_data("X", "false");
    assert!(d.is_bool && !d.bool_value);
    let d = setting_data("X", "yes");
    assert!(!d.is_bool && !d.bool_value);
    let d = setting_data("X", "true ");
    assert!(!d.is_bool);
}

#[test]
fn param_values_start_at_defaults_and_can_be_edited() {
    let rs = vec![recipe("a", vec![param("x", Some("1"), false), param("y", None, false)], false), recipe("b", vec![], false)];
    let mut v = initial_param_values(&rs);
    assert_eq!(v, vec![vec!["1".to_string(), String::new()], vec![]]);
    set_param_value(&mut v, 0, 1, "typed");
    set_param_value(&mut v, 1, 0, "ignored");
    set_param_value(&mut v, 5, 0, "ignored");
    assert_eq!(v, vec![vec!["1".to_string(), "typed".to_string()], vec![]]);
}

#[test]
fn lists_follow_layout_order_and_visibility() {
    let rs = vec![
        recipe("build", vec![], false),
        recipe("deploy", vec![param("env", Some("dev"), false)], false),
        recipe("_secret", vec![], true),
        recipe("clean", vec![], false),
    ];
    let mut layout = LayoutConfig::default();
    sync_entries(&mut layout, &rs);
    let l = recipe_lists(&rs, &layout, false);
    assert_eq!(l.all, vec![0, 1, 2, 3]);
    assert_eq!(l.grid, vec![0, 3]);
    assert_eq!(l.cards, vec![1]);
    let l = recipe_lists(&rs, &layout, true);
    assert_eq!(l.grid, vec![0, 2, 3]);

    layout.swap_positions("build", "clean");
    layout.set_shown("deploy", false);
    let l = recipe_lists(&rs, &layout, false);
    assert_eq!(l.all, vec![3, 1, 2, 0]);
    assert_eq!(l.grid, vec![3, 0]);
    assert!(l.cards.is_empty());
}

#[test]
fn recipes_without_entry_sort_first_stably() {
    let rs = vec![recipe("a", vec![], false), recipe("b", vec![], false), recipe("c", vec![], false)];
    let layout = LayoutConfig {
        recipe: vec![RecipeViewEntry { name: "a".to_string(), shown: true, position: 3, color: "#ff6666".to_string() }],
    };
    let l = recipe_lists(&rs, &layout, false);
    assert_eq!(l.all, vec![1, 2, 0]);
    assert_eq!(recipe_color(&layout, "a"), Color { red: 0xff, green: 0x66, blue: 0x66, alpha: 255 });
    assert_eq!(recipe_color(&layout, "b"), Color { red: 0x7e, green: 0xc8, blue: 0xff, alpha: 255 });
}
