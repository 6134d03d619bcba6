use justgui::just_client::JustRecipe;
use justgui::layout::{default_color, default_shown, sync_entries, LayoutConfig, RecipeViewEntry};

fn recipe(name: &str) -> JustRecipe {
    JustRecipe { name: name.to_string(), doc: String::new(), params: vec![], is_private: false }
}

fn entry(name: &str, shown: bool, position: i32, color: &str) -> RecipeViewEntry {
    RecipeViewEntry { name: name.to_string(), shown, position, color: color.to_string() }
}

fn summary(cfg: &LayoutConfig) -> Vec<(String, bool, i32, String)> {
    cfg.recipe.iter().map(|e| (e.name.clone(), e.shown, e.position, e.color.clone())).collect()
}

#[test]
fn defaults() {
    assert_eq!(default_color(), "#7ec8ff");
    assert!(default_shown());
}

#[test]
fn sync_on_empty_layout_adds_every_recipe_in_order() {
    let mut cfg = LayoutConfig::default();
    sync_entries(&mut cfg, &[recipe("b"), recipe("a"), recipe("b")]);
    assert_eq!(
        summary(&cfg),
        vec![("b".to_string(), true, 0, "#7ec8ff".to_string()), ("a".to_string(), true, 1, "#7ec8ff".to_string())]
    );
}

#[test]
fn sync_keeps_old_entries_and_appends_after_largest_position() {
    let mut cfg = LayoutConfig { recipe: vec![entry("gone", false, 7, "#ff6666"), entry("a", true, 2, "#8fd6a0")] };
    sync_entries(&mut cfg, &[recipe("a"), recipe("new1"), recipe("new2")]);
    assert_eq!(cfg.recipe.len(), 4);
    assert_eq!(cfg.recipe[0].name, "gone");
    assert_eq!(cfg.recipe[0].position, 7);
    assert_eq!(cfg.recipe[1].color, "#8fd6a0");
    assert_eq!(cfg.recipe[2].name, "new1");
    assert_eq!(cfg.recipe[2].position, 8);
    assert_eq!(cfg.recipe[3].position, 9);
    let before = summary(&cfg);
    sync_entries(&mut cfg, &[recipe("a"), recipe("new1"), recipe("new2")]);
    assert_eq!(summary(&cfg), before);
}

#[test]
fn sync_with_negative_positions() {
    let mut cfg = LayoutConfig { recipe: vec![entry("x", true, -5, "#c792ea")] };
    sync_entries(&mut cfg, &[recipe("y")]);
    assert_eq!(cfg.recipe[1].position, -4);
}

#[test]
fn set_shown_and_color_touch_first_entry_only() {
    let mut cfg = LayoutConfig { recipe: vec![entry("a", true, 0, "#7ec8ff"), entry("b", true, 1, "#7ec8ff")] };
    cfg.set_shown("b", false);
    cfg.set_color("a", "#ff6666");
    cfg.set_shown("missing", false);
    assert_eq!(
        summary(&cfg),
        vec![("a".to_string(), true, 0, "#ff6666".to_string()), ("b".to_string(), false, 1, "#7ec8ff".to_string())]
    );
    assert_eq!(cfg.entry("b").map(|e| e.shown), Some(false));
    assert!(cfg.entry("zzz").is_none());
}

#[test]
fn swap_positions_trades_positions_and_swapping_back_restores() {
    let mut cfg = LayoutConfig { recipe: vec![entry("a", true, 0, "#7ec8ff"), entry("b", true, 5, "#7ec8ff")] };
    let before = summary(&cfg);
    cfg.swap_positions("a", "b");
    assert_eq!(cfg.recipe[0].position, 5);
    assert_eq!(cfg.recipe[1].position, 0);
    cfg.swap_positions("a", "missing");
    assert_eq!(cfg.recipe[0].position, 5);
    cfg.swap_positions("b", "a");
    assert_eq!(summary(&cfg), before);
    cfg.swap_positions("a", "a");
    assert_eq!(summary(&cfg), before);
}
