//! What the window shows of the model: the recipe grid and cards, parameter
//! hints and initial values, and the rows of the Settings panel.
use vstd::prelude::*;
use crate::just_client::{JustParam, JustRecipe};
use crate::layout::{
    default_color_text, distinct_names, first_entry, find_entry, lemma_fresh_layout_follows_justfile,
    recipe_names, spec_synced, EntryModel, LayoutConfig, RecipeViewEntry,
};
use crate::text::{ascii_lower, chars_of, int_order, is_int_order, push_str, string_from_chars, to_ascii_lower};
use crate::theme::{parse_color, spec_parse_color, Color};

verus! {

/// The placeholder shown in a parameter's field.
pub open spec fn spec_param_hint(p: JustParam) -> Seq<char> {
    if p.variadic {
        "(space-separated)"@
    } else if p.has_default {
        seq!['['] + p.default_value@ + seq![']']
    } else {
        "(required)"@
    }
}

/// The placeholder shown in a parameter's field: `(space-separated)` for a
/// variadic one, `[default]` for one with a default, else `(required)`.
pub fn param_hint(p: &JustParam) -> (r: String)
    ensures
        r@ == spec_param_hint(*p),
{
    if p.variadic {
        "(space-separated)".to_owned()
    } else if p.has_default {
        let mut v: Vec<char> = Vec::new();
        v.push('[');
        push_str(&mut v, p.default_value.as_str());
        v.push(']');
        assert(v@ =~= seq!['['] + p.default_value@ + seq![']']);
        string_from_chars(&v)
    } else {
        "(required)".to_owned()
    }
}

/// The value a parameter's field starts with: its default, or empty.
pub open spec fn initial_value(p: JustParam) -> Seq<char> {
    if p.has_default {
        p.default_value@
    } else {
        Seq::<char>::empty()
    }
}

/// The starting value of every parameter field, per recipe.
pub fn initial_param_values(recipes: &[JustRecipe]) -> (r: Vec<Vec<String>>)
    ensures
        r@.len() == recipes@.len(),
        forall|i: int|
            0 <= i < r@.len() ==> (#[trigger] r@[i])@.len() == recipes@[i].params@.len() && forall|j: int|
                0 <= j < r@[i]@.len() ==> (#[trigger] r@[i]@[j])@ == initial_value(recipes@[i].params@[j]),
{
    let mut out: Vec<Vec<String>> = Vec::new();
    let mut i: usize = 0;
    while i < recipes.len()
        invariant
            i <= recipes.len(),
            out@.len() == i,
            forall|a: int|
                0 <= a < i ==> (#[trigger] out@[a])@.len() == recipes@[a].params@.len() && forall|j: int|
                    0 <= j < out@[a]@.len() ==> (#[trigger] out@[a]@[j])@ == initial_value(recipes@[a].params@[j]),
        decreases recipes.len() - i,
    {
        let r = &recipes[i];
        let mut row: Vec<String> = Vec::new();
        let mut j: usize = 0;
        while j < r.params.len()
            invariant
                j <= r.params.len(),
                row@.len() == j,
                forall|b: int| 0 <= b < j ==> (#[trigger] row@[b])@ == initial_value(r.params@[b]),
            decreases r.params.len() - j,
        {
            let p = &r.params[j];
            let v = if p.has_default {
                p.default_value.clone()
            } else {
                String::new()
            };
            row.push(v);
            j = j + 1;
        }
        out.push(row);
        i = i + 1;
    }
    out
}

/// Stores `text` as the value of parameter `pi` of recipe `ri`; out-of-range
/// indices change nothing.
pub fn set_param_value(values: &mut Vec<Vec<String>>, ri: usize, pi: usize, text: &str)
    ensures
        final(values)@.len() == old(values)@.len(),
        forall|i: int|
            0 <= i < final(values)@.len() ==> (#[trigger] final(values)@[i])@.len() == old(values)@[i]@.len(),
        forall|i: int, j: int|
            0 <= i < final(values)@.len() && 0 <= j < final(values)@[i]@.len() ==> (#[trigger] final(values)@[i]@[j])@ == if i == ri && j == pi {
                text@
            } else {
                old(values)@[i]@[j]@
            },
{
    if ri < values.len() && pi < values[ri].len() {
        let mut row = values.remove(ri);
        let ghost old_row = row@;
        row.set(pi, text.to_owned());
        values.insert(ri, row);
        assert forall|i: int| 0 <= i < values@.len() implies (#[trigger] values@[i])@.len() == old(values)@[i]@.len() by {
            if i < ri {
                assert(values@[i] == old(values)@[i]);
            } else if i > ri {
                assert(values@[i] == old(values)@[i]);
            }
        }
        assert forall|i: int, j: int| 0 <= i < values@.len() && 0 <= j < values@[i]@.len() implies (#[trigger] values@[i]@[j])@ == if i == ri && j == pi {
            text@
        } else {
            old(values)@[i]@[j]@
        } by {
            if i != ri {
                assert(values@[i] == old(values)@[i]);
            }
        }
    }
}

/// `a` and `b` are equal ignoring ASCII case.
pub open spec fn eq_ignore_ascii_case(a: Seq<char>, b: Seq<char>) -> bool {
    a.len() == b.len() && forall|i: int| 0 <= i < a.len() ==> ascii_lower(#[trigger] a[i]) == ascii_lower(b[i])
}

fn eq_ignore_case_exec(a: &Vec<char>, b: &Vec<char>) -> (r: bool)
    ensures
        r == eq_ignore_ascii_case(a@, b@),
{
    if a.len() != b.len() {
        return false;
    }
    let mut i: usize = 0;
    while i < a.len()
        invariant
            i <= a.len() == b.len(),
            forall|k: int| 0 <= k < i ==> ascii_lower(#[trigger] a@[k]) == ascii_lower(b@[k]),
        decreases a.len() - i,
    {
        if to_ascii_lower(a[i]) != to_ascii_lower(b[i]) {
            return false;
        }
        i = i + 1;
    }
    true
}

/// One row of the Settings panel.
#[derive(Debug)]
pub struct SettingData {
    pub key: String,
    pub value: String,
    /// The value is `true` or `false` (any case): shown as a toggle.
    pub is_bool: bool,
    pub bool_value: bool,
}

pub open spec fn true_word() -> Seq<char> {
    seq!['t', 'r', 'u', 'e']
}

pub open spec fn false_word() -> Seq<char> {
    seq!['f', 'a', 'l', 's', 'e']
}

/// The Settings row for `key=value`: a toggle when the value is exactly
/// `true` or `false` in any case, else a text field.
pub fn setting_data(key: &str, value: &str) -> (r: SettingData)
    ensures
        r.key@ == key@,
        r.value@ == value@,
        r.is_bool == (eq_ignore_ascii_case(value@, true_word()) || eq_ignore_ascii_case(value@, false_word())),
        r.bool_value == (r.is_bool && eq_ignore_ascii_case(value@, true_word())),
{
    let v = chars_of(value);
    let t = vec!['t', 'r', 'u', 'e'];
    let f = vec!['f', 'a', 'l', 's', 'e'];
    assert(t@ =~= true_word());
    assert(f@ =~= false_word());
    let is_true = eq_ignore_case_exec(&v, &t);
    let is_bool = is_true || eq_ignore_case_exec(&v, &f);
    SettingData { key: key.to_owned(), value: value.to_owned(), is_bool, bool_value: is_bool && is_true }
}

/// Where recipe `name` is listed: its entry's position, 0 without one.
pub open spec fn order_key(es: Seq<EntryModel>, name: Seq<char>) -> int {
    match first_entry(es, name) {
        Some(i) => es[i as int].position,
        None => 0,
    }
}

/// The display keys of `recipes`.
pub open spec fn order_keys(es: Seq<EntryModel>, recipes: Seq<JustRecipe>) -> Seq<int> {
    recipes.map_values(|r: JustRecipe| order_key(es, r.name@))
}

/// Recipe `name` is shown: it has no entry, or its entry is shown.
pub open spec fn is_shown(es: Seq<EntryModel>, name: Seq<char>) -> bool {
    match first_entry(es, name) {
        Some(i) => es[i as int].shown,
        None => true,
    }
}

/// Recipe `r` appears on the Recipes tab.
pub open spec fn is_visible(es: Seq<EntryModel>, r: JustRecipe, show_private: bool) -> bool {
    is_shown(es, r.name@) && (!r.is_private || show_private)
}

/// The indices of `order` whose recipe satisfies `keep`, in order.
pub open spec fn select_indices(order: Seq<usize>, keep: spec_fn(usize) -> bool) -> Seq<usize>
    decreases order.len(),
{
    if order.len() == 0 {
        seq![]
    } else if keep(order.last()) {
        select_indices(order.drop_last(), keep).push(order.last())
    } else {
        select_indices(order.drop_last(), keep)
    }
}

/// Indices (into the recipe list) of what the Recipes tab lists.
pub struct RecipeLists {
    /// Every recipe, in display order (for the "Select recipes" checklist).
    pub all: Vec<usize>,
    /// Visible recipes without parameters: grid buttons.
    pub grid: Vec<usize>,
    /// Visible recipes with parameters: full-width cards.
    pub cards: Vec<usize>,
}

fn key_of(entries: &Vec<RecipeViewEntry>, name: &str) -> (r: i32)
    ensures
        r as int == order_key(entries@.map_values(|e: RecipeViewEntry| e@), name@),
{
    match find_entry(entries, name) {
        Some(i) => {
            assert(entries@.map_values(|e: RecipeViewEntry| e@)[i as int] == entries@[i as int]@);
            entries[i].position
        },
        None => 0,
    }
}

fn shown_exec(entries: &Vec<RecipeViewEntry>, name: &str) -> (r: bool)
    ensures
        r == is_shown(entries@.map_values(|e: RecipeViewEntry| e@), name@),
{
    match find_entry(entries, name) {
        Some(i) => {
            assert(entries@.map_values(|e: RecipeViewEntry| e@)[i as int] == entries@[i as int]@);
            entries[i].shown
        },
        None => true,
    }
}

/// What the Recipes tab lists: all recipes ordered by their layout
/// position (stably; recipes without an entry count as position 0), and,
/// among the visible ones (shown, and private ones only on request), those
/// without parameters for the grid and those with parameters for cards.
pub fn recipe_lists(recipes: &[JustRecipe], layout: &LayoutConfig, show_private: bool) -> (r: RecipeLists)
    ensures
        is_int_order(order_keys(layout@, recipes@), r.all@),
        r.grid@ == select_indices(
            r.all@,
            |i: usize| is_visible(layout@, recipes@[i as int], show_private) && recipes@[i as int].params@.len() == 0,
        ),
        r.cards@ == select_indices(
            r.all@,
            |i: usize| is_visible(layout@, recipes@[i as int], show_private) && recipes@[i as int].params@.len() > 0,
        ),
{
    let mut keys: Vec<i32> = Vec::new();
    let mut i: usize = 0;
    while i < recipes.len()
        invariant
            i <= recipes.len(),
            keys@.len() == i,
            forall|k: int| 0 <= k < i ==> (#[trigger] keys@[k]) as int == order_key(layout@, recipes@[k].name@),
        decreases recipes.len() - i,
    {
        keys.push(key_of(&layout.recipe, recipes[i].name.as_str()));
        i = i + 1;
    }
    assert(keys@.map_values(|k: i32| k as int) =~= order_keys(layout@, recipes@));
    let all = int_order(&keys);
    let ghost keep_grid = |i: usize| is_visible(layout@, recipes@[i as int], show_private) && recipes@[i as int].params@.len() == 0;
    let ghost keep_cards = |i: usize| is_visible(layout@, recipes@[i as int], show_private) && recipes@[i as int].params@.len() > 0;
    let mut grid: Vec<usize> = Vec::new();
    let mut cards: Vec<usize> = Vec::new();
    let mut k: usize = 0;
    while k < all.len()
        invariant
            k <= all.len() == recipes.len(),
            forall|m: int| 0 <= m < all@.len() ==> #[trigger] all@[m] < recipes.len(),
            grid@ == select_indices(all@.take(k as int), keep_grid),
            cards@ == select_indices(all@.take(k as int), keep_cards),
            keep_grid == (|i: usize| is_visible(layout@, recipes@[i as int], show_private) && recipes@[i as int].params@.len() == 0),
            keep_cards == (|i: usize| is_visible(layout@, recipes@[i as int], show_private) && recipes@[i as int].params@.len() > 0),
        decreases all.len() - k,
    {
        assert(all@.take(k + 1).drop_last() =~= all@.take(k as int));
        assert(all@.take(k + 1).last() == all@[k as int]);
        let j = all[k];
        let r = &recipes[j];
        let visible = shown_exec(&layout.recipe, r.name.as_str()) && (!r.is_private || show_private);
        if visible && r.params.len() == 0 {
            grid.push(j);
        } else if visible {
            cards.push(j);
        }
        k = k + 1;
    }
    assert(all@.take(all.len() as int) =~= all@);
    RecipeLists { all, grid, cards }
}

/// The accent color of recipe `name`: its entry's color, or the first
/// palette color without an entry.
pub fn recipe_color(layout: &LayoutConfig, name: &str) -> (r: Color)
    ensures
        r == spec_parse_color(
            match first_entry(layout@, name@) {
                Some(i) => layout@[i as int].color,
                None => default_color_text(),
            },
        ),
{
    match find_entry(&layout.recipe, name) {
        Some(i) => {
            assert(layout@[i as int] == layout.recipe@[i as int]@);
            parse_color(layout.recipe[i].color.as_str())
        },
        None => {
            let d = crate::layout::default_color();
            parse_color(d.as_str())
        },
    }
}

proof fn lemma_increasing_is_identity(order: Seq<usize>, n: int)
    requires
        order.len() == n,
        forall|k: int| 0 <= k < n ==> #[trigger] order[k] < n,
        forall|a: int, b: int| 0 <= a < b < n ==> #[trigger] order[a] < #[trigger] order[b],
    ensures
        forall|k: int| 0 <= k < n ==> #[trigger] order[k] == k,
{
    assert forall|k: int| 0 <= k < n implies #[trigger] order[k] >= k by {
        lemma_lower(order, n, k);
    }
    assert forall|k: int| 0 <= k < n implies #[trigger] order[k] <= k by {
        lemma_upper(order, n, k);
    }
}

proof fn lemma_lower(order: Seq<usize>, n: int, k: int)
    requires
        order.len() == n,
        0 <= k < n,
        forall|a: int, b: int| 0 <= a < b < n ==> #[trigger] order[a] < #[trigger] order[b],
    ensures
        order[k] >= k,
    decreases k,
{
    if k > 0 {
        lemma_lower(order, n, k - 1);
        assert(order[k - 1] < order[k]);
    }
}

proof fn lemma_upper(order: Seq<usize>, n: int, k: int)
    requires
        order.len() == n,
        0 <= k < n,
        forall|j: int| 0 <= j < n ==> #[trigger] order[j] < n,
        forall|a: int, b: int| 0 <= a < b < n ==> #[trigger] order[a] < #[trigger] order[b],
    ensures
        order[k] <= k,
    decreases n - k,
{
    if k < n - 1 {
        lemma_upper(order, n, k + 1);
        assert(order[k] < order[k + 1]);
    } else {
        assert(order[k] < n);
    }
}

/// With a fresh layout (none yet, or the layout file deleted), the recipes
/// are listed in justfile order and none is hidden.
pub proof fn lemma_fresh_layout_lists_justfile_order(recipes: Seq<JustRecipe>, order: Seq<usize>)
    requires
        distinct_names(recipe_names(recipes)),
        is_int_order(order_keys(spec_synced(Seq::empty(), recipes), recipes), order),
    ensures
        forall|k: int| 0 <= k < order.len() ==> #[trigger] order[k] == k,
        forall|k: int| 0 <= k < recipes.len() ==> is_shown(spec_synced(Seq::empty(), recipes), #[trigger] recipes[k].name@),
{
    let es = spec_synced(Seq::empty(), recipes);
    let keys = order_keys(es, recipes);
    assert forall|k: int| 0 <= k < recipes.len() implies #[trigger] keys[k] == k && is_shown(es, recipes[k].name@) by {
        lemma_fresh_layout_follows_justfile(recipes, k);
    }
    let n = recipes.len() as int;
    assert forall|a: int, b: int| 0 <= a < b < n implies #[trigger] order[a] < #[trigger] order[b] by {
        assert(keys[order[a] as int] == order[a]);
        assert(keys[order[b] as int] == order[b]);
    }
    lemma_increasing_is_identity(order, n);
    assert forall|k: int| 0 <= k < recipes.len() implies is_shown(es, #[trigger] recipes[k].name@) by {
        assert(keys[k] == k);
    }
}

} // verus!
