//! Which recipes the Recipes tab shows, in what order and with what accent
//! color, per project. The file that holds it (`justgui.layout.toml`) is
//! written wholesale by the application; this module keeps the entries.
use vstd::prelude::*;
use crate::just_client::JustRecipe;
use crate::text::same_text;

verus! {

/// One recipe's place on the Recipes tab.
#[derive(Debug, Clone, PartialEq)]
pub struct RecipeViewEntry {
    pub name: String,
    pub shown: bool,
    /// Display order, lower first.
    pub position: i32,
    pub color: String,
}

/// A layout entry as the contracts see it.
pub struct EntryModel {
    pub name: Seq<char>,
    pub shown: bool,
    pub position: int,
    pub color: Seq<char>,
}

impl View for RecipeViewEntry {
    type V = EntryModel;

    open spec fn view(&self) -> EntryModel {
        EntryModel {
            name: self.name@,
            shown: self.shown,
            position: self.position as int,
            color: self.color@,
        }
    }
}

/// The per-project layout: one entry per recipe ever seen.
#[derive(Debug, Clone, PartialEq)]
pub struct LayoutConfig {
    pub recipe: Vec<RecipeViewEntry>,
}

impl View for LayoutConfig {
    type V = Seq<EntryModel>;

    open spec fn view(&self) -> Seq<EntryModel> {
        self.recipe@.map_values(|e: RecipeViewEntry| e@)
    }
}

impl Default for LayoutConfig {
    fn default() -> (r: Self)
        ensures
            r@ == Seq::<EntryModel>::empty(),
    {
        let r = LayoutConfig { recipe: Vec::new() };
        assert(r@ =~= Seq::<EntryModel>::empty());
        r
    }
}

/// The first color of the palette, given to recipes that have none yet.
pub open spec fn default_color_text() -> Seq<char> {
    seq!['#', '7', 'e', 'c', '8', 'f', 'f']
}

/// The accent color a new entry gets.
pub fn default_color() -> (r: String)
    ensures
        r@ == default_color_text(),
{
    let mut s = String::new();
    s.push('#');
    s.push('7');
    s.push('e');
    s.push('c');
    s.push('8');
    s.push('f');
    s.push('f');
    assert(s@ =~= default_color_text());
    s
}

/// Whether a new entry is shown.
pub fn default_shown() -> (r: bool)
    ensures
        r,
{
    true
}

/// Some entry of `es` is for `name`.
pub open spec fn has_entry(es: Seq<EntryModel>, name: Seq<char>) -> bool {
    exists|i: int| 0 <= i < es.len() && (#[trigger] es[i]).name == name
}

/// The largest position in the non-empty `es`.
pub open spec fn max_position(es: Seq<EntryModel>) -> int
    decreases es.len(),
{
    if es.len() <= 1 {
        es[0].position
    } else {
        let rest = max_position(es.drop_last());
        if es.last().position > rest {
            es.last().position
        } else {
            rest
        }
    }
}

/// The position after the largest one in `es` (0 for no entries).
pub open spec fn next_position(es: Seq<EntryModel>) -> int {
    if es.len() == 0 {
        0
    } else {
        max_position(es) + 1
    }
}

/// A fresh entry: shown, at `position`, with the default color.
pub open spec fn new_entry(name: Seq<char>, position: int) -> EntryModel {
    EntryModel { name, shown: true, position, color: default_color_text() }
}

/// The entries after adding, in order, one for each of `names` that has none
/// yet, at positions `next`, `next + 1`, ...
pub open spec fn with_entries(es: Seq<EntryModel>, names: Seq<Seq<char>>, next: int) -> Seq<EntryModel>
    decreases names.len(),
{
    if names.len() == 0 {
        es
    } else if has_entry(es, names[0]) {
        with_entries(es, names.drop_first(), next)
    } else {
        with_entries(es.push(new_entry(names[0], next)), names.drop_first(), next + 1)
    }
}

/// The names of `recipes`.
pub open spec fn recipe_names(recipes: Seq<JustRecipe>) -> Seq<Seq<char>> {
    recipes.map_values(|r: JustRecipe| r.name@)
}

/// The entries after `sync_entries`.
pub open spec fn spec_synced(es: Seq<EntryModel>, recipes: Seq<JustRecipe>) -> Seq<EntryModel> {
    with_entries(es, recipe_names(recipes), next_position(es))
}

pub proof fn lemma_max_position(es: Seq<EntryModel>)
    requires
        es.len() > 0,
    ensures
        forall|i: int| 0 <= i < es.len() ==> (#[trigger] es[i]).position <= max_position(es),
        exists|i: int| 0 <= i < es.len() && max_position(es) == (#[trigger] es[i]).position,
    decreases es.len(),
{
    if es.len() > 1 {
        lemma_max_position(es.drop_last());
        assert forall|i: int| 0 <= i < es.len() implies (#[trigger] es[i]).position <= max_position(es) by {
            if i < es.len() - 1 {
                assert(es[i] == es.drop_last()[i]);
            }
        }
        if es.last().position <= max_position(es.drop_last()) {
            let j = choose|j: int| 0 <= j < es.drop_last().len() && max_position(es.drop_last()) == (#[trigger] es.drop_last()[j]).position;
            assert(es[j] == es.drop_last()[j]);
        } else {
            assert(es[es.len() - 1] == es.last());
        }
    } else {
        assert(es[0].position == max_position(es));
    }
}

/// Number of entries `with_entries` adds.
pub open spec fn added_count(es: Seq<EntryModel>, names: Seq<Seq<char>>, next: int) -> int {
    with_entries(es, names, next).len() - es.len()
}

pub proof fn lemma_with_entries_grows(es: Seq<EntryModel>, names: Seq<Seq<char>>, next: int)
    ensures
        with_entries(es, names, next).len() >= es.len(),
        es.is_prefix_of(with_entries(es, names, next)),
    decreases names.len(),
{
    if names.len() > 0 {
        if has_entry(es, names[0]) {
            lemma_with_entries_grows(es, names.drop_first(), next);
        } else {
            lemma_with_entries_grows(
                es.push(new_entry(names[0], next)),
                names.drop_first(),
                next + 1,
            );
        }
    }
}

/// Index of the first entry for `name`.
pub open spec fn first_entry(es: Seq<EntryModel>, name: Seq<char>) -> Option<nat>
    decreases es.len(),
{
    if es.len() == 0 {
        None
    } else if es[0].name == name {
        Some(0)
    } else {
        match first_entry(es.drop_first(), name) {
            Some(i) => Some(i + 1),
            None => None,
        }
    }
}

pub proof fn lemma_first_entry(es: Seq<EntryModel>, name: Seq<char>)
    ensures
        first_entry(es, name) matches Some(i) ==> i < es.len() && es[i as int].name == name
            && forall|k: int| 0 <= k < i ==> (#[trigger] es[k]).name != name,
        first_entry(es, name) is None ==> forall|k: int|
            0 <= k < es.len() ==> (#[trigger] es[k]).name != name,
        first_entry(es, name) is Some <==> has_entry(es, name),
    decreases es.len(),
{
    if es.len() > 0 && es[0].name != name {
        lemma_first_entry(es.drop_first(), name);
        assert forall|k: int| 1 <= k < es.len() implies #[trigger] es[k] == es.drop_first()[k - 1] by {
        }
        if has_entry(es, name) {
            let k = choose|k: int| 0 <= k < es.len() && (#[trigger] es[k]).name == name;
            assert(es.drop_first()[k - 1].name == name);
        }
    }
}

proof fn lemma_first_entry_at(es: Seq<EntryModel>, name: Seq<char>, j: int)
    requires
        0 <= j <= es.len(),
        forall|k: int| 0 <= k < j ==> (#[trigger] es[k]).name != name,
        j < es.len() ==> es[j].name == name,
    ensures
        j < es.len() ==> first_entry(es, name) == Some(j as nat),
        j == es.len() ==> first_entry(es, name) is None,
{
    lemma_first_entry(es, name);
    match first_entry(es, name) {
        Some(i) => {
            if (i as int) < j {
                assert(es[i as int].name != name);
            } else if (i as int) > j {
                assert(es[j].name != name);
            }
        },
        None => {
            if j < es.len() {
                assert(es[j].name != name);
            }
        },
    }
}

/// Index of the first entry for `name`, if any.
pub fn find_entry(entries: &Vec<RecipeViewEntry>, name: &str) -> (r: Option<usize>)
    ensures
        r matches Some(i) ==> i < entries.len() && first_entry(
            entries@.map_values(|e: RecipeViewEntry| e@),
            name@,
        ) == Some(i as nat),
        r is None ==> first_entry(entries@.map_values(|e: RecipeViewEntry| e@), name@) is None,
{
    let ghost es = entries@.map_values(|e: RecipeViewEntry| e@);
    let mut i: usize = 0;
    while i < entries.len()
        invariant
            i <= entries.len(),
            es == entries@.map_values(|e: RecipeViewEntry| e@),
            forall|k: int| 0 <= k < i ==> (#[trigger] es[k]).name != name@,
        decreases entries.len() - i,
    {
        assert(es[i as int] == entries@[i as int]@);
        if same_text(entries[i].name.as_str(), name) {
            proof {
                lemma_first_entry_at(es, name@, i as int);
            }
            return Some(i);
        }
        i = i + 1;
    }
    proof {
        lemma_first_entry_at(es, name@, i as int);
    }
    None
}

/// Gives every recipe that has no entry yet one: shown, at the next free
/// position (after the largest one), with the first palette color. Entries
/// of recipes that are gone are kept, so a recipe that comes back keeps its
/// place and color.
pub fn sync_entries(cfg: &mut LayoutConfig, recipes: &[JustRecipe])
    requires
        old(cfg)@.len() > 0 ==> max_position(old(cfg)@) < i32::MAX,
        next_position(old(cfg)@) + added_count(
            old(cfg)@,
            recipe_names(recipes@),
            next_position(old(cfg)@),
        ) <= i32::MAX,
    ensures
        final(cfg)@ == spec_synced(old(cfg)@, recipes@),
{
    let ghost es0 = cfg@;
    let ghost names = recipe_names(recipes@);
    let ghost next0 = next_position(es0);
    let mut next: i32 = 0;
    if cfg.recipe.len() > 0 {
        let mut m: i32 = cfg.recipe[0].position;
        let mut i: usize = 1;
        assert(es0.take(1).len() == 1);
        assert(max_position(es0.take(1)) == es0[0].position);
        while i < cfg.recipe.len()
            invariant
                1 <= i <= cfg.recipe.len(),
                es0 == cfg@,
                m as int == max_position(es0.take(i as int)),
            decreases cfg.recipe.len() - i,
        {
            assert(es0.take(i + 1).drop_last() =~= es0.take(i as int));
            assert(es0.take(i + 1).last() == cfg.recipe@[i as int]@);
            let p = cfg.recipe[i].position;
            if p > m {
                m = p;
            }
            i = i + 1;
        }
        assert(es0.take(i as int) =~= es0);
        next = m + 1;
    }
    let mut k: usize = 0;
    assert(names.skip(0) =~= names);
    while k < recipes.len()
        invariant
            k <= recipes.len(),
            names == recipe_names(recipes@),
            next0 + added_count(es0, names, next0) <= i32::MAX,
            with_entries(es0, names, next0) == with_entries(cfg@, names.skip(k as int), next as int),
            next as int == next0 + (cfg@.len() - es0.len()),
            cfg@.len() >= es0.len(),
        decreases recipes.len() - k,
    {
        let ghost rest = names.skip(k as int);
        assert(rest[0] == recipes@[k as int].name@);
        assert(rest.drop_first() =~= names.skip(k + 1));
        let name = &recipes[k].name;
        match find_entry(&cfg.recipe, name.as_str()) {
            Some(_) => {
                proof {
                    lemma_first_entry(cfg@, name@);
                }
            },
            None => {
                proof {
                    lemma_first_entry(cfg@, name@);
                    let es1 = cfg@.push(new_entry(name@, next as int));
                    lemma_with_entries_grows(es1, rest.drop_first(), next + 1);
                }
                let entry = RecipeViewEntry {
                    name: name.clone(),
                    shown: true,
                    position: next,
                    color: default_color(),
                };
                let ghost before = cfg@;
                cfg.recipe.push(entry);
                assert(cfg@ =~= before.push(new_entry(name@, next as int)));
                next = next + 1;
            },
        }
        k = k + 1;
    }
    assert(names.skip(k as int) =~= Seq::<Seq<char>>::empty());
}

proof fn lemma_has_entry_prefix(a: Seq<EntryModel>, b: Seq<EntryModel>, name: Seq<char>)
    requires
        a.is_prefix_of(b),
        has_entry(a, name),
    ensures
        has_entry(b, name),
{
    let i = choose|i: int| 0 <= i < a.len() && (#[trigger] a[i]).name == name;
    assert(b[i] == a[i]);
}

proof fn lemma_with_entries_covers(es: Seq<EntryModel>, names: Seq<Seq<char>>, next: int)
    ensures
        forall|k: int| 0 <= k < names.len() ==> has_entry(with_entries(es, names, next), #[trigger] names[k]),
    decreases names.len(),
{
    if names.len() > 0 {
        let es1 = if has_entry(es, names[0]) {
            es
        } else {
            es.push(new_entry(names[0], next))
        };
        let n1 = if has_entry(es, names[0]) {
            next
        } else {
            next + 1
        };
        lemma_with_entries_covers(es1, names.drop_first(), n1);
        lemma_with_entries_grows(es1, names.drop_first(), n1);
        if !has_entry(es, names[0]) {
            assert(es1[es.len() as int].name == names[0]);
        }
        lemma_has_entry_prefix(es1, with_entries(es, names, next), names[0]);
        assert forall|k: int| 0 <= k < names.len() implies has_entry(
            with_entries(es, names, next),
            #[trigger] names[k],
        ) by {
            if k > 0 {
                assert(names[k] == names.drop_first()[k - 1]);
            }
        }
    }
}

proof fn lemma_with_entries_nothing_new(es: Seq<EntryModel>, names: Seq<Seq<char>>, next: int)
    requires
        forall|k: int| 0 <= k < names.len() ==> has_entry(es, #[trigger] names[k]),
    ensures
        with_entries(es, names, next) == es,
    decreases names.len(),
{
    if names.len() > 0 {
        assert(has_entry(es, names[0]));
        assert forall|k: int| 0 <= k < names.drop_first().len() implies has_entry(
            es,
            #[trigger] names.drop_first()[k],
        ) by {
            assert(names.drop_first()[k] == names[k + 1]);
        }
        lemma_with_entries_nothing_new(es, names.drop_first(), next);
    }
}

proof fn lemma_with_entries_new_positions(es: Seq<EntryModel>, names: Seq<Seq<char>>, next: int)
    ensures
        forall|i: int|
            es.len() <= i < with_entries(es, names, next).len() ==> (#[trigger] with_entries(
                es,
                names,
                next,
            )[i]).position == next + (i - es.len()) && with_entries(es, names, next)[i].shown
                && with_entries(es, names, next)[i].color == default_color_text(),
    decreases names.len(),
{
    if names.len() > 0 {
        if has_entry(es, names[0]) {
            lemma_with_entries_new_positions(es, names.drop_first(), next);
            assert(with_entries(es, names, next) == with_entries(es, names.drop_first(), next));
        } else {
            let es1 = es.push(new_entry(names[0], next));
            lemma_with_entries_new_positions(es1, names.drop_first(), next + 1);
            lemma_with_entries_grows(es1, names.drop_first(), next + 1);
            let r = with_entries(es, names, next);
            assert(r == with_entries(es1, names.drop_first(), next + 1));
            assert(r[es.len() as int] == es1[es.len() as int]);
            assert forall|i: int| es.len() <= i < r.len() implies {
                &&& (#[trigger] r[i]).position == next + (i - es.len())
                &&& r[i].shown
                &&& r[i].color == default_color_text()
            } by {
                if i == es.len() {
                    assert(r[i] == es1[i]);
                } else {
                    assert(r[i] == with_entries(es1, names.drop_first(), next + 1)[i]);
                }
            }
        }
    }
}

/// Syncing never drops or changes an entry: the old entries come first,
/// unchanged, in the same order.
pub proof fn lemma_sync_keeps_entries(es: Seq<EntryModel>, recipes: Seq<JustRecipe>)
    ensures
        es.is_prefix_of(spec_synced(es, recipes)),
{
    lemma_with_entries_grows(es, recipe_names(recipes), next_position(es));
}

/// After syncing, every recipe has an entry.
pub proof fn lemma_sync_covers_recipes(es: Seq<EntryModel>, recipes: Seq<JustRecipe>, k: int)
    requires
        0 <= k < recipes.len(),
    ensures
        has_entry(spec_synced(es, recipes), recipes[k].name@),
{
    lemma_with_entries_covers(es, recipe_names(recipes), next_position(es));
    assert(recipe_names(recipes)[k] == recipes[k].name@);
}

/// Syncing twice with the same recipes changes nothing the second time.
pub proof fn lemma_sync_idempotent(es: Seq<EntryModel>, recipes: Seq<JustRecipe>)
    ensures
        spec_synced(spec_synced(es, recipes), recipes) == spec_synced(es, recipes),
{
    let s = spec_synced(es, recipes);
    lemma_with_entries_covers(es, recipe_names(recipes), next_position(es));
    lemma_with_entries_nothing_new(s, recipe_names(recipes), next_position(s));
}

/// New entries are shown, have the default color, and take consecutive
/// positions after every position in use, so they never share a position
/// with an older entry.
pub proof fn lemma_sync_new_entries(es: Seq<EntryModel>, recipes: Seq<JustRecipe>, i: int)
    requires
        es.len() <= i < spec_synced(es, recipes).len(),
    ensures
        spec_synced(es, recipes)[i].position == next_position(es) + (i - es.len()),
        spec_synced(es, recipes)[i].shown,
        spec_synced(es, recipes)[i].color == default_color_text(),
        forall|j: int| 0 <= j < es.len() ==> (#[trigger] es[j]).position < spec_synced(es, recipes)[i].position,
{
    lemma_with_entries_new_positions(es, recipe_names(recipes), next_position(es));
    let e = spec_synced(es, recipes)[i];
    if es.len() > 0 {
        lemma_max_position(es);
    }
}

/// The entries after `set_shown(name, shown)`.
pub open spec fn spec_set_shown(es: Seq<EntryModel>, name: Seq<char>, shown: bool) -> Seq<EntryModel> {
    match first_entry(es, name) {
        Some(i) => es.update(
            i as int,
            EntryModel { shown, ..es[i as int] },
        ),
        None => es,
    }
}

/// The entries after `set_color(name, color)`.
pub open spec fn spec_set_color(es: Seq<EntryModel>, name: Seq<char>, color: Seq<char>) -> Seq<EntryModel> {
    match first_entry(es, name) {
        Some(i) => es.update(
            i as int,
            EntryModel { color, ..es[i as int] },
        ),
        None => es,
    }
}

/// The entries after `swap_positions(a, b)`: the first entries for `a` and
/// `b` trade positions; nothing changes unless both exist.
pub open spec fn spec_swap_positions(es: Seq<EntryModel>, a: Seq<char>, b: Seq<char>) -> Seq<EntryModel> {
    match (first_entry(es, a), first_entry(es, b)) {
        (Some(i), Some(j)) => es.update(
            i as int,
            EntryModel { position: es[j as int].position, ..es[i as int] },
        ).update(j as int, EntryModel { position: es[i as int].position, ..es[j as int] }),
        _ => es,
    }
}

fn copy_entry(e: &RecipeViewEntry) -> (r: RecipeViewEntry)
    ensures
        r@ == e@,
{
    RecipeViewEntry {
        name: e.name.clone(),
        shown: e.shown,
        position: e.position,
        color: e.color.clone(),
    }
}

impl LayoutConfig {
    /// Shows or hides the recipe `name` (its first entry), if it has one.
    pub fn set_shown(&mut self, name: &str, shown: bool)
        ensures
            final(self)@ == spec_set_shown(old(self)@, name@, shown),
    {
        match find_entry(&self.recipe, name) {
            Some(i) => {
                let mut e = copy_entry(&self.recipe[i]);
                e.shown = shown;
                self.recipe.set(i, e);
                assert(self@ =~= spec_set_shown(old(self)@, name@, shown));
            },
            None => {},
        }
    }

    /// Gives the recipe `name` (its first entry) the accent color `color`,
    /// if it has an entry.
    pub fn set_color(&mut self, name: &str, color: &str)
        ensures
            final(self)@ == spec_set_color(old(self)@, name@, color@),
    {
        match find_entry(&self.recipe, name) {
            Some(i) => {
                let mut e = copy_entry(&self.recipe[i]);
                e.color = color.to_owned();
                self.recipe.set(i, e);
                assert(self@ =~= spec_set_color(old(self)@, name@, color@));
            },
            None => {},
        }
    }

    /// Swaps the display positions of recipes `a` and `b` (a drag of one
    /// onto the other); nothing changes unless both have an entry.
    pub fn swap_positions(&mut self, a: &str, b: &str)
        ensures
            final(self)@ == spec_swap_positions(old(self)@, a@, b@),
    {
        let ia = find_entry(&self.recipe, a);
        let ib = find_entry(&self.recipe, b);
        match (ia, ib) {
            (Some(i), Some(j)) => {
                proof {
                    lemma_first_entry(old(self)@, a@);
                    lemma_first_entry(old(self)@, b@);
                }
                let pi = self.recipe[i].position;
                let pj = self.recipe[j].position;
                let mut ei = copy_entry(&self.recipe[i]);
                ei.position = pj;
                self.recipe.set(i, ei);
                let mut ej = copy_entry(&self.recipe[j]);
                ej.position = pi;
                self.recipe.set(j, ej);
                assert(self@ =~= spec_swap_positions(old(self)@, a@, b@));
            },
            _ => {},
        }
    }

    /// The first entry for `name`, if any.
    pub fn entry(&self, name: &str) -> (r: Option<&RecipeViewEntry>)
        ensures
            match first_entry(self@, name@) {
                Some(i) => r matches Some(e) && e@ == self@[i as int],
                None => r is None,
            },
    {
        match find_entry(&self.recipe, name) {
            Some(i) => Some(&self.recipe[i]),
            None => None,
        }
    }
}

proof fn lemma_first_entry_same_names(es: Seq<EntryModel>, i: int, e: EntryModel, name: Seq<char>)
    requires
        0 <= i < es.len(),
        e.name == es[i].name,
    ensures
        first_entry(es.update(i, e), name) == first_entry(es, name),
{
    let u = es.update(i, e);
    lemma_first_entry(es, name);
    match first_entry(es, name) {
        Some(j) => {
            assert forall|k: int| 0 <= k < j implies (#[trigger] u[k]).name != name by {
                assert(u[k].name == es[k].name);
            }
            assert(u[j as int].name == es[j as int].name);
            lemma_first_entry_at(u, name, j as int);
        },
        None => {
            assert forall|k: int| 0 <= k < u.len() implies (#[trigger] u[k]).name != name by {
                assert(u[k].name == es[k].name);
            }
            lemma_first_entry_at(u, name, u.len() as int);
        },
    }
}

/// Dragging a recipe back onto the one it was swapped with restores the
/// layout: swapping the same two recipes twice changes nothing.
pub proof fn lemma_swap_twice_restores(es: Seq<EntryModel>, a: Seq<char>, b: Seq<char>)
    ensures
        spec_swap_positions(spec_swap_positions(es, a, b), a, b) == es,
{
    lemma_first_entry(es, a);
    lemma_first_entry(es, b);
    match (first_entry(es, a), first_entry(es, b)) {
        (Some(i), Some(j)) => {
            let e1 = EntryModel { position: es[j as int].position, ..es[i as int] };
            let u1 = es.update(i as int, e1);
            let e2 = EntryModel { position: es[i as int].position, ..es[j as int] };
            let u2 = u1.update(j as int, e2);
            lemma_first_entry_same_names(es, i as int, e1, a);
            lemma_first_entry_same_names(es, i as int, e1, b);
            assert(u1[j as int].name == es[j as int].name);
            lemma_first_entry_same_names(u1, j as int, e2, a);
            lemma_first_entry_same_names(u1, j as int, e2, b);
            assert(spec_swap_positions(u2, a, b) =~= es);
        },
        _ => {},
    }
}

/// The names in `names` are pairwise different.
pub open spec fn distinct_names(names: Seq<Seq<char>>) -> bool {
    forall|i: int, j: int| 0 <= i < j < names.len() ==> names[i] != names[j]
}

proof fn lemma_fresh_entries(es: Seq<EntryModel>, names: Seq<Seq<char>>, next: int)
    requires
        distinct_names(names),
        forall|k: int| 0 <= k < names.len() ==> !has_entry(es, #[trigger] names[k]),
    ensures
        with_entries(es, names, next) == es + Seq::new(names.len(), |k: int| new_entry(names[k], next + k)),
    decreases names.len(),
{
    if names.len() == 0 {
        assert(es + Seq::new(names.len(), |k: int| new_entry(names[k], next + k)) =~= es);
    } else {
        let es1 = es.push(new_entry(names[0], next));
        let rest = names.drop_first();
        assert(!has_entry(es, names[0]));
        assert forall|k: int| 0 <= k < rest.len() implies !has_entry(es1, #[trigger] rest[k]) by {
            assert(rest[k] == names[k + 1]);
            assert(!has_entry(es, names[k + 1]));
            if has_entry(es1, rest[k]) {
                let m = choose|m: int| 0 <= m < es1.len() && (#[trigger] es1[m]).name == rest[k];
                if m < es.len() {
                    assert(es1[m] == es[m]);
                } else {
                    assert(names[0] != names[k + 1]);
                }
            }
        }
        assert(distinct_names(rest)) by {
            assert forall|i: int, j: int| 0 <= i < j < rest.len() implies rest[i] != rest[j] by {
                assert(rest[i] == names[i + 1] && rest[j] == names[j + 1]);
            }
        }
        lemma_fresh_entries(es1, rest, next + 1);
        assert(es1 + Seq::new(rest.len(), |k: int| new_entry(rest[k], next + 1 + k)) =~= es + Seq::new(
            names.len(),
            |k: int| new_entry(names[k], next + k),
        ));
    }
}

/// With no layout yet (or after deleting the layout file), syncing gives
/// every recipe a shown entry whose position is its place in the justfile.
pub proof fn lemma_fresh_layout_follows_justfile(recipes: Seq<JustRecipe>, k: int)
    requires
        distinct_names(recipe_names(recipes)),
        0 <= k < recipes.len(),
    ensures
        first_entry(spec_synced(Seq::empty(), recipes), recipes[k].name@) == Some(k as nat),
        spec_synced(Seq::empty(), recipes)[k].position == k,
        spec_synced(Seq::empty(), recipes)[k].shown,
{
    let names = recipe_names(recipes);
    let e: Seq<EntryModel> = Seq::empty();
    assert forall|m: int| 0 <= m < names.len() implies !has_entry(e, #[trigger] names[m]) by {
    }
    lemma_fresh_entries(e, names, 0);
    let s = spec_synced(e, recipes);
    assert(s =~= Seq::new(names.len(), |m: int| new_entry(names[m], m)));
    assert forall|m: int| 0 <= m < k implies (#[trigger] s[m]).name != recipes[k].name@ by {
        assert(s[m].name == names[m]);
        assert(names[k] == recipes[k].name@);
    }
    assert(s[k].name == names[k]);
    lemma_first_entry_at(s, recipes[k].name@, k);
}

} // verus!
