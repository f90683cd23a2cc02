//! The configuration screen: the hooks and their actions as a list of lines,
//! a cursor that moves over the categories and actions, and the toggling of
//! the action under the cursor.

use vstd::prelude::*;

use crate::error::HookError;
use crate::hooks::action::{ActionTrait, entries_after_selection};
use crate::hooks::hook::Hook;
use crate::hooks::hooks::Hooks;
use crate::hooks::shell_action::ShellAction;
use crate::hooks::trailer_map::{chars_lt, lemma_lt_asymmetric, lemma_lt_total, lemma_lt_transitive,
    seq_lt};
use crate::repo::config::GitConfig;
use crate::text::{extend_str, from_chars, to_chars};

verus! {

/// A line of the view.
pub enum TreeItem {
    /// An empty line before each category.
    Space,
    /// A category (a hook), by its label.
    Category(String),
    /// An action: its label, the position of its hook and its own position
    /// among the hook's actions.
    Action(String, usize, usize),
}

/// A line of the view, as values.
pub enum ItemView {
    Space,
    Category(Seq<char>),
    Action(Seq<char>, int, int),
}

impl View for TreeItem {
    type V = ItemView;

    open spec fn view(&self) -> ItemView {
        match self {
            TreeItem::Space => ItemView::Space,
            TreeItem::Category(l) => ItemView::Category(l@),
            TreeItem::Action(l, h, a) => ItemView::Action(l@, *h as int, *a as int),
        }
    }
}

/// The lines viewed as values.
pub open spec fn item_views(items: Seq<TreeItem>) -> Seq<ItemView> {
    items.map_values(|t: TreeItem| t@)
}

/// A line the cursor can rest on: a category or an action.
pub open spec fn is_selectable(v: ItemView) -> bool {
    !(v is Space)
}

/// `<id> - <name>`.
pub open spec fn category_label<C: GitConfig>(h: Hook<C>) -> Seq<char> {
    h.spec_id() + seq![' ', '-', ' '] + h.spec_name()
}

/// The mark of an action: blank when not selected, a cross when selected but
/// its command is missing, a check mark otherwise.
pub open spec fn marker<C: GitConfig>(a: ShellAction<C>) -> char {
    if !a.selected() {
        ' '
    } else if !a.available() {
        '\u{2718}'
    } else {
        '\u{2714}'
    }
}

/// `    [<mark>] <name>`.
pub open spec fn action_label<C: GitConfig>(a: ShellAction<C>) -> Seq<char> {
    seq![' ', ' ', ' ', ' ', '['] + seq![marker(a)] + seq![']', ' '] + a.spec_name()
}

/// The display names of the actions of `h`, in the hook's order.
pub open spec fn action_names<C: GitConfig>(h: Hook<C>) -> Seq<Seq<char>> {
    h.spec_actions().pairs().map_values(|p: (Seq<char>, ShellAction<C>)| p.1.spec_name())
}

/// Where `names[j]` goes in `order` (sorted so far): before the first entry
/// from `p` on whose name is greater, else last.
pub open spec fn insert_pos(names: Seq<Seq<char>>, order: Seq<int>, j: int, p: int) -> int
    decreases order.len() - p,
{
    if p >= order.len() {
        order.len() as int
    } else if seq_lt(names[j], names[order[p]]) {
        p
    } else {
        insert_pos(names, order, j, p + 1)
    }
}

/// The positions `0..n` ordered by name; equal names keep their order.
pub open spec fn name_order(names: Seq<Seq<char>>, n: nat) -> Seq<int>
    decreases n,
{
    if n == 0 {
        seq![]
    } else {
        let o = name_order(names, (n - 1) as nat);
        o.insert(insert_pos(names, o, n - 1, 0), n - 1)
    }
}

/// The lines of hook `hi`: a blank line, the category, then its actions by
/// name.
pub open spec fn hook_block<C: GitConfig>(h: Hook<C>, hi: int) -> Seq<ItemView> {
    let acts = h.spec_actions().pairs();
    seq![ItemView::Space, ItemView::Category(category_label(h))] + name_order(
        action_names(h),
        acts.len(),
    ).map_values(|j: int| ItemView::Action(action_label(acts[j].1), hi, j))
}

/// The lines of the first `n` hooks.
pub open spec fn tree_lines<C: GitConfig>(hooks: Seq<(Seq<char>, Hook<C>)>, n: nat) -> Seq<ItemView>
    decreases n,
{
    if n == 0 || n > hooks.len() {
        seq![]
    } else {
        tree_lines(hooks, (n - 1) as nat) + hook_block(hooks[n - 1].1, n - 1)
    }
}

/// The first selectable line at or after `j`.
pub open spec fn first_selectable_from(items: Seq<ItemView>, j: int) -> Option<int>
    decreases items.len() - j,
{
    if j < 0 || j >= items.len() {
        None
    } else if is_selectable(items[j]) {
        Some(j)
    } else {
        first_selectable_from(items, j + 1)
    }
}

/// The last selectable line before `j`.
pub open spec fn last_selectable_before(items: Seq<ItemView>, j: int) -> Option<int>
    decreases j,
{
    if j <= 0 || j > items.len() {
        None
    } else if is_selectable(items[j - 1]) {
        Some(j - 1)
    } else {
        last_selectable_before(items, j - 1)
    }
}

/// The hooks as a list of lines with a cursor.
pub struct HooksTreeView<C> {
    hooks: Hooks<C>,
    items: Vec<TreeItem>,
    selected: usize,
}

/// The label of a category.
fn category_text<C: GitConfig>(h: &Hook<C>) -> (r: String)
    ensures
        r@ == category_label(*h),
{
    let mut v: Vec<char> = Vec::new();
    extend_str(&mut v, h.id());
    v.push(' ');
    v.push('-');
    v.push(' ');
    extend_str(&mut v, h.name());
    assert(v@ =~= category_label(*h));
    from_chars(v.as_slice())
}

/// The label of an action.
fn action_text<C: GitConfig>(a: &ShellAction<C>) -> (r: String)
    ensures
        r@ == action_label(*a),
{
    let m = if !a.is_selected() {
        ' '
    } else if !a.is_available() {
        '\u{2718}'
    } else {
        '\u{2714}'
    };
    let mut v: Vec<char> = Vec::new();
    v.push(' ');
    v.push(' ');
    v.push(' ');
    v.push(' ');
    v.push('[');
    v.push(m);
    v.push(']');
    v.push(' ');
    extend_str(&mut v, a.name());
    assert(v@ =~= action_label(*a));
    from_chars(v.as_slice())
}

/// Where name `j` goes in `order` (see [`insert_pos`]).
fn insert_position(
    names_v: &Vec<Vec<char>>,
    order: &Vec<usize>,
    j: usize,
    Ghost(names): Ghost<Seq<Seq<char>>>,
) -> (r: usize)
    requires
        j < names.len(),
        names_v@.len() == names.len(),
        forall|m: int| 0 <= m < names.len() ==> #[trigger] names_v@[m]@ == names[m],
        forall|m: int| 0 <= m < order@.len() ==> #[trigger] order@[m] < j,
    ensures
        r == insert_pos(names, order@.map_values(|x: usize| x as int), j as int, 0),
        r <= order@.len(),
{
    let ghost o = order@.map_values(|x: usize| x as int);
    let mut p: usize = 0;
    while p < order.len()
        invariant
            p <= order@.len(),
            j < names.len(),
            names_v@.len() == names.len(),
            forall|m: int| 0 <= m < names.len() ==> #[trigger] names_v@[m]@ == names[m],
            o == order@.map_values(|x: usize| x as int),
            forall|m: int| 0 <= m < order@.len() ==> #[trigger] order@[m] < j,
            insert_pos(names, o, j as int, 0) == insert_pos(names, o, j as int, p as int),
        decreases order@.len() - p,
    {
        let q = order[p];
        assert(o[p as int] == q as int);
        if chars_lt(names_v[j].as_slice(), names_v[q].as_slice()) {
            return p;
        }
        p = p + 1;
    }
    p
}

/// The positions of the actions of `h`, ordered by name (see
/// [`name_order`]).
fn actions_by_name<C: GitConfig>(h: &Hook<C>) -> (r: Vec<usize>)
    ensures
        r@.map_values(|j: usize| j as int) == name_order(
            action_names(*h),
            h.spec_actions().pairs().len(),
        ),
{
    let acts = h.actions();
    let n = acts.len();
    let ghost names = action_names(*h);
    let mut names_v: Vec<Vec<char>> = Vec::new();
    let mut k: usize = 0;
    while k < n
        invariant
            k <= n,
            n == acts.pairs().len(),
            *acts == h.spec_actions(),
            names == action_names(*h),
            names_v@.len() == k,
            forall|m: int| 0 <= m < k ==> #[trigger] names_v@[m]@ == names[m],
        decreases n - k,
    {
        names_v.push(to_chars(acts.value_at(k).name()));
        k = k + 1;
    }
    let mut order: Vec<usize> = Vec::new();
    let mut j: usize = 0;
    while j < n
        invariant
            j <= n,
            n == names.len(),
            names_v@.len() == n,
            forall|m: int| 0 <= m < n ==> #[trigger] names_v@[m]@ == names[m],
            order@.map_values(|x: usize| x as int) == name_order(names, j as nat),
            forall|m: int| 0 <= m < order@.len() ==> #[trigger] order@[m] < j,
            order@.len() == j,
        decreases n - j,
    {
        let ghost o = name_order(names, j as nat);
        let p = insert_position(&names_v, &order, j, Ghost(names));
        let ghost before = order@;
        order.insert(p, j);
        proof {
            assert(order@.map_values(|x: usize| x as int) =~= o.insert(p as int, j as int));
            assert forall|m: int| 0 <= m < order@.len() implies #[trigger] order@[m] < j + 1 by {
                if m < p {
                    assert(order@[m] == before[m]);
                } else if m > p {
                    assert(order@[m] == before[m - 1]);
                }
            }
        }
        j = j + 1;
    }
    order
}

impl<C: GitConfig> HooksTreeView<C> {
    /// The hooks.
    pub closed spec fn hooks(&self) -> Hooks<C> {
        self.hooks
    }

    /// The lines.
    pub closed spec fn lines(&self) -> Seq<ItemView> {
        item_views(self.items@)
    }

    /// The line under the cursor.
    pub closed spec fn cursor(&self) -> int {
        self.selected as int
    }

    /// Every action line points at an action, and the cursor is on a line
    /// (or at the top of an empty view).
    pub closed spec fn wf(&self) -> bool {
        &&& (self.selected < self.items@.len() || self.selected == 0)
        &&& forall|k: int|
            0 <= k < self.items@.len() ==> #[trigger] item_valid(
                self.items@[k]@,
                self.hooks.pairs(),
            )
    }

    /// The view of `hooks`: for each hook a blank line, its category and its
    /// actions ordered by name; the cursor at the top.
    pub fn new(hooks: Hooks<C>) -> (r: Self)
        ensures
            r.wf(),
            r.hooks() == hooks,
            r.lines() == tree_lines(hooks.pairs(), hooks.pairs().len()),
            r.cursor() == 0,
    {
        let mut items: Vec<TreeItem> = Vec::new();
        let n = hooks.len();
        let mut i: usize = 0;
        while i < n
            invariant
                i <= n,
                n == hooks.pairs().len(),
                item_views(items@) == tree_lines(hooks.pairs(), i as nat),
                forall|k: int| 0 <= k < items@.len() ==> #[trigger] item_valid(
                    items@[k]@,
                    hooks.pairs(),
                ),
            decreases n - i,
        {
            let h = hooks.value_at(i);
            let ghost acts = h.spec_actions().pairs();
            let order = actions_by_name(h);
            let ghost o = name_order(action_names(*h), acts.len());
            proof {
                lemma_name_order_bounds(action_names(*h), acts.len());
            }
            let ghost base = item_views(items@);
            items.push(TreeItem::Space);
            items.push(TreeItem::Category(category_text(h)));
            assert(item_views(items@) =~= base + seq![ItemView::Space, ItemView::Category(category_label(*h))]);
            let mut p: usize = 0;
            while p < order.len()
                invariant
                    p <= order@.len(),
                    i < n,
                    n == hooks.pairs().len(),
                    *h == hooks.pairs()[i as int].1,
                    acts == h.spec_actions().pairs(),
                    o == order@.map_values(|x: usize| x as int),
                    forall|m: int| 0 <= m < o.len() ==> 0 <= #[trigger] o[m] < acts.len(),
                    item_views(items@) == base + seq![ItemView::Space, ItemView::Category(category_label(*h))]
                        + o.take(p as int).map_values(|j: int| ItemView::Action(action_label(acts[j].1), i as int, j)),
                    forall|k: int| 0 <= k < items@.len() ==> #[trigger] item_valid(
                        items@[k]@,
                        hooks.pairs(),
                    ),
                decreases order@.len() - p,
            {
                let j = order[p];
                assert(o[p as int] == j as int);
                let label = action_text(h.actions().value_at(j));
                let ghost before = items@;
                items.push(TreeItem::Action(label, i, j));
                proof {
                    assert(o.take(p + 1) =~= o.take(p as int).push(j as int));
                    assert(item_views(items@) =~= item_views(before).push(ItemView::Action(action_label(acts[j as int].1), i as int, j as int)));
                    assert(o.take(p + 1).map_values(|j: int| ItemView::Action(action_label(acts[j].1), i as int, j))
                        =~= o.take(p as int).map_values(|j: int| ItemView::Action(action_label(acts[j].1), i as int, j)).push(
                        ItemView::Action(action_label(acts[j as int].1), i as int, j as int)));
                    assert forall|k: int| 0 <= k < items@.len() implies #[trigger] item_valid(
                        items@[k]@,
                        hooks.pairs(),
                    ) by {
                        if k < before.len() {
                            assert(items@[k] == before[k]);
                        }
                    }
                }
                p = p + 1;
            }
            proof {
                assert(o.take(p as int) =~= o);
                assert(hooks.pairs()[i as int].1 == *h);
                assert(tree_lines(hooks.pairs(), (i + 1) as nat) == tree_lines(hooks.pairs(), i as nat) + hook_block(*h, i as int));
                assert(item_views(items@) =~= tree_lines(hooks.pairs(), (i + 1) as nat));
            }
            i = i + 1;
        }
        HooksTreeView { hooks, items, selected: 0 }
    }

    /// The hooks shown.
    pub fn hook_list(&self) -> (r: &Hooks<C>)
        ensures
            *r == self.hooks(),
    {
        &self.hooks
    }

    /// The number of lines.
    pub fn len(&self) -> (r: usize)
        ensures
            r == self.lines().len(),
    {
        self.items.len()
    }

    /// The line under the cursor.
    pub fn selected(&self) -> (r: usize)
        ensures
            r == self.cursor(),
    {
        self.selected
    }

    /// The text of line `i`.
    pub fn label(&self, i: usize) -> (r: &str)
        requires
            i < self.lines().len(),
        ensures
            match self.lines()[i as int] {
                ItemView::Space => r@ == seq![' '],
                ItemView::Category(l) => r@ == l,
                ItemView::Action(l, _, _) => r@ == l,
            },
    {
        match &self.items[i] {
            TreeItem::Space => {
                proof {
                    reveal_strlit(" ");
                }
                " "
            },
            TreeItem::Category(l) => l.as_str(),
            TreeItem::Action(l, _, _) => l.as_str(),
        }
    }

    /// Puts the cursor on line `i`.
    pub fn select_item(&mut self, i: usize)
        requires
            old(self).wf(),
            i < old(self).lines().len(),
        ensures
            final(self).wf(),
            final(self).cursor() == i,
            final(self).lines() == old(self).lines(),
            final(self).hooks() == old(self).hooks(),
    {
        self.selected = i;
    }

    /// Moves the cursor up to the previous category or action, if any.
    pub fn select_prev_item(&mut self)
        requires
            old(self).wf(),
        ensures
            final(self).wf(),
            final(self).lines() == old(self).lines(),
            final(self).hooks() == old(self).hooks(),
            final(self).cursor() == match last_selectable_before(old(self).lines(), old(self).cursor()) {
                Some(k) => k,
                None => old(self).cursor(),
            },
    {
        let ghost lines = self.lines();
        let mut next_item: usize = self.selected;
        proof {
            if self.items@.len() == 0 {
                assert(last_selectable_before(lines, 0) is None);
            }
        }
        while next_item > 0
            invariant
                old(self).wf(),
                self.items@ == old(self).items@,
                self.hooks == old(self).hooks,
                self.selected == old(self).selected,
                next_item <= self.selected,
                self.selected < self.items@.len() || self.selected == 0,
                lines == item_views(self.items@),
                last_selectable_before(lines, self.selected as int) == last_selectable_before(
                    lines,
                    next_item as int,
                ),
            decreases next_item,
        {
            assert(lines[next_item - 1] == self.items@[next_item - 1]@);
            match &self.items[next_item - 1] {
                TreeItem::Space => {
                    next_item = next_item - 1;
                },
                _ => {
                    self.selected = next_item - 1;
                    return;
                },
            }
        }
    }

    /// Moves the cursor down to the next category or action, if any.
    pub fn select_next_item(&mut self)
        requires
            old(self).wf(),
        ensures
            final(self).wf(),
            final(self).lines() == old(self).lines(),
            final(self).hooks() == old(self).hooks(),
            final(self).cursor() == match first_selectable_from(old(self).lines(), old(self).cursor() + 1) {
                Some(k) => k,
                None => old(self).cursor(),
            },
    {
        let ghost lines = self.lines();
        let n = self.items.len();
        if n == 0 {
            return;
        }
        let mut next_item: usize = self.selected + 1;
        while next_item < self.items.len()
            invariant
                old(self).wf(),
                self.items@ == old(self).items@,
                self.hooks == old(self).hooks,
                self.selected == old(self).selected,
                self.selected < next_item <= self.items@.len() || (self.selected == 0 && next_item == 1),
                self.selected < self.items@.len() || self.selected == 0,
                lines == item_views(self.items@),
                first_selectable_from(lines, self.selected + 1) == first_selectable_from(
                    lines,
                    next_item as int,
                ),
            decreases self.items@.len() - next_item,
        {
            assert(lines[next_item as int] == self.items@[next_item as int]@);
            match &self.items[next_item] {
                TreeItem::Space => {
                    next_item = next_item + 1;
                },
                _ => {
                    self.selected = next_item;
                    return;
                },
            }
        }
    }

    /// Flips the selection of the action under the cursor and persists it
    /// (see [`Hook::set_action_selected`]); on success its line shows the
    /// new mark. On a category or a blank line nothing happens.
    pub fn toggle_selected(&mut self) -> (r: Result<(), HookError>)
        requires
            old(self).wf(),
            old(self).cursor() < old(self).lines().len(),
        ensures
            final(self).wf(),
            final(self).cursor() == old(self).cursor(),
            final(self).hooks().names() == old(self).hooks().names(),
            !(old(self).lines()[old(self).cursor()] is Action) ==> r is Ok && final(self).lines()
                == old(self).lines() && final(self).hooks() == old(self).hooks(),
            old(self).lines()[old(self).cursor()] matches ItemView::Action(_, hi, ai) ==> {
                let h0 = old(self).hooks().pairs()[hi].1;
                let h1 = final(self).hooks().pairs()[hi].1;
                let a = h0.spec_actions().pairs()[ai].1;
                let b = h1.spec_actions().pairs()[ai].1;
                &&& final(self).hooks().pairs().len() == old(self).hooks().pairs().len()
                &&& forall|j: int|
                    0 <= j < old(self).hooks().pairs().len() && j != hi
                        ==> #[trigger] final(self).hooks().pairs()[j] == old(self).hooks().pairs()[j]
                &&& h1.spec_id() == h0.spec_id()
                &&& h1.spec_name() == h0.spec_name()
                &&& h1.spec_actions().pairs().len() == h0.spec_actions().pairs().len()
                &&& forall|k: int|
                    0 <= k < h0.spec_actions().pairs().len() && k != ai
                        ==> #[trigger] h1.spec_actions().pairs()[k] == h0.spec_actions().pairs()[k]
                &&& h1.spec_actions().pairs()[ai].0 == h0.spec_actions().pairs()[ai].0
                &&& r == a.selection_result(!a.selected())
                &&& b.selected() == !a.selected()
                &&& b.spec_name() == a.spec_name()
                &&& b.available() == a.available()
                &&& (a.has_config() && r is Ok ==> b.entries() == entries_after_selection(
                    a.entries(),
                    !a.selected(),
                ))
                &&& (r is Err ==> b.entries() == a.entries())
                &&& (a.has_config() && a.accepts_writes() ==> r is Ok)
                &&& (!a.has_config() ==> r == Err::<(), HookError>(HookError::ConfigStoreUnavailable))
                &&& (r is Ok ==> final(self).lines() == old(self).lines().update(
                    old(self).cursor(),
                    ItemView::Action(action_label(b), hi, ai),
                ))
                &&& (r is Err ==> final(self).lines() == old(self).lines())
            },
    {
        let ghost lines = self.lines();
        assert(lines[self.selected as int] == self.items@[self.selected as int]@);
        let (hi, ai) = match &self.items[self.selected] {
            TreeItem::Action(_, hi, ai) => (*hi, *ai),
            _ => {
                return Ok(());
            },
        };
        assert(item_valid(self.items@[self.selected as int]@, self.hooks.pairs()));
        let sel = self.hooks.value_at(hi).actions().value_at(ai).is_selected();
        self.hooks.distinct_names();
        let ghost cur = self.hooks.pairs();
        let (hname, mut hook) = self.hooks.take_at(hi);
        let r = hook.set_action_selected(ai, !sel);
        proof {
            let rest = cur.remove(hi as int);
            assert(cur[hi as int].0 == hname@);
            assert forall|j: int| 0 <= j < rest.len() implies #[trigger] rest[j].0 != hname@ by {
                if j < hi {
                    assert(rest[j] == cur[j]);
                    assert(cur[j].0 != cur[hi as int].0);
                } else {
                    assert(rest[j] == cur[j + 1]);
                    assert(cur[hi as int].0 != cur[j + 1].0);
                }
            }
            assert(!self.hooks.names().contains(hname@)) by {
                if self.hooks.names().contains(hname@) {
                    let j = choose|j: int| 0 <= j < self.hooks.names().len() && self.hooks.names()[j]
                        == hname@;
                    assert(rest[j].0 == hname@);
                }
            }
        }
        self.hooks.put_at(hi, hname, hook);
        proof {
            assert(self.hooks.pairs() =~= cur.update(hi as int, self.hooks.pairs()[hi as int]));
            assert(self.hooks.names() =~= old(self).hooks().names());
            assert forall|k: int| 0 <= k < self.items@.len() implies #[trigger] item_valid(
                self.items@[k]@,
                self.hooks.pairs(),
            ) by {
                assert(item_valid(self.items@[k]@, cur));
            }
        }
        if r.is_ok() {
            let label = action_text(self.hooks.value_at(hi).actions().value_at(ai));
            let ghost before = self.items@;
            self.items.set(self.selected, TreeItem::Action(label, hi, ai));
            proof {
                assert(item_views(self.items@) =~= item_views(before).update(
                    self.selected as int,
                    ItemView::Action(
                        action_label(self.hooks.pairs()[hi as int].1.spec_actions().pairs()[ai as int].1),
                        hi as int,
                        ai as int,
                    ),
                ));
                assert forall|k: int| 0 <= k < self.items@.len() implies #[trigger] item_valid(
                    self.items@[k]@,
                    self.hooks.pairs(),
                ) by {
                    if k != self.selected {
                        assert(self.items@[k] == before[k]);
                    }
                }
            }
        }
        r
    }
}

/// An action line points at an existing action.
pub open spec fn item_valid<C: GitConfig>(v: ItemView, hooks: Seq<(Seq<char>, Hook<C>)>) -> bool {
    v matches ItemView::Action(_, hi, ai) ==> 0 <= hi < hooks.len() && 0 <= ai
        < hooks[hi].1.spec_actions().pairs().len()
}

proof fn lemma_name_order_bounds(names: Seq<Seq<char>>, n: nat)
    ensures
        name_order(names, n).len() == n,
        forall|m: int| 0 <= m < n ==> 0 <= #[trigger] name_order(names, n)[m] < n,
    decreases n,
{
    if n > 0 {
        lemma_name_order_bounds(names, (n - 1) as nat);
        let o = name_order(names, (n - 1) as nat);
        lemma_insert_pos_bounds(names, o, n - 1, 0);
        let p = insert_pos(names, o, n - 1, 0);
        assert forall|m: int| 0 <= m < n implies 0 <= #[trigger] name_order(names, n)[m] < n by {
            if m < p {
                assert(name_order(names, n)[m] == o[m]);
            } else if m > p {
                assert(name_order(names, n)[m] == o[m - 1]);
            }
        }
    }
}

proof fn lemma_insert_pos_bounds(names: Seq<Seq<char>>, order: Seq<int>, j: int, p: int)
    requires
        0 <= p,
    ensures
        p <= order.len() ==> p <= insert_pos(names, order, j, p) <= order.len(),
        p > order.len() ==> insert_pos(names, order, j, p) == order.len(),
    decreases order.len() - p,
{
    if p < order.len() {
        lemma_insert_pos_bounds(names, order, j, p + 1);
    }
}

/// Moving the cursor down and then up brings it back to where it was, when
/// it was on a category or an action and there is one further down.
pub proof fn law_next_then_prev(lines: Seq<ItemView>, s: int)
    requires
        0 <= s < lines.len(),
        is_selectable(lines[s]),
        first_selectable_from(lines, s + 1) is Some,
    ensures
        last_selectable_before(lines, first_selectable_from(lines, s + 1)->0) == Some(s),
{
    lemma_first_selectable(lines, s + 1);
    let j = first_selectable_from(lines, s + 1)->0;
    lemma_back_to(lines, s, j);
}

/// Moving the cursor up and then down brings it back to where it was, when
/// it was on a category or an action and there is one further up.
pub proof fn law_prev_then_next(lines: Seq<ItemView>, s: int)
    requires
        0 <= s < lines.len(),
        is_selectable(lines[s]),
        last_selectable_before(lines, s) is Some,
    ensures
        first_selectable_from(lines, last_selectable_before(lines, s)->0 + 1) == Some(s),
{
    lemma_last_selectable(lines, s);
    let k = last_selectable_before(lines, s)->0;
    lemma_forward_to(lines, k + 1, s);
}

/// The cursor only ever moves onto a category or an action.
pub proof fn law_moves_land_on_selectable(lines: Seq<ItemView>, s: int)
    ensures
        first_selectable_from(lines, s + 1) matches Some(j) ==> s < j < lines.len() && is_selectable(lines[j]),
        last_selectable_before(lines, s) matches Some(k) ==> 0 <= k < s && is_selectable(lines[k]),
{
    if s + 1 >= 0 {
        lemma_first_selectable(lines, s + 1);
    }
    lemma_last_selectable(lines, s);
}

proof fn lemma_first_selectable(lines: Seq<ItemView>, a: int)
    requires
        a >= 0,
    ensures
        first_selectable_from(lines, a) matches Some(j) ==> a <= j < lines.len() && is_selectable(lines[j])
            && forall|m: int| a <= m < j ==> !is_selectable(#[trigger] lines[m]),
    decreases lines.len() - a,
{
    if a < lines.len() && !is_selectable(lines[a]) {
        lemma_first_selectable(lines, a + 1);
    }
}

proof fn lemma_last_selectable(lines: Seq<ItemView>, b: int)
    ensures
        last_selectable_before(lines, b) matches Some(k) ==> 0 <= k < b && is_selectable(lines[k])
            && forall|m: int| k < m < b ==> !is_selectable(#[trigger] lines[m]),
    decreases b,
{
    if 0 < b <= lines.len() && !is_selectable(lines[b - 1]) {
        lemma_last_selectable(lines, b - 1);
    }
}

proof fn lemma_back_to(lines: Seq<ItemView>, s: int, b: int)
    requires
        0 <= s < b <= lines.len(),
        is_selectable(lines[s]),
        forall|m: int| s < m < b ==> !is_selectable(#[trigger] lines[m]),
    ensures
        last_selectable_before(lines, b) == Some(s),
    decreases b - s,
{
    if b - 1 > s {
        assert(!is_selectable(lines[b - 1]));
        lemma_back_to(lines, s, b - 1);
    }
}

proof fn lemma_forward_to(lines: Seq<ItemView>, a: int, s: int)
    requires
        0 <= a <= s < lines.len(),
        is_selectable(lines[s]),
        forall|m: int| a <= m < s ==> !is_selectable(#[trigger] lines[m]),
    ensures
        first_selectable_from(lines, a) == Some(s),
    decreases s - a,
{
    if a < s {
        assert(!is_selectable(lines[a]));
        lemma_forward_to(lines, a + 1, s);
    }
}

/// `order` lists positions whose names never decrease.
pub open spec fn by_name(names: Seq<Seq<char>>, order: Seq<int>) -> bool {
    forall|a: int, b: int|
        0 <= a < b < order.len() ==> !seq_lt(names[#[trigger] order[b]], names[#[trigger] order[a]])
}

/// The actions of a hook are listed by name: every position once, and the
/// names never decrease along the list.
pub proof fn law_name_order_sorted(names: Seq<Seq<char>>, n: nat)
    requires
        n <= names.len(),
    ensures
        name_order(names, n).len() == n,
        forall|m: int| 0 <= m < n ==> 0 <= #[trigger] name_order(names, n)[m] < n,
        forall|a: int, b: int|
            0 <= a < b < n ==> #[trigger] name_order(names, n)[a] != #[trigger] name_order(names, n)[b],
        by_name(names, name_order(names, n)),
    decreases n,
{
    lemma_name_order_bounds(names, n);
    if n > 0 {
        law_name_order_sorted(names, (n - 1) as nat);
        let o = name_order(names, (n - 1) as nat);
        let j = n - 1;
        lemma_insert_pos_bounds(names, o, j, 0);
        let p = insert_pos(names, o, j, 0);
        lemma_insert_pos_spec(names, o, j, 0);
        let o2 = o.insert(p, j);
        assert(o2 == name_order(names, n));
        assert forall|a: int, b: int| 0 <= a < b < n implies #[trigger] o2[a] != #[trigger] o2[b] by {
            if a == p {
                assert(o2[b] == o[b - 1]);
            } else if b == p {
                assert(o2[a] == o[a]);
            } else {
                let a2 = if a < p { a } else { a - 1 };
                let b2 = if b < p { b } else { b - 1 };
                assert(o2[a] == o[a2]);
                assert(o2[b] == o[b2]);
            }
        }
        assert forall|a: int, b: int| 0 <= a < b < o2.len() implies !seq_lt(
            names[#[trigger] o2[b]],
            names[#[trigger] o2[a]],
        ) by {
            if a == p {
                // j before a later entry: that entry is not less than o[p]
                assert(o2[b] == o[b - 1]);
                if p < o.len() {
                    assert(seq_lt(names[j], names[o[p]]));
                    if b - 1 > p {
                        assert(!seq_lt(names[o[b - 1]], names[o[p]]));
                        lemma_lt_total(names[o[b - 1]], names[o[p]]);
                        if seq_lt(names[o[p]], names[o[b - 1]]) {
                            lemma_lt_transitive(names[j], names[o[p]], names[o[b - 1]]);
                        }
                    }
                    lemma_lt_asymmetric(names[j], names[o[b - 1]]);
                }
            } else if b == p {
                assert(o2[a] == o[a]);
                assert(!seq_lt(names[j], names[o[a]]));
            } else {
                let a2 = if a < p { a } else { a - 1 };
                let b2 = if b < p { b } else { b - 1 };
                assert(o2[a] == o[a2]);
                assert(o2[b] == o[b2]);
            }
        }
    }
}

proof fn lemma_insert_pos_spec(names: Seq<Seq<char>>, order: Seq<int>, j: int, p: int)
    requires
        0 <= p <= order.len(),
    ensures
        forall|q: int| p <= q < insert_pos(names, order, j, p) ==> !seq_lt(
            names[j],
            names[#[trigger] order[q]],
        ),
        insert_pos(names, order, j, p) < order.len() ==> seq_lt(
            names[j],
            names[order[insert_pos(names, order, j, p)]],
        ),
    decreases order.len() - p,
{
    if p < order.len() && !seq_lt(names[j], names[order[p]]) {
        lemma_insert_pos_spec(names, order, j, p + 1);
    }
}


/// An action's line is four spaces, its mark in brackets, a space and its
/// name; the mark tells its state: a check mark (U+2714) when it is
/// selected and its command was found, a cross (U+2718) when it is selected
/// but its command is missing, a blank when it is not selected.
pub proof fn law_action_label_marks<C: GitConfig>(a: ShellAction<C>)
    ensures
        action_label(a).len() == a.spec_name().len() + 8,
        action_label(a).take(5) == seq![' ', ' ', ' ', ' ', '['],
        action_label(a).subrange(6, 8) == seq![']', ' '],
        action_label(a).skip(8) == a.spec_name(),
        a.selected() && a.available() ==> action_label(a)[5] == '\u{2714}',
        a.selected() && !a.available() ==> action_label(a)[5] == '\u{2718}',
        !a.selected() ==> action_label(a)[5] == ' ',
{
    let l = action_label(a);
    assert(l.take(5) =~= seq![' ', ' ', ' ', ' ', '[']);
    assert(l.subrange(6, 8) =~= seq![']', ' ']);
    assert(l.skip(8) =~= a.spec_name());
}

/// Two actions of the same name, both selected, one with its command found
/// and one without, have different lines.
pub proof fn law_missing_command_shows<C: GitConfig>(a: ShellAction<C>, b: ShellAction<C>)
    requires
        a.spec_name() == b.spec_name(),
        a.selected() && a.available(),
        b.selected() && !b.available(),
    ensures
        action_label(a) != action_label(b),
{
    law_action_label_marks(a);
    law_action_label_marks(b);
}

} // verus!
