//! The tree of the catalog, and the cursor in it.

use vstd::prelude::*;

use crate::app;
use crate::app::{App, Node, State, TreeNode, TreeNodeKind};
use crate::catalog;
use crate::catalog::{WallpaperAsset, WallpaperCategory, WallpaperSubcategory};

verus! {

/// The lines of a list of nodes.
pub open spec fn nodes(list: Seq<TreeNode>) -> Seq<Node> {
    Seq::new(list.len(), |i: int| list[i]@)
}

/// The lines of the assets of a subcategory.
pub open spec fn asset_nodes(
    assets: Seq<catalog::Asset>,
    category: usize,
    subcategory: usize,
) -> Seq<Node> {
    Seq::new(
        assets.len(),
        |i: int|
            Node {
                depth: 2,
                label: assets[i].title,
                count: 1,
                kind: TreeNodeKind::Asset { category, subcategory, asset: i as usize },
                expanded: false,
            },
    )
}

/// The line of a subcategory.
pub open spec fn subcategory_node(state: State, category: usize, subcategory: usize) -> Node {
    let it = state.catalog[category as int].subcategories[subcategory as int];
    Node {
        depth: 1,
        label: it.name,
        count: it.assets.len() as usize,
        kind: TreeNodeKind::Subcategory { category, subcategory },
        expanded: state.expanded_subcategories.contains((category, subcategory)),
    }
}

/// The lines of a subcategory: its own, and those of its assets if it is expanded.
pub open spec fn subcategory_branch(state: State, category: usize, subcategory: usize) -> Seq<Node> {
    let it = state.catalog[category as int].subcategories[subcategory as int];
    seq![subcategory_node(state, category, subcategory)]
        + if state.expanded_subcategories.contains((category, subcategory)) {
        asset_nodes(it.assets, category, subcategory)
    } else {
        Seq::empty()
    }
}

/// The lines of the first `count` subcategories of a category.
pub open spec fn subcategory_branches(state: State, category: usize, count: nat) -> Seq<Node>
    decreases count,
{
    if count == 0 {
        Seq::empty()
    } else {
        subcategory_branches(state, category, (count - 1) as nat) + subcategory_branch(
            state,
            category,
            (count - 1) as usize,
        )
    }
}

/// The line of a category.
pub open spec fn category_node(state: State, category: usize) -> Node {
    let it = state.catalog[category as int];
    Node {
        depth: 0,
        label: it.name,
        count: catalog::asset_total(it.subcategories) as usize,
        kind: TreeNodeKind::Category(category),
        expanded: state.expanded_categories.contains(category),
    }
}

/// The lines of a category: its own, and those of its subcategories if it is expanded.
pub open spec fn category_branch(state: State, category: usize) -> Seq<Node> {
    let it = state.catalog[category as int];
    seq![category_node(state, category)] + if state.expanded_categories.contains(category) {
        subcategory_branches(state, category, it.subcategories.len())
    } else {
        Seq::empty()
    }
}

/// The lines of the first `count` categories.
pub open spec fn branches(state: State, count: nat) -> Seq<Node>
    decreases count,
{
    if count == 0 {
        Seq::empty()
    } else {
        branches(state, (count - 1) as nat) + category_branch(state, (count - 1) as usize)
    }
}

/// The lines of the tree.
pub open spec fn visible(state: State) -> Seq<Node> {
    branches(state, state.catalog.len())
}

/// The line on which the cursor stands.
pub open spec fn current(state: State) -> Option<Node> {
    let index = state.selected_index as int;
    if index < visible(state).len() {
        Some(visible(state)[index])
    } else {
        None
    }
}

/// Whether two states show the first `count` subcategories of a category alike.
pub open spec fn alike_in(left: State, right: State, category: usize, count: nat) -> bool {
    forall|s: usize|
        s < count ==> (#[trigger] left.expanded_subcategories.contains((category, s)))
            == right.expanded_subcategories.contains((category, s))
}

/// Whether two states show the first `count` categories alike.
pub open spec fn alike(left: State, right: State, count: nat) -> bool {
    &&& forall|c: usize|
        c < count ==> (#[trigger] left.expanded_categories.contains(c))
            == right.expanded_categories.contains(c)
    &&& forall|k: (usize, usize)|
        k.0 < count ==> (#[trigger] left.expanded_subcategories.contains(k))
            == right.expanded_subcategories.contains(k)
}

proof fn lemma_alike_in(left: State, right: State, category: usize, count: nat)
    requires
        left.catalog == right.catalog,
        count <= usize::MAX,
        alike_in(left, right, category, count),
    ensures
        subcategory_branches(left, category, count) == subcategory_branches(right, category, count),
    decreases count,
{
    if count > 0 {
        lemma_alike_in(left, right, category, (count - 1) as nat);
        let last = (count - 1) as usize;
        assert(left.expanded_subcategories.contains((category, last))
            == right.expanded_subcategories.contains((category, last)));
    }
}

proof fn lemma_alike(left: State, right: State, count: nat)
    requires
        left.catalog == right.catalog,
        catalog::countable(left.catalog),
        count <= left.catalog.len(),
        alike(left, right, count),
    ensures
        branches(left, count) == branches(right, count),
    decreases count,
{
    if count > 0 {
        lemma_alike(left, right, (count - 1) as nat);
        let last = (count - 1) as usize;
        assert(left.expanded_categories.contains(last) == right.expanded_categories.contains(last));
        lemma_alike_in(left, right, last, left.catalog[last as int].subcategories.len());
    }
}

/// The lines of the tree depend only on the catalog and on what is expanded.
pub proof fn lemma_same_tree(left: State, right: State)
    requires
        left.catalog == right.catalog,
        catalog::countable(left.catalog),
        left.expanded_categories == right.expanded_categories,
        left.expanded_subcategories == right.expanded_subcategories,
    ensures
        visible(left) == visible(right),
{
    lemma_alike(left, right, left.catalog.len());
}

// ---------------------------------------------------------------------------------------------
// Places in the tree
// ---------------------------------------------------------------------------------------------
/// Whether the tree has a line for something.
pub open spec fn shown(state: State, kind: TreeNodeKind) -> bool {
    match kind {
        TreeNodeKind::Category(category) => app::has_category(state.catalog, category),
        TreeNodeKind::Subcategory { category, subcategory } => app::has_subcategory(
            state.catalog,
            category,
            subcategory,
        ) && state.expanded_categories.contains(category),
        TreeNodeKind::Asset { category, subcategory, asset } => app::has_asset(
            state.catalog,
            category,
            subcategory,
            asset,
        ) && state.expanded_categories.contains(category) && state.expanded_subcategories.contains(
            (category, subcategory),
        ),
    }
}

/// The number of the line that the tree has for something.
pub open spec fn place(state: State, kind: TreeNodeKind) -> int {
    match kind {
        TreeNodeKind::Category(category) => branches(state, category as nat).len() as int,
        TreeNodeKind::Subcategory { category, subcategory } => branches(
            state,
            category as nat,
        ).len() + 1int + subcategory_branches(state, category, subcategory as nat).len(),
        TreeNodeKind::Asset { category, subcategory, asset } => branches(
            state,
            category as nat,
        ).len() + 1 + subcategory_branches(state, category, subcategory as nat).len() + 1 + asset,
    }
}

/// The line that the tree has for something.
pub open spec fn line_for(state: State, kind: TreeNodeKind) -> Node {
    match kind {
        TreeNodeKind::Category(category) => category_node(state, category),
        TreeNodeKind::Subcategory { category, subcategory } => subcategory_node(
            state,
            category,
            subcategory,
        ),
        TreeNodeKind::Asset { category, subcategory, asset } => asset_nodes(
            state.catalog[category as int].subcategories[subcategory as int].assets,
            category,
            subcategory,
        )[asset as int],
    }
}

proof fn lemma_subcategory_branches_begin(state: State, category: usize, few: nat, many: nat)
    requires
        few <= many,
    ensures
        subcategory_branches(state, category, few).len() <= subcategory_branches(
            state,
            category,
            many,
        ).len(),
        subcategory_branches(state, category, many).take(
            subcategory_branches(state, category, few).len() as int,
        ) == subcategory_branches(state, category, few),
    decreases many,
{
    let all = subcategory_branches(state, category, many);
    let first = subcategory_branches(state, category, few);
    if few == many {
        assert(all.take(first.len() as int) =~= first);
    } else {
        lemma_subcategory_branches_begin(state, category, few, (many - 1) as nat);
        let most = subcategory_branches(state, category, (many - 1) as nat);
        assert(all.take(first.len() as int) =~= most.take(first.len() as int));
    }
}

proof fn lemma_branches_begin(state: State, few: nat, many: nat)
    requires
        few <= many,
    ensures
        branches(state, few).len() <= branches(state, many).len(),
        branches(state, many).take(branches(state, few).len() as int) == branches(state, few),
    decreases many,
{
    let all = branches(state, many);
    let first = branches(state, few);
    if few == many {
        assert(all.take(first.len() as int) =~= first);
    } else {
        lemma_branches_begin(state, few, (many - 1) as nat);
        let most = branches(state, (many - 1) as nat);
        assert(all.take(first.len() as int) =~= most.take(first.len() as int));
    }
}

/// The lines of a subcategory stand together among those of its category.
proof fn lemma_subcategory_branch_at(state: State, category: usize, at: nat, count: nat, i: int)
    requires
        at < count <= usize::MAX,
        0 <= i < subcategory_branch(state, category, at as usize).len(),
    ensures
        subcategory_branches(state, category, at).len() + i < subcategory_branches(
            state,
            category,
            count,
        ).len(),
        subcategory_branches(state, category, count)[subcategory_branches(
            state,
            category,
            at,
        ).len() + i] == subcategory_branch(state, category, at as usize)[i],
{
    lemma_subcategory_branches_begin(state, category, at + 1, count);
    let some = subcategory_branches(state, category, at + 1);
    let all = subcategory_branches(state, category, count);
    let k = subcategory_branches(state, category, at).len() + i;
    assert(some[k] == subcategory_branch(state, category, at as usize)[i]);
    assert(all.take(some.len() as int)[k] == all[k]);
}

/// The lines of a category stand together in the tree.
proof fn lemma_category_branch_at(state: State, at: nat, i: int)
    requires
        at < state.catalog.len() <= usize::MAX,
        0 <= i < category_branch(state, at as usize).len(),
    ensures
        branches(state, at).len() + i < visible(state).len(),
        visible(state)[branches(state, at).len() + i] == category_branch(state, at as usize)[i],
{
    lemma_branches_begin(state, at + 1, state.catalog.len());
    let some = branches(state, at + 1);
    let all = visible(state);
    let k = branches(state, at).len() + i;
    assert(some[k] == category_branch(state, at as usize)[i]);
    assert(all.take(some.len() as int)[k] == all[k]);
}

/// The line for something is where it should be.
pub proof fn lemma_line_at_place(state: State, kind: TreeNodeKind)
    requires
        catalog::countable(state.catalog),
        shown(state, kind),
    ensures
        0 <= place(state, kind) < visible(state).len(),
        visible(state)[place(state, kind)] == line_for(state, kind),
{
    match kind {
        TreeNodeKind::Category(category) => {
            lemma_category_branch_at(state, category as nat, 0);
        },
        TreeNodeKind::Subcategory { category, subcategory } => {
            let count = state.catalog[category as int].subcategories.len();
            lemma_subcategory_branch_at(state, category, subcategory as nat, count, 0);
            lemma_category_branch_at(
                state,
                category as nat,
                1int + subcategory_branches(state, category, subcategory as nat).len(),
            );
        },
        TreeNodeKind::Asset { category, subcategory, asset } => {
            let count = state.catalog[category as int].subcategories.len();
            lemma_subcategory_branch_at(state, category, subcategory as nat, count, 1 + asset);
            lemma_category_branch_at(
                state,
                category as nat,
                1 + subcategory_branches(state, category, subcategory as nat).len() + 1 + asset,
            );
        },
    }
}

/// A line among those of the subcategories of a category is one of these.
proof fn lemma_subcategory_line(state: State, category: usize, count: nat, i: int) -> (found: (
    nat,
    int,
))
    requires
        0 <= i < subcategory_branches(state, category, count).len(),
    ensures
        found.0 < count,
        0 <= found.1 < subcategory_branch(state, category, found.0 as usize).len(),
        i == subcategory_branches(state, category, found.0).len() + found.1,
    decreases count,
{
    let most = subcategory_branches(state, category, (count - 1) as nat);
    if i < most.len() {
        lemma_subcategory_line(state, category, (count - 1) as nat, i)
    } else {
        ((count - 1) as nat, i - most.len())
    }
}

/// A line of the tree is among those of a category.
proof fn lemma_category_line(state: State, count: nat, i: int) -> (found: (nat, int))
    requires
        0 <= i < branches(state, count).len(),
    ensures
        found.0 < count,
        0 <= found.1 < category_branch(state, found.0 as usize).len(),
        i == branches(state, found.0).len() + found.1,
    decreases count,
{
    let most = branches(state, (count - 1) as nat);
    if i < most.len() {
        lemma_category_line(state, (count - 1) as nat, i)
    } else {
        ((count - 1) as nat, i - most.len())
    }
}

/// Every line of the tree is the line for what it stands for.
pub proof fn lemma_place_of_line(state: State, i: int)
    requires
        catalog::countable(state.catalog),
        0 <= i < visible(state).len(),
    ensures
        shown(state, visible(state)[i].kind),
        place(state, visible(state)[i].kind) == i,
        visible(state)[i] == line_for(state, visible(state)[i].kind),
{
    let (c, j) = lemma_category_line(state, state.catalog.len(), i);
    let category = c as usize;
    lemma_category_branch_at(state, c, j);
    if j > 0 {
        let subcategories = state.catalog[c as int].subcategories;
        let (s, k) = lemma_subcategory_line(state, category, subcategories.len(), j - 1);
        let subcategory = s as usize;
        catalog::lemma_assets_within_total(subcategories, s as int);
        lemma_subcategory_branch_at(state, category, s, subcategories.len(), k);
        assert(category_branch(state, category)[j] == subcategory_branch(
            state,
            category,
            subcategory,
        )[k]);
        if k > 0 {
            let asset = (k - 1) as usize;
            assert(visible(state)[i].kind == (TreeNodeKind::Asset { category, subcategory, asset }));
        }
    }
}

// ---------------------------------------------------------------------------------------------
// Building the tree
// ---------------------------------------------------------------------------------------------
/// Adds the lines of the assets of a subcategory.
fn push_assets(
    list: &mut Vec<TreeNode>,
    assets: &Vec<WallpaperAsset>,
    category: usize,
    subcategory: usize,
)
    ensures
        nodes(final(list)@) == nodes(old(list)@) + asset_nodes(
            catalog::assets(assets@),
            category,
            subcategory,
        ),
{
    let ghost start = nodes(list@);
    let ghost goal = asset_nodes(catalog::assets(assets@), category, subcategory);
    let mut i: usize = 0;
    while i < assets.len()
        invariant
            i <= assets.len(),
            goal == asset_nodes(catalog::assets(assets@), category, subcategory),
            nodes(list@) =~= start + goal.take(i as int),
        decreases assets.len() - i,
    {
        let ghost before = nodes(list@);
        list.push(
            TreeNode {
                depth: 2,
                label: assets[i].title.clone(),
                count: 1,
                kind: TreeNodeKind::Asset { category, subcategory, asset: i },
                expanded: false,
            },
        );
        assert(nodes(list@) =~= before.push(goal[i as int]));
        i = i + 1;
    }
    assert(goal.take(i as int) =~= goal);
}

impl App {
    /// Adds the lines of a subcategory.
    fn push_subcategory(
        &self,
        list: &mut Vec<TreeNode>,
        it: &WallpaperSubcategory,
        category: usize,
        subcategory: usize,
    )
        requires
            app::has_subcategory(self@.catalog, category, subcategory),
            it@ == self@.catalog[category as int].subcategories[subcategory as int],
        ensures
            nodes(final(list)@) == nodes(old(list)@) + subcategory_branch(
                self@,
                category,
                subcategory,
            ),
    {
        let ghost start = nodes(list@);
        let expanded = self.expanded_subcategories.contains(&(category, subcategory));
        list.push(
            TreeNode {
                depth: 1,
                label: it.name.clone(),
                count: it.assets.len(),
                kind: TreeNodeKind::Subcategory { category, subcategory },
                expanded,
            },
        );
        assert(nodes(list@) =~= start + seq![subcategory_node(self@, category, subcategory)]);
        if expanded {
            push_assets(list, &it.assets, category, subcategory);
        }
        assert(nodes(list@) =~= start + subcategory_branch(self@, category, subcategory));
    }

    /// Adds the lines of a category.
    fn push_category(&self, list: &mut Vec<TreeNode>, it: &WallpaperCategory, category: usize)
        requires
            catalog::countable(self@.catalog),
            app::has_category(self@.catalog, category),
            it@ == self@.catalog[category as int],
        ensures
            nodes(final(list)@) == nodes(old(list)@) + category_branch(self@, category),
    {
        let ghost start = nodes(list@);
        let expanded = self.expanded_categories.contains(&category);
        list.push(
            TreeNode {
                depth: 0,
                label: it.name.clone(),
                count: catalog::count_assets(&it.subcategories),
                kind: TreeNodeKind::Category(category),
                expanded,
            },
        );
        let ghost first = start + seq![category_node(self@, category)];
        assert(nodes(list@) =~= first);
        if expanded {
            let mut i: usize = 0;
            assert(first + subcategory_branches(self@, category, 0) =~= first);
            while i < it.subcategories.len()
                invariant
                    i <= it.subcategories.len(),
                    app::has_category(self@.catalog, category),
                    it@ == self@.catalog[category as int],
                    nodes(list@) == first + subcategory_branches(self@, category, i as nat),
                decreases it.subcategories.len() - i,
            {
                self.push_subcategory(list, &it.subcategories[i], category, i);
                i = i + 1;
                assert(nodes(list@) =~= first + subcategory_branches(self@, category, i as nat));
            }
        }
        assert(nodes(list@) =~= start + category_branch(self@, category));
    }

    /// The lines of the tree.
    pub fn visible_nodes(&self) -> (list: Vec<TreeNode>)
        requires
            catalog::countable(self@.catalog),
        ensures
            nodes(list@) == visible(self@),
    {
        let mut list: Vec<TreeNode> = Vec::new();
        let mut i: usize = 0;
        assert(nodes(list@) =~= Seq::<Node>::empty());
        while i < self.catalog.categories.len()
            invariant
                i <= self.catalog.categories.len(),
                catalog::countable(self@.catalog),
                nodes(list@) == branches(self@, i as nat),
            decreases self.catalog.categories.len() - i,
        {
            self.push_category(&mut list, &self.catalog.categories[i], i);
            i = i + 1;
        }
        list
    }

    /// The line on which the cursor stands.
    pub fn current_node(&self) -> (node: Option<TreeNode>)
        requires
            catalog::countable(self@.catalog),
        ensures
            node_option(node) == current(self@),
    {
        let mut list = self.visible_nodes();
        if self.selected_index < list.len() {
            let node = list.swap_remove(self.selected_index);
            Some(node)
        } else {
            None
        }
    }
}

// ---------------------------------------------------------------------------------------------
// Moving the cursor
// ---------------------------------------------------------------------------------------------
/// The state with the cursor on the line above, or from the first line on the last.
pub open spec fn moved_up(state: State) -> State {
    let count = visible(state).len();
    if count == 0 {
        state
    } else if state.selected_index == 0 {
        State { selected_index: (count - 1) as usize, ..state }
    } else {
        State { selected_index: (state.selected_index - 1) as usize, ..state }
    }
}

/// The state with the cursor on the line below, or from the last line on the first.
pub open spec fn moved_down(state: State) -> State {
    let count = visible(state).len();
    if count == 0 {
        state
    } else if state.selected_index + 1 == count {
        State { selected_index: 0, ..state }
    } else {
        State { selected_index: (state.selected_index + 1) as usize, ..state }
    }
}

/// Moving up undoes moving down, and moving down undoes moving up.
pub proof fn law_moving_back(state: State)
    requires
        app::sound(state),
        visible(state).len() <= usize::MAX,
    ensures
        moved_up(moved_down(state)) == state,
        moved_down(moved_up(state)) == state,
{
    lemma_same_tree(state, moved_down(state));
    lemma_same_tree(state, moved_up(state));
}

/// The state with the category or subcategory under the cursor expanded.
pub open spec fn expanded(state: State) -> State {
    match current(state) {
        Some(node) => match node.kind {
            TreeNodeKind::Category(category) => State {
                expanded_categories: state.expanded_categories.insert(category),
                ..state
            },
            TreeNodeKind::Subcategory { category, subcategory } => State {
                expanded_subcategories: state.expanded_subcategories.insert(
                    (category, subcategory),
                ),
                ..state
            },
            TreeNodeKind::Asset { .. } => state,
        },
        None => state,
    }
}

/// The state with the category or subcategory under the cursor collapsed, and with a category all
/// that is in it.
pub open spec fn collapsed(state: State) -> State {
    match current(state) {
        Some(node) => match node.kind {
            TreeNodeKind::Category(category) => State {
                expanded_categories: state.expanded_categories.remove(category),
                expanded_subcategories: state.expanded_subcategories.filter(
                    |k: (usize, usize)| k.0 != category,
                ),
                ..state
            },
            TreeNodeKind::Subcategory { category, subcategory } => State {
                expanded_subcategories: state.expanded_subcategories.remove(
                    (category, subcategory),
                ),
                ..state
            },
            TreeNodeKind::Asset { .. } => state,
        },
        None => state,
    }
}

/// A line stays where it is when only it, or what is below it, is expanded or collapsed.
proof fn lemma_place_kept(before: State, after: State, kind: TreeNodeKind)
    requires
        before.catalog == after.catalog,
        catalog::countable(before.catalog),
        shown(before, kind),
        match kind {
            TreeNodeKind::Category(category) => alike(before, after, category as nat),
            TreeNodeKind::Subcategory { category, subcategory } => {
                &&& alike(before, after, category as nat)
                &&& alike_in(before, after, category, subcategory as nat)
                &&& after.expanded_categories.contains(category)
            },
            TreeNodeKind::Asset { .. } => false,
        },
    ensures
        shown(after, kind),
        place(after, kind) == place(before, kind),
        place(after, kind) < visible(after).len(),
        visible(after)[place(after, kind)] == line_for(after, kind),
{
    match kind {
        TreeNodeKind::Category(category) => {
            lemma_alike(before, after, category as nat);
        },
        TreeNodeKind::Subcategory { category, subcategory } => {
            lemma_alike(before, after, category as nat);
            lemma_alike_in(before, after, category, subcategory as nat);
        },
        TreeNodeKind::Asset { .. } => {},
    }
    lemma_line_at_place(after, kind);
}

/// Expanding and collapsing keep the cursor on its line, which then shows as expanded or not.
pub proof fn law_cursor_stays_on_its_line(state: State)
    requires
        app::sound(state),
    ensures
        app::sound(expanded(state)),
        app::sound(collapsed(state)),
        match current(state) {
            Some(node) => {
                let leaf = node.kind is Asset;
                &&& current(expanded(state)) == Some(Node { expanded: !leaf, ..node })
                &&& current(collapsed(state)) == Some(Node { expanded: false, ..node })
            },
            None => current(expanded(state)) is None && current(collapsed(state)) is None,
        },
{
    if current(state) is Some {
        let node = current(state)->0;
        lemma_place_of_line(state, state.selected_index as int);
        if !(node.kind is Asset) {
            lemma_place_kept(state, expanded(state), node.kind);
            lemma_place_kept(state, collapsed(state), node.kind);
        }
    }
}

/// Collapsing undoes expanding.
pub proof fn law_collapsing_undoes_expanding(state: State)
    requires
        app::sound(state),
        current(state) matches Some(node) ==> !node.expanded,
    ensures
        collapsed(expanded(state)) == state,
{
    law_cursor_stays_on_its_line(state);
    if current(state) is Some {
        lemma_place_of_line(state, state.selected_index as int);
        assert(collapsed(expanded(state)).expanded_categories =~= state.expanded_categories);
        assert(collapsed(expanded(state)).expanded_subcategories =~= state.expanded_subcategories);
    }
}

impl App {
    /// Moves the cursor up.
    pub fn move_up(&mut self)
        requires
            app::sound(old(self)@),
        ensures
            final(self)@ == moved_up(old(self)@),
            app::sound(final(self)@),
    {
        let visible = self.visible_nodes();
        if visible.len() == 0 {
            return;
        }
        if self.selected_index == 0 {
            self.selected_index = visible.len() - 1;
        } else {
            self.selected_index = self.selected_index - 1;
        }
        proof {
            lemma_same_tree(old(self)@, self@);
        }
    }

    /// Moves the cursor down.
    pub fn move_down(&mut self)
        requires
            app::sound(old(self)@),
        ensures
            final(self)@ == moved_down(old(self)@),
            app::sound(final(self)@),
    {
        let visible = self.visible_nodes();
        if visible.len() == 0 {
            return;
        }
        if self.selected_index + 1 == visible.len() {
            self.selected_index = 0;
        } else {
            self.selected_index = self.selected_index + 1;
        }
        proof {
            lemma_same_tree(old(self)@, self@);
        }
    }

    /// Expands the category or subcategory under the cursor.
    pub fn expand_current(&mut self)
        requires
            app::sound(old(self)@),
        ensures
            final(self)@ == expanded(old(self)@),
            app::sound(final(self)@),
    {
        proof {
            law_cursor_stays_on_its_line(self@);
        }
        if let Some(node) = self.current_node() {
            match node.kind {
                TreeNodeKind::Category(category) => {
                    self.expanded_categories.insert(category);
                },
                TreeNodeKind::Subcategory { category, subcategory } => {
                    self.expanded_subcategories.insert((category, subcategory));
                },
                TreeNodeKind::Asset { .. } => {},
            }
        }
        assert(self@ =~= expanded(old(self)@));
    }

    /// Collapses the category or subcategory under the cursor.
    pub fn collapse_current(&mut self)
        requires
            app::sound(old(self)@),
        ensures
            final(self)@ == collapsed(old(self)@),
            app::sound(final(self)@),
    {
        proof {
            law_cursor_stays_on_its_line(self@);
        }
        if let Some(node) = self.current_node() {
            match node.kind {
                TreeNodeKind::Category(category) => {
                    self.expanded_categories.remove(&category);
                    proof {
                        lemma_place_of_line(old(self)@, old(self)@.selected_index as int);
                    }
                    let count = self.catalog.categories[category].subcategories.len();
                    let ghost start = old(self)@;
                    let mut i: usize = 0;
                    while i < count
                        invariant
                            i <= count,
                            self@ == (State {
                                expanded_categories: start.expanded_categories.remove(category),
                                expanded_subcategories: start.expanded_subcategories.filter(
                                    |k: (usize, usize)| k.0 != category || k.1 >= i,
                                ),
                                ..start
                            }),
                        decreases count - i,
                    {
                        self.expanded_subcategories.remove(&(category, i));
                        i = i + 1;
                        assert(self@ =~= State {
                            expanded_categories: start.expanded_categories.remove(category),
                            expanded_subcategories: start.expanded_subcategories.filter(
                                |k: (usize, usize)| k.0 != category || k.1 >= i,
                            ),
                            ..start
                        });
                    }
                },
                TreeNodeKind::Subcategory { category, subcategory } => {
                    self.expanded_subcategories.remove(&(category, subcategory));
                },
                TreeNodeKind::Asset { .. } => {},
            }
        }
        assert(self@ =~= collapsed(old(self)@));
    }
}

/// The content of an optional node.
pub open spec fn node_option(node: Option<TreeNode>) -> Option<Node> {
    match node {
        Some(node) => Some(node@),
        None => None,
    }
}

// ---------------------------------------------------------------------------------------------
// What the tree shows
// ---------------------------------------------------------------------------------------------
/// Every line of the tree tells of something in the catalog that is open to view: its name or
/// title, how many assets it has, how deep it lies, and whether it is expanded.
pub proof fn law_lines_tell_of_the_catalog(state: State, i: int)
    requires
        catalog::countable(state.catalog),
        0 <= i < visible(state).len(),
    ensures
        ({
            let node = visible(state)[i];
            match node.kind {
                TreeNodeKind::Category(c) => {
                    &&& c < state.catalog.len()
                    &&& node.depth == 0
                    &&& node.label == state.catalog[c as int].name
                    &&& node.count == catalog::asset_total(state.catalog[c as int].subcategories)
                    &&& node.expanded == state.expanded_categories.contains(c)
                },
                TreeNodeKind::Subcategory { category: c, subcategory: s } => {
                    let it = state.catalog[c as int].subcategories[s as int];
                    &&& c < state.catalog.len()
                    &&& s < state.catalog[c as int].subcategories.len()
                    &&& state.expanded_categories.contains(c)
                    &&& node.depth == 1
                    &&& node.label == it.name
                    &&& node.count == it.assets.len()
                    &&& node.expanded == state.expanded_subcategories.contains((c, s))
                },
                TreeNodeKind::Asset { category: c, subcategory: s, asset: a } => {
                    let it = state.catalog[c as int].subcategories[s as int];
                    &&& c < state.catalog.len()
                    &&& s < state.catalog[c as int].subcategories.len()
                    &&& a < it.assets.len()
                    &&& state.expanded_categories.contains(c)
                    &&& state.expanded_subcategories.contains((c, s))
                    &&& node.depth == 2
                    &&& node.label == it.assets[a as int].title
                    &&& node.count == 1
                    &&& !node.expanded
                },
            }
        }),
{
    lemma_place_of_line(state, i);
    if let TreeNodeKind::Subcategory { category, subcategory } = visible(state)[i].kind {
        catalog::lemma_assets_within_total(
            state.catalog[category as int].subcategories,
            subcategory as int,
        );
    }
}

/// Every category has a line; every subcategory of an expanded category has one; and every asset of
/// an expanded subcategory of one has one.
pub proof fn law_what_is_open_has_a_line(state: State, c: usize, s: usize, a: usize)
    requires
        catalog::countable(state.catalog),
    ensures
        c < state.catalog.len() ==> exists|i: int|
            0 <= i < visible(state).len() && (#[trigger] visible(state)[i]).kind
                == TreeNodeKind::Category(c),
        c < state.catalog.len() && s < state.catalog[c as int].subcategories.len()
            && state.expanded_categories.contains(c) ==> exists|i: int|
            0 <= i < visible(state).len() && (#[trigger] visible(state)[i]).kind == (
            TreeNodeKind::Subcategory { category: c, subcategory: s }),
        c < state.catalog.len() && s < state.catalog[c as int].subcategories.len() && a
            < state.catalog[c as int].subcategories[s as int].assets.len()
            && state.expanded_categories.contains(c) && state.expanded_subcategories.contains((c, s))
            ==> exists|i: int|
            0 <= i < visible(state).len() && (#[trigger] visible(state)[i]).kind == (
            TreeNodeKind::Asset { category: c, subcategory: s, asset: a }),
{
    let outer = TreeNodeKind::Category(c);
    let inner = TreeNodeKind::Subcategory { category: c, subcategory: s };
    let leaf = TreeNodeKind::Asset { category: c, subcategory: s, asset: a };
    if shown(state, outer) {
        lemma_line_at_place(state, outer);
        assert(visible(state)[place(state, outer)].kind == outer);
    }
    if shown(state, inner) {
        lemma_line_at_place(state, inner);
        assert(visible(state)[place(state, inner)].kind == inner);
    }
    if shown(state, leaf) {
        lemma_line_at_place(state, leaf);
        assert(visible(state)[place(state, leaf)].kind == leaf);
    }
}

/// Whether one thing comes before another in the catalog: a category before what is in it, and a
/// subcategory before its assets.
pub open spec fn comes_before(left: TreeNodeKind, right: TreeNodeKind) -> bool {
    let (c, s, a) = address(left);
    let (d, t, b) = address(right);
    c < d || (c == d && (s < t || (s == t && a < b)))
}

/// The numbers of a category, a subcategory and an asset; none of them is one below the first.
pub open spec fn address(kind: TreeNodeKind) -> (int, int, int) {
    match kind {
        TreeNodeKind::Category(category) => (category as int, -1, -1),
        TreeNodeKind::Subcategory { category, subcategory } => (
            category as int,
            subcategory as int,
            -1,
        ),
        TreeNodeKind::Asset { category, subcategory, asset } => (
            category as int,
            subcategory as int,
            asset as int,
        ),
    }
}

/// The place of something lies within the lines of its category, and within those of its
/// subcategory.
proof fn lemma_place_within(state: State, kind: TreeNodeKind)
    requires
        catalog::countable(state.catalog),
        shown(state, kind),
    ensures
        ({
            let (c, s, a) = address(kind);
            let category = c as usize;
            let start = branches(state, c as nat).len();
            let inner = start + 1 + subcategory_branches(state, category, s as nat).len();
            &&& start <= place(state, kind) < branches(state, (c + 1) as nat).len()
            &&& s == -1 ==> place(state, kind) == start
            &&& s >= 0 ==> inner <= place(state, kind) < start + 1 + subcategory_branches(
                state,
                category,
                (s + 1) as nat,
            ).len()
            &&& s >= 0 && a == -1 ==> place(state, kind) == inner
            &&& a >= 0 ==> place(state, kind) == inner + 1 + a
        }),
{
    let (c, s, a) = address(kind);
    let category = c as usize;
    assert(category_branch(state, category).len() >= 1);
    if s >= 0 {
        let count = state.catalog[c].subcategories.len();
        lemma_subcategory_branches_begin(state, category, (s + 1) as nat, count);
        assert(subcategory_branch(state, category, s as usize).len() >= 1);
    }
}

/// The lines of the tree stand in the order of the catalog, each once.
pub proof fn law_lines_stand_in_the_order_of_the_catalog(state: State, i: int, j: int)
    requires
        catalog::countable(state.catalog),
        0 <= i < j < visible(state).len(),
    ensures
        comes_before(visible(state)[i].kind, visible(state)[j].kind),
{
    let left = visible(state)[i].kind;
    let right = visible(state)[j].kind;
    lemma_place_of_line(state, i);
    lemma_place_of_line(state, j);
    lemma_place_within(state, left);
    lemma_place_within(state, right);
    let (c, s, a) = address(left);
    let (d, t, b) = address(right);
    if d < c {
        lemma_branches_begin(state, (d + 1) as nat, c as nat);
    } else if c == d && s >= 0 && t >= 0 && t < s {
        lemma_subcategory_branches_begin(state, c as usize, (t + 1) as nat, s as nat);
    }
}

/// The cursor moves by one line, from either end to the other, and nothing else changes.
pub proof fn law_cursor_moves_by_one_line(state: State)
    requires
        app::sound(state),
        visible(state).len() <= usize::MAX,
    ensures
        ({
            let count = visible(state).len();
            let at = state.selected_index;
            let down = moved_down(state);
            let up = moved_up(state);
            &&& at + 1 < count ==> down.selected_index == at + 1
            &&& at + 1 == count ==> down.selected_index == 0
            &&& 0 < at < count ==> up.selected_index == at - 1
            &&& at == 0 && count > 0 ==> up.selected_index == count - 1
            &&& count == 0 ==> down == state && up == state
            &&& down == (State { selected_index: down.selected_index, ..state })
            &&& up == (State { selected_index: up.selected_index, ..state })
        }),
{
}

/// Expanding opens what is under the cursor, and collapsing closes it, a category with all that is
/// in it; nothing else is opened or closed, and nothing else changes. On an asset, neither does
/// anything.
pub proof fn law_only_the_line_under_the_cursor_opens(state: State)
    ensures
        ({
            let open = expanded(state);
            let closed = collapsed(state);
            &&& open == (State {
                expanded_categories: open.expanded_categories,
                expanded_subcategories: open.expanded_subcategories,
                ..state
            })
            &&& closed == (State {
                expanded_categories: closed.expanded_categories,
                expanded_subcategories: closed.expanded_subcategories,
                ..state
            })
            &&& match current(state) {
                Some(node) => match node.kind {
                    TreeNodeKind::Category(c) => {
                        &&& forall|d: usize| #[trigger]
                            open.expanded_categories.contains(d) == (
                            state.expanded_categories.contains(d) || d == c)
                        &&& open.expanded_subcategories == state.expanded_subcategories
                        &&& forall|d: usize| #[trigger]
                            closed.expanded_categories.contains(d) == (
                            state.expanded_categories.contains(d) && d != c)
                        &&& forall|k: (usize, usize)| #[trigger]
                            closed.expanded_subcategories.contains(k) == (
                            state.expanded_subcategories.contains(k) && k.0 != c)
                    },
                    TreeNodeKind::Subcategory { category: c, subcategory: s } => {
                        &&& open.expanded_categories == state.expanded_categories
                        &&& forall|k: (usize, usize)| #[trigger]
                            open.expanded_subcategories.contains(k) == (
                            state.expanded_subcategories.contains(k) || k == (c, s))
                        &&& closed.expanded_categories == state.expanded_categories
                        &&& forall|k: (usize, usize)| #[trigger]
                            closed.expanded_subcategories.contains(k) == (
                            state.expanded_subcategories.contains(k) && k != (c, s))
                    },
                    TreeNodeKind::Asset { .. } => open == state && closed == state,
                },
                None => open == state && closed == state,
            }
        }),
{
}

/// The cursor stands on the line with its number.
pub proof fn law_cursor_stands_on_its_line(state: State)
    ensures
        state.selected_index < visible(state).len() ==> current(state) == Some(
            visible(state)[state.selected_index as int],
        ),
        state.selected_index >= visible(state).len() ==> current(state) is None,
{
}

} // verus!
