//! What the screen shows of the tree.

use vstd::prelude::*;

use crate::app;
use crate::app::selection;
use crate::app::tree;
use crate::app::{App, SelectionState, State, TreeNode, TreeNodeKind};
use crate::screen;
use crate::screen::{piece, Ink, Piece, Tone};
use crate::text;

verus! {

/// How much of what a line stands for is chosen.
pub open spec fn kind_selection(state: State, kind: TreeNodeKind) -> SelectionState {
    match kind {
        TreeNodeKind::Category(category) => selection::category_selection(state, category),
        TreeNodeKind::Subcategory { category, subcategory } => selection::subcategory_selection(
            state,
            category,
            subcategory,
        ),
        TreeNodeKind::Asset { category, subcategory, asset } => selection::asset_selection(
            state,
            category,
            subcategory,
            asset,
        ),
    }
}

/// The box that shows how much is chosen.
pub open spec fn marker(selected: SelectionState) -> Seq<char> {
    match selected {
        SelectionState::Unselected => "[ ]"@,
        SelectionState::Partial => "[-]"@,
        SelectionState::Selected => "[x]"@,
    }
}

/// The sign that shows whether a line can be expanded or collapsed.
pub open spec fn expand_marker(node: app::Node) -> Seq<char> {
    if node.kind is Asset {
        " "@
    } else if node.expanded {
        "▾"@
    } else {
        "▸"@
    }
}

/// Whether all that a line stands for is there already.
pub open spec fn kind_there(state: State, present: Seq<Seq<char>>, kind: TreeNodeKind) -> bool {
    match kind {
        TreeNodeKind::Category(category) => selection::category_there(state, present, category),
        TreeNodeKind::Subcategory { category, subcategory } => selection::subcategory_there(
            state,
            present,
            category,
            subcategory,
        ),
        TreeNodeKind::Asset { category, subcategory, asset } => selection::there(
            state,
            present,
            category,
            subcategory,
            asset,
        ),
    }
}

/// The box of a line. That of an asset which is there already is marked, chosen or not.
pub open spec fn line_marker(state: State, present: Seq<Seq<char>>, kind: TreeNodeKind) -> Seq<char> {
    if kind is Asset && kind_there(state, present, kind) {
        marker(SelectionState::Selected)
    } else {
        marker(kind_selection(state, kind))
    }
}

/// The label of a line, with a remark where all of it is there already.
pub open spec fn display_label(
    state: State,
    present: Seq<Seq<char>>,
    node: app::Node,
) -> Seq<char> {
    if kind_there(state, present, node.kind) {
        node.label + " (Downloaded)"@
    } else {
        node.label
    }
}

/// A line of the tree, as it is shown.
pub open spec fn tree_line(
    state: State,
    present: Seq<Seq<char>>,
    node: app::Node,
    index: int,
) -> Seq<Ink> {
    seq![
        screen::ink(line_marker(state, present, node.kind), Tone::Yellow),
        screen::ink(" "@, Tone::Plain),
        screen::ink(expand_marker(node), Tone::Cyan),
        screen::ink(" "@, Tone::Plain),
        screen::ink(text::repeated(' ', (2 * node.depth) as nat), Tone::Plain),
        screen::ink(
            display_label(state, present, node),
            if index == state.selected_index {
                Tone::BoldWhite
            } else {
                Tone::Plain
            },
        ),
        screen::ink(" ("@ + text::decimal(node.count as nat) + ")"@, Tone::Plain),
    ]
}

/// The tree, as it is shown.
pub open spec fn tree_lines(state: State, present: Seq<Seq<char>>) -> Seq<Seq<Ink>> {
    Seq::new(
        tree::visible(state).len(),
        |i: int| tree_line(state, present, tree::visible(state)[i], i),
    )
}

/// Every asset that is there already is marked in the tree.
pub proof fn law_downloaded_assets_are_marked(
    state: State,
    present: Seq<Seq<char>>,
    node: app::Node,
    index: int,
)
    requires
        node.kind matches TreeNodeKind::Asset { category, subcategory, asset } && selection::there(
            state,
            present,
            category,
            subcategory,
            asset,
        ),
    ensures
        tree_line(state, present, node, index)[0] == screen::ink("[x]"@, Tone::Yellow),
        tree_line(state, present, node, index)[5].words == node.label + " (Downloaded)"@,
{
}

/// Writes a line of the tree.
fn write_tree_line(app: &App, present: &Vec<String>, node: &TreeNode, index: usize) -> (pieces: Vec<
    Piece,
>)
    requires
        node.depth <= 2,
    ensures
        screen::line(pieces@) == tree_line(app@, text::texts(present@), node@, index as int),
{
    let (selected, there) = match node.kind {
        TreeNodeKind::Category(category) => (
            app.selection_state_for_category(category),
            app.category_downloaded(present, category),
        ),
        TreeNodeKind::Subcategory { category, subcategory } => (
            app.selection_state_for_subcategory(category, subcategory),
            app.subcategory_downloaded(present, category, subcategory),
        ),
        TreeNodeKind::Asset { category, subcategory, asset } => {
            let there = app.asset_exists(present, category, subcategory, asset);
            if there {
                (SelectionState::Selected, there)
            } else {
                (app.selection_state_for_asset(category, subcategory, asset), there)
            }
        },
    };
    let marker = match selected {
        SelectionState::Unselected => "[ ]",
        SelectionState::Partial => "[-]",
        SelectionState::Selected => "[x]",
    };
    let sign = match node.kind {
        TreeNodeKind::Asset { .. } => " ",
        _ => if node.expanded {
            "▾"
        } else {
            "▸"
        },
    };
    let mut label = node.label.clone();
    if there {
        label.append(" (Downloaded)");
    }
    let mut count = " (".to_owned();
    count.append(text::count_text(node.count).as_str());
    count.append(")");
    let mut pieces: Vec<Piece> = Vec::new();
    pieces.push(piece(marker, Tone::Yellow));
    pieces.push(piece(" ", Tone::Plain));
    pieces.push(piece(sign, Tone::Cyan));
    pieces.push(piece(" ", Tone::Plain));
    pieces.push(piece(text::repeat_char(' ', 2 * node.depth).as_str(), Tone::Plain));
    let tone = if index == app.selected_index {
        Tone::BoldWhite
    } else {
        Tone::Plain
    };
    pieces.push(piece(label.as_str(), tone));
    pieces.push(piece(count.as_str(), Tone::Plain));
    assert(screen::line(pieces@) =~= tree_line(
        app@,
        text::texts(present@),
        node@,
        index as int,
    ));
    pieces
}

/// Writes the tree.
pub fn render_tree(app: &App, present: &Vec<String>) -> (list: Vec<Vec<Piece>>)
    requires
        app::sound(app@),
    ensures
        screen::lines(list@) == tree_lines(app@, text::texts(present@)),
{
    let nodes = app.visible_nodes();
    let ghost names = text::texts(present@);
    let ghost goal = tree_lines(app@, names);
    let mut list: Vec<Vec<Piece>> = Vec::new();
    let mut i: usize = 0;
    while i < nodes.len()
        invariant
            i <= nodes.len(),
            app::sound(app@),
            tree::nodes(nodes@) == tree::visible(app@),
            names == text::texts(present@),
            goal == tree_lines(app@, names),
            screen::lines(list@) =~= goal.take(i as int),
        decreases nodes.len() - i,
    {
        proof {
            assert(tree::visible(app@)[i as int] == nodes@[i as int]@);
            tree::lemma_place_of_line(app@, i as int);
        }
        let ghost before = screen::lines(list@);
        let line = write_tree_line(app, present, &nodes[i], i);
        list.push(line);
        assert(screen::lines(list@) =~= before.push(goal[i as int]));
        i = i + 1;
    }
    assert(goal.take(i as int) =~= goal);
    list
}

// ---------------------------------------------------------------------------------------------
// What a line shows
// ---------------------------------------------------------------------------------------------
/// The tree is shown line by line, in its order.
pub proof fn law_every_line_is_shown(state: State, present: Seq<Seq<char>>, i: int)
    requires
        0 <= i < tree::visible(state).len(),
    ensures
        tree_lines(state, present).len() == tree::visible(state).len(),
        tree_lines(state, present)[i] == tree_line(state, present, tree::visible(state)[i], i),
{
}

/// The box of a category or subcategory shows how much of it is chosen; that of an asset, whether
/// it is chosen or there already.
pub proof fn law_boxes_show_what_is_chosen(
    state: State,
    present: Seq<Seq<char>>,
    node: app::Node,
    index: int,
)
    ensures
        ({
            let shown = tree_line(state, present, node, index)[0];
            let chosen = match node.kind {
                TreeNodeKind::Category(c) => selection::category_selection(state, c),
                TreeNodeKind::Subcategory { category: c, subcategory: s } => {
                    selection::subcategory_selection(state, c, s)
                },
                TreeNodeKind::Asset { category: c, subcategory: s, asset: a } => {
                    if selection::there(state, present, c, s, a) {
                        SelectionState::Selected
                    } else {
                        selection::asset_selection(state, c, s, a)
                    }
                },
            };
            &&& shown.tone == Tone::Yellow
            &&& chosen == SelectionState::Unselected ==> shown.words == "[ ]"@
            &&& chosen == SelectionState::Partial ==> shown.words == "[-]"@
            &&& chosen == SelectionState::Selected ==> shown.words == "[x]"@
        }),
{
}

/// Behind its box a line shows whether it can be expanded or collapsed, how deep it lies, what it
/// is called, with a remark where all of it is there, and how many assets it has. Only the name of
/// the line under the cursor stands out.
pub proof fn law_lines_show_their_names(
    state: State,
    present: Seq<Seq<char>>,
    node: app::Node,
    index: int,
)
    ensures
        ({
            let shown = tree_line(state, present, node, index);
            let there = match node.kind {
                TreeNodeKind::Category(c) => selection::category_there(state, present, c),
                TreeNodeKind::Subcategory { category: c, subcategory: s } => {
                    selection::subcategory_there(state, present, c, s)
                },
                TreeNodeKind::Asset { category: c, subcategory: s, asset: a } => {
                    selection::there(state, present, c, s, a)
                },
            };
            &&& shown.len() == 7
            &&& shown[1] == (Ink { words: " "@, tone: Tone::Plain })
            &&& shown[2].tone == Tone::Cyan
            &&& node.kind is Asset ==> shown[2].words == " "@
            &&& !(node.kind is Asset) && node.expanded ==> shown[2].words == "▾"@
            &&& !(node.kind is Asset) && !node.expanded ==> shown[2].words == "▸"@
            &&& shown[3] == (Ink { words: " "@, tone: Tone::Plain })
            &&& shown[4].words.len() == 2 * node.depth
            &&& forall|i: int| 0 <= i < shown[4].words.len() ==> #[trigger] shown[4].words[i] == ' '
            &&& there ==> shown[5].words == node.label + " (Downloaded)"@
            &&& !there ==> shown[5].words == node.label
            &&& shown[5].tone == if index == state.selected_index {
                Tone::BoldWhite
            } else {
                Tone::Plain
            }
            &&& shown[6] == (Ink {
                words: " ("@ + text::decimal(node.count as nat) + ")"@,
                tone: Tone::Plain,
            })
        }),
{
}

} // verus!
