//! The navigation state machine: the cursor over the tree and the
//! transitions that commands drive it through.
use crate::sort::sorted_entries;
use crate::sort::sorted_view;
use crate::sort::Sorting;
use crate::traverse::has_parent;
use crate::traverse::EntryData;
use crate::traverse::is_child_of;
use crate::traverse::parent_id;
use crate::traverse::parent_of;
use crate::traverse::tree_children;
use crate::traverse::tree_entries;
use crate::traverse::tree_wf;
use crate::traverse::Traversal;
use crate::traverse::Tree;
use crate::ByteFormat;
use crate::WalkOptions;
use crate::WalkResult;
use vstd::prelude::*;

verus! {

/// Options to configure how we display things.
#[derive(Clone, Copy, Debug, PartialEq, Eq, Structural)]
pub struct DisplayOptions {
    pub byte_format: ByteFormat,
}

impl From<WalkOptions> for DisplayOptions {
    fn from(options: WalkOptions) -> (r: Self)
        ensures
            r.byte_format == options.byte_format,
    {
        DisplayOptions { byte_format: options.byte_format }
    }
}

impl vstd::std_specs::convert::FromSpecImpl<WalkOptions> for DisplayOptions {
    open spec fn obeys_from_spec() -> bool {
        true
    }

    open spec fn from_spec(options: WalkOptions) -> Self {
        DisplayOptions { byte_format: options.byte_format }
    }
}

/// Where a `MoveSelection` command moves the cursor.
#[derive(Clone, Copy, Debug, PartialEq, Eq, Structural)]
pub enum CursorDirection {
    Down,
    Up,
}

/// One decoded interactive command.
#[derive(Clone, Copy, Debug, PartialEq, Eq, Structural)]
pub enum Command {
    DrillUp,
    DrillDown,
    MoveSelection(CursorDirection),
    ToggleSort,
    Quit,
}

/// The cursor over the tree: the node whose children are shown, the
/// highlighted child if any, and the active sort policy.
#[derive(Clone, Copy, Debug, PartialEq, Eq)]
pub struct DisplayState {
    pub root: usize,
    pub selected: Option<usize>,
    pub sorting: Sorting,
}

/// The view-state invariant: the root is present in the tree; a present
/// selection is a direct child of the root; the selection is absent only
/// when the root currently has no children.
pub open spec fn state_inv(t: &Tree, st: DisplayState) -> bool {
    &&& tree_entries(t).dom().contains(st.root as nat)
    &&& match st.selected {
        Option::Some(sel) => is_child_of(t, sel as nat, st.root as nat),
        Option::None => tree_children(t, st.root as nat).len() == 0,
    }
}

/// What DrillUp does: at the scan root, nothing; otherwise the parent
/// becomes the root and the first entry of its sorted children (if any) the
/// selection.
pub open spec fn drill_up_spec(t: &Tree, st: DisplayState) -> DisplayState {
    if has_parent(t, st.root as nat) {
        let p = parent_id(t, st.root as nat);
        let sv = sorted_view(t, p, st.sorting);
        DisplayState {
            root: p as usize,
            selected: if sv.len() == 0 {
                Option::None
            } else {
                Option::Some(sv[0].0 as usize)
            },
            sorting: st.sorting,
        }
    } else {
        st
    }
}

/// What DrillDown does: with no selection, or a selection without children,
/// nothing; otherwise the selection becomes the root and the first entry of
/// its sorted children the selection.
pub open spec fn enter_node_spec(t: &Tree, st: DisplayState) -> DisplayState {
    match st.selected {
        Option::Some(sel) => {
            let sv = sorted_view(t, sel as nat, st.sorting);
            if sv.len() == 0 {
                st
            } else {
                DisplayState {
                    root: sel,
                    selected: Option::Some(sv[0].0 as usize),
                    sorting: st.sorting,
                }
            }
        },
        Option::None => st,
    }
}

/// The first position at which an identity occurs in a sorted view, or -1.
pub open spec fn find_pos(l: Seq<(nat, crate::traverse::EntryView)>, id: nat) -> int
    decreases l.len(),
{
    if l.len() == 0 {
        -1
    } else if l[0].0 == id {
        0
    } else {
        let r = find_pos(l.skip(1), id);
        if r < 0 {
            -1
        } else {
            r + 1
        }
    }
}

/// What MoveSelection does: the target position is the current one moved a
/// step and clamped at the ends (position 0 when there is no current
/// selection or it is not found); if that position holds no entry the
/// selection is left unchanged.
pub open spec fn move_spec(t: &Tree, st: DisplayState, d: CursorDirection) -> DisplayState {
    let sv = sorted_view(t, st.root as nat, st.sorting);
    let pos: int = match st.selected {
        Option::Some(sel) => {
            let p = find_pos(sv, sel as nat);
            if p < 0 {
                0
            } else {
                match d {
                    CursorDirection::Down => p + 1,
                    CursorDirection::Up => if p == 0 {
                        0
                    } else {
                        p - 1
                    },
                }
            }
        },
        Option::None => 0,
    };
    if 0 <= pos < sv.len() {
        DisplayState { root: st.root, selected: Option::Some(sv[pos].0 as usize), sorting: st.sorting }
    } else {
        st
    }
}

/// What one command does to the view state. Quit leaves it unchanged (it
/// ends the loop instead).
pub open spec fn step_spec(t: &Tree, st: DisplayState, cmd: Command) -> DisplayState {
    match cmd {
        Command::DrillUp => drill_up_spec(t, st),
        Command::DrillDown => enter_node_spec(t, st),
        Command::MoveSelection(d) => move_spec(t, st, d),
        Command::ToggleSort => DisplayState {
            root: st.root,
            selected: st.selected,
            sorting: st.sorting.toggled(),
        },
        Command::Quit => st,
    }
}

/// The interactive command a decoded key stands for, if any: `u` drills up,
/// `o` drills down, `k` and `j` move the selection, `s` toggles the sort,
/// `q` or control-c quits; everything else is ignored.
pub open spec fn key_command_spec(c: char, ctrl: bool) -> Option<Command> {
    if ctrl {
        if c == 'c' {
            Option::Some(Command::Quit)
        } else {
            Option::None
        }
    } else if c == 'u' {
        Option::Some(Command::DrillUp)
    } else if c == 'o' {
        Option::Some(Command::DrillDown)
    } else if c == 'k' {
        Option::Some(Command::MoveSelection(CursorDirection::Up))
    } else if c == 'j' {
        Option::Some(Command::MoveSelection(CursorDirection::Down))
    } else if c == 's' {
        Option::Some(Command::ToggleSort)
    } else if c == 'q' {
        Option::Some(Command::Quit)
    } else {
        Option::None
    }
}

/// Decode one key (a character, possibly with control held) to a command.
pub fn key_command(c: char, ctrl: bool) -> (r: Option<Command>)
    ensures
        r == key_command_spec(c, ctrl),
{
    if ctrl {
        if c == 'c' {
            Some(Command::Quit)
        } else {
            None
        }
    } else if c == 'u' {
        Some(Command::DrillUp)
    } else if c == 'o' {
        Some(Command::DrillDown)
    } else if c == 'k' {
        Some(Command::MoveSelection(CursorDirection::Up))
    } else if c == 'j' {
        Some(Command::MoveSelection(CursorDirection::Down))
    } else if c == 's' {
        Some(Command::ToggleSort)
    } else if c == 'q' {
        Some(Command::Quit)
    } else {
        None
    }
}

impl DisplayState {
    /// The first consistent view state once the scan has settled: the scan
    /// root with the first sorted entry selected (or none, if the root has
    /// no children yet).
    pub fn new(t: &Tree, root: usize, sorting: Sorting) -> (r: DisplayState)
        requires
            tree_wf(t),
            tree_entries(t).dom().contains(root as nat),
        ensures
            r == initial_state_spec(t, root, sorting),
            state_inv(t, r),
    {
        let entries = sorted_entries(t, root, sorting);
        proof {
            crate::sort::lemma_sorted_view_members(t, root as nat, sorting);
        }
        let selected = if entries.len() == 0 {
            None
        } else {
            proof {
                assert(entries@.map_values(|p: (usize, EntryData)| crate::sort::pair_view(p))[0]
                    == crate::sort::pair_view(entries@[0]));
            }
            Some(entries[0].0)
        };
        DisplayState { root, selected, sorting }
    }
}

/// What the initial view state is: the given root, the first entry of its
/// sorted children selected where there is one.
pub open spec fn initial_state_spec(t: &Tree, root: usize, sorting: Sorting) -> DisplayState {
    let sv = sorted_view(t, root as nat, sorting);
    DisplayState {
        root,
        selected: if sv.len() == 0 {
            Option::None
        } else {
            Option::Some(sv[0].0 as usize)
        },
        sorting,
    }
}

/// State and methods representing the interactive disk usage analyser for
/// the terminal.
pub struct TerminalApp {
    pub traversal: Traversal,
    pub display: DisplayOptions,
    pub state: DisplayState,
}

impl TerminalApp {
    /// Go to the parent of the current root, if there is one.
    pub fn drill_up(&mut self)
        requires
            tree_wf(&old(self).traversal.tree),
        ensures
            final(self).traversal == old(self).traversal,
            final(self).display == old(self).display,
            final(self).state == drill_up_spec(&old(self).traversal.tree, old(self).state),
            state_inv(&old(self).traversal.tree, old(self).state) ==> state_inv(
                &final(self).traversal.tree,
                final(self).state,
            ),
    {
        if let Some(p) = parent_of(&self.traversal.tree, self.state.root) {
            let entries = sorted_entries(&self.traversal.tree, p, self.state.sorting);
            proof {
                let t = &self.traversal.tree;
                assert(has_parent(t, self.state.root as nat));
                assert(is_child_of(t, self.state.root as nat, parent_id(t, self.state.root as nat)));
                assert(parent_id(t, self.state.root as nat) == p as nat);
                crate::sort::lemma_sorted_view_members(t, p as nat, self.state.sorting);
            }
            self.state.root = p;
            self.state.selected = if entries.len() == 0 {
                None
            } else {
                proof {
                    assert(entries@.map_values(
                        |q: (usize, EntryData)| crate::sort::pair_view(q),
                    )[0] == crate::sort::pair_view(entries@[0]));
                }
                Some(entries[0].0)
            };
        }
    }

    /// Open the selected node: it becomes the root if it has children.
    pub fn enter_node(&mut self)
        requires
            tree_wf(&old(self).traversal.tree),
        ensures
            final(self).traversal == old(self).traversal,
            final(self).display == old(self).display,
            final(self).state == enter_node_spec(&old(self).traversal.tree, old(self).state),
            state_inv(&old(self).traversal.tree, old(self).state) ==> state_inv(
                &final(self).traversal.tree,
                final(self).state,
            ),
    {
        if let Some(idx) = self.state.selected {
            let entries = sorted_entries(&self.traversal.tree, idx, self.state.sorting);
            proof {
                crate::sort::lemma_sorted_view_members(
                    &self.traversal.tree,
                    idx as nat,
                    self.state.sorting,
                );
            }
            if entries.len() > 0 {
                proof {
                    assert(entries@.map_values(
                        |q: (usize, EntryData)| crate::sort::pair_view(q),
                    )[0] == crate::sort::pair_view(entries@[0]));
                }
                let next_selection = entries[0].0;
                self.state.root = idx;
                self.state.selected = Some(next_selection);
            }
        }
    }

    /// Move the selection one step up or down among the sorted children of
    /// the root, clamped at both ends.
    pub fn change_vertical_index(&mut self, direction: CursorDirection)
        requires
            tree_wf(&old(self).traversal.tree),
        ensures
            final(self).traversal == old(self).traversal,
            final(self).display == old(self).display,
            final(self).state == move_spec(
                &old(self).traversal.tree,
                old(self).state,
                direction,
            ),
            state_inv(&old(self).traversal.tree, old(self).state) ==> state_inv(
                &final(self).traversal.tree,
                final(self).state,
            ),
    {
        let entries = sorted_entries(&self.traversal.tree, self.state.root, self.state.sorting);
        let ghost t = &self.traversal.tree;
        let ghost sv = sorted_view(t, self.state.root as nat, self.state.sorting);
        proof {
            crate::sort::lemma_sorted_view_members(t, self.state.root as nat, self.state.sorting);
        }
        let next_selected_pos: usize = match self.state.selected {
            Some(selected) => {
                match find_entry_position(&entries, selected) {
                    Some(pos) => {
                        match direction {
                            CursorDirection::Down => {
                                if pos < entries.len() {
                                    pos + 1
                                } else {
                                    pos
                                }
                            },
                            CursorDirection::Up => {
                                if pos == 0 {
                                    0
                                } else {
                                    pos - 1
                                }
                            },
                        }
                    },
                    None => 0,
                }
            },
            None => 0,
        };
        if next_selected_pos < entries.len() {
            proof {
                assert(entries@.map_values(
                    |q: (usize, EntryData)| crate::sort::pair_view(q),
                )[next_selected_pos as int] == crate::sort::pair_view(
                    entries@[next_selected_pos as int],
                ));
            }
            self.state.selected = Some(entries[next_selected_pos].0);
        }
    }

    /// Toggle the sort policy; the rest of the view state is untouched.
    pub fn toggle_sorting(&mut self)
        ensures
            final(self).traversal == old(self).traversal,
            final(self).display == old(self).display,
            final(self).state == step_spec(
                &old(self).traversal.tree,
                old(self).state,
                Command::ToggleSort,
            ),
            state_inv(&old(self).traversal.tree, old(self).state) ==> state_inv(
                &final(self).traversal.tree,
                final(self).state,
            ),
    {
        self.state.sorting.toggle_size();
    }

    /// Apply one command to the view state; the result says whether the
    /// session is over. Every transition is total: edge cases are no-ops.
    pub fn handle_command(&mut self, cmd: Command) -> (quit: bool)
        requires
            tree_wf(&old(self).traversal.tree),
        ensures
            final(self).traversal == old(self).traversal,
            final(self).display == old(self).display,
            final(self).state == step_spec(&old(self).traversal.tree, old(self).state, cmd),
            quit == (cmd == Command::Quit),
            state_inv(&old(self).traversal.tree, old(self).state) ==> state_inv(
                &final(self).traversal.tree,
                final(self).state,
            ),
    {
        match cmd {
            Command::DrillUp => {
                self.drill_up();
                false
            },
            Command::DrillDown => {
                self.enter_node();
                false
            },
            Command::MoveSelection(d) => {
                self.change_vertical_index(d);
                false
            },
            Command::ToggleSort => {
                self.toggle_sorting();
                false
            },
            Command::Quit => true,
        }
    }

    /// The session's aggregate result: the scan's count of entries that
    /// could not be stat'ed, untouched by navigation.
    pub fn walk_result(&self) -> (r: WalkResult)
        ensures
            r.num_errors == self.traversal.io_errors,
    {
        WalkResult { num_errors: self.traversal.io_errors }
    }
}

/// Invariant preservation: over a well-formed tree, every command carries a
/// valid view state to a valid view state, so every view state reachable
/// from a valid one through any sequence of commands is valid.
pub proof fn lemma_step_preserves_inv(t: &Tree, st: DisplayState, cmd: Command)
    requires
        tree_wf(t),
        state_inv(t, st),
    ensures
        state_inv(t, step_spec(t, st, cmd)),
{
    match cmd {
        Command::DrillUp => {
            if has_parent(t, st.root as nat) {
                let p = parent_id(t, st.root as nat);
                assert(is_child_of(t, st.root as nat, p));
                crate::sort::lemma_sorted_view_members(t, p, st.sorting);
                let sv = sorted_view(t, p, st.sorting);
                if sv.len() > 0 {
                    assert(is_child_of(t, sv[0].0, p));
                }
            }
        },
        Command::DrillDown => {
            if let Option::Some(sel) = st.selected {
                crate::sort::lemma_sorted_view_members(t, sel as nat, st.sorting);
                let sv = sorted_view(t, sel as nat, st.sorting);
                if sv.len() > 0 {
                    assert(is_child_of(t, sv[0].0, sel as nat));
                }
            }
        },
        Command::MoveSelection(d) => {
            crate::sort::lemma_sorted_view_members(t, st.root as nat, st.sorting);
            let sv = sorted_view(t, st.root as nat, st.sorting);
            assert(forall|i: int|
                0 <= i < sv.len() ==> is_child_of(t, (#[trigger] sv[i]).0, st.root as nat));
        },
        Command::ToggleSort => {
        },
        Command::Quit => {
        },
    }
}

/// A valid selection is a child of the root under the currently computed
/// sorted order: it occurs in the sorted view, whatever the policy.
pub proof fn lemma_selected_in_sorted_view(t: &Tree, st: DisplayState, sel: usize)
    requires
        state_inv(t, st),
        st.selected == Option::Some(sel),
    ensures
        exists|i: int|
            0 <= i < sorted_view(t, st.root as nat, st.sorting).len() && (#[trigger] sorted_view(
                t,
                st.root as nat,
                st.sorting,
            )[i]).0 == sel as nat,
{
    crate::sort::lemma_sorted_view_members(t, st.root as nat, st.sorting);
}

/// No-op boundary: DrillUp at the scan root leaves the view state unchanged.
pub proof fn lemma_drill_up_at_scan_root(t: &Tree, st: DisplayState)
    requires
        !has_parent(t, st.root as nat),
    ensures
        drill_up_spec(t, st) == st,
{
}

/// No-op boundary: DrillDown on a selection without children leaves the
/// view state unchanged.
pub proof fn lemma_drill_down_childless(t: &Tree, st: DisplayState, sel: usize)
    requires
        st.selected == Option::Some(sel),
        tree_children(t, sel as nat).len() == 0,
    ensures
        enter_node_spec(t, st) == st,
{
    crate::sort::lemma_sorted_view_members(t, sel as nat, st.sorting);
}

/// No-op boundary: MoveSelection clamps at both ends of the sorted view --
/// up from the first position keeps the first entry selected, down from the
/// last position leaves the selection where it is.
pub proof fn lemma_move_selection_clamps(t: &Tree, st: DisplayState, sel: usize)
    requires
        st.selected == Option::Some(sel),
    ensures
        find_pos(sorted_view(t, st.root as nat, st.sorting), sel as nat) == 0 ==> move_spec(
            t,
            st,
            CursorDirection::Up,
        ) == st,
        find_pos(sorted_view(t, st.root as nat, st.sorting), sel as nat) == sorted_view(
            t,
            st.root as nat,
            st.sorting,
        ).len() - 1 ==> move_spec(t, st, CursorDirection::Down) == st,
{
    let sv = sorted_view(t, st.root as nat, st.sorting);
    if find_pos(sv, sel as nat) == 0 {
        assert(sv[0].0 == sel as nat);
    }
}

/// Round trip: a DrillDown that drilled (the selection had children)
/// followed by DrillUp returns the root to its prior identity, and the pair
/// of transitions keeps the view state valid.
pub proof fn lemma_drill_round_trip(t: &Tree, st: DisplayState, sel: usize)
    requires
        tree_wf(t),
        state_inv(t, st),
        st.selected == Option::Some(sel),
        tree_children(t, sel as nat).len() > 0,
    ensures
        drill_up_spec(t, enter_node_spec(t, st)).root == st.root,
        state_inv(t, drill_up_spec(t, enter_node_spec(t, st))),
{
    crate::sort::lemma_sorted_view_members(t, sel as nat, st.sorting);
    let st2 = enter_node_spec(t, st);
    assert(st2.root == sel);
    assert(is_child_of(t, sel as nat, st.root as nat));
    assert(has_parent(t, sel as nat));
    assert(is_child_of(t, sel as nat, parent_id(t, sel as nat)));
    assert(parent_id(t, sel as nat) == st.root as nat);
    lemma_step_preserves_inv(t, st, Command::DrillDown);
    lemma_step_preserves_inv(t, st2, Command::DrillUp);
}

/// The first position of an identity in a sorted child list, if present.
fn find_entry_position(entries: &Vec<(usize, crate::traverse::EntryData)>, id: usize) -> (r: Option<
    usize,
>)
    ensures
        match r {
            Some(p) => p < entries@.len() && find_pos(
                entries@.map_values(|q: (usize, EntryData)| crate::sort::pair_view(q)),
                id as nat,
            ) == p as int,
            None => find_pos(
                entries@.map_values(|q: (usize, EntryData)| crate::sort::pair_view(q)),
                id as nat,
            ) == -1,
        },
{
    let ghost l = entries@.map_values(|q: (usize, EntryData)| crate::sort::pair_view(q));
    let mut i: usize = 0;
    proof {
        assert(l.skip(0) =~= l);
    }
    loop
        invariant
            i <= entries@.len(),
            l == entries@.map_values(|q: (usize, EntryData)| crate::sort::pair_view(q)),
            find_pos(l, id as nat) == if find_pos(l.skip(i as int), id as nat) < 0 {
                -1
            } else {
                find_pos(l.skip(i as int), id as nat) + i
            },
        decreases entries@.len() - i,
    {
        if i == entries.len() {
            proof {
                assert(l.skip(i as int) =~= Seq::<(nat, crate::traverse::EntryView)>::empty());
            }
            return None;
        }
        proof {
            assert(l[i as int] == crate::sort::pair_view(entries@[i as int]));
            assert(l.skip(i as int)[0] == l[i as int]);
        }
        if entries[i].0 == id {
            return Some(i);
        }
        proof {
            assert(l.skip(i as int).skip(1) =~= l.skip(i as int + 1));
        }
        i = i + 1;
    }
}

} // verus!

