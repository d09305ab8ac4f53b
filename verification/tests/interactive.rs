use dua::interactive::key_command;
use dua::interactive::Command;
use dua::interactive::CursorDirection;
use dua::interactive::DisplayOptions;
use dua::interactive::DisplayState;
use dua::interactive::TerminalApp;
use dua::sorted_entries;
use dua::traverse::EntryData;
use dua::traverse::Traversal;
use dua::traverse::Tree;
use dua::ByteFormat;
use dua::Color;
use dua::Sorting;
use dua::WalkOptions;

fn entry(name: &str, size: u64) -> EntryData {
    EntryData {
        name: name.as_bytes().to_vec(),
        size,
        metadata_io_error: false,
    }
}

/// A root with children b.txt (size 10) and a.txt (size 5); returns the tree
/// and the identities of root, b.txt and a.txt.
fn two_file_tree() -> (Tree, usize, usize, usize) {
    let mut t: Tree = Tree::with_capacity(0, 0);
    let r = t.add_node(entry("r", 15));
    let b = t.add_node(entry("b.txt", 10));
    let a = t.add_node(entry("a.txt", 5));
    t.add_edge(r, b, ());
    t.add_edge(r, a, ());
    (t, r.index(), b.index(), a.index())
}

fn app_over(tree: Tree, root: usize, io_errors: u64, sorting: Sorting) -> TerminalApp {
    let state = DisplayState::new(&tree, root, sorting);
    TerminalApp {
        traversal: Traversal {
            tree,
            root_index: root,
            io_errors,
        },
        display: DisplayOptions {
            byte_format: ByteFormat::Metric,
        },
        state,
    }
}

fn names(v: &[(usize, EntryData)]) -> Vec<String> {
    v.iter()
        .map(|(_, e)| String::from_utf8(e.name.clone()).unwrap())
        .collect()
}

#[test]
fn sorted_view_is_deterministic() {
    let (t, r, _, _) = two_file_tree();
    let first = sorted_entries(&t, r, Sorting::SizeDescending);
    let second = sorted_entries(&t, r, Sorting::SizeDescending);
    assert_eq!(first, second);
}

#[test]
fn alphabetical_order_is_by_name_bytes() {
    let (t, r, b, a) = two_file_tree();
    let v = sorted_entries(&t, r, Sorting::AlphabeticalByFileName);
    assert_eq!(names(&v), vec!["a.txt".to_string(), "b.txt".to_string()]);
    assert_eq!(v[0].0, a);
    assert_eq!(v[1].0, b);
}

#[test]
fn size_orders_break_ties_by_name() {
    let mut t: Tree = Tree::with_capacity(0, 0);
    let r = t.add_node(entry("r", 20));
    let c = t.add_node(entry("c", 5));
    let a = t.add_node(entry("a", 10));
    let b = t.add_node(entry("b", 5));
    t.add_edge(r, c, ());
    t.add_edge(r, a, ());
    t.add_edge(r, b, ());
    let asc = sorted_entries(&t, r.index(), Sorting::SizeAscending);
    assert_eq!(
        names(&asc),
        vec!["b".to_string(), "c".to_string(), "a".to_string()]
    );
    let desc = sorted_entries(&t, r.index(), Sorting::SizeDescending);
    assert_eq!(
        names(&desc),
        vec!["a".to_string(), "b".to_string(), "c".to_string()]
    );
}

#[test]
fn childless_node_has_empty_sorted_view() {
    let (t, _, b, _) = two_file_tree();
    let v = sorted_entries(&t, b, Sorting::AlphabeticalByFileName);
    assert!(v.is_empty());
}

#[test]
fn initial_selection_is_first_sorted_entry() {
    let (t, r, _, a) = two_file_tree();
    let state = DisplayState::new(&t, r, Sorting::AlphabeticalByFileName);
    assert_eq!(state.root, r);
    assert_eq!(state.selected, Some(a));
}

#[test]
fn initial_selection_is_absent_without_children() {
    let mut t: Tree = Tree::with_capacity(0, 0);
    let r = t.add_node(entry("r", 0));
    let state = DisplayState::new(&t, r.index(), Sorting::AlphabeticalByFileName);
    assert_eq!(state.selected, None);
}

#[test]
fn move_selection_walks_down_and_clamps() {
    let (t, r, b, a) = two_file_tree();
    let mut app = app_over(t, r, 0, Sorting::AlphabeticalByFileName);
    assert_eq!(app.state.selected, Some(a));
    app.change_vertical_index(CursorDirection::Down);
    assert_eq!(app.state.selected, Some(b));
    app.change_vertical_index(CursorDirection::Down);
    assert_eq!(app.state.selected, Some(b));
}

#[test]
fn move_selection_clamps_at_the_top() {
    let (t, r, _, a) = two_file_tree();
    let mut app = app_over(t, r, 0, Sorting::AlphabeticalByFileName);
    app.change_vertical_index(CursorDirection::Up);
    assert_eq!(app.state.selected, Some(a));
}

#[test]
fn toggle_switches_to_size_ascending() {
    let (t, r, _, _) = two_file_tree();
    let mut app = app_over(t, r, 0, Sorting::AlphabeticalByFileName);
    let quit = app.handle_command(Command::ToggleSort);
    assert!(!quit);
    assert_eq!(app.state.sorting, Sorting::SizeAscending);
    let v = sorted_entries(
        &app.traversal.tree,
        app.state.root,
        app.state.sorting,
    );
    assert_eq!(names(&v), vec!["a.txt".to_string(), "b.txt".to_string()]);
    assert_eq!(v[0].1.size, 5);
    assert_eq!(v[1].1.size, 10);
}

#[test]
fn toggle_cycles_between_the_size_orders() {
    let mut s = Sorting::default();
    assert_eq!(s, Sorting::AlphabeticalByFileName);
    s.toggle_size();
    assert_eq!(s, Sorting::SizeAscending);
    s.toggle_size();
    assert_eq!(s, Sorting::SizeDescending);
    s.toggle_size();
    assert_eq!(s, Sorting::SizeAscending);
}

/// Root R has child D (a directory) with children x and y; drilling into D
/// and back returns the root to R with D selected again.
#[test]
fn drill_down_and_up_round_trip() {
    let mut t: Tree = Tree::with_capacity(0, 0);
    let r = t.add_node(entry("r", 3));
    let d = t.add_node(entry("d", 3));
    let x = t.add_node(entry("x", 1));
    let y = t.add_node(entry("y", 2));
    t.add_edge(r, d, ());
    t.add_edge(d, x, ());
    t.add_edge(d, y, ());
    let mut app = app_over(t, r.index(), 0, Sorting::AlphabeticalByFileName);
    assert_eq!(app.state.selected, Some(d.index()));

    app.enter_node();
    assert_eq!(app.state.root, d.index());
    assert_eq!(app.state.selected, Some(x.index()));

    app.drill_up();
    assert_eq!(app.state.root, r.index());
    assert_eq!(app.state.selected, Some(d.index()));
}

#[test]
fn drill_up_at_scan_root_is_a_no_op() {
    let (t, r, _, a) = two_file_tree();
    let mut app = app_over(t, r, 0, Sorting::AlphabeticalByFileName);
    let before = app.state;
    app.drill_up();
    assert_eq!(app.state, before);
    assert_eq!(app.state.selected, Some(a));
}

#[test]
fn drill_down_into_a_leaf_is_a_no_op() {
    let (t, r, _, a) = two_file_tree();
    let mut app = app_over(t, r, 0, Sorting::AlphabeticalByFileName);
    assert_eq!(app.state.selected, Some(a));
    let before = app.state;
    app.enter_node();
    assert_eq!(app.state, before);
}

#[test]
fn drill_down_without_selection_is_a_no_op() {
    let mut t: Tree = Tree::with_capacity(0, 0);
    let r = t.add_node(entry("r", 0));
    let mut app = app_over(t, r.index(), 0, Sorting::AlphabeticalByFileName);
    assert_eq!(app.state.selected, None);
    let before = app.state;
    app.enter_node();
    assert_eq!(app.state, before);
}

#[test]
fn stale_selection_falls_back_to_the_first_entry() {
    let (t, r, _, a) = two_file_tree();
    let mut app = app_over(t, r, 0, Sorting::AlphabeticalByFileName);
    // An identity that is not a child of the root (the root itself).
    app.state.selected = Some(r);
    app.change_vertical_index(CursorDirection::Down);
    assert_eq!(app.state.selected, Some(a));
}

#[test]
fn move_selection_with_no_children_leaves_it_absent() {
    let mut t: Tree = Tree::with_capacity(0, 0);
    let r = t.add_node(entry("r", 0));
    let mut app = app_over(t, r.index(), 0, Sorting::AlphabeticalByFileName);
    app.change_vertical_index(CursorDirection::Down);
    assert_eq!(app.state.selected, None);
}

/// The session result reports the scan's I/O error count whatever
/// navigation happened before the quit.
#[test]
fn session_result_reports_scan_error_count() {
    let (t, r, _, _) = two_file_tree();
    let mut app = app_over(t, r, 2, Sorting::AlphabeticalByFileName);
    assert!(!app.handle_command(Command::MoveSelection(CursorDirection::Down)));
    assert!(!app.handle_command(Command::ToggleSort));
    assert!(!app.handle_command(Command::DrillDown));
    assert!(app.handle_command(Command::Quit));
    assert_eq!(app.walk_result().num_errors, 2);
}

#[test]
fn keys_decode_to_the_documented_commands() {
    assert_eq!(key_command('u', false), Some(Command::DrillUp));
    assert_eq!(key_command('o', false), Some(Command::DrillDown));
    assert_eq!(
        key_command('k', false),
        Some(Command::MoveSelection(CursorDirection::Up))
    );
    assert_eq!(
        key_command('j', false),
        Some(Command::MoveSelection(CursorDirection::Down))
    );
    assert_eq!(key_command('s', false), Some(Command::ToggleSort));
    assert_eq!(key_command('q', false), Some(Command::Quit));
    assert_eq!(key_command('c', true), Some(Command::Quit));
    assert_eq!(key_command('x', false), None);
    assert_eq!(key_command('u', true), None);
}

#[test]
fn display_options_take_the_byte_format_of_the_walk() {
    let options = WalkOptions {
        threads: 1,
        byte_format: ByteFormat::Binary,
        color: Color::Off,
        sorting: Sorting::AlphabeticalByFileName,
    };
    let display: DisplayOptions = options.into();
    assert_eq!(display.byte_format, ByteFormat::Binary);
}
