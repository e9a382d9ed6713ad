use pointguard::dispatch::{
    candidates, decimal, first_line, hand_off, join, route, show, Handoff, Probe, Routed, Settings,
    Show, Step,
};
use pointguard::error::ShowError;
use pointguard::names::{display_path, file_name, is_hidden};
use pointguard::render::{drawn, print_tree, render_tree};
use pointguard::tree::{insert_node, name_not_greater, sorted_node, sorted_nodes, TreeNode};
use pointguard::walk::{build_forest, build_tree, shown_rows, DirectoryEntry, ShownEntry};

fn get_test_settings() -> Settings {
    Settings {
        dir: String::from("test-store-enc"),
        clip_time: 45,
        generated_length: 25,
        editor: String::from("vim"),
    }
}

fn entry(path: &str, depth: usize, is_dir: bool) -> Option<DirectoryEntry> {
    Some(DirectoryEntry { path: Some(String::from(path)), depth, is_dir })
}

/// The walk of the store below `root`, or of its directory `dir`.
fn store_walk() -> Vec<Option<DirectoryEntry>> {
    vec![
        entry("test-store-enc", 0, true),
        entry("test-store-enc/test.gpg", 1, false),
        entry("test-store-enc/.gpg-id", 1, false),
        entry("test-store-enc/dir", 1, true),
        entry("test-store-enc/dir/unique.gpg", 2, false),
        entry("test-store-enc/dir/test.gpg", 2, false),
        entry("test-store-enc/pointguard.dev.gpg", 1, false),
        entry("test-store-enc/dir.gpg", 1, false),
    ]
}

fn dir_walk() -> Vec<Option<DirectoryEntry>> {
    vec![
        entry("test-store-enc/dir/", 0, true),
        entry("test-store-enc/dir/unique.gpg", 1, false),
        entry("test-store-enc/dir/test.gpg", 1, false),
    ]
}

/// What the store's file system says of a requested name.
fn probe_store(input: Option<&str>) -> Probe {
    let secret = Probe { file_exists: true, file_is_dir: false, path_is_dir: false };
    match input {
        None => Probe { file_exists: true, file_is_dir: true, path_is_dir: true },
        Some("test") | Some("pointguard.dev") | Some("dir/test") | Some("dir/unique") => secret,
        Some("dir") => Probe { file_exists: true, file_is_dir: false, path_is_dir: true },
        Some("dir/") => Probe { file_exists: false, file_is_dir: false, path_is_dir: true },
        Some(_) => Probe { file_exists: false, file_is_dir: false, path_is_dir: false },
    }
}

/// Serves a request against the store, in which each secret holds its own
/// name and a line feed.
fn show_in_store(result: &mut Vec<u8>, opts: Show, settings: Settings) -> Result<(), ShowError> {
    let probe = probe_store(opts.input.as_deref());
    match show(&opts, &settings, probe)? {
        Step::Decrypt(file) => {
            let root = format!("{}/", settings.dir);
            let plain = format!("{}\n", file.trim_start_matches(root.as_str()).trim_end_matches(".gpg"));
            match route(&opts, Some(plain))? {
                Routed::Print(text) => result.extend_from_slice(text.as_bytes()),
                Routed::Relay(secret) => {
                    let handoff = hand_off(&opts, &settings, true, &secret)?;
                    result.extend_from_slice(handoff.message.as_bytes());
                }
            }
            Ok(())
        }
        Step::Browse(path) => {
            let walk = if path == settings.dir { store_walk() } else { dir_walk() };
            let bytes = print_tree(&walk, opts.input.clone())?;
            result.extend_from_slice(&bytes);
            Ok(())
        }
    }
}

#[test]
fn print_password() {
    let mut result: Vec<u8> = vec![];
    show_in_store(&mut result, Show::new(Some(String::from("test"))), get_test_settings()).unwrap();
    assert_eq!(String::from_utf8(result).unwrap().trim(), "test");
}

#[test]
fn print_website_password() {
    let mut result: Vec<u8> = vec![];
    show_in_store(
        &mut result,
        Show::new(Some(String::from("pointguard.dev"))),
        get_test_settings(),
    )
    .unwrap();
    assert_eq!(String::from_utf8(result).unwrap().trim(), "pointguard.dev");
}

#[test]
fn print_password_with_same_name_as_dir() {
    let mut result: Vec<u8> = vec![];
    show_in_store(&mut result, Show::new(Some(String::from("dir"))), get_test_settings()).unwrap();
    assert_eq!(String::from_utf8(result).unwrap().trim(), "dir");
}

#[test]
fn print_password_in_dir() {
    let mut result: Vec<u8> = vec![];
    show_in_store(&mut result, Show::new(Some(String::from("dir/test"))), get_test_settings())
        .unwrap();
    assert_eq!(String::from_utf8(result).unwrap().trim(), "dir/test");
}

#[test]
fn print_root_tree() {
    let mut result: Vec<u8> = vec![];
    show_in_store(&mut result, Show::new(None), get_test_settings()).unwrap();
    let result_string = String::from_utf8(result).unwrap();
    assert!(result_string.contains("test"));
    assert!(result_string.contains("pointguard.dev"));
    assert!(result_string.contains("dir"));
    assert!(result_string.contains("unique"));
    assert!(!result_string.contains("notinstore"));
}

#[test]
fn print_tree_with_same_name_as_password() {
    let mut result: Vec<u8> = vec![];
    show_in_store(&mut result, Show::new(Some(String::from("dir/"))), get_test_settings()).unwrap();
    let result_string = String::from_utf8(result).unwrap();
    assert!(result_string.contains("test"));
    assert!(result_string.contains("unique"));
    assert!(result_string.contains("dir"));
    assert!(!result_string.contains("notinstore"));
}

#[test]
fn root_tree_is_drawn_in_name_order() {
    let bytes = print_tree(&store_walk(), None).unwrap();
    let text = String::from_utf8(bytes).unwrap();
    let expected = "Point Guard Password Store\n\
                    ├─ dir\n\
                    │  ├─ test\n\
                    │  └─ unique\n\
                    ├─ dir\n\
                    ├─ pointguard.dev\n\
                    └─ test\n";
    assert_eq!(text, expected);
}

#[test]
fn directory_tree_is_titled_by_the_request() {
    let bytes = print_tree(&dir_walk(), Some(String::from("dir/"))).unwrap();
    let text = String::from_utf8(bytes).unwrap();
    assert_eq!(text, "dir/\n├─ test\n└─ unique\n");
}

#[test]
fn secret_comes_before_directory_of_same_name() {
    let opts = Show::new(Some(String::from("dir")));
    let probe = Probe { file_exists: true, file_is_dir: false, path_is_dir: true };
    let step = show(&opts, &get_test_settings(), probe).unwrap();
    assert_eq!(step, Step::Decrypt(String::from("test-store-enc/dir.gpg")));
}

#[test]
fn trailing_separator_browses() {
    let opts = Show::new(Some(String::from("dir/")));
    let step = show(&opts, &get_test_settings(), probe_store(Some("dir/"))).unwrap();
    assert_eq!(step, Step::Browse(String::from("test-store-enc/dir/")));
    let as_secret = Probe { file_exists: true, file_is_dir: false, path_is_dir: true };
    let step = show(&opts, &get_test_settings(), as_secret).unwrap();
    assert_eq!(step, Step::Decrypt(String::from("test-store-enc/dir/.gpg")));
}

#[test]
fn secret_candidate_that_is_a_directory_browses() {
    let opts = Show::new(None);
    let probe = Probe { file_exists: true, file_is_dir: true, path_is_dir: true };
    let step = show(&opts, &get_test_settings(), probe).unwrap();
    assert_eq!(step, Step::Browse(String::from("test-store-enc")));
}

#[test]
fn root_that_is_a_file_is_decrypted() {
    let opts = Show::new(None);
    let probe = Probe { file_exists: true, file_is_dir: false, path_is_dir: false };
    let step = show(&opts, &get_test_settings(), probe).unwrap();
    assert_eq!(step, Step::Decrypt(String::from("test-store-enc")));
}

#[test]
fn unknown_name_is_not_found() {
    let opts = Show::new(Some(String::from("notinstore")));
    let res = show(&opts, &get_test_settings(), probe_store(Some("notinstore")));
    assert_eq!(res, Err(ShowError::NotFound { name: String::from("notinstore") }));
}

#[test]
fn missing_root_is_reported_by_placeholder() {
    let opts = Show::new(None);
    let probe = Probe { file_exists: false, file_is_dir: false, path_is_dir: false };
    let res = show(&opts, &get_test_settings(), probe);
    assert_eq!(res, Err(ShowError::NotFound { name: String::from("File or folder") }));
}

#[test]
fn print_mode_keeps_the_plaintext() {
    let opts = Show::new(Some(String::from("test")));
    let plain = String::from("hunter2\r\nuser: me\n\n  trailing  ");
    assert_eq!(route(&opts, Some(plain.clone())), Ok(Routed::Print(plain)));
}

#[test]
fn clipboard_mode_waits_for_relay() {
    let opts = Show { input: Some(String::from("test")), clip: true };
    let plain = String::from("hunter2\nuser: me\n");
    assert_eq!(route(&opts, Some(plain.clone())), Ok(Routed::Relay(plain)));
}

#[test]
fn failed_decryption_fails() {
    let opts = Show::new(Some(String::from("test")));
    assert_eq!(route(&opts, None), Err(ShowError::DecryptionFailed));
    let clip = Show { input: Some(String::from("test")), clip: true };
    assert_eq!(route(&clip, None), Err(ShowError::DecryptionFailed));
}

#[test]
fn clipboard_gets_first_line_only() {
    let opts = Show { input: Some(String::from("test")), clip: true };
    let res = hand_off(&opts, &get_test_settings(), true, "hunter2\nuser: me\nurl: x\n");
    assert_eq!(
        res,
        Ok(Handoff {
            payload: String::from("hunter2"),
            message: String::from("Copied test to clipboard. Will clear in 45 seconds.\n"),
        })
    );
}

#[test]
fn relay_without_input_fails() {
    let opts = Show { input: Some(String::from("test")), clip: true };
    let res = hand_off(&opts, &get_test_settings(), false, "hunter2\n");
    assert_eq!(res, Err(ShowError::ClipboardRelayUnavailable));
    let res = hand_off(&opts, &get_test_settings(), false, "");
    assert_eq!(res, Err(ShowError::ClipboardRelayUnavailable));
}

#[test]
fn empty_secret_has_no_first_line() {
    let opts = Show { input: Some(String::from("test")), clip: true };
    let res = hand_off(&opts, &get_test_settings(), true, "");
    assert_eq!(res, Err(ShowError::EmptySecretContent));
}

#[test]
fn first_line_cases() {
    assert_eq!(first_line(""), None);
    assert_eq!(first_line("\n"), Some(String::new()));
    assert_eq!(first_line("abc"), Some(String::from("abc")));
    assert_eq!(first_line("abc\ndef"), Some(String::from("abc")));
    assert_eq!(first_line("abc\r\ndef"), Some(String::from("abc")));
    assert_eq!(first_line("abc\r"), Some(String::from("abc\r")));
    assert_eq!(first_line("a\rb\nc"), Some(String::from("a\rb")));
    assert_eq!(first_line("pä55\nx"), Some(String::from("pä55")));
}

#[test]
fn first_line_agrees_with_lines() {
    for text in ["", "\n", "\r\n", "a", "a\n", "a\r\n", "a\r", "\na", "a\n\nb", "é\r\nz"] {
        assert_eq!(first_line(text), text.lines().next().map(String::from));
    }
}

#[test]
fn decimal_digits() {
    assert_eq!(decimal(0), "0");
    assert_eq!(decimal(7), "7");
    assert_eq!(decimal(45), "45");
    assert_eq!(decimal(1000), "1000");
    assert_eq!(decimal(u64::MAX), "18446744073709551615");
}

#[test]
fn join_cases() {
    assert_eq!(join("store", "name"), "store/name");
    assert_eq!(join("store/", "name"), "store/name");
    assert_eq!(join("", "name"), "name");
    assert_eq!(join("store", "/abs"), "/abs");
    assert_eq!(join("store", ""), "store/");
    assert_eq!(join("store", "dir/test.gpg"), "store/dir/test.gpg");
}

#[test]
fn display_path_cases() {
    assert_eq!(display_path("store/dir/test.gpg"), Ok(String::from("test")));
    assert_eq!(display_path("pointguard.dev.gpg"), Ok(String::from("pointguard.dev")));
    assert_eq!(display_path("store/dir"), Ok(String::from("dir")));
    assert_eq!(display_path(".gpg-id"), Ok(String::from(".gpg-id")));
    assert_eq!(display_path(".hidden.gpg"), Ok(String::from(".hidden")));
    assert_eq!(display_path("name."), Ok(String::from("name")));
    assert_eq!(display_path("store.d/name"), Ok(String::from("name")));
    assert_eq!(display_path("ü.gpg"), Ok(String::from("ü")));
}

#[test]
fn display_path_without_base_name() {
    assert_eq!(display_path(""), Err(ShowError::InvalidEntryName));
    assert_eq!(display_path("/"), Err(ShowError::InvalidEntryName));
    assert_eq!(display_path("//"), Err(ShowError::InvalidEntryName));
    assert_eq!(display_path(".."), Err(ShowError::InvalidEntryName));
    assert_eq!(display_path("store/.."), Err(ShowError::InvalidEntryName));
    assert_eq!(display_path("store/../"), Err(ShowError::InvalidEntryName));
    assert_eq!(display_path("store/.././"), Err(ShowError::InvalidEntryName));
    assert_eq!(display_path("."), Err(ShowError::InvalidEntryName));
    assert_eq!(display_path("./"), Err(ShowError::InvalidEntryName));
    assert_eq!(display_path("/."), Err(ShowError::InvalidEntryName));
    assert_eq!(display_path("././."), Err(ShowError::InvalidEntryName));
}

#[test]
fn file_name_cases() {
    assert_eq!(file_name("a/b/c.gpg"), "c.gpg");
    assert_eq!(file_name("c.gpg"), "c.gpg");
    assert_eq!(file_name("a/"), "a");
    assert_eq!(file_name("a/b/."), "b");
    assert_eq!(file_name("a/b.gpg/.//"), "b.gpg");
    assert_eq!(file_name("a/.."), "..");
    assert_eq!(file_name("a/.hid"), ".hid");
    assert_eq!(file_name("a/b."), "b.");
    assert_eq!(file_name("."), "");
    assert_eq!(file_name("/"), "");
    assert_eq!(file_name(""), "");
}

#[test]
fn hidden_names() {
    assert!(is_hidden(".git"));
    assert!(is_hidden("."));
    assert!(!is_hidden("git"));
    assert!(!is_hidden("a.b"));
    assert!(!is_hidden(""));
}

#[test]
fn name_order_is_by_code_point() {
    assert!(name_not_greater("", ""));
    assert!(name_not_greater("", "a"));
    assert!(!name_not_greater("a", ""));
    assert!(name_not_greater("a", "a"));
    assert!(name_not_greater("a", "ab"));
    assert!(!name_not_greater("ab", "a"));
    assert!(name_not_greater("B", "a"));
    assert!(!name_not_greater("a", "B"));
    assert!(name_not_greater("z", "é"));
    for (a, b) in [("dir", "dir.x"), ("x", "X"), ("é", "e"), ("10", "9"), ("same", "same")] {
        assert_eq!(name_not_greater(a, b), a <= b);
        assert_eq!(name_not_greater(b, a), b <= a);
    }
}

fn leaf(name: &str) -> TreeNode {
    TreeNode::new(String::from(name))
}

fn node(name: &str, children: Vec<TreeNode>) -> TreeNode {
    TreeNode { name: String::from(name), children }
}

#[test]
fn new_node_is_a_leaf() {
    let n = TreeNode::new(String::from("x"));
    assert_eq!(n.name, "x");
    assert!(n.children.is_empty());
}

#[test]
fn sort_orders_every_level() {
    let mut tree = node(
        "root",
        vec![leaf("b"), node("a", vec![leaf("z"), leaf("y"), node("x", vec![leaf("2"), leaf("1")])])],
    );
    tree.sort();
    let expected = node(
        "root",
        vec![node("a", vec![node("x", vec![leaf("1"), leaf("2")]), leaf("y"), leaf("z")]), leaf("b")],
    );
    assert_eq!(tree, expected);
}

#[test]
fn sort_keeps_equal_names_in_order() {
    let mut tree = node("root", vec![leaf("z"), node("dir", vec![leaf("in")]), leaf("a"), leaf("dir")]);
    tree.sort();
    let expected = node("root", vec![leaf("a"), node("dir", vec![leaf("in")]), leaf("dir"), leaf("z")]);
    assert_eq!(tree, expected);
}

#[test]
fn sort_twice_is_sort_once() {
    let built = build_tree(&store_walk(), None).unwrap();
    let mut once = build_tree(&store_walk(), None).unwrap();
    once.sort();
    let mut twice = build_tree(&store_walk(), None).unwrap();
    twice.sort();
    twice.sort();
    assert_eq!(once, twice);
    assert_eq!(built, once);
    assert_eq!(render_tree(&once), render_tree(&twice));
}

#[test]
fn sorted_node_and_nodes() {
    let sorted = sorted_node(node("r", vec![leaf("b"), leaf("a")]));
    assert_eq!(sorted, node("r", vec![leaf("a"), leaf("b")]));
    let nodes = sorted_nodes(vec![leaf("c"), node("a", vec![leaf("2"), leaf("1")]), leaf("b")]);
    assert_eq!(nodes, vec![node("a", vec![leaf("1"), leaf("2")]), leaf("b"), leaf("c")]);
    assert_eq!(sorted_nodes(vec![]), Vec::<TreeNode>::new());
}

#[test]
fn insert_node_goes_behind_equal_names() {
    let mut nodes = vec![leaf("a"), node("c", vec![leaf("first")]), leaf("e")];
    insert_node(&mut nodes, leaf("c"));
    assert_eq!(nodes, vec![leaf("a"), node("c", vec![leaf("first")]), leaf("c"), leaf("e")]);
    insert_node(&mut nodes, leaf("0"));
    assert_eq!(nodes[0], leaf("0"));
    insert_node(&mut nodes, leaf("z"));
    assert_eq!(nodes[5], leaf("z"));
}

#[test]
fn hidden_entries_and_what_is_below_them_are_left_out() {
    let walk = vec![
        entry("s", 0, true),
        entry("s/.git", 1, true),
        entry("s/.git/config", 2, false),
        entry("s/.git/objects", 2, true),
        entry("s/.git/objects/ab.gpg", 3, false),
        entry("s/seen.gpg", 1, false),
        entry("s/dir", 1, true),
        entry("s/dir/.secret.gpg", 2, false),
        entry("s/dir/open.gpg", 2, false),
    ];
    let rows = shown_rows(&walk).unwrap();
    assert_eq!(
        rows,
        vec![
            ShownEntry { name: String::from("seen"), depth: 1, is_dir: false },
            ShownEntry { name: String::from("dir"), depth: 1, is_dir: true },
            ShownEntry { name: String::from("open"), depth: 2, is_dir: false },
        ]
    );
    let tree = build_tree(&walk, Some(String::from("s"))).unwrap();
    assert_eq!(tree, node("s", vec![node("dir", vec![leaf("open")]), leaf("seen")]));
}

#[test]
fn hidden_root_shows_what_it_holds() {
    let walk = vec![
        entry("/home/u/.store", 0, true),
        entry("/home/u/.store/x.gpg", 1, false),
        entry("/home/u/.store/.git", 1, true),
        entry("/home/u/.store/.git/config", 2, false),
        entry("/home/u/.store/d", 1, true),
        entry("/home/u/.store/d/y.gpg", 2, false),
    ];
    assert_eq!(
        shown_rows(&walk),
        Ok(vec![
            ShownEntry { name: String::from("x"), depth: 1, is_dir: false },
            ShownEntry { name: String::from("d"), depth: 1, is_dir: true },
            ShownEntry { name: String::from("y"), depth: 2, is_dir: false },
        ])
    );
    assert_eq!(
        build_tree(&walk, None),
        Ok(node("Point Guard Password Store", vec![node("d", vec![leaf("y")]), leaf("x")]))
    );
    let text = String::from_utf8(print_tree(&walk, None).unwrap()).unwrap();
    assert_eq!(text, "Point Guard Password Store\n├─ d\n│  └─ y\n└─ x\n");
}

#[test]
fn root_inside_a_cut_ends_it() {
    let walk = vec![
        entry("s", 0, true),
        entry("s/.h", 1, true),
        entry("s/.h/in", 2, false),
        entry(".t", 0, true),
        entry(".t/a.gpg", 1, false),
    ];
    assert_eq!(build_tree(&walk, Some(String::from("s"))), Ok(node("s", vec![leaf("a")])));
}

#[test]
fn empty_walk_gives_the_title_alone() {
    assert_eq!(build_tree(&vec![], None), Ok(leaf("Point Guard Password Store")));
    assert_eq!(build_tree(&vec![], Some(String::from("x"))), Ok(leaf("x")));
    let bytes = print_tree(&vec![], Some(String::from("x"))).unwrap();
    assert_eq!(bytes, b"x\n".to_vec());
}

#[test]
fn ascent_over_several_levels_unwinds_fully() {
    let walk = vec![
        entry("s", 0, true),
        entry("s/a", 1, true),
        entry("s/a/b", 2, true),
        entry("s/a/b/c", 3, true),
        entry("s/z.gpg", 1, false),
    ];
    let tree = build_tree(&walk, Some(String::from("s"))).unwrap();
    assert_eq!(tree, node("s", vec![node("a", vec![node("b", vec![leaf("c")])]), leaf("z")]));
}

#[test]
fn sibling_directories_do_not_nest() {
    let walk = vec![
        entry("s", 0, true),
        entry("s/b", 1, true),
        entry("s/b/y.gpg", 2, false),
        entry("s/a", 1, true),
        entry("s/a/x.gpg", 2, false),
        entry("s/a/deep", 2, true),
        entry("s/a/deep/w.gpg", 3, false),
        entry("s/c.gpg", 1, false),
    ];
    let tree = build_tree(&walk, Some(String::from("s"))).unwrap();
    let expected = node(
        "s",
        vec![
            node("a", vec![node("deep", vec![leaf("w")]), leaf("x")]),
            node("b", vec![leaf("y")]),
            leaf("c"),
        ],
    );
    assert_eq!(tree, expected);
}

#[test]
fn build_forest_of_a_range() {
    let rows = vec![
        ShownEntry { name: String::from("d"), depth: 1, is_dir: true },
        ShownEntry { name: String::from("f"), depth: 2, is_dir: false },
        ShownEntry { name: String::from("g"), depth: 1, is_dir: false },
    ];
    assert_eq!(build_forest(&rows, 0, 3), vec![node("d", vec![leaf("f")]), leaf("g")]);
    assert_eq!(build_forest(&rows, 1, 3), vec![leaf("f"), leaf("g")]);
    assert_eq!(build_forest(&rows, 0, 1), vec![leaf("d")]);
    assert_eq!(build_forest(&rows, 2, 2), Vec::<TreeNode>::new());
    assert_eq!(build_forest(&rows, 2, 1), Vec::<TreeNode>::new());
    assert_eq!(build_forest(&rows, 0, 4), Vec::<TreeNode>::new());
}

#[test]
fn entry_without_base_name_aborts_the_build() {
    let walk = vec![entry("s", 0, true), entry("s/a.gpg", 1, false), entry("/", 1, false)];
    assert_eq!(shown_rows(&walk), Err(ShowError::InvalidEntryName));
    assert_eq!(build_tree(&walk, None), Err(ShowError::InvalidEntryName));
    assert_eq!(print_tree(&walk, None), Err(ShowError::InvalidEntryName));
}

#[test]
fn nameless_entry_below_hidden_directory_is_not_read() {
    let walk = vec![entry("s", 0, true), entry("s/.h", 1, true), entry("/", 2, false)];
    assert_eq!(build_tree(&walk, Some(String::from("s"))), Ok(leaf("s")));
}

#[test]
fn render_draws_nested_levels() {
    let tree = node("r", vec![node("a", vec![node("b", vec![leaf("c")]), leaf("d")]), leaf("e")]);
    let text = String::from_utf8(render_tree(&tree).unwrap()).unwrap();
    assert_eq!(text, "r\n├─ a\n│  ├─ b\n│  │  └─ c\n│  └─ d\n└─ e\n");
}

#[test]
fn drawn_cases() {
    assert_eq!(drawn(Some(vec![1, 2])), Ok(vec![1, 2]));
    assert_eq!(drawn(Some(vec![])), Ok(vec![]));
    assert_eq!(drawn(None), Err(ShowError::OutputFailed));
}

#[test]
fn new_request_goes_to_the_output() {
    let opts = Show::new(Some(String::from("test")));
    assert_eq!(opts.input, Some(String::from("test")));
    assert!(!opts.clip);
}

#[test]
fn candidates_of_a_request() {
    let settings = get_test_settings();
    assert_eq!(
        candidates(&Show::new(Some(String::from("dir"))), &settings),
        (String::from("test-store-enc/dir"), String::from("test-store-enc/dir.gpg"))
    );
    assert_eq!(
        candidates(&Show::new(Some(String::from("dir/"))), &settings),
        (String::from("test-store-enc/dir/"), String::from("test-store-enc/dir/.gpg"))
    );
    assert_eq!(
        candidates(&Show::new(None), &settings),
        (String::from("test-store-enc"), String::from("test-store-enc"))
    );
}

#[test]
fn clear_time_is_named_in_the_message() {
    let opts = Show { input: Some(String::from("dir/test")), clip: true };
    let mut settings = get_test_settings();
    settings.clip_time = 0;
    let handoff = hand_off(&opts, &settings, true, "pw\r\nrest").unwrap();
    assert_eq!(handoff.payload, "pw");
    assert_eq!(handoff.message, "Copied dir/test to clipboard. Will clear in 0 seconds.\n");
}

#[test]
fn deeper_rows_behind_a_file_stay_on_its_level() {
    let walk = vec![
        entry("s", 0, true),
        entry("s/f.gpg", 1, false),
        entry("s/f.gpg/odd.gpg", 2, false),
        entry("s/d", 1, true),
        entry("s/d/x/y.gpg", 3, false),
    ];
    let tree = build_tree(&walk, Some(String::from("s"))).unwrap();
    assert_eq!(tree, node("s", vec![node("d", vec![leaf("y")]), leaf("f"), leaf("odd")]));
}

#[test]
fn unreadable_entries_are_passed_over() {
    let walk = vec![
        entry("s", 0, true),
        None,
        entry("s/d", 1, true),
        None,
        entry("s/d/x.gpg", 2, false),
        entry("s/.h", 1, true),
        None,
        entry("s/.h/y.gpg", 2, false),
        entry("s/a.gpg", 1, false),
        None,
    ];
    let tree = build_tree(&walk, Some(String::from("s"))).unwrap();
    assert_eq!(tree, node("s", vec![leaf("a"), node("d", vec![leaf("x")])]));
}

#[test]
fn name_that_is_not_text_aborts_the_build() {
    let walk = vec![
        entry("s", 0, true),
        entry("s/a.gpg", 1, false),
        Some(DirectoryEntry { path: None, depth: 1, is_dir: false }),
    ];
    assert_eq!(shown_rows(&walk), Err(ShowError::InvalidEntryName));
    assert_eq!(print_tree(&walk, None), Err(ShowError::InvalidEntryName));
}

#[test]
fn name_that_is_not_text_below_hidden_directory_is_not_read() {
    let walk = vec![
        Some(DirectoryEntry { path: None, depth: 0, is_dir: true }),
        entry("s/.h", 1, true),
        Some(DirectoryEntry { path: None, depth: 2, is_dir: false }),
        entry("s/a.gpg", 1, false),
    ];
    assert_eq!(build_tree(&walk, Some(String::from("s"))), Ok(node("s", vec![leaf("a")])));
}

#[test]
fn render_of_a_leaf_is_its_name() {
    assert_eq!(render_tree(&leaf("only")), Ok(b"only\n".to_vec()));
}

#[test]
fn render_succeeds_far_below_the_depth_limit() {
    let mut tree = leaf("bottom");
    for level in 0..200 {
        tree = node(&format!("d{}", level), vec![tree]);
    }
    let bytes = render_tree(&tree).unwrap();
    let text = String::from_utf8(bytes).unwrap();
    assert_eq!(text.lines().count(), 201);
    assert!(text.starts_with("d199\n└─ d198\n   └─ d197\n"));
    assert!(text.ends_with("└─ bottom\n"));
}

#[test]
fn display_path_passes_over_trailing_separators_and_dots() {
    assert_eq!(display_path("a/b/"), Ok(String::from("b")));
    assert_eq!(display_path("a/."), Ok(String::from("a")));
    assert_eq!(display_path("store/"), Ok(String::from("store")));
    assert_eq!(display_path("a/b.gpg//"), Ok(String::from("b")));
    assert_eq!(display_path("a/b.gpg/./"), Ok(String::from("b")));
    assert_eq!(display_path("./a.gpg"), Ok(String::from("a")));
    assert_eq!(display_path("/a"), Ok(String::from("a")));
    assert_eq!(display_path("a/..."), Ok(String::from("..")));
    assert_eq!(display_path("a/..b"), Ok(String::from(".")));
    assert_eq!(display_path("a/b.."), Ok(String::from("b.")));
}

#[test]
fn display_path_agrees_with_file_stem() {
    let paths = [
        "", "/", "//", ".", "..", "./", "../", "/.", "/..", "a", "a/", "a//", "a/.", "a/./", "a/..",
        "a/../", "a/b", "a/b/", "a/b/.", "a/b/..", "a/./b", "a//b", "./a", "../a", ".a", "a.", "a.b",
        "a.b.c", ".a.b", "..a", "a..", "...", "....", "a/.b", "a/b.", "a/.b.c", "a.d/b", "a.d/b/",
        "a.d/.", "a.d/..", "/a.gpg", "/a.gpg/", "x/y.tar.gz", "x/y.tar.gz/./.", "ü/ö.gpg", ". ", " .",
        "./.", "././.", ".//", "a/. ", "a/ .", "/./a", "/.a/.", "test-store-enc/dir/",
        "test-store-enc/pointguard.dev.gpg",
    ];
    for path in paths {
        let expected = std::path::Path::new(path)
            .file_stem()
            .and_then(|stem| stem.to_str())
            .map(String::from)
            .ok_or(ShowError::InvalidEntryName);
        assert_eq!(display_path(path), expected, "for {:?}", path);
        let name = std::path::Path::new(path)
            .file_name()
            .and_then(|name| name.to_str())
            .unwrap_or("");
        if name.is_empty() {
            assert!(file_name(path).is_empty() || file_name(path) == "..", "for {:?}", path);
        } else {
            assert_eq!(file_name(path), name, "for {:?}", path);
        }
    }
}

#[test]
fn copy_of_the_root_is_spoken_of_by_the_placeholder() {
    let opts = Show { input: None, clip: true };
    let res = hand_off(&opts, &get_test_settings(), true, "pw\nmore\n");
    assert_eq!(
        res,
        Ok(Handoff {
            payload: String::from("pw"),
            message: String::from("Copied File or folder to clipboard. Will clear in 45 seconds.\n"),
        })
    );
    assert_eq!(
        hand_off(&opts, &get_test_settings(), false, "pw"),
        Err(ShowError::ClipboardRelayUnavailable)
    );
    assert_eq!(hand_off(&opts, &get_test_settings(), true, ""), Err(ShowError::EmptySecretContent));
}
