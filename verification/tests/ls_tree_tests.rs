use gift::ls_tree::{ls_tree_entries, mode_word_to_file_mode, parse_ls_tree_line};
use gift::object::FileMode;

#[test]
fn ls_tree_line_is_split() {
    let (mode, typ, sha, name) =
        parse_ls_tree_line("100644 blob ce013625030ba8dba906f756967f9e9ca394464a\ta b.txt");
    assert_eq!(mode, "100644");
    assert_eq!(typ, "blob");
    assert_eq!(sha, "ce013625030ba8dba906f756967f9e9ca394464a");
    assert_eq!(name, "a b.txt");
    let (mode, typ, _, name) = parse_ls_tree_line("  040000   tree\u{3000}abc \t\u{554a}\tx");
    assert_eq!(mode, "040000");
    assert_eq!(typ, "tree");
    assert_eq!(name, "\u{554a}\tx");
}

#[test]
fn ls_tree_output_is_split_into_entries() {
    let out = "100644 blob aaa\ta.txt\0\0040000 tree bbb\tfoo\0";
    let entries = ls_tree_entries(out);
    assert_eq!(entries.len(), 2);
    assert_eq!(entries[0].3, "a.txt");
    assert_eq!(entries[1].0, "040000");
    assert_eq!(entries[1].3, "foo");
    assert!(ls_tree_entries("").is_empty());
}

#[test]
fn ls_tree_modes() {
    assert_eq!(mode_word_to_file_mode("100644"), FileMode::NExecRegularFile);
    assert_eq!(mode_word_to_file_mode("100755"), FileMode::ExecRegularFile);
    assert_eq!(mode_word_to_file_mode("120000"), FileMode::SymbolicLink);
    assert_eq!(mode_word_to_file_mode("160000"), FileMode::Gitlink);
    assert_eq!(mode_word_to_file_mode("40000"), FileMode::Directory);
    assert_eq!(mode_word_to_file_mode("040000"), FileMode::Directory);
}
