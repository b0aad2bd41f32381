use tab_notes_core::listing::parse_note_listing;

#[test]
fn extracts_note_names_from_find_output() {
    let stdout = "/notes/dotfiles/main.md\n/notes/dotfiles/feature-login.md\n";
    let parsed = parse_note_listing(stdout);
    assert!(parsed.contains("main"));
    assert!(parsed.contains("feature-login"));
    assert_eq!(parsed.len(), 2);
}

#[test]
fn handles_names_containing_spaces_and_dots() {
    let stdout = "/notes/s/my project.md\n/notes/s/v1.2 notes.md\n";
    let parsed = parse_note_listing(stdout);
    assert!(parsed.contains("my project"));
    assert!(parsed.contains("v1.2 notes"));
}

#[test]
fn ignores_blank_lines_and_non_markdown_entries() {
    let stdout = "\n/notes/s/a.md\n/notes/s/README\n\n";
    assert_eq!(parse_note_listing(stdout).len(), 1);
}

#[test]
fn empty_output_is_an_empty_set() {
    assert!(parse_note_listing("").is_empty());
}

#[test]
fn a_bare_md_file_names_no_note() {
    assert!(parse_note_listing("/notes/s/.md\n").is_empty());
}

#[test]
fn trailing_whitespace_and_carriage_returns_are_ignored() {
    let parsed = parse_note_listing("/notes/s/a.md  \r\n/notes/s/b.md\r\n");
    assert_eq!(parsed.len(), 2);
    assert!(parsed.contains("a"));
    assert!(parsed.contains("b"));
}

#[test]
fn a_name_without_a_directory_is_read_whole() {
    let parsed = parse_note_listing("plain.md");
    assert!(parsed.contains("plain"));
    assert_eq!(parsed.len(), 1);
}

#[test]
fn duplicate_lines_count_once() {
    assert_eq!(parse_note_listing("/a/x.md\n/b/x.md\n").len(), 1);
}
