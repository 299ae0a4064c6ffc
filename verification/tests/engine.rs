use konserve::backup::{backup_gui, BackupInput, DirMember};
use konserve::codec::adjust_path_str;
use konserve::manifest::{get_fingered, parse_fingerprint_text, render_fingerprint};
use konserve::progress::Progress;
use konserve::restore::{parse_fingerprint, restore_backup};
use konserve::strutil::{chars_of, string_of};
use konserve::tree::{build_human_tree, build_tree_from_paths, collect_paths, set_all_checked};

fn file_input(path: &str, data: &[u8]) -> BackupInput {
    BackupInput::FileInput {
        path: path.to_string(),
        data: data.to_vec(),
        mode: 0o644,
        mtime: 1_700_000_000,
    }
}

fn dir_member(rel: &str, is_dir: bool, data: &[u8]) -> DirMember {
    DirMember {
        rel: rel.to_string(),
        is_dir,
        data: data.to_vec(),
        mode: if is_dir { 0o755 } else { 0o644 },
        mtime: 1_700_000_000,
    }
}

fn sample_inputs() -> Vec<BackupInput> {
    vec![
        BackupInput::DirInput {
            path: "/data/F".to_string(),
            members: vec![
                dir_member("", true, b""),
                dir_member("a.txt", false, b"alpha"),
                dir_member("sub", true, b""),
                dir_member("sub/b.txt", false, b"bravo"),
            ],
        },
        file_input("/docs/report.docx", b"report body"),
    ]
}

#[test]
fn round_trip_rebuilds_the_original_leaves() {
    let inputs = sample_inputs();
    let mut progress = Progress::new();
    let (bytes, _name) = backup_gui(&inputs, &mut progress).unwrap();

    let (entries, path_map) = parse_fingerprint(&bytes).unwrap();
    assert_eq!(path_map.len(), 2);

    let mut tree = build_human_tree(entries, path_map);
    set_all_checked(&mut tree, true);
    let leaves = collect_paths(&tree);
    assert_eq!(
        leaves,
        vec![
            "/data/F/a.txt".to_string(),
            "/data/F/sub".to_string(),
            "/data/F/sub/b.txt".to_string(),
            "/docs/report.docx".to_string(),
        ]
    );
}

#[test]
fn selective_extraction_restores_exactly_the_selection() {
    let inputs = sample_inputs();
    let mut progress = Progress::new();
    let (bytes, _name) = backup_gui(&inputs, &mut progress).unwrap();

    let selection = vec!["/data/F/sub/b.txt".to_string()];
    let home = "/home/me".to_string();
    let mut rp = Progress::new();
    let actions = restore_backup(&bytes, Some(selection), &home, &mut rp).unwrap();

    assert_eq!(actions.len(), 1);
    assert_eq!(actions[0].dest, "/data/F/sub/b.txt");
    assert!(!actions[0].is_dir);
    assert_eq!(actions[0].data, b"bravo".to_vec());
    assert!(actions.iter().all(|a| !a.dest.contains("a.txt")));
}

#[test]
fn selecting_the_whole_item_restores_its_subtree() {
    let inputs = sample_inputs();
    let mut progress = Progress::new();
    let (bytes, _name) = backup_gui(&inputs, &mut progress).unwrap();

    let selection = vec![
        "/data/F/a.txt".to_string(),
        "/data/F/sub".to_string(),
        "/data/F/sub/b.txt".to_string(),
    ];
    let home = "/home/me".to_string();
    let mut rp = Progress::new();
    let actions = restore_backup(&bytes, Some(selection), &home, &mut rp).unwrap();

    let dests: Vec<&str> = actions.iter().map(|a| a.dest.as_str()).collect();
    assert_eq!(
        dests,
        vec!["/data/F/a.txt", "/data/F/sub", "/data/F/sub/b.txt"]
    );
    assert!(!actions[0].is_dir);
    assert!(actions[1].is_dir);
    assert_eq!(rp.get(), 101);
}

#[test]
fn corrupt_container_bytes_are_an_error() {
    let bytes = b"not a container at all".to_vec();
    assert!(parse_fingerprint(&bytes).is_err());
    let home = "/home/me".to_string();
    let mut rp = Progress::new();
    assert!(restore_backup(&bytes, None, &home, &mut rp).is_err());
    assert_eq!(rp.get(), 0);
}

#[test]
fn lone_file_disambiguation_by_extension() {
    let inputs = vec![
        file_input("/home/old/report.docx", b"with extension"),
        file_input("/home/old/README", b"without extension"),
    ];
    let mut progress = Progress::new();
    let (bytes, _name) = backup_gui(&inputs, &mut progress).unwrap();

    let (entries, _path_map) = parse_fingerprint(&bytes).unwrap();
    assert_eq!(entries.len(), 2);
    assert_eq!(entries[0].len(), 36 + 1 + 4);
    assert!(entries[0].ends_with(".docx"));
    assert_eq!(entries[1].len(), 36);
    assert!(entries[1]
        .chars()
        .all(|c| c == '-' || c.is_ascii_digit() || ('a'..='f').contains(&c)));

    let home = "/home/new".to_string();
    let mut rp = Progress::new();
    let actions = restore_backup(&bytes, None, &home, &mut rp).unwrap();
    assert_eq!(actions.len(), 2);
    assert_eq!(actions[0].dest, "/home/old/report.docx");
    assert_eq!(actions[0].data, b"with extension".to_vec());
    assert_eq!(actions[1].dest, "/home/old/README");
    assert_eq!(actions[1].data, b"without extension".to_vec());
}

#[test]
fn fingerprint_parse_is_idempotent() {
    let inputs = sample_inputs();
    let mut progress = Progress::new();
    let (bytes, _name) = backup_gui(&inputs, &mut progress).unwrap();

    let (entries1, map1) = parse_fingerprint(&bytes).unwrap();
    let (entries2, map2) = parse_fingerprint(&bytes).unwrap();
    assert_eq!(entries1, entries2);
    assert_eq!(map1, map2);
}

#[test]
fn progress_reaches_the_terminal_sentinel() {
    let inputs = sample_inputs();
    let mut progress = Progress::new();
    assert_eq!(progress.get(), 0);
    let (bytes, _name) = backup_gui(&inputs, &mut progress).unwrap();
    assert_eq!(progress.get(), 101);

    let home = "/home/me".to_string();
    let mut rp = Progress::new();
    restore_backup(&bytes, None, &home, &mut rp).unwrap();
    assert_eq!(rp.get(), 101);
}

#[test]
fn progress_cell_stores_and_loads() {
    let mut p = Progress::new();
    p.set(42);
    assert_eq!(p.get(), 42);
    let reader = p.clone();
    p.set(77);
    assert_eq!(reader.get(), 77);
    p.done();
    assert_eq!(p.get(), 101);
}

#[test]
fn archive_without_fingerprint_is_rejected() {
    let mut b = tar::Builder::new(Vec::new());
    let mut h = tar::Header::new_gnu();
    let data: &[u8] = b"stray";
    h.set_size(data.len() as u64);
    h.set_mode(0o644);
    b.append_data(&mut h, "loose.txt", data).unwrap();
    let bytes = b.into_inner().unwrap();

    let home = "/home/me".to_string();
    let mut rp = Progress::new();
    let r = restore_backup(&bytes, None, &home, &mut rp);
    assert_eq!(r.unwrap_err(), "Invalid backup fingerprint.");
    assert_eq!(rp.get(), 0);
}

#[test]
fn archive_with_garbage_marker_is_rejected() {
    let mut b = tar::Builder::new(Vec::new());
    let mut h = tar::Header::new_gnu();
    let data: &[u8] = b"NOT_THE_RIGHT_MARKER\n[Backup Info]\nabc: /tmp/x\n";
    h.set_size(data.len() as u64);
    h.set_mode(0o644);
    b.append_data(&mut h, "fingerprint.txt", data).unwrap();
    let bytes = b.into_inner().unwrap();

    let home = "/home/me".to_string();
    let mut rp = Progress::new();
    let r = restore_backup(&bytes, None, &home, &mut rp);
    assert_eq!(r.unwrap_err(), "Invalid backup fingerprint.");
    assert_eq!(rp.get(), 0);
}

#[test]
fn empty_directory_is_preserved() {
    let inputs = vec![BackupInput::DirInput {
        path: "/data/F".to_string(),
        members: vec![dir_member("", true, b""), dir_member("empty", true, b"")],
    }];
    let mut progress = Progress::new();
    let (bytes, _name) = backup_gui(&inputs, &mut progress).unwrap();
    assert_eq!(progress.get(), 101);

    let home = "/home/me".to_string();
    let mut rp = Progress::new();
    let actions = restore_backup(&bytes, None, &home, &mut rp).unwrap();
    let dir_actions: Vec<_> = actions.iter().filter(|a| a.is_dir).collect();
    assert!(dir_actions.iter().any(|a| a.dest == "/data/F/empty"));
    assert!(dir_actions.iter().all(|a| a.data.is_empty()));
}

#[test]
fn fingerprint_text_renders_and_parses_back() {
    let entries = vec![
        ("token-one".to_string(), "/a/b".to_string()),
        ("token-two".to_string(), "/c d/e".to_string()),
    ];
    let text = render_fingerprint(&entries);
    assert_eq!(
        text,
        "DEFAULT_FINGERPRINT\n[Backup Info]\ntoken-one: /a/b\ntoken-two: /c d/e\n"
    );
    let parsed = parse_fingerprint_text(&chars_of(&text));
    assert_eq!(parsed, entries);
}

#[test]
fn fingerprint_lines_without_delimiter_are_ignored_and_paths_trimmed() {
    let text = "junk header\nplain line\ntok: /x/y  \r\nrepeat: /first\nrepeat: /second\n";
    let parsed = parse_fingerprint_text(&chars_of(text));
    assert_eq!(
        parsed,
        vec![
            ("tok".to_string(), "/x/y".to_string()),
            ("repeat".to_string(), "/second".to_string()),
        ]
    );
}

#[test]
fn build_marker_default() {
    assert_eq!(get_fingered(), "DEFAULT_FINGERPRINT");
}

#[test]
fn adjust_path_rewrites_foreign_home() {
    let adjusted = adjust_path_str("C:\\Users\\olduser\\Documents\\f.txt", "/home/me");
    assert_eq!(adjusted, "/home/me\\Documents\\f.txt");
    let untouched = adjust_path_str("/var/log/syslog", "/home/me");
    assert_eq!(untouched, "/var/log/syslog");
    let lowercase_drive = adjust_path_str("c:\\users\\olduser\\f.txt", "/home/me");
    assert_eq!(lowercase_drive, "c:\\users\\olduser\\f.txt");
}

#[test]
fn display_tree_groups_by_segments() {
    let paths = vec![
        "Documents/report.docx".to_string(),
        "Pictures/vacation/photo1.jpg".to_string(),
    ];
    let tree = build_tree_from_paths(&paths);
    assert_eq!(tree.children.len(), 2);
    assert_eq!(tree.children[0].0, "Documents");
    let docs = &tree.children[0].1;
    assert_eq!(docs.children.len(), 1);
    assert_eq!(docs.children[0].0, "report.docx");
    assert!(docs.children[0].1.is_file);
    assert!(docs.children[0].1.checked);
}

#[test]
fn strings_round_trip_through_char_vectors() {
    let s = "påth/with spaces\\and-χαρακτήρες";
    let v = chars_of(s);
    assert_eq!(string_of(&v), s);
}

#[test]
fn backup_archive_name_shape() {
    let inputs = vec![file_input("/tmp/x.txt", b"x")];
    let mut progress = Progress::new();
    let (_bytes, name) = backup_gui(&inputs, &mut progress).unwrap();
    assert!(name.starts_with("backup_"));
    assert!(name.ends_with(".tar"));
}

#[test]
fn empty_backup_holds_only_the_fingerprint() {
    let inputs: Vec<BackupInput> = Vec::new();
    let mut progress = Progress::new();
    let (bytes, _name) = backup_gui(&inputs, &mut progress).unwrap();
    assert_eq!(progress.get(), 101);
    let (entries, path_map) = parse_fingerprint(&bytes).unwrap();
    assert!(entries.is_empty());
    assert!(path_map.is_empty());
}
