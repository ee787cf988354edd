use notestore::base_dir;
use notestore::create_note;
use notestore::create_notebook;
use notestore::ensure_demo_data;
use notestore::ensure_root;
use notestore::list_notebooks;
use notestore::list_notes;
use notestore::read_note;
use notestore::safe_image_name;
use notestore::sample_note_content;
use notestore::sample_png;
use notestore::sanitize_name;
use notestore::save_image;
use notestore::save_note;
use notestore::to_note;
use notestore::to_notebook;
use notestore::Fs;
use notestore::StoreError;

fn seg(parts: &[&str]) -> Vec<String> {
    parts.iter().map(|p| p.to_string()).collect()
}

fn root() -> Vec<String> {
    seg(&["data", "notebooks"])
}

#[test]
fn sanitize_trims_and_replaces() {
    assert_eq!(sanitize_name("  a/b\\c  "), "a_b_c");
    assert_eq!(sanitize_name("///"), "___");
    assert_eq!(sanitize_name("  plain  "), "plain");
    assert_eq!(sanitize_name(""), "");
    assert_eq!(sanitize_name("\t notes \n"), "notes");
}

#[test]
fn safe_image_name_takes_final_component() {
    assert_eq!(safe_image_name("photo.png"), "photo.png");
    assert_eq!(safe_image_name("dir/sub/photo.png"), "photo.png");
    assert_eq!(safe_image_name("..\\..\\evil.png"), "evil.png");
    assert_eq!(safe_image_name("../../evil.png"), "evil.png");
    assert_eq!(safe_image_name("name/"), "name");
}

#[test]
fn safe_image_name_falls_back() {
    assert_eq!(safe_image_name(""), "image.png");
    assert_eq!(safe_image_name(".."), "image.png");
    assert_eq!(safe_image_name("a/.."), "image.png");
    assert_eq!(safe_image_name("."), "image.png");
    assert_eq!(safe_image_name("///"), "image.png");
}

#[test]
fn sanitize_trims_unicode_whitespace() {
    assert_eq!(sanitize_name("\u{3000}name\u{a0}"), "name");
    assert_eq!(sanitize_name("\u{2002}a b\u{2029}"), "a b");
}

#[test]
fn list_order_puts_prefix_first() {
    let mut fs = Fs::empty();
    let r = root();
    create_notebook(&mut fs, &r, "abc").unwrap();
    create_notebook(&mut fs, &r, "ab").unwrap();
    create_notebook(&mut fs, &r, "b").unwrap();
    let names: Vec<String> =
        list_notebooks(&mut fs, &r).unwrap().into_iter().map(|nb| nb.name).collect();
    assert_eq!(names, vec!["ab".to_string(), "abc".to_string(), "b".to_string()]);
}

#[test]
fn entities_from_paths() {
    assert!(to_notebook(&seg(&[])).is_none());
    assert!(to_note(&seg(&[])).is_none());
    let nb = to_notebook(&seg(&["data", "notebooks", "work"])).unwrap();
    assert_eq!(nb.name, "work");
    assert_eq!(nb.path, seg(&["data", "notebooks", "work"]));
    let nt = to_note(&seg(&["data", "notebooks", "work", "todo"])).unwrap();
    assert_eq!(nt.name, "todo");
    assert_eq!(nt.path, seg(&["data", "notebooks", "work", "todo"]));
}

#[test]
fn base_dir_appends_fixed_segment() {
    assert_eq!(base_dir(&seg(&["home", "app"])), seg(&["home", "app", "notebooks"]));
}

#[test]
fn ensure_root_is_idempotent() {
    let mut fs = Fs::empty();
    let r = root();
    assert!(ensure_root(&mut fs, &r).is_ok());
    assert!(ensure_root(&mut fs, &r).is_ok());
    assert!(fs.dir_exists(&r));
    assert!(fs.dir_exists(&seg(&["data"])));
}

#[test]
fn create_notebook_sanitizes_name() {
    let mut fs = Fs::empty();
    let r = root();
    let nb = create_notebook(&mut fs, &r, "my/evil\\name").unwrap();
    assert_eq!(nb.name, "my_evil_name");
    assert_eq!(nb.path, seg(&["data", "notebooks", "my_evil_name"]));
    let listed = list_notebooks(&mut fs, &r).unwrap();
    assert_eq!(listed.len(), 1);
    assert_eq!(listed[0].name, "my_evil_name");
    assert!(!fs.dir_exists(&seg(&["data", "notebooks", "my", "evil", "name"])));
}

#[test]
fn create_notebook_twice_yields_same_notebook() {
    let mut fs = Fs::empty();
    let r = root();
    let a = create_notebook(&mut fs, &r, "work").unwrap();
    let b = create_notebook(&mut fs, &r, "work").unwrap();
    assert_eq!(a.path, b.path);
    assert_eq!(list_notebooks(&mut fs, &r).unwrap().len(), 1);
}

#[test]
fn list_notebooks_sorts_by_name() {
    let mut fs = Fs::empty();
    let r = root();
    create_notebook(&mut fs, &r, "B").unwrap();
    create_notebook(&mut fs, &r, "a").unwrap();
    create_notebook(&mut fs, &r, "C").unwrap();
    let names: Vec<String> =
        list_notebooks(&mut fs, &r).unwrap().into_iter().map(|nb| nb.name).collect();
    assert_eq!(names, vec!["B".to_string(), "C".to_string(), "a".to_string()]);
}

#[test]
fn list_notes_sorts_by_name() {
    let mut fs = Fs::empty();
    let r = root();
    let nb = create_notebook(&mut fs, &r, "nb").unwrap();
    create_note(&mut fs, &nb.path, "zeta").unwrap();
    create_note(&mut fs, &nb.path, "Alpha").unwrap();
    create_note(&mut fs, &nb.path, "beta").unwrap();
    let names: Vec<String> =
        list_notes(&fs, &nb.path).unwrap().into_iter().map(|nt| nt.name).collect();
    assert_eq!(names, vec!["Alpha".to_string(), "beta".to_string(), "zeta".to_string()]);
}

#[test]
fn list_notes_empty_notebook_is_empty_not_error() {
    let mut fs = Fs::empty();
    let r = root();
    let nb = create_notebook(&mut fs, &r, "fresh").unwrap();
    let notes = list_notes(&fs, &nb.path).unwrap();
    assert!(notes.is_empty());
}

#[test]
fn list_notes_missing_directory_is_error() {
    let fs = Fs::empty();
    assert!(list_notes(&fs, &seg(&["nowhere"])).is_err());
}

#[test]
fn read_note_missing_document_is_descriptive_error() {
    let mut fs = Fs::empty();
    let r = root();
    let nb = create_notebook(&mut fs, &r, "nb").unwrap();
    match read_note(&fs, &nb.path) {
        Err(StoreError::NotFound { detail }) => {
            assert_eq!(detail, "note.md is missing from the note directory");
        }
        other => panic!("expected NotFound, got {:?}", other.is_ok()),
    }
}

#[test]
fn error_messages_name_their_kind() {
    let e = StoreError::NotFound { detail: "x".to_string() };
    assert_eq!(e.message(), "not found: x");
    let e = StoreError::IoFailure { detail: "y".to_string() };
    assert_eq!(e.message(), "io failure: y");
}

#[test]
fn save_then_read_returns_content_verbatim() {
    let mut fs = Fs::empty();
    let r = root();
    let nb = create_notebook(&mut fs, &r, "nb").unwrap();
    let nt = create_note(&mut fs, &nb.path, "note").unwrap();
    let content = "# Title\n\nSome text, some unicode: \u{4f60}\u{597d}\n";
    save_note(&mut fs, &nt.path, content).unwrap();
    assert_eq!(read_note(&fs, &nt.path).unwrap(), content);
    save_note(&mut fs, &nt.path, "").unwrap();
    assert_eq!(read_note(&fs, &nt.path).unwrap(), "");
}

#[test]
fn save_note_without_directory_is_error() {
    let mut fs = Fs::empty();
    match save_note(&mut fs, &seg(&["nowhere"]), "text") {
        Err(StoreError::IoFailure { .. }) => {}
        _ => panic!("expected IoFailure"),
    }
}

#[test]
fn create_note_writes_default_document_once() {
    let mut fs = Fs::empty();
    let r = root();
    let nb = create_notebook(&mut fs, &r, "nb").unwrap();
    let nt = create_note(&mut fs, &nb.path, "note").unwrap();
    assert_eq!(read_note(&fs, &nt.path).unwrap(), "# 新笔记\n\n开始记录吧。");
    save_note(&mut fs, &nt.path, "edited").unwrap();
    let again = create_note(&mut fs, &nb.path, "note").unwrap();
    assert_eq!(again.path, nt.path);
    assert_eq!(read_note(&fs, &nt.path).unwrap(), "edited");
}

#[test]
fn create_note_sanitizes_name() {
    let mut fs = Fs::empty();
    let r = root();
    let nb = create_notebook(&mut fs, &r, "nb").unwrap();
    let nt = create_note(&mut fs, &nb.path, " a/b ").unwrap();
    assert_eq!(nt.name, "a_b");
    assert_eq!(nt.path, seg(&["data", "notebooks", "nb", "a_b"]));
}

#[test]
fn create_notebook_blocked_by_file_is_error() {
    let mut fs = Fs::empty();
    let r = root();
    let nb = create_notebook(&mut fs, &r, "nb").unwrap();
    let nt = create_note(&mut fs, &nb.path, "note").unwrap();
    let mut doc = nt.path.clone();
    doc.push("note.md".to_string());
    match create_notebook(&mut fs, &doc, "x") {
        Err(StoreError::IoFailure { .. }) => {}
        _ => panic!("expected IoFailure"),
    }
}

#[test]
fn save_image_confines_traversal() {
    let mut fs = Fs::empty();
    let r = root();
    let nb = create_notebook(&mut fs, &r, "nb").unwrap();
    let nt = create_note(&mut fs, &nb.path, "note").unwrap();
    let data = vec![1u8, 2, 3, 4];
    let rel = save_image(&mut fs, &nt.path, "../../evil.png", data.clone()).unwrap();
    assert_eq!(rel, "images/evil.png");
    let mut inside = nt.path.clone();
    inside.push("images".to_string());
    inside.push("evil.png".to_string());
    assert_eq!(fs.read_file(&inside).unwrap(), data);
    assert!(!fs.file_exists(&seg(&["evil.png"])));
    assert!(!fs.file_exists(&seg(&["data", "evil.png"])));
    assert!(!fs.file_exists(&seg(&["data", "notebooks", "evil.png"])));
    let mut beside = nt.path.clone();
    beside.push("evil.png".to_string());
    assert!(!fs.file_exists(&beside));
}

#[test]
fn save_image_overwrites_same_name() {
    let mut fs = Fs::empty();
    let r = root();
    let nb = create_notebook(&mut fs, &r, "nb").unwrap();
    let nt = create_note(&mut fs, &nb.path, "note").unwrap();
    save_image(&mut fs, &nt.path, "pic.png", vec![1u8]).unwrap();
    let rel = save_image(&mut fs, &nt.path, "pic.png", vec![2u8, 3u8]).unwrap();
    assert_eq!(rel, "images/pic.png");
    let mut target = nt.path.clone();
    target.push("images".to_string());
    target.push("pic.png".to_string());
    assert_eq!(fs.read_file(&target).unwrap(), vec![2u8, 3u8]);
}

#[test]
fn demo_data_is_seeded_and_idempotent() {
    let mut fs = Fs::empty();
    let r = root();
    ensure_demo_data(&mut fs, &r).unwrap();
    let notebooks = list_notebooks(&mut fs, &r).unwrap();
    assert_eq!(notebooks.len(), 1);
    assert_eq!(notebooks[0].name, "Sample Notebook");
    let notes = list_notes(&fs, &notebooks[0].path).unwrap();
    assert_eq!(notes.len(), 1);
    assert_eq!(notes[0].name, "Welcome");
    assert_eq!(read_note(&fs, &notes[0].path).unwrap(), sample_note_content());
    let mut png = notes[0].path.clone();
    png.push("images".to_string());
    png.push("sample.png".to_string());
    assert_eq!(fs.read_file(&png).unwrap(), sample_png());

    ensure_demo_data(&mut fs, &r).unwrap();
    assert_eq!(list_notebooks(&mut fs, &r).unwrap().len(), 1);
    assert_eq!(read_note(&fs, &notes[0].path).unwrap(), sample_note_content());
}

#[test]
fn demo_data_never_clobbers_edits() {
    let mut fs = Fs::empty();
    let r = root();
    ensure_demo_data(&mut fs, &r).unwrap();
    let note_path = seg(&["data", "notebooks", "Sample Notebook", "Welcome"]);
    save_note(&mut fs, &note_path, "my own words").unwrap();
    let mut png = note_path.clone();
    png.push("images".to_string());
    png.push("sample.png".to_string());
    fs.write_file(&png, vec![9u8]).unwrap();
    ensure_demo_data(&mut fs, &r).unwrap();
    assert_eq!(read_note(&fs, &note_path).unwrap(), "my own words");
    assert_eq!(fs.read_file(&png).unwrap(), vec![9u8]);
}

#[test]
fn read_note_on_non_utf8_document_is_io_failure() {
    let mut fs = Fs::empty();
    let r = root();
    let nb = create_notebook(&mut fs, &r, "nb").unwrap();
    let nt = create_note(&mut fs, &nb.path, "note").unwrap();
    let mut doc = nt.path.clone();
    doc.push("note.md".to_string());
    fs.write_file(&doc, vec![0xffu8, 0xfe]).unwrap();
    match read_note(&fs, &nt.path) {
        Err(StoreError::IoFailure { .. }) => {}
        _ => panic!("expected IoFailure"),
    }
}
