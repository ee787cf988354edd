//! The store operations: enumerating and creating notebooks and notes,
//! reading and overwriting a note's document, and persisting image
//! assets. Every operation takes the directory tree and the root path
//! explicitly; nothing is cached between calls.

use vstd::prelude::*;

use crate::entity::clone_path;
use crate::entity::insert_note_sorted;
use crate::entity::insert_notebook_sorted;
use crate::entity::distinct_notebook_names;
use crate::entity::notebooks_contain_name;
use crate::entity::notes_contain_name;
use crate::entity::sorted_notebooks;
use crate::entity::sorted_notes;
use crate::entity::Note;
use crate::entity::Notebook;
use crate::fs::no_prefix_file;
use crate::fs::path_is_prefix;
use crate::fs::Fs;
use crate::fs::PathKey;
use crate::fs::StoreError;
use crate::name::safe_image_name;
use crate::name::safe_image_name_spec;
use crate::name::sanitize_name;
use crate::name::sanitize_spec;
use vstd::utf8::decode_utf8;
use vstd::utf8::encode_utf8;
use vstd::utf8::valid_utf8;

verus! {

/// The path of a note's document: the file `note.md` inside the note's
/// directory.
pub open spec fn note_file_key(p: PathKey) -> PathKey {
    p.push("note.md"@)
}

/// The path of a note's asset directory: `images` inside the note's
/// directory.
pub open spec fn images_dir_key(p: PathKey) -> PathKey {
    p.push("images"@)
}

/// The file map after a note's document has been saved: the document's
/// bytes are the UTF-8 encoding of the content, everything else is kept.
pub open spec fn saved_note_files(
    f: Map<PathKey, Seq<u8>>,
    p: PathKey,
    content: Seq<char>,
) -> Map<PathKey, Seq<u8>> {
    f.insert(note_file_key(p), encode_utf8(content))
}

/// The content a read of the note at `p` yields: the decoding of the
/// document's bytes when the document exists and is valid UTF-8 text,
/// and nothing otherwise.
pub open spec fn read_note_content(f: Map<PathKey, Seq<u8>>, p: PathKey) -> Option<Seq<char>> {
    let k = note_file_key(p);
    if f.contains_key(k) && valid_utf8(f[k]) {
        Some(decode_utf8(f[k]))
    } else {
        None
    }
}

/// The fixed document a freshly created note starts with.
pub open spec fn default_note_text() -> Seq<char> {
    "# 新笔记\n\n开始记录吧。"@
}

/// Relies on `String::from_utf8`: it succeeds exactly on valid UTF-8
/// input, and then returns the string those bytes encode.
#[verifier::external_body]
fn bytes_to_string(v: Vec<u8>) -> (r: Option<String>)
    ensures
        r is Some <==> valid_utf8(v@),
        r matches Some(s) ==> s@ == decode_utf8(v@),
{
    String::from_utf8(v).ok()
}

/// Builds the path of a note's document file.
fn note_file_path(note_path: &Vec<String>) -> (r: Vec<String>)
    ensures
        r.deep_view() == note_file_key(note_path.deep_view()),
{
    let mut r = clone_path(note_path);
    let ghost d0 = r.deep_view();
    r.push(String::from_str("note.md"));
    proof {
        assert(r.deep_view() =~= d0.push("note.md"@));
    }
    r
}

/// The root of the whole collection: the fixed `notebooks` segment
/// appended to the application's data directory.
pub fn base_dir(data_dir: &Vec<String>) -> (r: Vec<String>)
    ensures
        r.deep_view() == data_dir.deep_view().push("notebooks"@),
{
    let mut r = clone_path(data_dir);
    let ghost d0 = r.deep_view();
    r.push(String::from_str("notebooks"));
    proof {
        assert(r.deep_view() =~= d0.push("notebooks"@));
    }
    r
}

/// Creates the root directory (and its ancestors) if missing.
/// Idempotent: an existing root is left as it is.
pub fn ensure_root(fs: &mut Fs, root: &Vec<String>) -> (r: Result<(), StoreError>)
    requires
        old(fs).wf(),
    ensures
        final(fs).wf(),
        final(fs).file_map() == old(fs).file_map(),
        r is Ok <==> no_prefix_file(old(fs).file_map(), root.deep_view()),
        r is Ok ==> (forall|q: PathKey|
            final(fs).has_dir(q) <==> old(fs).has_dir(q) || path_is_prefix(q, root.deep_view())),
        r matches Err(e) ==> *final(fs) == *old(fs) && e is IoFailure,
{
    fs.create_dir_all(root)
}

/// Overwrites the note's document with the given content, creating the
/// file when absent. Succeeds exactly when the note's directory exists
/// and nothing but a file stands at the document's path.
pub fn save_note(fs: &mut Fs, note_path: &Vec<String>, content: &str) -> (r: Result<
    (),
    StoreError,
>)
    requires
        old(fs).wf(),
    ensures
        final(fs).wf(),
        forall|q: PathKey| final(fs).has_dir(q) == old(fs).has_dir(q),
        r is Ok <==> (old(fs).has_dir(note_path.deep_view()) && !old(fs).has_dir(
            note_file_key(note_path.deep_view()),
        )),
        r is Ok ==> final(fs).file_map() == saved_note_files(
            old(fs).file_map(),
            note_path.deep_view(),
            content@,
        ),
        r matches Err(e) ==> *final(fs) == *old(fs) && e is IoFailure,
{
    let fp = note_file_path(note_path);
    proof {
        assert(fp.deep_view().take(fp.deep_view().len() - 1) =~= note_path.deep_view());
    }
    fs.write_file(&fp, content.as_bytes_vec())
}

/// Reads the note's document as UTF-8 text. Fails with a descriptive
/// `NotFound` error when the document is absent — never with empty
/// content — and with `IoFailure` when it cannot be read as text.
pub fn read_note(fs: &Fs, note_path: &Vec<String>) -> (r: Result<String, StoreError>)
    requires
        fs.wf(),
    ensures
        r is Ok <==> read_note_content(fs.file_map(), note_path.deep_view()) is Some,
        r matches Ok(s) ==> read_note_content(fs.file_map(), note_path.deep_view()) == Some(s@),
        (!fs.file_map().contains_key(note_file_key(note_path.deep_view())) && !fs.has_dir(
            note_file_key(note_path.deep_view()),
        )) ==> (r matches Err(StoreError::NotFound { detail }) && detail@
            == "note.md is missing from the note directory"@),
        r matches Err(e) ==> (e is NotFound ==> !fs.file_map().contains_key(
            note_file_key(note_path.deep_view()),
        )),
{
    let fp = note_file_path(note_path);
    match fs.read_file(&fp) {
        Ok(bytes) => match bytes_to_string(bytes) {
            Some(s) => Ok(s),
            None => Err(
                StoreError::IoFailure {
                    detail: String::from_str("note.md does not hold valid UTF-8 text"),
                },
            ),
        },
        Err(e) => match e {
            StoreError::NotFound { detail: _ } => Err(
                StoreError::NotFound {
                    detail: String::from_str("note.md is missing from the note directory"),
                },
            ),
            StoreError::IoFailure { detail } => Err(StoreError::IoFailure { detail }),
        },
    }
}

/// Whether `d` names a directory immediately inside `base`.
pub open spec fn is_child_key(d: PathKey, base: PathKey) -> bool {
    d.len() == base.len() + 1 && d.take(base.len() as int) == base
}

fn is_child_of(d: &Vec<String>, base: &Vec<String>) -> (r: bool)
    ensures
        r == is_child_key(d.deep_view(), base.deep_view()),
{
    if d.len() == 0 {
        return false;
    }
    if d.len() - 1 != base.len() {
        return false;
    }
    let mut k: usize = 0;
    while k < base.len()
        invariant
            0 <= k <= base@.len(),
            d@.len() == base@.len() + 1,
            forall|j: int| 0 <= j < k ==> d.deep_view()[j] == base.deep_view()[j],
        decreases base@.len() - k,
    {
        if !(d[k] == base[k]) {
            proof {
                assert(d.deep_view()[k as int] != base.deep_view()[k as int]);
                assert(d.deep_view().take(base.deep_view().len() as int)[k as int]
                    == d.deep_view()[k as int]);
            }
            return false;
        }
        k += 1;
    }
    proof {
        assert(d.deep_view().take(base.deep_view().len() as int) =~= base.deep_view());
    }
    true
}

/// Enumerates the notebooks: the directories immediately under the
/// root, each once, sorted by name ascending. The root is created
/// first when missing.
pub fn list_notebooks(fs: &mut Fs, root: &Vec<String>) -> (r: Result<Vec<Notebook>, StoreError>)
    requires
        old(fs).wf(),
    ensures
        final(fs).wf(),
        final(fs).file_map() == old(fs).file_map(),
        r is Ok <==> no_prefix_file(old(fs).file_map(), root.deep_view()),
        r is Ok ==> (forall|q: PathKey|
            final(fs).has_dir(q) <==> old(fs).has_dir(q) || path_is_prefix(q, root.deep_view())),
        r matches Err(e) ==> *final(fs) == *old(fs) && e is IoFailure,
        r matches Ok(v) ==> sorted_notebooks(v@),
        r matches Ok(v) ==> (forall|i: int|
            0 <= i < v@.len() ==> (#[trigger] v@[i].path.deep_view()) == root.deep_view().push(
                v@[i].name@,
            ) && final(fs).has_dir(v@[i].path.deep_view())),
        r matches Ok(v) ==> (forall|n: Seq<char>|
            final(fs).has_dir(#[trigger] root.deep_view().push(n)) ==> notebooks_contain_name(
                v@,
                n,
            )),
        r matches Ok(v) ==> distinct_notebook_names(v@),
{
    match fs.create_dir_all(root) {
        Err(e) => {
            return Err(e);
        },
        Ok(_) => {},
    }
    let ghost fs1 = *fs;
    let ghost rd = root.deep_view();
    let mut v: Vec<Notebook> = Vec::new();
    let mut t: usize = 0;
    while t < fs.dirs.len()
        invariant
            0 <= t <= fs.dirs@.len(),
            *fs == fs1,
            fs1.wf(),
            rd == root.deep_view(),
            sorted_notebooks(v@),
            forall|i: int|
                0 <= i < v@.len() ==> (#[trigger] v@[i].path.deep_view()) == rd.push(v@[i].name@)
                    && fs1.has_dir(v@[i].path.deep_view()),
            forall|a: int, b: int|
                0 <= a < b < v@.len() ==> (#[trigger] v@[a].name@) != (#[trigger] v@[b].name@),
            forall|n: Seq<char>|
                #[trigger] notebooks_contain_name(v@, n) ==> (exists|u: int|
                    0 <= u < t && (#[trigger] fs1.dirs.deep_view()[u]) == rd.push(n)),
            forall|u: int|
                0 <= u < t && is_child_key(#[trigger] fs1.dirs.deep_view()[u], rd)
                    ==> notebooks_contain_name(v@, fs1.dirs.deep_view()[u].last()),
        decreases fs.dirs@.len() - t,
    {
        if is_child_of(&fs.dirs[t], root) {
            let name = fs.dirs[t][fs.dirs[t].len() - 1].clone();
            let path = clone_path(&fs.dirs[t]);
            let ghost dd = fs1.dirs.deep_view()[t as int];
            proof {
                assert(dd =~= rd.push(dd.last()));
                assert(name@ == dd.last());
                assert(path.deep_view() == dd);
                if notebooks_contain_name(v@, name@) {
                    let u = choose|u: int|
                        0 <= u < t && (#[trigger] fs1.dirs.deep_view()[u]) == rd.push(name@);
                    assert(fs1.dirs.deep_view()[u] == dd);
                    assert(false);
                }
            }
            let ghost v0 = v@;
            insert_notebook_sorted(&mut v, Notebook { name, path });
            proof {
                assert forall|i: int|
                    0 <= i < v@.len() implies (#[trigger] v@[i].path.deep_view()) == rd.push(
                    v@[i].name@,
                ) && fs1.has_dir(v@[i].path.deep_view()) by {
                    assert(v@.contains(v@[i]));
                    if v0.contains(v@[i]) {
                        let j = choose|j: int| 0 <= j < v0.len() && v0[j] == v@[i];
                        assert(v0[j].path.deep_view() == rd.push(v0[j].name@));
                    } else {
                        assert(fs1.has_dir(dd));
                    }
                }
                assert forall|n: Seq<char>|
                    #[trigger] notebooks_contain_name(v@, n) implies (exists|u: int|
                    0 <= u < t + 1 && (#[trigger] fs1.dirs.deep_view()[u]) == rd.push(n)) by {
                    if notebooks_contain_name(v0, n) {
                        let u = choose|u: int|
                            0 <= u < t && (#[trigger] fs1.dirs.deep_view()[u]) == rd.push(n);
                        assert(0 <= u < t + 1 && fs1.dirs.deep_view()[u] == rd.push(n));
                    } else {
                        assert(n == name@);
                        assert(fs1.dirs.deep_view()[t as int] == rd.push(n));
                    }
                }
                assert forall|u: int|
                    0 <= u < t + 1 && is_child_key(#[trigger] fs1.dirs.deep_view()[u], rd)
                    implies notebooks_contain_name(v@, fs1.dirs.deep_view()[u].last()) by {
                    if u < t {
                        assert(notebooks_contain_name(v0, fs1.dirs.deep_view()[u].last()));
                    } else {
                        assert(fs1.dirs.deep_view()[u].last() == name@);
                    }
                }
            }
        } else {
            proof {
                assert(!is_child_key(fs1.dirs.deep_view()[t as int], rd));
            }
        }
        t += 1;
    }
    proof {
        assert forall|n: Seq<char>| fs1.has_dir(#[trigger] rd.push(n)) implies
            notebooks_contain_name(v@, n) by {
            let u = choose|u: int|
                0 <= u < fs1.dirs@.len() && (#[trigger] fs1.dirs.deep_view()[u]) == rd.push(n);
            assert(rd.push(n).take(rd.len() as int) =~= rd);
            assert(is_child_key(fs1.dirs.deep_view()[u], rd));
            assert(fs1.dirs.deep_view()[u].last() == n);
        }
        assert(distinct_notebook_names(v@));
    }
    Ok(v)
}

/// Enumerates the notes of a notebook: the directories immediately
/// inside it, each once, sorted by name ascending. An empty notebook
/// yields an empty sequence, not an error; a missing directory is an
/// error.
#[verifier::rlimit(50)]
pub fn list_notes(fs: &Fs, notebook_path: &Vec<String>) -> (r: Result<Vec<Note>, StoreError>)
    requires
        fs.wf(),
    ensures
        r is Ok <==> fs.has_dir(notebook_path.deep_view()),
        r matches Err(e) ==> e is IoFailure,
        r matches Ok(v) ==> sorted_notes(v@),
        r matches Ok(v) ==> (forall|i: int|
            0 <= i < v@.len() ==> (#[trigger] v@[i].path.deep_view())
                == notebook_path.deep_view().push(v@[i].name@) && fs.has_dir(
                v@[i].path.deep_view(),
            )),
        r matches Ok(v) ==> (forall|n: Seq<char>|
            fs.has_dir(#[trigger] notebook_path.deep_view().push(n)) ==> notes_contain_name(
                v@,
                n,
            )),
        r matches Ok(v) ==> crate::entity::distinct_note_names(v@),
{
    if !fs.dir_exists(notebook_path) {
        return Err(
            StoreError::IoFailure {
                detail: String::from_str("the notebook directory cannot be read"),
            },
        );
    }
    let ghost pd = notebook_path.deep_view();
    let mut v: Vec<Note> = Vec::new();
    let mut t: usize = 0;
    while t < fs.dirs.len()
        invariant
            0 <= t <= fs.dirs@.len(),
            fs.wf(),
            pd == notebook_path.deep_view(),
            sorted_notes(v@),
            forall|i: int|
                0 <= i < v@.len() ==> (#[trigger] v@[i].path.deep_view()) == pd.push(v@[i].name@)
                    && fs.has_dir(v@[i].path.deep_view()),
            forall|a: int, b: int|
                0 <= a < b < v@.len() ==> (#[trigger] v@[a].name@) != (#[trigger] v@[b].name@),
            forall|n: Seq<char>|
                #[trigger] notes_contain_name(v@, n) ==> (exists|u: int|
                    0 <= u < t && (#[trigger] fs.dirs.deep_view()[u]) == pd.push(n)),
            forall|u: int|
                0 <= u < t && is_child_key(#[trigger] fs.dirs.deep_view()[u], pd)
                    ==> notes_contain_name(v@, fs.dirs.deep_view()[u].last()),
        decreases fs.dirs@.len() - t,
    {
        if is_child_of(&fs.dirs[t], notebook_path) {
            let name = fs.dirs[t][fs.dirs[t].len() - 1].clone();
            let path = clone_path(&fs.dirs[t]);
            let ghost dd = fs.dirs.deep_view()[t as int];
            proof {
                assert(dd =~= pd.push(dd.last()));
                assert(name@ == dd.last());
                assert(path.deep_view() == dd);
                if notes_contain_name(v@, name@) {
                    let u = choose|u: int|
                        0 <= u < t && (#[trigger] fs.dirs.deep_view()[u]) == pd.push(name@);
                    assert(fs.dirs.deep_view()[u] == dd);
                    assert(false);
                }
            }
            let ghost v0 = v@;
            insert_note_sorted(&mut v, Note { name, path });
            proof {
                assert forall|i: int|
                    0 <= i < v@.len() implies (#[trigger] v@[i].path.deep_view()) == pd.push(
                    v@[i].name@,
                ) && fs.has_dir(v@[i].path.deep_view()) by {
                    assert(v@.contains(v@[i]));
                    if v0.contains(v@[i]) {
                        let j = choose|j: int| 0 <= j < v0.len() && v0[j] == v@[i];
                        assert(v0[j].path.deep_view() == pd.push(v0[j].name@));
                    } else {
                        assert(fs.has_dir(dd));
                    }
                }
                assert forall|n: Seq<char>|
                    #[trigger] notes_contain_name(v@, n) implies (exists|u: int|
                    0 <= u < t + 1 && (#[trigger] fs.dirs.deep_view()[u]) == pd.push(n)) by {
                    if notes_contain_name(v0, n) {
                        let u = choose|u: int|
                            0 <= u < t && (#[trigger] fs.dirs.deep_view()[u]) == pd.push(n);
                        assert(0 <= u < t + 1 && fs.dirs.deep_view()[u] == pd.push(n));
                    } else {
                        assert(n == name@);
                        assert(fs.dirs.deep_view()[t as int] == pd.push(n));
                    }
                }
                assert forall|u: int|
                    0 <= u < t + 1 && is_child_key(#[trigger] fs.dirs.deep_view()[u], pd)
                    implies notes_contain_name(v@, fs.dirs.deep_view()[u].last()) by {
                    if u < t {
                        assert(notes_contain_name(v0, fs.dirs.deep_view()[u].last()));
                    } else {
                        assert(fs.dirs.deep_view()[u].last() == name@);
                    }
                }
            }
        } else {
            proof {
                assert(!is_child_key(fs.dirs.deep_view()[t as int], pd));
            }
        }
        t += 1;
    }
    proof {
        assert forall|n: Seq<char>| fs.has_dir(#[trigger] pd.push(n)) implies notes_contain_name(
            v@,
            n,
        ) by {
            let u = choose|u: int|
                0 <= u < fs.dirs@.len() && (#[trigger] fs.dirs.deep_view()[u]) == pd.push(n);
            assert(pd.push(n).take(pd.len() as int) =~= pd);
            assert(is_child_key(fs.dirs.deep_view()[u], pd));
            assert(fs.dirs.deep_view()[u].last() == n);
        }
        assert(crate::entity::distinct_note_names(v@));
    }
    Ok(v)
}

/// The fixed default document of a freshly created note.
pub fn default_note_content() -> (r: String)
    ensures
        r@ == default_note_text(),
{
    String::from_str("# 新笔记\n\n开始记录吧。")
}

/// Creates the notebook directory `<root>/<sanitized name>`, creating
/// the root first when missing. Idempotent: an existing directory is
/// not an error, and creating the same name twice yields the same
/// notebook.
pub fn create_notebook(fs: &mut Fs, root: &Vec<String>, name: &str) -> (r: Result<
    Notebook,
    StoreError,
>)
    requires
        old(fs).wf(),
    ensures
        final(fs).wf(),
        final(fs).file_map() == old(fs).file_map(),
        r is Ok <==> no_prefix_file(
            old(fs).file_map(),
            root.deep_view().push(sanitize_spec(name@)),
        ),
        r matches Ok(nb) ==> (forall|q: PathKey|
            final(fs).has_dir(q) <==> old(fs).has_dir(q) || path_is_prefix(
                q,
                root.deep_view().push(sanitize_spec(name@)),
            )) && nb.name@ == sanitize_spec(name@) && nb.path.deep_view()
            == root.deep_view().push(sanitize_spec(name@)),
        r matches Err(e) ==> e is IoFailure && (forall|q: PathKey|
            final(fs).has_dir(q) ==> old(fs).has_dir(q) || path_is_prefix(q, root.deep_view())),
{
    let ghost rd = root.deep_view();
    let ghost full_d = rd.push(sanitize_spec(name@));
    proof {
        assert forall|n: int| 1 <= n <= rd.len() implies #[trigger] full_d.take(n) == rd.take(
            n,
        ) by {
            assert(full_d.take(n) =~= rd.take(n));
        }
        assert(full_d.take(full_d.len() as int) =~= full_d);
    }
    match fs.create_dir_all(root) {
        Err(e) => {
            proof {
                let n = choose|n: int|
                    1 <= n <= rd.len() && old(fs).file_map().contains_key(#[trigger] rd.take(n));
                assert(old(fs).file_map().contains_key(full_d.take(n)));
            }
            return Err(e);
        },
        Ok(_) => {},
    }
    let safe = sanitize_name(name);
    let nb_name = safe.clone();
    let mut full = clone_path(root);
    let ghost d0 = full.deep_view();
    full.push(safe);
    proof {
        assert(full.deep_view() =~= d0.push(sanitize_spec(name@)));
    }
    match fs.create_dir_all(&full) {
        Err(e) => {
            return Err(e);
        },
        Ok(_) => {},
    }
    proof {
        assert forall|q: PathKey|
            final(fs).has_dir(q) <==> (old(fs).has_dir(q) || path_is_prefix(q, full_d)) by {
            if path_is_prefix(q, rd) {
                let n = choose|n: int| 1 <= n <= rd.len() && q == #[trigger] rd.take(n);
                assert(q == full_d.take(n));
            }
        }
    }
    Ok(Notebook { name: nb_name, path: full })
}

/// Creates the note directory `<notebook>/<sanitized name>` and, when
/// no document exists there yet, writes the fixed default document.
/// A pre-existing note is left untouched.
pub fn create_note(fs: &mut Fs, notebook_path: &Vec<String>, name: &str) -> (r: Result<
    Note,
    StoreError,
>)
    requires
        old(fs).wf(),
    ensures
        final(fs).wf(),
        ({
            let dir = notebook_path.deep_view().push(sanitize_spec(name@));
            let key = note_file_key(dir);
            &&& (r is Ok <==> (no_prefix_file(old(fs).file_map(), dir)
                && (old(fs).file_map().contains_key(key) || !old(fs).has_dir(key))))
            &&& (r matches Ok(nt) ==> (forall|q: PathKey|
                final(fs).has_dir(q) <==> old(fs).has_dir(q) || path_is_prefix(q, dir))
                && final(fs).file_map() == (if old(fs).file_map().contains_key(key) {
                old(fs).file_map()
            } else {
                old(fs).file_map().insert(key, encode_utf8(default_note_text()))
            }) && nt.name@ == sanitize_spec(name@) && nt.path.deep_view() == dir)
            &&& (r matches Err(e) ==> e is IoFailure
                && final(fs).file_map() == old(fs).file_map() && (forall|q: PathKey|
                final(fs).has_dir(q) ==> old(fs).has_dir(q) || path_is_prefix(q, dir)))
        }),
{
    let ghost pd = notebook_path.deep_view();
    let ghost dir_d = pd.push(sanitize_spec(name@));
    let safe = sanitize_name(name);
    let nt_name = safe.clone();
    let mut dir = clone_path(notebook_path);
    let ghost d0 = dir.deep_view();
    dir.push(safe);
    proof {
        assert(dir.deep_view() =~= d0.push(sanitize_spec(name@)));
        assert(dir_d.take(dir_d.len() as int) =~= dir_d);
    }
    match fs.create_dir_all(&dir) {
        Err(e) => {
            return Err(e);
        },
        Ok(_) => {},
    }
    let fp = note_file_path(&dir);
    if !fs.file_exists(&fp) {
        let d = default_note_content();
        proof {
            assert(fp.deep_view().take(fp.deep_view().len() - 1) =~= dir.deep_view());
        }
        match fs.write_file(&fp, d.as_str().as_bytes_vec()) {
            Err(e) => {
                return Err(e);
            },
            Ok(_) => {},
        }
    }
    Ok(Note { name: nt_name, path: dir })
}

/// Persists an image under the note's asset directory, honoring only
/// the final component of the caller-supplied file name, and returns
/// the relative reference `images/<safe name>` for embedding in the
/// document. An existing file of the same name is overwritten.
pub fn save_image(fs: &mut Fs, note_path: &Vec<String>, file_name: &str, data: Vec<u8>) -> (r:
    Result<String, StoreError>)
    requires
        old(fs).wf(),
    ensures
        final(fs).wf(),
        ({
            let idir = images_dir_key(note_path.deep_view());
            let safe = safe_image_name_spec(file_name@);
            let key = idir.push(safe);
            &&& (r is Ok <==> (no_prefix_file(old(fs).file_map(), idir) && !old(fs).has_dir(key)))
            &&& (r matches Ok(rel) ==> (forall|q: PathKey|
                final(fs).has_dir(q) <==> old(fs).has_dir(q) || path_is_prefix(q, idir))
                && final(fs).file_map() == old(fs).file_map().insert(key, data@) && rel@
                == "images/"@ + safe)
            &&& (r matches Err(e) ==> e is IoFailure
                && final(fs).file_map() == old(fs).file_map() && (forall|q: PathKey|
                final(fs).has_dir(q) ==> old(fs).has_dir(q) || path_is_prefix(q, idir)))
        }),
{
    let ghost pd = note_path.deep_view();
    let ghost idir_d = images_dir_key(pd);
    let mut idir = clone_path(note_path);
    let ghost d0 = idir.deep_view();
    idir.push(String::from_str("images"));
    proof {
        assert(idir.deep_view() =~= d0.push("images"@));
        assert(idir_d.take(idir_d.len() as int) =~= idir_d);
    }
    match fs.create_dir_all(&idir) {
        Err(e) => {
            return Err(e);
        },
        Ok(_) => {},
    }
    let safe = safe_image_name(file_name);
    let rel = String::from_str("images/").concat(safe.as_str());
    let mut target = idir;
    let ghost t0 = target.deep_view();
    target.push(safe);
    proof {
        assert(target.deep_view() =~= t0.push(safe_image_name_spec(file_name@)));
        assert(target.deep_view().take(target.deep_view().len() - 1) =~= idir_d);
    }
    match fs.write_file(&target, data) {
        Err(e) => {
            return Err(e);
        },
        Ok(_) => {},
    }
    Ok(rel)
}

} // verus!
