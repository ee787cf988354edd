//! The store's guarantees that relate several operations, each stated
//! over the same spec functions the operations' contracts use.

use vstd::prelude::*;

use crate::demo::demo_doc_key;
use crate::demo::demo_images_key;
use crate::demo::demo_png_key;
use crate::demo::seed_files;
use crate::demo::seed_ok;
use crate::fs::path_is_prefix;
use crate::fs::Fs;
use crate::fs::PathKey;
use crate::name::is_separator_char;
use crate::name::lemma_safe_image_name_no_separators;
use crate::name::lemma_sanitize_no_separators;
use crate::name::safe_image_name_spec;
use crate::name::sanitize_spec;
use crate::store::images_dir_key;
use crate::store::read_note_content;
use crate::store::saved_note_files;

verus! {

/// Round trip: saving a document and then reading the same note yields
/// exactly the saved content, for any content and any note path.
pub proof fn lemma_save_then_read_note(f: Map<PathKey, Seq<u8>>, p: PathKey, content: Seq<char>)
    ensures
        read_note_content(saved_note_files(f, p, content), p) == Some(content),
{
    vstd::utf8::encode_utf8_valid_utf8(content);
    vstd::utf8::encode_utf8_decode_utf8(content);
}

/// Idempotent seeding: a second successful seeding run leaves both the
/// files and the directories exactly as the first run left them, so it
/// also keeps any change made to the sample data in between — see
/// `lemma_seeding_preserves_edits` for that edit surviving the run.
pub proof fn lemma_seeding_idempotent(fs0: Fs, fs1: Fs, fs2: Fs, root: PathKey)
    requires
        fs1.file_map() == seed_files(fs0.file_map(), root),
        forall|q: PathKey|
            fs1.has_dir(q) <==> fs0.has_dir(q) || path_is_prefix(q, demo_images_key(root)),
        fs2.file_map() == seed_files(fs1.file_map(), root),
        forall|q: PathKey|
            fs2.has_dir(q) <==> fs1.has_dir(q) || path_is_prefix(q, demo_images_key(root)),
    ensures
        fs2.file_map() == fs1.file_map(),
        forall|q: PathKey| fs2.has_dir(q) <==> fs1.has_dir(q),
{
    assert(fs1.file_map().contains_key(demo_doc_key(root)));
    assert(fs1.file_map().contains_key(demo_png_key(root)));
}

/// After one successful seeding run the success condition holds again,
/// so the next run is owed success too.
pub proof fn lemma_seeding_succeeds_again(fs0: Fs, fs1: Fs, root: PathKey)
    requires
        seed_ok(fs0, root),
        fs1.file_map() == seed_files(fs0.file_map(), root),
        forall|q: PathKey|
            fs1.has_dir(q) <==> fs0.has_dir(q) || path_is_prefix(q, demo_images_key(root)),
    ensures
        seed_ok(fs1, root),
{
    let im = demo_images_key(root);
    let doc = demo_doc_key(root);
    let png = demo_png_key(root);
    reveal_strlit("note.md");
    reveal_strlit("images");
    assert("note.md"@.len() != "images"@.len());
    assert(im.take(im.len() as int) =~= im);
    assert(doc != im) by {
        if doc == im {
            assert(doc.last() == im.last());
        }
    }
    assert forall|n: int| 1 <= n <= im.len() implies !fs1.file_map().contains_key(
        #[trigger] im.take(n),
    ) by {
        assert(!fs0.file_map().contains_key(im.take(n)));
        assert(im.take(n) != doc) by {
            if n < im.len() {
                assert(im.take(n).len() < im.len());
            } else {
                assert(im.take(n) =~= im);
            }
        }
        assert(im.take(n) != png) by {
            assert(im.take(n).len() <= im.len());
        }
    }
}

/// A run of the seeder that finds the demo data in place succeeds and
/// changes no file: in particular an externally modified sample
/// document keeps its modified content.
pub proof fn lemma_seeding_preserves_edits(fs0: Fs, root: PathKey)
    requires
        fs0.wf(),
        fs0.file_map().contains_key(demo_doc_key(root)),
        fs0.file_map().contains_key(demo_png_key(root)),
    ensures
        seed_files(fs0.file_map(), root) == fs0.file_map(),
        seed_files(fs0.file_map(), root)[demo_doc_key(root)] == fs0.file_map()[demo_doc_key(
            root,
        )],
{
}

/// Sanitization safety: creating a notebook from any name — slashes
/// included — adds exactly one directory, directly under the root, and
/// its name is a single separator-free segment: nothing nested, nothing
/// outside the root.
pub proof fn lemma_create_notebook_single_child(fs0: Fs, fs1: Fs, root: PathKey, name: Seq<char>)
    requires
        forall|n: int| 1 <= n <= root.len() ==> fs0.has_dir(#[trigger] root.take(n)),
        forall|q: PathKey|
            fs1.has_dir(q) <==> fs0.has_dir(q) || path_is_prefix(
                q,
                root.push(sanitize_spec(name)),
            ),
    ensures
        forall|q: PathKey|
            fs1.has_dir(q) <==> fs0.has_dir(q) || q == root.push(sanitize_spec(name)),
        forall|i: int|
            0 <= i < sanitize_spec(name).len() ==> !is_separator_char(
                #[trigger] sanitize_spec(name)[i],
            ),
{
    lemma_sanitize_no_separators(name);
    let full = root.push(sanitize_spec(name));
    assert(full.take(full.len() as int) =~= full);
    assert forall|q: PathKey|
        fs1.has_dir(q) <==> (fs0.has_dir(q) || q == full) by {
        if path_is_prefix(q, full) && q != full {
            let n = choose|n: int| 1 <= n <= full.len() && q == #[trigger] full.take(n);
            assert(n <= root.len());
            assert(full.take(n) =~= root.take(n));
            assert(fs0.has_dir(q));
        }
        if q == full {
            assert(path_is_prefix(q, full));
        }
    }
}

/// Empty case: a listing of a notebook that has no child directories —
/// a newly created one — holds nothing: every listed note corresponds
/// to an existing child directory.
pub proof fn lemma_empty_notebook_lists_nothing(fs: Fs, p: PathKey, v: Seq<crate::entity::Note>)
    requires
        forall|i: int|
            0 <= i < v.len() ==> (#[trigger] v[i].path.deep_view()) == p.push(v[i].name@)
                && fs.has_dir(v[i].path.deep_view()),
        forall|n: Seq<char>| !fs.has_dir(#[trigger] p.push(n)),
    ensures
        v.len() == 0,
{
    if v.len() > 0 {
        let pd = v[0].path.deep_view();
        assert(pd == p.push(v[0].name@));
        assert(fs.has_dir(p.push(v[0].name@)));
    }
}

/// Traversal safety: whatever file name the caller supplies, a saved
/// image is written at `<note>/images/<safe name>` and nowhere else —
/// the safe name is one nonempty separator-free segment, so the file
/// sits directly inside the asset directory, and every other file
/// binding is untouched.
pub proof fn lemma_save_image_confined(
    f: Map<PathKey, Seq<u8>>,
    p: PathKey,
    file_name: Seq<char>,
    data: Seq<u8>,
)
    ensures
        ({
            let safe = safe_image_name_spec(file_name);
            let key = images_dir_key(p).push(safe);
            &&& key.len() == p.len() + 2
            &&& key.take(p.len() as int + 1) == images_dir_key(p)
            &&& safe.len() > 0
            &&& (forall|i: int| 0 <= i < safe.len() ==> !is_separator_char(#[trigger] safe[i]))
            &&& (forall|q: PathKey|
                q != key ==> (f.insert(key, data).contains_key(q) <==> f.contains_key(q)))
            &&& (forall|q: PathKey|
                q != key && f.contains_key(q) ==> f.insert(key, data)[q] == f[q])
        }),
{
    lemma_safe_image_name_no_separators(file_name);
    let safe = safe_image_name_spec(file_name);
    let key = images_dir_key(p).push(safe);
    assert(key.take(p.len() as int + 1) =~= images_dir_key(p));
}

} // verus!
