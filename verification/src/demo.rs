//! Bootstrap seeding: on first run the store materializes one sample
//! notebook with one note and one image. Seeding is idempotent — after
//! the first successful run it changes nothing, and it never clobbers a
//! document or image the user has edited.

use vstd::prelude::*;

use crate::entity::clone_path;
use crate::fs::no_prefix_file;
use crate::fs::path_is_prefix;
use crate::fs::Fs;
use crate::fs::PathKey;
use crate::fs::StoreError;
use crate::store::images_dir_key;
use crate::store::note_file_key;
use vstd::utf8::encode_utf8;

verus! {

/// The sample notebook's directory.
pub open spec fn demo_notebook_key(root: PathKey) -> PathKey {
    root.push("Sample Notebook"@)
}

/// The sample note's directory.
pub open spec fn demo_note_key(root: PathKey) -> PathKey {
    demo_notebook_key(root).push("Welcome"@)
}

/// The sample note's asset directory.
pub open spec fn demo_images_key(root: PathKey) -> PathKey {
    images_dir_key(demo_note_key(root))
}

/// The sample note's document file.
pub open spec fn demo_doc_key(root: PathKey) -> PathKey {
    note_file_key(demo_note_key(root))
}

/// The sample image file.
pub open spec fn demo_png_key(root: PathKey) -> PathKey {
    demo_images_key(root).push("sample.png"@)
}

/// The sample document's text.
pub open spec fn sample_note_text() -> Seq<char> {
    "# 欢迎使用 OneMDEditor\n\n- Notebook / Note 三栏布局\n- Milkdown 所见即所得编辑\n- 图片保存于笔记目录的 images/ 子目录并使用相对路径引用\n\n```js\nconsole.log('Hello Milkdown');\n```\n\n![示例图片](images/sample.png)\n"@
}

/// The sample document's text.
pub fn sample_note_content() -> (r: String)
    ensures
        r@ == sample_note_text(),
{
    String::from_str(
        "# 欢迎使用 OneMDEditor\n\n- Notebook / Note 三栏布局\n- Milkdown 所见即所得编辑\n- 图片保存于笔记目录的 images/ 子目录并使用相对路径引用\n\n```js\nconsole.log('Hello Milkdown');\n```\n\n![示例图片](images/sample.png)\n",
    )
}

/// The sample image: a one-by-one PNG.
pub open spec fn sample_png_bytes() -> Seq<u8> {
    seq![
        0x89u8, 0x50u8, 0x4eu8, 0x47u8, 0x0du8, 0x0au8, 0x1au8, 0x0au8, 0x00u8, 0x00u8, 0x00u8,
        0x0du8, 0x49u8, 0x48u8, 0x44u8, 0x52u8, 0x00u8, 0x00u8, 0x00u8, 0x01u8, 0x00u8, 0x00u8,
        0x00u8, 0x01u8, 0x08u8, 0x06u8, 0x00u8, 0x00u8, 0x00u8, 0x1fu8, 0x15u8, 0xc4u8, 0x89u8,
        0x00u8, 0x00u8, 0x00u8, 0x10u8, 0x49u8, 0x44u8, 0x41u8, 0x54u8, 0x78u8, 0xdau8, 0x63u8,
        0xfcu8, 0xffu8, 0x9fu8, 0xa1u8, 0x1eu8, 0x00u8, 0x07u8, 0x82u8, 0x02u8, 0x7fu8, 0x3fu8,
        0x83u8, 0x79u8, 0xcfu8, 0x00u8, 0x00u8, 0x00u8, 0x00u8, 0x49u8, 0x45u8, 0x4eu8, 0x44u8,
        0xaeu8, 0x42u8, 0x60u8, 0x82u8,
    ]
}

/// The sample image: a one-by-one PNG.
pub fn sample_png() -> (r: Vec<u8>)
    ensures
        r@ == sample_png_bytes(),
{
    let v: Vec<u8> = vec![
        0x89u8, 0x50u8, 0x4eu8, 0x47u8, 0x0du8, 0x0au8, 0x1au8, 0x0au8, 0x00u8, 0x00u8, 0x00u8,
        0x0du8, 0x49u8, 0x48u8, 0x44u8, 0x52u8, 0x00u8, 0x00u8, 0x00u8, 0x01u8, 0x00u8, 0x00u8,
        0x00u8, 0x01u8, 0x08u8, 0x06u8, 0x00u8, 0x00u8, 0x00u8, 0x1fu8, 0x15u8, 0xc4u8, 0x89u8,
        0x00u8, 0x00u8, 0x00u8, 0x10u8, 0x49u8, 0x44u8, 0x41u8, 0x54u8, 0x78u8, 0xdau8, 0x63u8,
        0xfcu8, 0xffu8, 0x9fu8, 0xa1u8, 0x1eu8, 0x00u8, 0x07u8, 0x82u8, 0x02u8, 0x7fu8, 0x3fu8,
        0x83u8, 0x79u8, 0xcfu8, 0x00u8, 0x00u8, 0x00u8, 0x00u8, 0x49u8, 0x45u8, 0x4eu8, 0x44u8,
        0xaeu8, 0x42u8, 0x60u8, 0x82u8,
    ];
    proof {
        assert(v@ =~= sample_png_bytes());
    }
    v
}

/// The file map after a seeding run: the sample document and the sample
/// image are each written only when no file already stands at their
/// path; everything already present is kept.
pub open spec fn seed_files(f: Map<PathKey, Seq<u8>>, root: PathKey) -> Map<PathKey, Seq<u8>> {
    let f1 = if f.contains_key(demo_doc_key(root)) {
        f
    } else {
        f.insert(demo_doc_key(root), encode_utf8(sample_note_text()))
    };
    if f1.contains_key(demo_png_key(root)) {
        f1
    } else {
        f1.insert(demo_png_key(root), sample_png_bytes())
    }
}

/// When a seeding run succeeds: no file stands where one of the demo
/// directories is needed, and neither demo file path is a directory.
pub open spec fn seed_ok(fs: Fs, root: PathKey) -> bool {
    &&& no_prefix_file(fs.file_map(), demo_images_key(root))
    &&& (fs.file_map().contains_key(demo_doc_key(root)) || !fs.has_dir(demo_doc_key(root)))
    &&& (fs.file_map().contains_key(demo_png_key(root)) || !fs.has_dir(demo_png_key(root)))
}

/// Materializes the sample notebook, note and image. Designed to run on
/// every startup: after the first successful run it changes nothing,
/// and an externally modified sample document or image is never
/// overwritten.
pub fn ensure_demo_data(fs: &mut Fs, root: &Vec<String>) -> (r: Result<(), StoreError>)
    requires
        old(fs).wf(),
    ensures
        final(fs).wf(),
        r is Ok <==> seed_ok(*old(fs), root.deep_view()),
        r is Ok ==> final(fs).file_map() == seed_files(old(fs).file_map(), root.deep_view()),
        r is Ok ==> (forall|q: PathKey|
            final(fs).has_dir(q) <==> old(fs).has_dir(q) || path_is_prefix(
                q,
                demo_images_key(root.deep_view()),
            )),
        r matches Err(e) ==> e is IoFailure,
        r is Err ==> (forall|q: PathKey|
            final(fs).has_dir(q) ==> old(fs).has_dir(q) || path_is_prefix(
                q,
                demo_images_key(root.deep_view()),
            )),
        r is Err ==> (final(fs).file_map() == old(fs).file_map()
            || (!old(fs).file_map().contains_key(demo_doc_key(root.deep_view()))
                && final(fs).file_map() == old(fs).file_map().insert(
                demo_doc_key(root.deep_view()),
                encode_utf8(sample_note_text()),
            ))),
{
    let ghost rd = root.deep_view();
    let ghost nt = demo_note_key(rd);
    let ghost im = demo_images_key(rd);
    let ghost doc = demo_doc_key(rd);
    let ghost png = demo_png_key(rd);
    let ghost f0 = old(fs).file_map();
    proof {
        reveal_strlit("note.md");
        reveal_strlit("images");
        assert("note.md"@.len() != "images"@.len());
        assert(doc != im) by {
            if doc == im {
                assert(doc.last() == im.last());
            }
        }
        assert(doc.len() == nt.len() + 1);
        assert(png.len() == nt.len() + 2);
        assert forall|n: int| 1 <= n <= nt.len() implies #[trigger] im.take(n) == nt.take(n) by {
            assert(im.take(n) =~= nt.take(n));
        }
        assert(im.take(im.len() as int) =~= im);
        assert(nt.take(nt.len() as int) =~= nt);
    }
    let mut note_dir = clone_path(root);
    note_dir.push(String::from_str("Sample Notebook"));
    note_dir.push(String::from_str("Welcome"));
    proof {
        assert(note_dir.deep_view() =~= nt);
    }
    match fs.create_dir_all(&note_dir) {
        Err(e) => {
            proof {
                let n = choose|n: int| 1 <= n <= nt.len() && f0.contains_key(#[trigger] nt.take(n));
                assert(f0.contains_key(im.take(n)));
            }
            return Err(e);
        },
        Ok(_) => {},
    }
    let ghost fs1 = *fs;
    let mut doc_path = clone_path(&note_dir);
    doc_path.push(String::from_str("note.md"));
    proof {
        assert(doc_path.deep_view() =~= doc);
        assert(doc_path.deep_view().take(doc_path.deep_view().len() - 1) =~= nt);
        assert(fs1.has_dir(nt));
        assert(!path_is_prefix(doc, nt)) by {
            if path_is_prefix(doc, nt) {
                let n = choose|n: int| 1 <= n <= nt.len() && doc == #[trigger] nt.take(n);
            }
        }
    }
    if !fs.file_exists(&doc_path) {
        let s = sample_note_content();
        match fs.write_file(&doc_path, s.as_str().as_bytes_vec()) {
            Err(e) => {
                proof {
                    assert(old(fs).has_dir(doc));
                    assert forall|q: PathKey| fs.has_dir(q) implies old(fs).has_dir(q)
                        || path_is_prefix(q, im) by {
                        if !old(fs).has_dir(q) {
                            let n = choose|n: int| 1 <= n <= nt.len() && q == #[trigger] nt.take(n);
                            assert(q == im.take(n));
                        }
                    }
                }
                return Err(e);
            },
            Ok(_) => {},
        }
    }
    let ghost f1 = fs.file_map();
    proof {
        assert forall|k: PathKey| f0.contains_key(k) implies f1.contains_key(k) by {}
        assert(f1 == (if f0.contains_key(doc) {
            f0
        } else {
            f0.insert(doc, encode_utf8(sample_note_text()))
        }));
    }
    let mut img_dir = clone_path(&note_dir);
    img_dir.push(String::from_str("images"));
    proof {
        assert(img_dir.deep_view() =~= im);
    }
    match fs.create_dir_all(&img_dir) {
        Err(e) => {
            proof {
                let n = choose|n: int| 1 <= n <= im.len() && f1.contains_key(#[trigger] im.take(n));
                assert(im.take(n) != doc) by {
                    if n <= nt.len() {
                        assert(im.take(n).len() <= nt.len());
                    } else {
                        assert(im.take(n) =~= im);
                    }
                }
                assert(f0.contains_key(im.take(n)));
            }
            proof {
                assert forall|q: PathKey| fs.has_dir(q) implies old(fs).has_dir(q)
                    || path_is_prefix(q, im) by {
                    if !old(fs).has_dir(q) {
                        let m = choose|m: int| 1 <= m <= nt.len() && q == #[trigger] nt.take(m);
                        assert(q == im.take(m));
                    }
                }
                assert(fs.file_map() == f1);
            }
            return Err(e);
        },
        Ok(_) => {},
    }
    let ghost fs2 = *fs;
    proof {
        assert(path_is_prefix(im, im));
        assert(fs2.has_dir(im));
        assert forall|q: PathKey|
            fs2.has_dir(q) <==> (old(fs).has_dir(q) || path_is_prefix(q, im)) by {
            if fs2.has_dir(q) && !fs1.has_dir(q) {
                let n = choose|n: int| 1 <= n <= im.len() && q == #[trigger] im.take(n);
            }
            if fs1.has_dir(q) && !old(fs).has_dir(q) {
                let n = choose|n: int| 1 <= n <= nt.len() && q == #[trigger] nt.take(n);
                assert(q == im.take(n));
            }
            if path_is_prefix(q, im) {
                assert(fs2.has_dir(q));
            }
        }
        assert(!path_is_prefix(png, im)) by {
            if path_is_prefix(png, im) {
                let n = choose|n: int| 1 <= n <= im.len() && png == #[trigger] im.take(n);
            }
        }
    }
    let mut png_path = clone_path(&img_dir);
    png_path.push(String::from_str("sample.png"));
    proof {
        assert(png_path.deep_view() =~= png);
        assert(png_path.deep_view().take(png_path.deep_view().len() - 1) =~= im);
    }
    if !fs.file_exists(&png_path) {
        proof {
            assert(!f0.contains_key(png)) by {
                assert(png != doc);
            }
        }
        match fs.write_file(&png_path, sample_png()) {
            Err(e) => {
                proof {
                    assert(old(fs).has_dir(png));
                    assert(fs.file_map() == f1);
                }
                return Err(e);
            },
            Ok(_) => {},
        }
    }
    proof {
        assert(seed_ok(*old(fs), rd)) by {
            assert(no_prefix_file(f0, im)) by {
                assert forall|n: int| 1 <= n <= im.len() implies !f0.contains_key(
                    #[trigger] im.take(n),
                ) by {
                    assert(f1.contains_key(im.take(n)) == false);
                }
            }
            if !f0.contains_key(doc) {
                assert(!old(fs).has_dir(doc));
            }
            if !f0.contains_key(png) {
                assert(!old(fs).has_dir(png));
            }
        }
        assert(final(fs).file_map() == seed_files(f0, rd)) by {
            if f1.contains_key(png) {
                assert(final(fs).file_map() == f1);
            } else {
                assert(final(fs).file_map() == f1.insert(png, sample_png_bytes()));
            }
        }
    }
    Ok(())
}

} // verus!
