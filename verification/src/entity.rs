//! The entities the store hands out — notebooks and notes, each a plain
//! `{ name, path }` record — together with the lexicographic order in
//! which listings return them.

use vstd::prelude::*;

verus! {

/// A top-level grouping of notes: a directory immediately under the
/// root. `path` is the directory path as segments; `name` is its final
/// segment.
pub struct Notebook {
    pub name: String,
    pub path: Vec<String>,
}

/// A single document unit: a directory immediately under a notebook.
/// `path` is the directory path as segments; `name` is its final
/// segment.
pub struct Note {
    pub name: String,
    pub path: Vec<String>,
}

/// Lexicographic order on names by Unicode code point. For UTF-8 encoded
/// text this coincides with byte-wise order, the canonical listing order.
pub open spec fn lex_le(a: Seq<char>, b: Seq<char>) -> bool
    decreases a.len(),
{
    if a.len() == 0 {
        true
    } else if b.len() == 0 {
        false
    } else if a[0] == b[0] {
        lex_le(a.drop_first(), b.drop_first())
    } else {
        (a[0] as u32) < (b[0] as u32)
    }
}

/// The order is total: of any two names, one is less-or-equal the other.
pub proof fn lemma_lex_le_total(a: Seq<char>, b: Seq<char>)
    ensures
        lex_le(a, b) || lex_le(b, a),
    decreases a.len(),
{
    if a.len() == 0 {
    } else if b.len() == 0 {
    } else if a[0] == b[0] {
        lemma_lex_le_total(a.drop_first(), b.drop_first());
    } else {
        vstd::utf8::char_u32_cast(a[0], a[0] as u32);
        vstd::utf8::char_u32_cast(b[0], b[0] as u32);
    }
}

/// The order is transitive.
pub proof fn lemma_lex_le_trans(a: Seq<char>, b: Seq<char>, c: Seq<char>)
    requires
        lex_le(a, b),
        lex_le(b, c),
    ensures
        lex_le(a, c),
    decreases a.len(),
{
    if a.len() == 0 {
    } else if a[0] == b[0] && b[0] == c[0] {
        lemma_lex_le_trans(a.drop_first(), b.drop_first(), c.drop_first());
    } else {
        vstd::utf8::char_u32_cast(a[0], a[0] as u32);
        vstd::utf8::char_u32_cast(b[0], b[0] as u32);
        vstd::utf8::char_u32_cast(c[0], c[0] as u32);
    }
}

proof fn lemma_lex_le_skip(a: Seq<char>, b: Seq<char>, i: int)
    requires
        0 <= i <= a.len(),
        i <= b.len(),
        forall|k: int| 0 <= k < i ==> a[k] == b[k],
    ensures
        lex_le(a, b) == lex_le(a.skip(i), b.skip(i)),
    decreases i,
{
    if i > 0 {
        let a1 = a.drop_first();
        let b1 = b.drop_first();
        lemma_lex_le_skip(a1, b1, i - 1);
        assert(a1.skip(i - 1) =~= a.skip(i));
        assert(b1.skip(i - 1) =~= b.skip(i));
    } else {
        assert(a.skip(0) =~= a);
        assert(b.skip(0) =~= b);
    }
}

/// Decides the lexicographic order on two names.
pub fn lex_le_exec(a: &str, b: &str) -> (r: bool)
    ensures
        r == lex_le(a@, b@),
{
    let na = a.unicode_len();
    let nb = b.unicode_len();
    let mut i: usize = 0;
    while i < na && i < nb && a.get_char(i) == b.get_char(i)
        invariant
            0 <= i <= na,
            i <= nb,
            na == a@.len(),
            nb == b@.len(),
            forall|k: int| 0 <= k < i ==> a@[k] == b@[k],
        decreases na - i,
    {
        i += 1;
    }
    proof {
        lemma_lex_le_skip(a@, b@, i as int);
    }
    if i == na {
        true
    } else if i == nb {
        false
    } else {
        let ca = a.get_char(i);
        let cb = b.get_char(i);
        proof {
            assert(a@.skip(i as int)[0] == a@[i as int]);
            assert(b@.skip(i as int)[0] == b@[i as int]);
        }
        (ca as u32) < (cb as u32)
    }
}

/// Whether a sequence of notebooks is sorted by name, ascending.
pub open spec fn sorted_notebooks(s: Seq<Notebook>) -> bool {
    forall|i: int, j: int| 0 <= i < j < s.len() ==> lex_le(#[trigger] s[i].name@, #[trigger] s[j].name@)
}

/// Whether a sequence of notes is sorted by name, ascending.
pub open spec fn sorted_notes(s: Seq<Note>) -> bool {
    forall|i: int, j: int| 0 <= i < j < s.len() ==> lex_le(#[trigger] s[i].name@, #[trigger] s[j].name@)
}

/// Whether no two notes in the sequence bear the same name.
pub open spec fn distinct_note_names(s: Seq<Note>) -> bool {
    forall|a: int, b: int|
        0 <= a < b < s.len() ==> (#[trigger] s[a].name@) != (#[trigger] s[b].name@)
}

/// Whether no two notebooks in the sequence bear the same name.
pub open spec fn distinct_notebook_names(s: Seq<Notebook>) -> bool {
    forall|a: int, b: int|
        0 <= a < b < s.len() ==> (#[trigger] s[a].name@) != (#[trigger] s[b].name@)
}

/// Whether some notebook in the sequence bears the given name.
pub open spec fn notebooks_contain_name(s: Seq<Notebook>, n: Seq<char>) -> bool {
    exists|i: int| 0 <= i < s.len() && (#[trigger] s[i].name@) == n
}

/// Whether some note in the sequence bears the given name.
pub open spec fn notes_contain_name(s: Seq<Note>, n: Seq<char>) -> bool {
    exists|i: int| 0 <= i < s.len() && (#[trigger] s[i].name@) == n
}

/// Inserts a notebook into a name-sorted sequence, keeping it sorted.
pub fn insert_notebook_sorted(v: &mut Vec<Notebook>, nb: Notebook)
    requires
        sorted_notebooks(old(v)@),
    ensures
        sorted_notebooks(final(v)@),
        final(v)@.len() == old(v)@.len() + 1,
        forall|x: Notebook| final(v)@.contains(x) <==> (old(v)@.contains(x) || x == nb),
        forall|n: Seq<char>|
            notebooks_contain_name(final(v)@, n) <==> (notebooks_contain_name(old(v)@, n) || n
                == nb.name@),
        ((forall|a: int, b: int|
            0 <= a < b < old(v)@.len() ==> (#[trigger] old(v)@[a].name@) != (
            #[trigger] old(v)@[b].name@)) && !notebooks_contain_name(old(v)@, nb.name@))
            ==> (forall|a: int, b: int|
            0 <= a < b < final(v)@.len() ==> (#[trigger] final(v)@[a].name@) != (
            #[trigger] final(v)@[b].name@)),
{
    let ghost s0 = v@;
    let mut i: usize = 0;
    while i < v.len() && lex_le_exec(v[i].name.as_str(), nb.name.as_str())
        invariant
            0 <= i <= v@.len(),
            v@ == s0,
            sorted_notebooks(s0),
            forall|k: int| 0 <= k < i ==> lex_le(#[trigger] s0[k].name@, nb.name@),
        decreases v@.len() - i,
    {
        i += 1;
    }
    proof {
        if (i as int) < s0.len() {
            lemma_lex_le_total(s0[i as int].name@, nb.name@);
        }
        assert forall|k: int| i <= k < s0.len() implies lex_le(
            nb.name@,
            #[trigger] s0[k].name@,
        ) by {
            if (i as int) < k {
                lemma_lex_le_trans(nb.name@, s0[i as int].name@, s0[k].name@);
            }
        }
    }
    v.insert(i, nb);
    proof {
        s0.insert_ensures(i as int, nb);
        let s1 = v@;
        assert forall|x: Notebook| s1.contains(x) <==> (s0.contains(x) || x == nb) by {
            lemma_insert_contains_nb(s0, i as int, nb, x);
        }
        assert forall|n: Seq<char>|
            notebooks_contain_name(s1, n) <==> (notebooks_contain_name(s0, n) || n
                == nb.name@) by {
            lemma_insert_contains_name_nb(s0, i as int, nb, n);
        }
        let pos = i as int;
        if (forall|a: int, b: int|
            0 <= a < b < s0.len() ==> (#[trigger] s0[a].name@) != (#[trigger] s0[b].name@))
            && !notebooks_contain_name(s0, nb.name@) {
            assert forall|a: int, b: int|
                0 <= a < b < s1.len() implies (#[trigger] s1[a].name@) != (
            #[trigger] s1[b].name@) by {
                if b < pos {
                    assert(s1[a] == s0[a] && s1[b] == s0[b]);
                } else if a < pos && b == pos {
                    assert(s1[a] == s0[a] && s1[b] == nb);
                    if s0[a].name@ == nb.name@ {
                        assert(notebooks_contain_name(s0, nb.name@));
                    }
                } else if a < pos && b > pos {
                    assert(s1[a] == s0[a] && s1[b] == s0[b - 1]);
                } else if a == pos {
                    assert(s1[a] == nb && s1[b] == s0[b - 1]);
                    if s0[b - 1].name@ == nb.name@ {
                        assert(notebooks_contain_name(s0, nb.name@));
                    }
                } else {
                    assert(s1[a] == s0[a - 1] && s1[b] == s0[b - 1]);
                }
            }
        }
    }
}

proof fn lemma_insert_contains_nb(s: Seq<Notebook>, pos: int, nb: Notebook, x: Notebook)
    requires
        0 <= pos <= s.len(),
    ensures
        s.insert(pos, nb).contains(x) <==> (s.contains(x) || x == nb),
{
    s.insert_ensures(pos, nb);
    let s1 = s.insert(pos, nb);
    if s1.contains(x) {
        let i = choose|i: int| 0 <= i < s1.len() && s1[i] == x;
        if i < pos {
            assert(s[i] == x);
        } else if i == pos {
        } else {
            assert(s[i - 1] == x);
        }
    }
    if s.contains(x) {
        let i = choose|i: int| 0 <= i < s.len() && s[i] == x;
        if i < pos {
            assert(s1[i] == x);
        } else {
            assert(s1[i + 1] == x);
        }
    }
    if x == nb {
        assert(s1[pos] == x);
    }
}

proof fn lemma_insert_contains_name_nb(s: Seq<Notebook>, pos: int, nb: Notebook, n: Seq<char>)
    requires
        0 <= pos <= s.len(),
    ensures
        notebooks_contain_name(s.insert(pos, nb), n) <==> (notebooks_contain_name(s, n) || n
            == nb.name@),
{
    s.insert_ensures(pos, nb);
    let s1 = s.insert(pos, nb);
    if notebooks_contain_name(s1, n) {
        let i = choose|i: int| 0 <= i < s1.len() && s1[i].name@ == n;
        if i < pos {
            assert(s[i].name@ == n);
        } else if i == pos {
        } else {
            assert(s[i - 1].name@ == n);
        }
    }
    if notebooks_contain_name(s, n) {
        let i = choose|i: int| 0 <= i < s.len() && s[i].name@ == n;
        if i < pos {
            assert(s1[i].name@ == n);
        } else {
            assert(s1[i + 1].name@ == n);
        }
    }
    if n == nb.name@ {
        assert(s1[pos].name@ == n);
    }
}

/// Inserts a note into a name-sorted sequence, keeping it sorted.
pub fn insert_note_sorted(v: &mut Vec<Note>, nt: Note)
    requires
        sorted_notes(old(v)@),
    ensures
        sorted_notes(final(v)@),
        final(v)@.len() == old(v)@.len() + 1,
        forall|x: Note| final(v)@.contains(x) <==> (old(v)@.contains(x) || x == nt),
        forall|n: Seq<char>|
            notes_contain_name(final(v)@, n) <==> (notes_contain_name(old(v)@, n) || n
                == nt.name@),
        ((forall|a: int, b: int|
            0 <= a < b < old(v)@.len() ==> (#[trigger] old(v)@[a].name@) != (
            #[trigger] old(v)@[b].name@)) && !notes_contain_name(old(v)@, nt.name@)) ==> (forall|
            a: int,
            b: int,
        |
            0 <= a < b < final(v)@.len() ==> (#[trigger] final(v)@[a].name@) != (
            #[trigger] final(v)@[b].name@)),
{
    let ghost s0 = v@;
    let mut i: usize = 0;
    while i < v.len() && lex_le_exec(v[i].name.as_str(), nt.name.as_str())
        invariant
            0 <= i <= v@.len(),
            v@ == s0,
            sorted_notes(s0),
            forall|k: int| 0 <= k < i ==> lex_le(#[trigger] s0[k].name@, nt.name@),
        decreases v@.len() - i,
    {
        i += 1;
    }
    proof {
        if (i as int) < s0.len() {
            lemma_lex_le_total(s0[i as int].name@, nt.name@);
        }
        assert forall|k: int| i <= k < s0.len() implies lex_le(
            nt.name@,
            #[trigger] s0[k].name@,
        ) by {
            if (i as int) < k {
                lemma_lex_le_trans(nt.name@, s0[i as int].name@, s0[k].name@);
            }
        }
    }
    v.insert(i, nt);
    proof {
        s0.insert_ensures(i as int, nt);
        let s1 = v@;
        assert forall|x: Note| s1.contains(x) <==> (s0.contains(x) || x == nt) by {
            lemma_insert_contains_nt(s0, i as int, nt, x);
        }
        assert forall|n: Seq<char>|
            notes_contain_name(s1, n) <==> (notes_contain_name(s0, n) || n == nt.name@) by {
            lemma_insert_contains_name_nt(s0, i as int, nt, n);
        }
        let pos = i as int;
        if (forall|a: int, b: int|
            0 <= a < b < s0.len() ==> (#[trigger] s0[a].name@) != (#[trigger] s0[b].name@))
            && !notes_contain_name(s0, nt.name@) {
            assert forall|a: int, b: int|
                0 <= a < b < s1.len() implies (#[trigger] s1[a].name@) != (
            #[trigger] s1[b].name@) by {
                if b < pos {
                    assert(s1[a] == s0[a] && s1[b] == s0[b]);
                } else if a < pos && b == pos {
                    assert(s1[a] == s0[a] && s1[b] == nt);
                    if s0[a].name@ == nt.name@ {
                        assert(notes_contain_name(s0, nt.name@));
                    }
                } else if a < pos && b > pos {
                    assert(s1[a] == s0[a] && s1[b] == s0[b - 1]);
                } else if a == pos {
                    assert(s1[a] == nt && s1[b] == s0[b - 1]);
                    if s0[b - 1].name@ == nt.name@ {
                        assert(notes_contain_name(s0, nt.name@));
                    }
                } else {
                    assert(s1[a] == s0[a - 1] && s1[b] == s0[b - 1]);
                }
            }
        }
    }
}

proof fn lemma_insert_contains_nt(s: Seq<Note>, pos: int, nt: Note, x: Note)
    requires
        0 <= pos <= s.len(),
    ensures
        s.insert(pos, nt).contains(x) <==> (s.contains(x) || x == nt),
{
    s.insert_ensures(pos, nt);
    let s1 = s.insert(pos, nt);
    if s1.contains(x) {
        let i = choose|i: int| 0 <= i < s1.len() && s1[i] == x;
        if i < pos {
            assert(s[i] == x);
        } else if i == pos {
        } else {
            assert(s[i - 1] == x);
        }
    }
    if s.contains(x) {
        let i = choose|i: int| 0 <= i < s.len() && s[i] == x;
        if i < pos {
            assert(s1[i] == x);
        } else {
            assert(s1[i + 1] == x);
        }
    }
    if x == nt {
        assert(s1[pos] == x);
    }
}

proof fn lemma_insert_contains_name_nt(s: Seq<Note>, pos: int, nt: Note, n: Seq<char>)
    requires
        0 <= pos <= s.len(),
    ensures
        notes_contain_name(s.insert(pos, nt), n) <==> (notes_contain_name(s, n) || n == nt.name@),
{
    s.insert_ensures(pos, nt);
    let s1 = s.insert(pos, nt);
    if notes_contain_name(s1, n) {
        let i = choose|i: int| 0 <= i < s1.len() && s1[i].name@ == n;
        if i < pos {
            assert(s[i].name@ == n);
        } else if i == pos {
        } else {
            assert(s[i - 1].name@ == n);
        }
    }
    if notes_contain_name(s, n) {
        let i = choose|i: int| 0 <= i < s.len() && s[i].name@ == n;
        if i < pos {
            assert(s1[i].name@ == n);
        } else {
            assert(s1[i + 1].name@ == n);
        }
    }
    if n == nt.name@ {
        assert(s1[pos].name@ == n);
    }
}

/// Turns a directory path into the notebook entity it denotes: the name
/// is the final path segment. An empty path denotes no notebook.
pub fn to_notebook(path: &Vec<String>) -> (r: Option<Notebook>)
    ensures
        r is Some <==> path@.len() > 0,
        r matches Some(nb) ==> nb.name@ == path.deep_view().last() && nb.path.deep_view()
            == path.deep_view(),
{
    if path.len() == 0 {
        None
    } else {
        let name = path[path.len() - 1].clone();
        let p = clone_path(path);
        Some(Notebook { name, path: p })
    }
}

/// Turns a directory path into the note entity it denotes: the name is
/// the final path segment. An empty path denotes no note.
pub fn to_note(path: &Vec<String>) -> (r: Option<Note>)
    ensures
        r is Some <==> path@.len() > 0,
        r matches Some(nt) ==> nt.name@ == path.deep_view().last() && nt.path.deep_view()
            == path.deep_view(),
{
    if path.len() == 0 {
        None
    } else {
        let name = path[path.len() - 1].clone();
        let p = clone_path(path);
        Some(Note { name, path: p })
    }
}

/// Copies a segment path.
pub fn clone_path(path: &Vec<String>) -> (r: Vec<String>)
    ensures
        r.deep_view() == path.deep_view(),
{
    let mut r: Vec<String> = Vec::new();
    let mut i: usize = 0;
    while i < path.len()
        invariant
            0 <= i <= path@.len(),
            r.deep_view() =~= path.deep_view().take(i as int),
        decreases path@.len() - i,
    {
        let ghost rd0 = r.deep_view();
        r.push(path[i].clone());
        i += 1;
        proof {
            assert(r.deep_view() =~= rd0.push(path.deep_view()[i - 1]));
        }
    }
    proof {
        assert(r.deep_view() =~= path.deep_view());
    }
    r
}

} // verus!
