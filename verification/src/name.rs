//! Name sanitization: user-supplied titles are normalized into safe,
//! single-segment directory names by trimming surrounding whitespace and
//! replacing every path-separator character with an underscore.

use vstd::prelude::*;

verus! {

/// The whitespace characters trimmed from the ends of a name
/// (the Unicode `White_Space` set).
pub open spec fn is_space_char(c: char) -> bool {
    let u = c as u32;
    u == 0x09 || u == 0x0A || u == 0x0B || u == 0x0C || u == 0x0D || u == 0x20 || u == 0x85
        || u == 0xA0 || u == 0x1680 || (0x2000 <= u && u <= 0x200A) || u == 0x2028 || u == 0x2029
        || u == 0x202F || u == 0x205F || u == 0x3000
}

/// A path-separator character: forward or backward slash.
pub open spec fn is_separator_char(c: char) -> bool {
    c == '/' || c == '\\'
}

/// How a single character is rewritten: separators become underscores,
/// everything else is kept.
pub open spec fn sanitize_char(c: char) -> char {
    if is_separator_char(c) {
        '_'
    } else {
        c
    }
}

/// The name with its leading whitespace removed.
pub open spec fn trim_start_spec(s: Seq<char>) -> Seq<char>
    decreases s.len(),
{
    if s.len() > 0 && is_space_char(s[0]) {
        trim_start_spec(s.subrange(1, s.len() as int))
    } else {
        s
    }
}

/// The name with its trailing whitespace removed.
pub open spec fn trim_end_spec(s: Seq<char>) -> Seq<char>
    decreases s.len(),
{
    if s.len() > 0 && is_space_char(s[s.len() - 1]) {
        trim_end_spec(s.take(s.len() - 1))
    } else {
        s
    }
}

/// The name with whitespace removed from both ends.
pub open spec fn trim_spec(s: Seq<char>) -> Seq<char> {
    trim_end_spec(trim_start_spec(s))
}

/// What `sanitize_name` returns: the trimmed name with every separator
/// replaced by an underscore.
pub open spec fn sanitize_spec(s: Seq<char>) -> Seq<char> {
    trim_spec(s).map_values(|c: char| sanitize_char(c))
}

proof fn lemma_trim_start_skip(s: Seq<char>, i: int)
    requires
        0 <= i <= s.len(),
        forall|k: int| 0 <= k < i ==> is_space_char(s[k]),
        i == s.len() || !is_space_char(s[i]),
    ensures
        trim_start_spec(s) == s.subrange(i, s.len() as int),
    decreases i,
{
    if i == 0 {
        assert(s.subrange(0, s.len() as int) =~= s);
    } else {
        let s1 = s.subrange(1, s.len() as int);
        lemma_trim_start_skip(s1, i - 1);
        assert(s1.subrange(i - 1, s1.len() as int) =~= s.subrange(i, s.len() as int));
    }
}

proof fn lemma_trim_end_take(s: Seq<char>, j: int)
    requires
        0 <= j <= s.len(),
        forall|k: int| j <= k < s.len() ==> is_space_char(s[k]),
        j == 0 || !is_space_char(s[j - 1]),
    ensures
        trim_end_spec(s) == s.take(j),
    decreases s.len() - j,
{
    if j == s.len() {
        assert(s.take(j) =~= s);
    } else {
        let s1 = s.take(s.len() - 1);
        lemma_trim_end_take(s1, j);
        assert(s1.take(j) =~= s.take(j));
    }
}

/// A sanitized name never contains a path separator: this is what makes
/// it safe to use as a single directory-name segment.
pub proof fn lemma_sanitize_no_separators(s: Seq<char>)
    ensures
        forall|i: int|
            0 <= i < sanitize_spec(s).len() ==> !is_separator_char(#[trigger] sanitize_spec(s)[i]),
{
    assert forall|i: int|
        0 <= i < sanitize_spec(s).len() implies !is_separator_char(
        #[trigger] sanitize_spec(s)[i],
    ) by {
        assert(sanitize_spec(s)[i] == sanitize_char(trim_spec(s)[i]));
    }
}

/// Relies on `String::push`: appends exactly the given character.
#[verifier::external_body]
fn push_char(s: &mut String, c: char)
    ensures
        final(s)@ == old(s)@.push(c),
{
    s.push(c);
}

fn is_space(c: char) -> (r: bool)
    ensures
        r == is_space_char(c),
{
    let u = c as u32;
    u == 0x09 || u == 0x0A || u == 0x0B || u == 0x0C || u == 0x0D || u == 0x20 || u == 0x85
        || u == 0xA0 || u == 0x1680 || (0x2000 <= u && u <= 0x200A) || u == 0x2028 || u == 0x2029
        || u == 0x202F || u == 0x205F || u == 0x3000
}

/// Normalizes a user-supplied name into a safe single-segment directory
/// name: whitespace is trimmed from both ends, then every `/` and `\`
/// is replaced by `_`.
///
/// Pathological inputs are degraded, not rejected: an all-slash name
/// becomes underscores, an all-whitespace name becomes empty, and the
/// results `""`, `"."` and `".."` — which an operating system does not
/// take as ordinary directory names — are passed through. Callers that
/// join the result onto a real path must guard against those three.
pub fn sanitize_name(name: &str) -> (r: String)
    ensures
        r@ == sanitize_spec(name@),
{
    let n = name.unicode_len();
    let mut lo: usize = 0;
    while lo < n && is_space(name.get_char(lo))
        invariant
            0 <= lo <= n,
            n == name@.len(),
            forall|k: int| 0 <= k < lo ==> is_space_char(name@[k]),
        decreases n - lo,
    {
        lo += 1;
    }
    let mut hi: usize = n;
    while hi > lo && is_space(name.get_char(hi - 1))
        invariant
            lo <= hi <= n,
            n == name@.len(),
            forall|k: int| hi <= k < n ==> is_space_char(name@[k]),
        decreases hi,
    {
        hi -= 1;
    }
    proof {
        lemma_trim_start_skip(name@, lo as int);
        let t = name@.subrange(lo as int, name@.len() as int);
        lemma_trim_end_take(t, hi - lo);
        assert(t.take(hi - lo) =~= name@.subrange(lo as int, hi as int));
    }
    let mut r = String::new();
    let mut i: usize = lo;
    while i < hi
        invariant
            lo <= i <= hi <= n,
            n == name@.len(),
            trim_spec(name@) == name@.subrange(lo as int, hi as int),
            r@ == name@.subrange(lo as int, i as int).map_values(|c: char| sanitize_char(c)),
        decreases hi - i,
    {
        let c = name.get_char(i);
        let sc = if c == '/' || c == '\\' {
            '_'
        } else {
            c
        };
        push_char(&mut r, sc);
        i += 1;
        proof {
            assert(name@.subrange(lo as int, i as int).map_values(|ch: char| sanitize_char(ch))
                =~= name@.subrange(lo as int, i - 1).map_values(|ch: char| sanitize_char(ch)).push(
                sanitize_char(name@[i - 1])));
        }
    }
    r
}

/// The name with its trailing separators removed.
pub open spec fn strip_trailing_seps_spec(s: Seq<char>) -> Seq<char>
    decreases s.len(),
{
    if s.len() > 0 && is_separator_char(s[s.len() - 1]) {
        strip_trailing_seps_spec(s.take(s.len() - 1))
    } else {
        s
    }
}

/// The maximal suffix of the name that contains no separator.
pub open spec fn suffix_after_sep_spec(s: Seq<char>) -> Seq<char>
    decreases s.len(),
{
    if s.len() == 0 {
        s
    } else if is_separator_char(s[s.len() - 1]) {
        Seq::<char>::empty()
    } else {
        suffix_after_sep_spec(s.take(s.len() - 1)).push(s[s.len() - 1])
    }
}

/// The final path component of a caller-supplied file name: trailing
/// separators are ignored, then everything up to and including the last
/// separator is discarded.
pub open spec fn last_component_spec(s: Seq<char>) -> Seq<char> {
    suffix_after_sep_spec(strip_trailing_seps_spec(s))
}

/// Whether a final path component is usable as a file name: it must be
/// nonempty and must not be one of the relative directory references.
pub open spec fn component_is_usable(c: Seq<char>) -> bool {
    c.len() > 0 && c != "."@ && c != ".."@
}

/// What `safe_image_name` returns: the last component of the given file
/// name when it is usable, and the fixed fallback name otherwise.
pub open spec fn safe_image_name_spec(s: Seq<char>) -> Seq<char> {
    if component_is_usable(last_component_spec(s)) {
        last_component_spec(s)
    } else {
        "image.png"@
    }
}

proof fn lemma_strip_trailing_seps_take(s: Seq<char>, j: int)
    requires
        0 <= j <= s.len(),
        forall|k: int| j <= k < s.len() ==> is_separator_char(s[k]),
        j == 0 || !is_separator_char(s[j - 1]),
    ensures
        strip_trailing_seps_spec(s) == s.take(j),
    decreases s.len() - j,
{
    if j == s.len() {
        assert(s.take(j) =~= s);
    } else {
        let s1 = s.take(s.len() - 1);
        lemma_strip_trailing_seps_take(s1, j);
        assert(s1.take(j) =~= s.take(j));
    }
}

proof fn lemma_suffix_after_sep(s: Seq<char>, b: int)
    requires
        0 <= b <= s.len(),
        forall|k: int| b <= k < s.len() ==> !is_separator_char(s[k]),
        b == 0 || is_separator_char(s[b - 1]),
    ensures
        suffix_after_sep_spec(s) == s.subrange(b, s.len() as int),
    decreases s.len() - b,
{
    if b == s.len() {
        if s.len() == 0 {
            assert(s.subrange(0, 0) =~= s);
        } else {
            assert(s.subrange(b, s.len() as int) =~= Seq::<char>::empty());
        }
    } else {
        let s1 = s.take(s.len() - 1);
        lemma_suffix_after_sep(s1, b);
        assert(s1.subrange(b, s1.len() as int).push(s[s.len() - 1]) =~= s.subrange(
            b,
            s.len() as int,
        ));
    }
}

/// A safe image name never contains a separator, so it names a single
/// file directly inside the asset directory.
pub proof fn lemma_safe_image_name_no_separators(s: Seq<char>)
    ensures
        safe_image_name_spec(s).len() > 0,
        forall|i: int|
            0 <= i < safe_image_name_spec(s).len() ==> !is_separator_char(
                #[trigger] safe_image_name_spec(s)[i],
            ),
{
    lemma_last_component_no_separators(s);
    if !component_is_usable(last_component_spec(s)) {
        proof_image_png_chars();
    }
}

proof fn proof_image_png_chars()
    ensures
        "image.png"@.len() == 9,
        forall|i: int| 0 <= i < 9 ==> !is_separator_char(#[trigger] "image.png"@[i]),
{
    reveal_strlit("image.png");
}

proof fn lemma_suffix_no_separators(s: Seq<char>)
    ensures
        forall|i: int|
            0 <= i < suffix_after_sep_spec(s).len() ==> !is_separator_char(
                #[trigger] suffix_after_sep_spec(s)[i],
            ),
    decreases s.len(),
{
    if s.len() == 0 {
    } else if is_separator_char(s[s.len() - 1]) {
    } else {
        let s1 = s.take(s.len() - 1);
        lemma_suffix_no_separators(s1);
        assert forall|i: int|
            0 <= i < suffix_after_sep_spec(s).len() implies !is_separator_char(
            #[trigger] suffix_after_sep_spec(s)[i],
        ) by {
            if i < suffix_after_sep_spec(s1).len() {
                assert(suffix_after_sep_spec(s)[i] == suffix_after_sep_spec(s1)[i]);
            } else {
                assert(suffix_after_sep_spec(s)[i] == s[s.len() - 1]);
            }
        }
    }
}

/// The last component of a name never contains a separator.
pub proof fn lemma_last_component_no_separators(s: Seq<char>)
    ensures
        forall|i: int|
            0 <= i < last_component_spec(s).len() ==> !is_separator_char(
                #[trigger] last_component_spec(s)[i],
            ),
{
    lemma_suffix_no_separators(strip_trailing_seps_spec(s));
}

fn is_sep(c: char) -> (r: bool)
    ensures
        r == is_separator_char(c),
{
    c == '/' || c == '\\'
}

/// Derives a safe file name from a caller-supplied one: only the final
/// path component is honored, and when no usable component exists the
/// fixed name `image.png` is used instead.
pub fn safe_image_name(file_name: &str) -> (r: String)
    ensures
        r@ == safe_image_name_spec(file_name@),
{
    let n = file_name.unicode_len();
    let mut e: usize = n;
    while e > 0 && is_sep(file_name.get_char(e - 1))
        invariant
            0 <= e <= n,
            n == file_name@.len(),
            forall|k: int| e <= k < n ==> is_separator_char(file_name@[k]),
        decreases e,
    {
        e -= 1;
    }
    let mut b: usize = e;
    while b > 0 && !is_sep(file_name.get_char(b - 1))
        invariant
            0 <= b <= e <= n,
            n == file_name@.len(),
            forall|k: int| b <= k < e ==> !is_separator_char(file_name@[k]),
        decreases b,
    {
        b -= 1;
    }
    proof {
        lemma_strip_trailing_seps_take(file_name@, e as int);
        let t = file_name@.take(e as int);
        lemma_suffix_after_sep(t, b as int);
        assert(t.subrange(b as int, t.len() as int) =~= file_name@.subrange(b as int, e as int));
    }
    let mut cand = String::new();
    let mut i: usize = b;
    while i < e
        invariant
            b <= i <= e <= n,
            n == file_name@.len(),
            cand@ == file_name@.subrange(b as int, i as int),
        decreases e - i,
    {
        let c = file_name.get_char(i);
        push_char(&mut cand, c);
        i += 1;
        proof {
            assert(file_name@.subrange(b as int, i as int) =~= file_name@.subrange(
                b as int,
                i - 1,
            ).push(file_name@[i - 1]));
        }
    }
    let dot = String::from_str(".");
    let dotdot = String::from_str("..");
    if cand.as_str().unicode_len() == 0 || cand == dot || cand == dotdot {
        String::from_str("image.png")
    } else {
        cand
    }
}

} // verus!
