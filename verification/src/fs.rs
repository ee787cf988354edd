//! The directory tree the store works against, modelled explicitly: a
//! set of directory paths and a map from file paths to their bytes.
//! Paths are sequences of name segments. Callers that persist to a real
//! disk replay the same operations there, one directory or file call
//! per model call.

use vstd::prelude::*;

verus! {

/// A path in spec land: the sequence of the views of its segments.
pub type PathKey = Seq<Seq<char>>;

/// The errors the store reports. `NotFound` is an expected file absent
/// on read; `IoFailure` is any other way a directory or file operation
/// can fail.
#[derive(Debug)]
pub enum StoreError {
    NotFound { detail: String },
    IoFailure { detail: String },
}

impl StoreError {
    /// The human-readable message carried to the caller: the failure
    /// kind followed by the detail.
    pub fn message(&self) -> (r: String)
        ensures
            self matches StoreError::NotFound { detail } ==> r@ == "not found: "@ + detail@,
            self matches StoreError::IoFailure { detail } ==> r@ == "io failure: "@ + detail@,
    {
        match self {
            StoreError::NotFound { detail } => String::from_str("not found: ").concat(
                detail.as_str(),
            ),
            StoreError::IoFailure { detail } => String::from_str("io failure: ").concat(
                detail.as_str(),
            ),
        }
    }
}

/// One file of the tree: its path and its bytes.
pub struct FsFile {
    pub path: Vec<String>,
    pub data: Vec<u8>,
}

/// The directory tree: which directories exist, and which files exist
/// with which contents.
pub struct Fs {
    pub dirs: Vec<Vec<String>>,
    pub files: Vec<FsFile>,
}

/// The map a sequence of files denotes, later entries winning.
pub open spec fn map_of(s: Seq<FsFile>) -> Map<PathKey, Seq<u8>>
    decreases s.len(),
{
    if s.len() == 0 {
        Map::empty()
    } else {
        map_of(s.drop_last()).insert(s.last().path.deep_view(), s.last().data@)
    }
}

/// No two files of the sequence share a path.
pub open spec fn distinct_keys(s: Seq<FsFile>) -> bool {
    forall|i: int, j: int|
        0 <= i < j < s.len() ==> (#[trigger] s[i].path.deep_view()) != (
        #[trigger] s[j].path.deep_view())
}

/// What a well-formed file sequence's map holds: exactly the paths of
/// the sequence, each bound to that file's bytes.
pub proof fn lemma_map_of_full(s: Seq<FsFile>)
    requires
        distinct_keys(s),
    ensures
        forall|k: PathKey|
            #[trigger] map_of(s).contains_key(k) <==> (exists|i: int|
                0 <= i < s.len() && (#[trigger] s[i].path.deep_view()) == k),
        forall|i: int|
            0 <= i < s.len() ==> map_of(s).contains_key(#[trigger] s[i].path.deep_view())
                && map_of(s)[s[i].path.deep_view()] == s[i].data@,
    decreases s.len(),
{
    if s.len() > 0 {
        let s0 = s.drop_last();
        assert forall|i: int, j: int|
            0 <= i < j < s0.len() implies (#[trigger] s0[i].path.deep_view()) != (
        #[trigger] s0[j].path.deep_view()) by {
            assert(s0[i] == s[i]);
            assert(s0[j] == s[j]);
        }
        lemma_map_of_full(s0);
        let lk = s.last().path.deep_view();
        assert forall|k: PathKey| #[trigger] map_of(s).contains_key(k) implies (exists|i: int|
            0 <= i < s.len() && (#[trigger] s[i].path.deep_view()) == k) by {
            if k == lk {
                assert(s[s.len() - 1].path.deep_view() == k);
            } else {
                assert(map_of(s0).contains_key(k));
                let i = choose|i: int| 0 <= i < s0.len() && (#[trigger] s0[i].path.deep_view())
                    == k;
                assert(s0[i] == s[i]);
                assert(s[i].path.deep_view() == k);
            }
        }
        assert forall|i: int| 0 <= i < s.len() implies map_of(s).contains_key(
            #[trigger] s[i].path.deep_view(),
        ) && map_of(s)[s[i].path.deep_view()] == s[i].data@ by {
            if i == s.len() - 1 {
            } else {
                assert(s0[i] == s[i]);
                assert(s[i].path.deep_view() != lk);
            }
        }
        assert forall|k: PathKey| (exists|i: int|
            0 <= i < s.len() && (#[trigger] s[i].path.deep_view()) == k) implies #[trigger] map_of(
            s,
        ).contains_key(k) by {
            let i = choose|i: int| 0 <= i < s.len() && (#[trigger] s[i].path.deep_view()) == k;
        }
    }
}

/// Replacing the file at one index replaces exactly its binding.
pub proof fn lemma_map_of_update(s: Seq<FsFile>, i: int, x: FsFile)
    requires
        distinct_keys(s),
        0 <= i < s.len(),
        x.path.deep_view() == s[i].path.deep_view(),
    ensures
        map_of(s.update(i, x)) == map_of(s).insert(x.path.deep_view(), x.data@),
        distinct_keys(s.update(i, x)),
    decreases s.len(),
{
    let su = s.update(i, x);
    let k = x.path.deep_view();
    assert forall|a: int, b: int|
        0 <= a < b < su.len() implies (#[trigger] su[a].path.deep_view()) != (
    #[trigger] su[b].path.deep_view()) by {
        assert(su[a] == if a == i {
            x
        } else {
            s[a]
        });
        assert(su[b] == if b == i {
            x
        } else {
            s[b]
        });
    }
    if i == s.len() - 1 {
        assert(su.drop_last() =~= s.drop_last());
        assert(su.last() == x);
        assert(s.last() == s[i]);
        assert(map_of(s.drop_last()).insert(k, s[i].data@).insert(k, x.data@) =~= map_of(
            s.drop_last(),
        ).insert(k, x.data@));
    } else {
        let s0 = s.drop_last();
        assert forall|a: int, b: int|
            0 <= a < b < s0.len() implies (#[trigger] s0[a].path.deep_view()) != (
        #[trigger] s0[b].path.deep_view()) by {
            assert(s0[a] == s[a]);
            assert(s0[b] == s[b]);
        }
        assert(s0[i] == s[i]);
        lemma_map_of_update(s0, i, x);
        assert(su.drop_last() =~= s0.update(i, x));
        assert(su.last() == s.last());
        let lk = s.last().path.deep_view();
        assert(s[s.len() - 1].path.deep_view() == lk);
        assert(k != lk);
        assert(map_of(s0).insert(k, x.data@).insert(lk, s.last().data@) =~= map_of(s0).insert(
            lk,
            s.last().data@,
        ).insert(k, x.data@));
    }
}

/// Whether `q` is one of the nonempty prefixes of `full`.
pub open spec fn path_is_prefix(q: PathKey, full: PathKey) -> bool {
    exists|n: int| 1 <= n <= full.len() && q == #[trigger] full.take(n)
}

/// Whether none of the nonempty prefixes of `full` is bound to a file:
/// the condition under which the directory chain can be created.
pub open spec fn no_prefix_file(f: Map<PathKey, Seq<u8>>, full: PathKey) -> bool {
    forall|n: int| 1 <= n <= full.len() ==> !f.contains_key(#[trigger] full.take(n))
}

/// Compares two segment paths.
pub fn path_eq(a: &Vec<String>, b: &Vec<String>) -> (r: bool)
    ensures
        r == (a.deep_view() == b.deep_view()),
{
    if a.len() != b.len() {
        proof {
            assert(a.deep_view().len() == a@.len());
            assert(b.deep_view().len() == b@.len());
        }
        return false;
    }
    let mut i: usize = 0;
    while i < a.len()
        invariant
            0 <= i <= a@.len(),
            a@.len() == b@.len(),
            forall|k: int| 0 <= k < i ==> a.deep_view()[k] == b.deep_view()[k],
        decreases a@.len() - i,
    {
        if !(a[i] == b[i]) {
            assert(a.deep_view()[i as int] != b.deep_view()[i as int]);
            return false;
        }
        i += 1;
    }
    proof {
        assert(a.deep_view() =~= b.deep_view());
    }
    true
}

impl Fs {
    /// Whether the directory at this path exists, in spec land.
    pub open spec fn has_dir(self, q: PathKey) -> bool {
        exists|i: int| 0 <= i < self.dirs@.len() && (#[trigger] self.dirs.deep_view()[i]) == q
    }

    /// The files of the tree, as a map from path to bytes.
    pub open spec fn file_map(self) -> Map<PathKey, Seq<u8>> {
        map_of(self.files@)
    }

    /// Well-formedness: no duplicate directories, no duplicate file
    /// paths, and no path that is both a file and a directory.
    pub open spec fn wf(self) -> bool {
        &&& forall|i: int, j: int|
            0 <= i < j < self.dirs@.len() ==> (#[trigger] self.dirs.deep_view()[i]) != (
            #[trigger] self.dirs.deep_view()[j])
        &&& distinct_keys(self.files@)
        &&& forall|i: int|
            0 <= i < self.files@.len() ==> !self.has_dir(#[trigger] self.files@[i].path.deep_view())
    }

    /// An empty tree: no directories, no files.
    pub fn empty() -> (r: Fs)
        ensures
            r.wf(),
            r.dirs@.len() == 0,
            r.files@.len() == 0,
            forall|q: PathKey| !r.has_dir(q),
            r.file_map() =~= Map::<PathKey, Seq<u8>>::empty(),
    {
        Fs { dirs: Vec::new(), files: Vec::new() }
    }

    /// Whether the directory at this path exists.
    pub fn dir_exists(&self, p: &Vec<String>) -> (r: bool)
        ensures
            r == self.has_dir(p.deep_view()),
    {
        let mut i: usize = 0;
        while i < self.dirs.len()
            invariant
                0 <= i <= self.dirs@.len(),
                forall|k: int| 0 <= k < i ==> self.dirs.deep_view()[k] != p.deep_view(),
            decreases self.dirs@.len() - i,
        {
            if path_eq(&self.dirs[i], p) {
                assert(self.dirs.deep_view()[i as int] == p.deep_view());
                return true;
            }
            assert(self.dirs.deep_view()[i as int] != p.deep_view());
            i += 1;
        }
        false
    }

    fn find_file(&self, p: &Vec<String>) -> (r: Option<usize>)
        ensures
            r matches Some(i) ==> i < self.files@.len() && self.files@[i as int].path.deep_view()
                == p.deep_view(),
            r is None ==> forall|i: int|
                0 <= i < self.files@.len() ==> (#[trigger] self.files@[i].path.deep_view())
                    != p.deep_view(),
    {
        let mut i: usize = 0;
        while i < self.files.len()
            invariant
                0 <= i <= self.files@.len(),
                forall|k: int|
                    0 <= k < i ==> (#[trigger] self.files@[k].path.deep_view()) != p.deep_view(),
            decreases self.files@.len() - i,
        {
            if path_eq(&self.files[i].path, p) {
                return Some(i);
            }
            i += 1;
        }
        None
    }

    /// Whether a file exists at this path.
    pub fn file_exists(&self, p: &Vec<String>) -> (r: bool)
        requires
            self.wf(),
        ensures
            r == self.file_map().contains_key(p.deep_view()),
    {
        proof {
            lemma_map_of_full(self.files@);
        }
        match self.find_file(p) {
            Some(_) => true,
            None => false,
        }
    }

    /// Creates the directory at this path together with all its missing
    /// ancestors. Idempotent: directories already present are left as
    /// they are. Fails exactly when a file stands where a directory of
    /// the chain should be, and then changes nothing.
    pub fn create_dir_all(&mut self, p: &Vec<String>) -> (r: Result<(), StoreError>)
        requires
            old(self).wf(),
        ensures
            final(self).wf(),
            final(self).files@ == old(self).files@,
            final(self).file_map() == old(self).file_map(),
            r is Ok <==> no_prefix_file(old(self).file_map(), p.deep_view()),
            r is Ok ==> (forall|q: PathKey|
                final(self).has_dir(q) <==> old(self).has_dir(q) || path_is_prefix(
                    q,
                    p.deep_view(),
                )),
            r matches Err(e) ==> *final(self) == *old(self) && e is IoFailure,
    {
        let ghost pd = p.deep_view();
        let mut prefix: Vec<String> = Vec::new();
        let mut i: usize = 0;
        while i < p.len()
            invariant
                old(self).wf(),
                *self == *old(self),
                0 <= i <= p@.len(),
                pd == p.deep_view(),
                prefix.deep_view() == pd.take(i as int),
                forall|n: int|
                    1 <= n <= i ==> !old(self).file_map().contains_key(#[trigger] pd.take(n)),
            decreases p@.len() - i,
        {
            let ghost d0 = prefix.deep_view();
            prefix.push(p[i].clone());
            i += 1;
            proof {
                assert(prefix.deep_view() =~= d0.push(pd[i - 1]));
                assert(prefix.deep_view() =~= pd.take(i as int));
            }
            if self.file_exists(&prefix) {
                return Err(
                    StoreError::IoFailure {
                        detail: String::from_str("a file stands where a directory is needed"),
                    },
                );
            }
        }
        let mut prefix2: Vec<String> = Vec::new();
        let mut j: usize = 0;
        while j < p.len()
            invariant
                0 <= j <= p@.len(),
                pd == p.deep_view(),
                prefix2.deep_view() == pd.take(j as int),
                self.wf(),
                self.files@ == old(self).files@,
                forall|n: int|
                    1 <= n <= p@.len() ==> !old(self).file_map().contains_key(#[trigger] pd.take(n)),
                forall|q: PathKey|
                    self.has_dir(q) <==> old(self).has_dir(q) || (exists|n: int|
                        1 <= n <= j && q == #[trigger] pd.take(n)),
            decreases p@.len() - j,
        {
            let ghost d0 = prefix2.deep_view();
            prefix2.push(p[j].clone());
            j += 1;
            proof {
                assert(prefix2.deep_view() =~= d0.push(pd[j - 1]));
                assert(prefix2.deep_view() =~= pd.take(j as int));
            }
            if !self.dir_exists(&prefix2) {
                let np = crate::entity::clone_path(&prefix2);
                let ghost pre = *self;
                self.dirs.push(np);
                proof {
                    assert forall|q: PathKey| self.has_dir(q) <==> (pre.has_dir(q) || q == pd.take(
                        j as int,
                    )) by {
                        if self.has_dir(q) {
                            let t = choose|t: int|
                                0 <= t < self.dirs@.len() && (#[trigger] self.dirs.deep_view()[t])
                                    == q;
                            if t < pre.dirs@.len() {
                                assert(pre.dirs.deep_view()[t] == q);
                            } else {
                                assert(self.dirs.deep_view()[t] == prefix2.deep_view());
                            }
                        }
                        if pre.has_dir(q) {
                            let t = choose|t: int|
                                0 <= t < pre.dirs@.len() && (#[trigger] pre.dirs.deep_view()[t])
                                    == q;
                            assert(self.dirs.deep_view()[t] == q);
                        }
                        if q == pd.take(j as int) {
                            assert(self.dirs.deep_view()[self.dirs@.len() - 1] == q);
                        }
                    }
                    assert forall|a: int, b: int|
                        0 <= a < b < self.dirs@.len() implies (#[trigger] self.dirs.deep_view()[a])
                        != (#[trigger] self.dirs.deep_view()[b]) by {
                        if b < pre.dirs@.len() {
                            assert(pre.dirs.deep_view()[a] == self.dirs.deep_view()[a]);
                            assert(pre.dirs.deep_view()[b] == self.dirs.deep_view()[b]);
                        } else {
                            assert(self.dirs.deep_view()[b] == prefix2.deep_view());
                            assert(pre.dirs.deep_view()[a] == self.dirs.deep_view()[a]);
                            assert(!pre.has_dir(prefix2.deep_view()));
                        }
                    }
                    assert forall|t: int| 0 <= t < self.files@.len() implies !self.has_dir(
                        #[trigger] self.files@[t].path.deep_view(),
                    ) by {
                        lemma_map_of_full(self.files@);
                        assert(!pre.has_dir(self.files@[t].path.deep_view()));
                        assert(old(self).file_map().contains_key(self.files@[t].path.deep_view()));
                        assert(self.files@[t].path.deep_view() != pd.take(j as int));
                    }
                    assert forall|q: PathKey|
                        self.has_dir(q) <==> (old(self).has_dir(q) || (exists|n: int|
                            1 <= n <= j && q == #[trigger] pd.take(n))) by {
                        if self.has_dir(q) {
                            if !pre.has_dir(q) {
                                assert(q == pd.take(j as int));
                            }
                        }
                        if old(self).has_dir(q) {
                            assert(pre.has_dir(q));
                        }
                        if exists|n: int| 1 <= n <= j && q == #[trigger] pd.take(n) {
                            let n = choose|n: int| 1 <= n <= j && q == #[trigger] pd.take(n);
                            if n < j {
                                assert(pre.has_dir(q) || old(self).has_dir(q) || q == pd.take(n));
                            } else {
                                assert(q == pd.take(j as int));
                            }
                        }
                    }
                }
            } else {
                proof {
                    assert(self.has_dir(pd.take(j as int)));
                    assert forall|q: PathKey|
                        self.has_dir(q) <==> (old(self).has_dir(q) || (exists|n: int|
                            1 <= n <= j && q == #[trigger] pd.take(n))) by {
                        if exists|n: int| 1 <= n <= j && q == #[trigger] pd.take(n) {
                            let n = choose|n: int| 1 <= n <= j && q == #[trigger] pd.take(n);
                            if n == j {
                                assert(self.has_dir(q));
                            }
                        }
                    }
                }
            }
        }
        proof {
            assert forall|q: PathKey|
                self.has_dir(q) <==> (old(self).has_dir(q) || path_is_prefix(q, pd)) by {}
        }
        Ok(())
    }

    /// Reads the bytes of the file at this path. Fails with `NotFound`
    /// when nothing is there, and with `IoFailure` when a directory is.
    pub fn read_file(&self, p: &Vec<String>) -> (r: Result<Vec<u8>, StoreError>)
        requires
            self.wf(),
        ensures
            r is Ok <==> self.file_map().contains_key(p.deep_view()),
            r matches Ok(d) ==> d@ == self.file_map()[p.deep_view()],
            r matches Err(e) ==> (e is NotFound <==> !self.has_dir(p.deep_view())),
    {
        proof {
            lemma_map_of_full(self.files@);
        }
        match self.find_file(p) {
            Some(i) => Ok(clone_bytes(&self.files[i].data)),
            None => {
                if self.dir_exists(p) {
                    Err(
                        StoreError::IoFailure {
                            detail: String::from_str("the path is a directory, not a file"),
                        },
                    )
                } else {
                    Err(StoreError::NotFound { detail: String::from_str("no such file") })
                }
            },
        }
    }

    /// Writes the bytes to the file at this path, replacing any previous
    /// contents (and creating the file when absent). Fails exactly when
    /// the containing directory is missing or the path is a directory,
    /// and then changes nothing.
    pub fn write_file(&mut self, p: &Vec<String>, data: Vec<u8>) -> (r: Result<(), StoreError>)
        requires
            old(self).wf(),
        ensures
            final(self).wf(),
            final(self).dirs@ == old(self).dirs@,
            forall|q: PathKey| final(self).has_dir(q) == old(self).has_dir(q),
            r is Ok <==> (p.deep_view().len() >= 1 && old(self).has_dir(
                p.deep_view().take(p.deep_view().len() - 1),
            ) && !old(self).has_dir(p.deep_view())),
            r is Ok ==> final(self).file_map() == old(self).file_map().insert(
                p.deep_view(),
                data@,
            ),
            r matches Err(e) ==> *final(self) == *old(self) && e is IoFailure,
    {
        if p.len() == 0 {
            return Err(
                StoreError::IoFailure { detail: String::from_str("an empty path names no file") },
            );
        }
        let mut parent = crate::entity::clone_path(p);
        parent.pop();
        proof {
            assert(parent.deep_view() =~= p.deep_view().take(p.deep_view().len() - 1));
        }
        if !self.dir_exists(&parent) {
            return Err(
                StoreError::IoFailure {
                    detail: String::from_str("the containing directory does not exist"),
                },
            );
        }
        if self.dir_exists(p) {
            return Err(
                StoreError::IoFailure {
                    detail: String::from_str("the path is a directory, not a file"),
                },
            );
        }
        proof {
            lemma_map_of_full(self.files@);
        }
        let nf = FsFile { path: crate::entity::clone_path(p), data };
        match self.find_file(p) {
            Some(i) => {
                let ghost s0 = self.files@;
                self.files[i] = nf;
                proof {
                    lemma_map_of_update(s0, i as int, self.files@[i as int]);
                }
            },
            None => {
                let ghost s0 = self.files@;
                self.files.push(nf);
                proof {
                    assert(self.files@.drop_last() =~= s0);
                    assert forall|a: int, b: int|
                        0 <= a < b < self.files@.len() implies (
                    #[trigger] self.files@[a].path.deep_view()) != (
                    #[trigger] self.files@[b].path.deep_view()) by {
                        if b < s0.len() {
                            assert(self.files@[a] == s0[a]);
                            assert(self.files@[b] == s0[b]);
                        } else {
                            assert(self.files@[a] == s0[a]);
                            assert(self.files@[b].path.deep_view() == p.deep_view());
                        }
                    }
                }
            },
        }
        proof {
            assert forall|t: int| 0 <= t < self.files@.len() implies !self.has_dir(
                #[trigger] self.files@[t].path.deep_view(),
            ) by {
                if self.files@[t].path.deep_view() != p.deep_view() {
                    let ghost s0 = old(self).files@;
                    assert(exists|u: int|
                        0 <= u < s0.len() && (#[trigger] s0[u].path.deep_view())
                            == self.files@[t].path.deep_view());
                }
            }
        }
        Ok(())
    }
}

/// Copies a byte vector.
pub fn clone_bytes(v: &Vec<u8>) -> (r: Vec<u8>)
    ensures
        r@ == v@,
{
    let mut r: Vec<u8> = Vec::new();
    let mut i: usize = 0;
    while i < v.len()
        invariant
            0 <= i <= v@.len(),
            r@ == v@.take(i as int),
        decreases v@.len() - i,
    {
        r.push(v[i]);
        i += 1;
        proof {
            assert(v@.take(i as int) =~= v@.take(i - 1).push(v@[i - 1]));
        }
    }
    proof {
        assert(v@.take(v@.len() as int) =~= v@);
    }
    r
}

} // verus!
