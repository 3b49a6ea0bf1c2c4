//! An in-memory filesystem: a flat set of entries, each a path (as a list of
//! component names) marked as directory or file. It offers the same
//! capability surface as the real disk — metadata lookup, sorted directory
//! listing, rename, and creation — so the traversal engine can run against a
//! snapshot exactly as it runs against the disk.

use vstd::prelude::*;
use vstd::string::StrSliceExecFns;
use crate::paths::clean_name;
use crate::paths::components_of;
use crate::paths::split_path;
use crate::paths::str_seq_view;

verus! {

/// An error from a filesystem operation.
#[derive(PartialEq, Eq, Structural, Clone, Copy, Debug)]
pub enum FsError {
    /// The path (or a needed parent) does not exist.
    NotFound,
    /// The path exists but is not a directory.
    NotADirectory,
    /// The target path already exists.
    AlreadyExists,
    /// The operation itself is ill-formed, such as renaming a path into its
    /// own subtree.
    Invalid,
}

/// Metadata of a filesystem entry.
#[derive(PartialEq, Eq, Structural, Clone, Copy, Debug)]
pub struct FsMeta {
    /// Whether the entry is a directory.
    pub is_dir: bool,
}

/// One entry of the in-memory filesystem.
pub struct FsEntry {
    /// The absolute path of the entry, as its list of component names.
    pub path: Vec<String>,
    /// Whether the entry is a directory.
    pub is_dir: bool,
}

/// An in-memory filesystem: a set of entries. The root directory is implicit
/// and always exists.
pub struct MemFs {
    entries: Vec<FsEntry>,
}

impl View for FsEntry {
    type V = (Seq<Seq<char>>, bool);

    open spec fn view(&self) -> (Seq<Seq<char>>, bool) {
        (str_seq_view(self.path@), self.is_dir)
    }
}

impl View for MemFs {
    type V = Seq<(Seq<Seq<char>>, bool)>;

    closed spec fn view(&self) -> Seq<(Seq<Seq<char>>, bool)> {
        self.entries@.map_values(|e: FsEntry| e@)
    }
}

/// Whether the view holds an entry at path `p`.
pub open spec fn v_has(v: Seq<(Seq<Seq<char>>, bool)>, p: Seq<Seq<char>>) -> bool {
    exists|i: int| 0 <= i < v.len() && (#[trigger] v[i]).0 == p
}

/// Whether path `p` exists in the view; the implicit root always does.
pub open spec fn v_exists(v: Seq<(Seq<Seq<char>>, bool)>, p: Seq<Seq<char>>) -> bool {
    p.len() == 0 || v_has(v, p)
}

/// Whether path `p` is a directory in the view; the implicit root is one.
pub open spec fn v_dir(v: Seq<(Seq<Seq<char>>, bool)>, p: Seq<Seq<char>>) -> bool {
    p.len() == 0 || exists|i: int| 0 <= i < v.len() && (#[trigger] v[i]).0 == p && v[i].1
}

/// Well-formedness of a filesystem view: paths are distinct, components are
/// non-empty, and every entry below the root hangs off an existing directory.
pub open spec fn v_wf(v: Seq<(Seq<Seq<char>>, bool)>) -> bool {
    &&& forall|i: int, j: int|
        0 <= i < j < v.len() ==> (#[trigger] v[i]).0 != (#[trigger] v[j]).0
    &&& forall|i: int|
        0 <= i < v.len() ==> (#[trigger] v[i]).0.len() > 0
    &&& forall|i: int, k: int|
        0 <= i < v.len() && 0 <= k < v[i].0.len() ==> clean_name(#[trigger] v[i].0[k])
    &&& forall|i: int|
        0 <= i < v.len() && (#[trigger] v[i]).0.len() > 1 ==> v_dir(v, v[i].0.drop_last())
}

/// Every proper non-empty prefix of an entry's path is an existing directory.
pub proof fn lemma_ancestors_exist(v: Seq<(Seq<Seq<char>>, bool)>, p: Seq<Seq<char>>, k: int)
    requires
        v_wf(v),
        v_has(v, p),
        1 <= k < p.len(),
    ensures
        v_dir(v, p.take(k)),
    decreases p.len() - k,
{
    if k == p.len() - 1 {
        let i = choose|i: int| 0 <= i < v.len() && (#[trigger] v[i]).0 == p;
        assert(v[i].0.drop_last() =~= p.take(k));
    } else {
        lemma_ancestors_exist(v, p, k + 1);
        let i = choose|i: int| 0 <= i < v.len() && (#[trigger] v[i]).0 == p.take(k + 1) && v[i].1;
        assert(v[i].0.drop_last() =~= p.take(k));
        assert(v_has(v, p.take(k + 1)));
    }
}

impl MemFs {
    /// Well-formedness of the filesystem.
    pub open spec fn wf(&self) -> bool {
        v_wf(self@)
    }

    /// A new, empty in-memory filesystem (only the implicit root).
    pub fn new() -> (r: MemFs)
        ensures
            r@ =~= Seq::<(Seq<Seq<char>>, bool)>::empty(),
            r.wf(),
    {
        MemFs { entries: Vec::new() }
    }

    /// The index of the entry at `comps`, when one exists.
    fn find_entry(&self, comps: &Vec<String>) -> (r: Option<usize>)
        ensures
            match r {
                Some(i) => i < self@.len() && self@[i as int].0 == str_seq_view(comps@),
                None => !v_has(self@, str_seq_view(comps@)),
            },
    {
        let mut i: usize = 0;
        while i < self.entries.len()
            invariant
                i <= self@.len(),
                self@.len() == self.entries@.len(),
                forall|j: int| 0 <= j < i ==> (#[trigger] self@[j]).0 != str_seq_view(comps@),
                forall|j: int|
                    0 <= j < self.entries@.len() ==> (#[trigger] self@[j]).0 == str_seq_view(
                        self.entries@[j].path@,
                    ) && self@[j].1 == self.entries@[j].is_dir,
            decreases self@.len() - i,
        {
            if comps_eq(&self.entries[i].path, comps) {
                return Some(i);
            }
            i = i + 1;
        }
        None
    }

    /// Whether the given path exists, after splitting it into components.
    pub fn contains_path(&self, path: &str) -> (r: bool)
        ensures
            r == v_exists(self@, components_of(path@)),
    {
        let comps = split_path(path);
        if comps.len() == 0 {
            proof {
                assert(str_seq_view(comps@).len() == 0);
                assert(components_of(path@).len() == 0);
            }
            return true;
        }
        let r = self.find_entry(&comps);
        proof {
            assert(str_seq_view(comps@) == components_of(path@));
        }
        r.is_some()
    }

    /// Metadata of the entry at the given path: fails with `NotFound` when the
    /// path does not exist.
    pub fn metadata(&self, path: &str) -> (r: Result<FsMeta, FsError>)
        requires
            self.wf(),
        ensures
            match r {
                Ok(m) => v_exists(self@, components_of(path@)) && m.is_dir == v_dir(
                    self@,
                    components_of(path@),
                ),
                Err(e) => e == FsError::NotFound && !v_exists(self@, components_of(path@)),
            },
    {
        let comps = split_path(path);
        if comps.len() == 0 {
            proof {
                assert(str_seq_view(comps@).len() == 0);
            }
            return Ok(FsMeta { is_dir: true });
        }
        match self.find_entry(&comps) {
            Some(i) => {
                let m = FsMeta { is_dir: self.entries[i].is_dir };
                proof {
                    let p = str_seq_view(comps@);
                    assert(self@[i as int].0 == p && self@[i as int].1 == m.is_dir);
                    if m.is_dir {
                        assert(v_dir(self@, p));
                    } else {
                        if v_dir(self@, p) {
                            let j = choose|j: int|
                                0 <= j < self@.len() && (#[trigger] self@[j]).0 == p && self@[j].1;
                            assert(j == i) by {
                                if j != i {
                                    lemma_distinct_entry(self@, i as int, j);
                                }
                            }
                        }
                    }
                }
                Ok(m)
            },
            None => Err(FsError::NotFound),
        }
    }

    /// Whether the given path is an existing directory.
    pub fn is_dir_path(&self, path: &str) -> (r: bool)
        requires
            self.wf(),
        ensures
            r == v_dir(self@, components_of(path@)),
    {
        match self.metadata(path) {
            Ok(m) => {
                proof {
                    if v_dir(self@, components_of(path@)) && components_of(path@).len() > 0 {
                        assert(v_has(self@, components_of(path@)));
                    }
                }
                m.is_dir
            },
            Err(_) => {
                proof {
                    if v_dir(self@, components_of(path@)) && components_of(path@).len() > 0 {
                        assert(v_has(self@, components_of(path@)));
                    }
                }
                false
            },
        }
    }
}

/// Two distinct indices of a well-formed view never carry the same path.
proof fn lemma_distinct_entry(v: Seq<(Seq<Seq<char>>, bool)>, i: int, j: int)
    requires
        v_wf(v),
        0 <= i < v.len(),
        0 <= j < v.len(),
        i != j,
    ensures
        v[i].0 != v[j].0,
{
}

/// Component-list equality of two string vectors.
fn comps_eq(a: &Vec<String>, b: &Vec<String>) -> (r: bool)
    ensures
        r == (str_seq_view(a@) == str_seq_view(b@)),
{
    if a.len() != b.len() {
        proof {
            assert(str_seq_view(a@).len() != str_seq_view(b@).len());
        }
        return false;
    }
    let mut i: usize = 0;
    while i < a.len()
        invariant
            i <= a@.len(),
            a@.len() == b@.len(),
            forall|j: int| 0 <= j < i ==> #[trigger] a@[j]@ == b@[j]@,
        decreases a@.len() - i,
    {
        if !str_eq(&a[i], &b[i]) {
            proof {
                assert(str_seq_view(a@)[i as int] != str_seq_view(b@)[i as int]);
            }
            return false;
        }
        i = i + 1;
    }
    proof {
        assert(str_seq_view(a@) =~= str_seq_view(b@));
    }
    true
}

/// String equality by characters.
fn str_eq(a: &String, b: &String) -> (r: bool)
    ensures
        r == (a@ == b@),
{
    a.eq(b)
}

/// Strict lexicographic order on character sequences, by code point.
pub open spec fn lex_lt(a: Seq<char>, b: Seq<char>) -> bool
    decreases a.len(),
{
    if b.len() == 0 {
        false
    } else if a.len() == 0 {
        true
    } else if (a[0] as u32) < (b[0] as u32) {
        true
    } else if a[0] != b[0] {
        false
    } else {
        lex_lt(a.drop_first(), b.drop_first())
    }
}

/// Lexicographic order on character sequences, by code point.
pub open spec fn lex_le(a: Seq<char>, b: Seq<char>) -> bool {
    lex_lt(a, b) || a == b
}

/// With equal prefixes of length `k`, the order is decided past them.
proof fn lemma_lex_skip(a: Seq<char>, b: Seq<char>, k: int)
    requires
        0 <= k <= a.len(),
        k <= b.len(),
        forall|j: int| 0 <= j < k ==> a[j] == b[j],
    ensures
        lex_lt(a, b) == lex_lt(a.skip(k), b.skip(k)),
    decreases k,
{
    if k == 0 {
        assert(a.skip(0) =~= a);
        assert(b.skip(0) =~= b);
    } else {
        assert(forall|j: int|
            0 <= j < k - 1 ==> #[trigger] a.drop_first()[j] == b.drop_first()[j]);
        lemma_lex_skip(a.drop_first(), b.drop_first(), k - 1);
        assert(a.drop_first().skip(k - 1) =~= a.skip(k));
        assert(b.drop_first().skip(k - 1) =~= b.skip(k));
    }
}

/// Lexicographic comparison of two strings: `a <= b` by code point.
pub fn str_lex_le(a: &str, b: &str) -> (r: bool)
    ensures
        r == lex_le(a@, b@),
{
    let al = a.unicode_len();
    let bl = b.unicode_len();
    let mut i: usize = 0;
    while i < al && i < bl
        invariant
            i <= al,
            i <= bl,
            al == a@.len(),
            bl == b@.len(),
            forall|j: int| 0 <= j < i ==> a@[j] == b@[j],
        decreases al - i,
    {
        let ca = a.get_char(i);
        let cb = b.get_char(i);
        if ca as u32 != cb as u32 {
            proof {
                lemma_lex_skip(a@, b@, i as int);
                assert(a@.skip(i as int)[0] == ca && b@.skip(i as int)[0] == cb);
                assert(a@ != b@) by {
                    assert(a@[i as int] != b@[i as int]);
                }
            }
            return (ca as u32) < (cb as u32);
        }
        i = i + 1;
    }
    proof {
        lemma_lex_skip(a@, b@, i as int);
        if al == bl {
            assert(a@ =~= b@);
        } else if al < bl {
            assert(a@.skip(i as int).len() == 0 && b@.skip(i as int).len() > 0);
            assert(lex_lt(a@, b@));
        } else {
            assert(b@.skip(i as int).len() == 0);
            assert(!lex_lt(a@, b@));
            assert(a@ != b@) by {
                assert(a@.len() != b@.len());
            }
        }
    }
    al <= bl
}

/// `c` inserted into `s` before the first element it is at most.
pub open spec fn insert_sorted(s: Seq<Seq<char>>, c: Seq<char>) -> Seq<Seq<char>>
    decreases s.len(),
{
    if s.len() == 0 {
        seq![c]
    } else if lex_le(c, s[0]) {
        seq![c] + s
    } else {
        seq![s[0]] + insert_sorted(s.drop_first(), c)
    }
}

/// Where the scan for the insertion point stops, `insert_sorted` splits the
/// sequence.
proof fn lemma_insert_sorted_at(s: Seq<Seq<char>>, c: Seq<char>, j: int)
    requires
        0 <= j <= s.len(),
        forall|k: int| 0 <= k < j ==> !lex_le(c, #[trigger] s[k]),
        j < s.len() ==> lex_le(c, s[j]),
    ensures
        insert_sorted(s, c) == s.take(j) + seq![c] + s.skip(j),
    decreases s.len(),
{
    if s.len() == 0 {
        assert(insert_sorted(s, c) =~= s.take(j) + seq![c] + s.skip(j));
    } else if lex_le(c, s[0]) {
        assert(j == 0);
        assert(insert_sorted(s, c) =~= s.take(j) + seq![c] + s.skip(j));
    } else {
        assert(forall|k: int| 0 <= k < j - 1 ==> !lex_le(c, #[trigger] s.drop_first()[k]));
        lemma_insert_sorted_at(s.drop_first(), c, j - 1);
        assert(seq![s[0]] + (s.drop_first().take(j - 1) + seq![c] + s.drop_first().skip(j - 1))
            =~= s.take(j) + seq![c] + s.skip(j));
    }
}

/// Insert an owned name into a sorted vector of names.
fn insert_name_sorted(v: &mut Vec<String>, c: String)
    ensures
        str_seq_view(final(v)@) == insert_sorted(str_seq_view(old(v)@), c@),
{
    let mut j: usize = 0;
    while j < v.len() && !str_lex_le(c.as_str(), v[j].as_str())
        invariant
            j <= v@.len(),
            v@ == old(v)@,
            forall|k: int| 0 <= k < j ==> !lex_le(c@, #[trigger] str_seq_view(v@)[k]),
        decreases v@.len() - j,
    {
        j = j + 1;
    }
    proof {
        lemma_insert_sorted_at(str_seq_view(v@), c@, j as int);
    }
    v.insert(j, c);
    proof {
        assert(str_seq_view(v@) =~= str_seq_view(old(v)@).take(j as int) + seq![c@] + str_seq_view(
            old(v)@,
        ).skip(j as int));
    }
}

/// The names of the entries directly under `p`, in sorted order.
pub open spec fn v_children(v: Seq<(Seq<Seq<char>>, bool)>, p: Seq<Seq<char>>) -> Seq<Seq<char>>
    decreases v.len(),
{
    if v.len() == 0 {
        Seq::empty()
    } else {
        let rest = v_children(v.drop_last(), p);
        let q = v.last().0;
        if q.len() == p.len() + 1 && q.drop_last() == p {
            insert_sorted(rest, q.last())
        } else {
            rest
        }
    }
}

/// Whether `q` is directly under `p`: one component longer, same prefix.
fn is_child_path(q: &Vec<String>, p: &Vec<String>) -> (r: bool)
    ensures
        r == (str_seq_view(q@).len() == str_seq_view(p@).len() + 1 && str_seq_view(
            q@,
        ).drop_last() == str_seq_view(p@)),
{
    if q.len() == 0 || q.len() - 1 != p.len() {
        return false;
    }
    let mut i: usize = 0;
    while i < p.len()
        invariant
            i <= p@.len(),
            q@.len() == p@.len() + 1,
            forall|j: int| 0 <= j < i ==> #[trigger] q@[j]@ == p@[j]@,
        decreases p@.len() - i,
    {
        if !str_eq(&q[i], &p[i]) {
            proof {
                assert(str_seq_view(q@).drop_last()[i as int] != str_seq_view(p@)[i as int]);
            }
            return false;
        }
        i = i + 1;
    }
    proof {
        assert(str_seq_view(q@).drop_last() =~= str_seq_view(p@));
    }
    true
}

impl MemFs {
    /// List the names of the children of the directory at the given path, in
    /// sorted order (so traversal and renaming are reproducible). Fails with
    /// `NotFound` when the path does not exist and `NotADirectory` when it is
    /// not a directory.
    pub fn list_children(&self, path: &str) -> (r: Result<Vec<String>, FsError>)
        requires
            self.wf(),
        ensures
            match r {
                Ok(names) => v_dir(self@, components_of(path@)) && str_seq_view(names@)
                    == v_children(self@, components_of(path@)),
                Err(e) => !v_dir(self@, components_of(path@)) && (if !v_exists(
                    self@,
                    components_of(path@),
                ) {
                    e == FsError::NotFound
                } else {
                    e == FsError::NotADirectory
                }),
            },
    {
        let comps = split_path(path);
        proof {
            assert(str_seq_view(comps@) == components_of(path@));
        }
        if comps.len() > 0 {
            match self.find_entry(&comps) {
                Some(i) => {
                    if !self.entries[i].is_dir {
                        proof {
                            let p = str_seq_view(comps@);
                            if v_dir(self@, p) {
                                let j = choose|j: int|
                                    0 <= j < self@.len() && (#[trigger] self@[j]).0 == p
                                        && self@[j].1;
                                if j != i as int {
                                    lemma_distinct_entry(self@, i as int, j);
                                }
                            }
                        }
                        return Err(FsError::NotADirectory);
                    }
                },
                None => {
                    return Err(FsError::NotFound);
                },
            }
        }
        let ghost p = str_seq_view(comps@);
        let mut names: Vec<String> = Vec::new();
        let mut i: usize = 0;
        while i < self.entries.len()
            invariant
                i <= self.entries@.len(),
                self@.len() == self.entries@.len(),
                str_seq_view(names@) =~= v_children(self@.take(i as int), p),
                p == str_seq_view(comps@),
                forall|j: int|
                    0 <= j < self.entries@.len() ==> (#[trigger] self@[j]).0 == str_seq_view(
                        self.entries@[j].path@,
                    ) && self@[j].1 == self.entries@[j].is_dir,
            decreases self.entries@.len() - i,
        {
            if is_child_path(&self.entries[i].path, &comps) {
                let q = &self.entries[i].path;
                let name = q[q.len() - 1].clone();
                proof {
                    assert(name@ == self@[i as int].0.last());
                }
                insert_name_sorted(&mut names, name);
            }
            proof {
                assert(self@.take(i + 1).drop_last() =~= self@.take(i as int));
                assert(str_seq_view(names@) =~= v_children(self@.take(i + 1), p));
            }
            i = i + 1;
        }
        proof {
            assert(self@.take(self@.len() as int) =~= self@);
        }
        Ok(names)
    }
}

/// What `insert_sorted` holds: the old elements and the new one.
proof fn lemma_insert_sorted_member(s: Seq<Seq<char>>, c: Seq<char>, x: Seq<char>)
    requires
        insert_sorted(s, c).contains(x),
    ensures
        s.contains(x) || x == c,
    decreases s.len(),
{
    let out = insert_sorted(s, c);
    let i = choose|i: int| 0 <= i < out.len() && out[i] == x;
    if s.len() == 0 {
    } else if lex_le(c, s[0]) {
        if i > 0 {
            assert(s[i - 1] == x);
        }
    } else {
        if i == 0 {
            assert(s[0] == x);
        } else {
            assert(insert_sorted(s.drop_first(), c)[i - 1] == x);
            lemma_insert_sorted_member(s.drop_first(), c, x);
            if s.drop_first().contains(x) {
                let j = choose|j: int| 0 <= j < s.drop_first().len() && s.drop_first()[j] == x;
                assert(s[j + 1] == x);
            }
        }
    }
}

/// Every listed child name comes from an entry directly under the parent.
pub proof fn lemma_v_children_member(
    v: Seq<(Seq<Seq<char>>, bool)>,
    p: Seq<Seq<char>>,
    c: Seq<char>,
)
    requires
        v_children(v, p).contains(c),
    ensures
        v_has(v, p.push(c)),
    decreases v.len(),
{
    if v.len() > 0 {
        let rest = v_children(v.drop_last(), p);
        let q = v.last().0;
        if q.len() == p.len() + 1 && q.drop_last() == p {
            lemma_insert_sorted_member(rest, q.last(), c);
            if c == q.last() {
                assert(q =~= p.push(c));
                assert(v[v.len() - 1].0 == p.push(c));
            } else {
                lemma_v_children_member(v.drop_last(), p, c);
                let i = choose|i: int|
                    0 <= i < v.drop_last().len() && (#[trigger] v.drop_last()[i]).0 == p.push(c);
                assert(v[i].0 == p.push(c));
            }
        } else {
            lemma_v_children_member(v.drop_last(), p, c);
            let i = choose|i: int|
                0 <= i < v.drop_last().len() && (#[trigger] v.drop_last()[i]).0 == p.push(c);
            assert(v[i].0 == p.push(c));
        }
    }
}

/// Every entry's path has at most `m` components.
pub open spec fn depth_le(v: Seq<(Seq<Seq<char>>, bool)>, m: nat) -> bool {
    forall|i: int| 0 <= i < v.len() ==> (#[trigger] v[i]).0.len() <= m
}

/// A rename to a target no deeper than the source keeps every path depth.
pub proof fn lemma_rename_depth(
    v: Seq<(Seq<Seq<char>>, bool)>,
    f: Seq<Seq<char>>,
    t: Seq<Seq<char>>,
    m: nat,
)
    requires
        depth_le(v, m),
        t.len() <= f.len(),
    ensures
        depth_le(v_rename(v, f, t), m),
{
    let w = v_rename(v, f, t);
    assert forall|i: int| 0 <= i < w.len() implies (#[trigger] w[i]).0.len() <= m by {
        assert(w[i] == (rename_comps(v[i].0, f, t), v[i].1));
    }
}

/// The greatest number of components of any entry's path.
pub open spec fn max_depth(v: Seq<(Seq<Seq<char>>, bool)>) -> nat
    decreases v.len(),
{
    if v.len() == 0 {
        0
    } else {
        let rest = max_depth(v.drop_last());
        if v.last().0.len() > rest {
            v.last().0.len()
        } else {
            rest
        }
    }
}

/// The greatest depth bounds every entry's depth.
pub proof fn lemma_max_depth(v: Seq<(Seq<Seq<char>>, bool)>)
    ensures
        depth_le(v, max_depth(v)),
    decreases v.len(),
{
    if v.len() > 0 {
        lemma_max_depth(v.drop_last());
        assert forall|i: int| 0 <= i < v.len() implies (#[trigger] v[i]).0.len() <= max_depth(
            v,
        ) by {
            if i < v.len() - 1 {
                assert(v.drop_last()[i] == v[i]);
            }
        }
    }
}

impl MemFs {
    /// The greatest number of components of any entry's path.
    pub fn depth_bound(&self) -> (r: usize)
        ensures
            r as nat == max_depth(self@),
            depth_le(self@, r as nat),
    {
        proof {
            lemma_max_depth(self@);
        }
        let mut r: usize = 0;
        let mut i: usize = 0;
        while i < self.entries.len()
            invariant
                i <= self.entries@.len(),
                self@.len() == self.entries@.len(),
                r as nat == max_depth(self@.take(i as int)),
                forall|j: int|
                    0 <= j < self.entries@.len() ==> (#[trigger] self@[j]).0 == str_seq_view(
                        self.entries@[j].path@,
                    ),
            decreases self.entries@.len() - i,
        {
            let l = self.entries[i].path.len();
            proof {
                assert(self@.take(i + 1).drop_last() =~= self@.take(i as int));
                assert(self@.take(i + 1).last() == self@[i as int]);
                assert(self@[i as int].0.len() == self.entries@[i as int].path@.len());
            }
            if l > r {
                r = l;
            }
            i = i + 1;
        }
        proof {
            assert(self@.take(self@.len() as int) =~= self@);
        }
        r
    }
}

/// Whether `f` is a prefix of `q`.
pub open spec fn comps_prefix(f: Seq<Seq<char>>, q: Seq<Seq<char>>) -> bool {
    f.len() <= q.len() && q.take(f.len() as int) == f
}

/// The path with the prefix `f` replaced by `t`, when it has that prefix.
pub open spec fn rename_comps(q: Seq<Seq<char>>, f: Seq<Seq<char>>, t: Seq<Seq<char>>) -> Seq<
    Seq<char>,
> {
    if comps_prefix(f, q) {
        t + q.skip(f.len() as int)
    } else {
        q
    }
}

/// Every entry's path with the prefix `f` replaced by `t`.
pub open spec fn v_rename(
    v: Seq<(Seq<Seq<char>>, bool)>,
    f: Seq<Seq<char>>,
    t: Seq<Seq<char>>,
) -> Seq<(Seq<Seq<char>>, bool)> {
    v.map_values(|pr: (Seq<Seq<char>>, bool)| (rename_comps(pr.0, f, t), pr.1))
}

/// Whether the components of `f` are a prefix of those of `q`.
fn comps_has_prefix(q: &Vec<String>, f: &Vec<String>) -> (r: bool)
    ensures
        r == comps_prefix(str_seq_view(f@), str_seq_view(q@)),
{
    if f.len() > q.len() {
        return false;
    }
    let mut i: usize = 0;
    while i < f.len()
        invariant
            i <= f@.len(),
            f@.len() <= q@.len(),
            forall|j: int| 0 <= j < i ==> #[trigger] q@[j]@ == f@[j]@,
        decreases f@.len() - i,
    {
        if !str_eq(&q[i], &f[i]) {
            proof {
                assert(str_seq_view(q@).take(f@.len() as int)[i as int] != str_seq_view(
                    f@,
                )[i as int]);
            }
            return false;
        }
        i = i + 1;
    }
    proof {
        assert(str_seq_view(q@).take(f@.len() as int) =~= str_seq_view(f@));
    }
    true
}

/// A directory stays visible when an entry is appended.
proof fn lemma_v_dir_push(v: Seq<(Seq<Seq<char>>, bool)>, e: (Seq<Seq<char>>, bool), x: Seq<
    Seq<char>,
>)
    requires
        v_dir(v, x),
    ensures
        v_dir(v.push(e), x),
{
    if x.len() > 0 {
        let i = choose|i: int| 0 <= i < v.len() && (#[trigger] v[i]).0 == x && v[i].1;
        assert(v.push(e)[i] == v[i]);
    }
}

/// Appending a fresh entry under an existing directory keeps the view
/// well-formed.
proof fn lemma_create_wf(v: Seq<(Seq<Seq<char>>, bool)>, p: Seq<Seq<char>>, is_dir: bool)
    requires
        v_wf(v),
        p.len() > 0,
        !v_has(v, p),
        v_dir(v, p.drop_last()),
        forall|k: int| 0 <= k < p.len() ==> clean_name(#[trigger] p[k]),
    ensures
        v_wf(v.push((p, is_dir))),
{
    let w = v.push((p, is_dir));
    assert forall|i: int| 0 <= i < w.len() && (#[trigger] w[i]).0.len() > 1 implies v_dir(
        w,
        w[i].0.drop_last(),
    ) by {
        if i < v.len() {
            lemma_v_dir_push(v, (p, is_dir), v[i].0.drop_last());
        } else {
            lemma_v_dir_push(v, (p, is_dir), p.drop_last());
        }
    }
}

/// Whether `f` is a prefix of a prefix of `q` makes it a prefix of `q`.
proof fn lemma_prefix_take(f: Seq<Seq<char>>, q: Seq<Seq<char>>, m: int)
    requires
        0 <= m <= q.len(),
        comps_prefix(f, q.take(m)),
    ensures
        comps_prefix(f, q),
{
    assert(q.take(m).take(f.len() as int) =~= q.take(f.len() as int));
}

/// A directory's renamed path stays a directory in the renamed view.
proof fn lemma_v_dir_rename(
    v: Seq<(Seq<Seq<char>>, bool)>,
    f: Seq<Seq<char>>,
    t: Seq<Seq<char>>,
    y: Seq<Seq<char>>,
)
    requires
        f.len() > 0,
        v_dir(v, y),
        rename_comps(y, f, t).len() == 0 ==> y.len() == 0,
    ensures
        v_dir(v_rename(v, f, t), rename_comps(y, f, t)),
{
    let w = v_rename(v, f, t);
    assert(w.len() == v.len());
    if y.len() > 0 && rename_comps(y, f, t).len() > 0 {
        let i = choose|i: int| 0 <= i < v.len() && (#[trigger] v[i]).0 == y && v[i].1;
        assert(w[i] == (rename_comps(v[i].0, f, t), v[i].1));
        assert(v_dir(w, rename_comps(y, f, t)));
    }
}

/// Renaming a subtree onto a fresh target below an existing directory keeps
/// the view well-formed.
proof fn lemma_rename_wf(v: Seq<(Seq<Seq<char>>, bool)>, f: Seq<Seq<char>>, t: Seq<Seq<char>>)
    requires
        v_wf(v),
        f.len() > 0,
        t.len() > 0,
        v_has(v, f),
        !v_has(v, t),
        !comps_prefix(f, t),
        v_dir(v, t.drop_last()),
        forall|k: int| 0 <= k < t.len() ==> clean_name(#[trigger] t[k]),
    ensures
        v_wf(v_rename(v, f, t)),
{
    let w = v_rename(v, f, t);
    let fl = f.len() as int;
    assert(forall|i: int|
        0 <= i < v.len() ==> #[trigger] w[i] == (rename_comps(v[i].0, f, t), v[i].1));
    // distinct paths
    assert forall|i: int, j: int| 0 <= i < j < w.len() implies (#[trigger] w[i]).0 != (
    #[trigger] w[j]).0 by {
        if w[i].0 == w[j].0 {
            lemma_rename_comps_injective(v, f, t, v[i].0, v[j].0);
        }
    }
    // non-empty paths and non-empty names
    assert forall|i: int| 0 <= i < w.len() implies (#[trigger] w[i]).0.len() > 0 by {
        if comps_prefix(f, v[i].0) {
        }
    }
    assert forall|i: int, k: int|
        0 <= i < w.len() && 0 <= k < w[i].0.len() implies clean_name(#[trigger] w[i].0[k]) by {
        let q = v[i].0;
        if comps_prefix(f, q) {
            if k >= t.len() {
                assert(w[i].0[k] == q[k - t.len() + fl]);
            }
        }
    }
    // every entry hangs off a directory
    assert forall|i: int| 0 <= i < w.len() && (#[trigger] w[i]).0.len() > 1 implies v_dir(
        w,
        w[i].0.drop_last(),
    ) by {
        let q = v[i].0;
        if comps_prefix(f, q) {
            if q.len() == fl {
                // the moved root: its new parent is the target's parent
                assert(q =~= f);
                assert(w[i].0 =~= t);
                if comps_prefix(f, t.drop_last()) {
                    lemma_prefix_take(f, t, t.len() - 1);
                    assert(t.take(t.len() - 1) =~= t.drop_last());
                    assert(false);
                }
                assert(rename_comps(t.drop_last(), f, t) == t.drop_last());
                lemma_v_dir_rename(v, f, t, t.drop_last());
                assert(w[i].0.drop_last() =~= t.drop_last());
            } else {
                // inside the moved subtree: the parent moves along
                assert(q.drop_last().take(fl) =~= q.take(fl));
                assert(comps_prefix(f, q.drop_last()));
                assert(rename_comps(q.drop_last(), f, t) =~= w[i].0.drop_last());
                assert(q.len() > 1);
                assert(v_dir(v, q.drop_last()));
                lemma_v_dir_rename(v, f, t, q.drop_last());
            }
        } else {
            // untouched: its parent is untouched too
            if comps_prefix(f, q.drop_last()) {
                lemma_prefix_take(f, q, q.len() - 1);
                assert(q.take(q.len() - 1) =~= q.drop_last());
                assert(false);
            }
            assert(rename_comps(q.drop_last(), f, t) == q.drop_last());
            assert(v_dir(v, q.drop_last()));
            lemma_v_dir_rename(v, f, t, q.drop_last());
        }
    }
}

/// Distinct well-formed paths stay distinct under prefix replacement.
proof fn lemma_rename_comps_injective(
    v: Seq<(Seq<Seq<char>>, bool)>,
    f: Seq<Seq<char>>,
    t: Seq<Seq<char>>,
    p1: Seq<Seq<char>>,
    p2: Seq<Seq<char>>,
)
    requires
        v_wf(v),
        f.len() > 0,
        t.len() > 0,
        !v_has(v, t),
        v_has(v, p1),
        v_has(v, p2),
        p1 != p2,
    ensures
        rename_comps(p1, f, t) != rename_comps(p2, f, t),
{
    let fl = f.len() as int;
    let tl = t.len() as int;
    if rename_comps(p1, f, t) == rename_comps(p2, f, t) {
        if comps_prefix(f, p1) && comps_prefix(f, p2) {
            assert(p1.skip(fl) =~= p2.skip(fl)) by {
                assert(p1.skip(fl).len() == p2.skip(fl).len()) by {
                    assert((t + p1.skip(fl)).len() == (t + p2.skip(fl)).len());
                }
                assert forall|x: int| 0 <= x < p1.skip(fl).len() implies p1.skip(fl)[x] == p2.skip(
                    fl,
                )[x] by {
                    assert((t + p1.skip(fl))[tl + x] == p1.skip(fl)[x]);
                    assert((t + p2.skip(fl))[tl + x] == p2.skip(fl)[x]);
                }
            }
            assert(p1 =~= p2) by {
                assert(p1 =~= p1.take(fl) + p1.skip(fl));
                assert(p2 =~= p2.take(fl) + p2.skip(fl));
            }
        } else if comps_prefix(f, p1) && !comps_prefix(f, p2) {
            lemma_rename_one_sided(v, f, t, p1, p2);
        } else if !comps_prefix(f, p1) && comps_prefix(f, p2) {
            lemma_rename_one_sided(v, f, t, p2, p1);
        }
    }
}

/// A moved path lands on an untouched one only when the target existed.
proof fn lemma_rename_one_sided(
    v: Seq<(Seq<Seq<char>>, bool)>,
    f: Seq<Seq<char>>,
    t: Seq<Seq<char>>,
    p1: Seq<Seq<char>>,
    p2: Seq<Seq<char>>,
)
    requires
        v_wf(v),
        f.len() > 0,
        t.len() > 0,
        v_has(v, p2),
        comps_prefix(f, p1),
        !comps_prefix(f, p2),
        t + p1.skip(f.len() as int) == p2,
    ensures
        v_has(v, t),
{
    let fl = f.len() as int;
    let tl = t.len() as int;
    if p1.len() == fl {
        assert(p2 =~= t);
    } else {
        assert(p2.len() > tl);
        assert(p2.take(tl) =~= t) by {
            assert forall|x: int| 0 <= x < tl implies p2.take(tl)[x] == t[x] by {
                assert((t + p1.skip(fl))[x] == t[x]);
            }
        }
        lemma_ancestors_exist(v, p2, tl);
        assert(v_dir(v, t));
        let i = choose|i: int| 0 <= i < v.len() && (#[trigger] v[i]).0 == t && v[i].1;
        assert(v_has(v, t));
    }
}

impl MemFs {
    /// Append a fresh entry whose parent is a directory.
    fn insert_entry(&mut self, comps: Vec<String>, is_dir: bool)
        requires
            old(self).wf(),
            str_seq_view(comps@).len() > 0,
            forall|k: int|
                0 <= k < str_seq_view(comps@).len() ==> clean_name(#[trigger] str_seq_view(
                    comps@,
                )[k]),
            !v_has(old(self)@, str_seq_view(comps@)),
            v_dir(old(self)@, str_seq_view(comps@).drop_last()),
        ensures
            final(self).wf(),
            final(self)@ == old(self)@.push((str_seq_view(comps@), is_dir)),
    {
        proof {
            lemma_create_wf(self@, str_seq_view(comps@), is_dir);
        }
        let ghost v0 = self@;
        let ghost p = str_seq_view(comps@);
        self.entries.push(FsEntry { path: comps, is_dir });
        proof {
            assert forall|k: int| 0 <= k < self@.len() implies #[trigger] self@[k] == v0.push(
                (p, is_dir),
            )[k] by {
                if k < v0.len() {
                    assert(self.entries@[k] == old(self).entries@[k]);
                }
            }
            assert(self@ =~= v0.push((p, is_dir)));
        }
    }

    /// The index of the entry at the parent of `comps`, when the parent is
    /// below the root.
    fn find_parent(&self, comps: &Vec<String>) -> (r: Option<usize>)
        requires
            comps@.len() > 0,
        ensures
            match r {
                Some(i) => i < self@.len() && self@[i as int].0 == str_seq_view(
                    comps@,
                ).drop_last(),
                None => !v_has(self@, str_seq_view(comps@).drop_last()),
            },
    {
        let mut parent: Vec<String> = Vec::new();
        let mut k: usize = 0;
        while k < comps.len() - 1
            invariant
                k <= comps@.len() - 1,
                str_seq_view(parent@) =~= str_seq_view(comps@).take(k as int),
            decreases comps@.len() - 1 - k,
        {
            let c = comps[k].clone();
            let ghost cv = c@;
            let ghost p0 = parent@;
            proof {
                assert(cv == str_seq_view(comps@)[k as int]);
                assert(str_seq_view(p0).len() == p0.len());
            }
            parent.push(c);
            proof {
                assert(parent@ == p0.push(c));
                assert forall|x: int| 0 <= x < k + 1 implies #[trigger] str_seq_view(parent@)[x]
                    == str_seq_view(comps@).take(k + 1)[x] by {
                    assert(str_seq_view(parent@)[x] == parent@[x]@);
                    if x < k {
                        assert(parent@[x] == p0[x]);
                        assert(str_seq_view(p0)[x] == p0[x]@);
                    } else {
                        assert(parent@[x]@ == cv);
                    }
                }
                assert(str_seq_view(parent@) =~= str_seq_view(comps@).take(k + 1));
            }
            k = k + 1;
        }
        proof {
            assert(str_seq_view(comps@).take(comps@.len() - 1) =~= str_seq_view(
                comps@,
            ).drop_last());
        }
        self.find_entry(&parent)
    }

    /// Create a directory or a file at the given path. Fails with
    /// `AlreadyExists` when the path already exists, `NotFound` when the
    /// parent is missing, and `NotADirectory` when the parent is a file.
    fn create_entry(&mut self, path: &str, is_dir: bool) -> (r: Result<(), FsError>)
        requires
            old(self).wf(),
        ensures
            final(self).wf(),
            ({
                let p = components_of(path@);
                match r {
                    Ok(()) => {
                        &&& p.len() > 0
                        &&& !v_has(old(self)@, p)
                        &&& v_dir(old(self)@, p.drop_last())
                        &&& final(self)@ == old(self)@.push((p, is_dir))
                    },
                    Err(e) => {
                        &&& final(self)@ == old(self)@
                        &&& if p.len() == 0 || v_has(old(self)@, p) {
                            e == FsError::AlreadyExists
                        } else if !v_has(old(self)@, p.drop_last()) && p.len() > 1 {
                            e == FsError::NotFound && !v_dir(old(self)@, p.drop_last())
                        } else {
                            e == FsError::NotADirectory && !v_dir(old(self)@, p.drop_last())
                        }
                    },
                }
            }),
    {
        let comps = split_path(path);
        let ghost p = components_of(path@);
        proof {
            assert(str_seq_view(comps@) == p);
            crate::paths::lemma_components_clean(path@);
        }
        if comps.len() == 0 {
            return Err(FsError::AlreadyExists);
        }
        if self.find_entry(&comps).is_some() {
            return Err(FsError::AlreadyExists);
        }
        if comps.len() > 1 {
            match self.find_parent(&comps) {
                None => {
                    return Err(FsError::NotFound);
                },
                Some(i) => {
                    if !self.entries[i].is_dir {
                        proof {
                            if v_dir(self@, p.drop_last()) {
                                let j = choose|j: int|
                                    0 <= j < self@.len() && (#[trigger] self@[j]).0
                                        == p.drop_last() && self@[j].1;
                                if j != i as int {
                                    lemma_distinct_entry(self@, i as int, j);
                                }
                            }
                        }
                        return Err(FsError::NotADirectory);
                    }
                },
            }
        } else {
            proof {
                assert(p.drop_last() =~= Seq::<Seq<char>>::empty());
            }
        }
        self.insert_entry(comps, is_dir);
        Ok(())
    }

    /// Create a directory at the given path.
    pub fn create_dir(&mut self, path: &str) -> (r: Result<(), FsError>)
        requires
            old(self).wf(),
        ensures
            final(self).wf(),
            ({
                let p = components_of(path@);
                match r {
                    Ok(()) => {
                        &&& p.len() > 0
                        &&& !v_has(old(self)@, p)
                        &&& v_dir(old(self)@, p.drop_last())
                        &&& final(self)@ == old(self)@.push((p, true))
                    },
                    Err(e) => {
                        &&& final(self)@ == old(self)@
                        &&& if p.len() == 0 || v_has(old(self)@, p) {
                            e == FsError::AlreadyExists
                        } else if !v_has(old(self)@, p.drop_last()) && p.len() > 1 {
                            e == FsError::NotFound && !v_dir(old(self)@, p.drop_last())
                        } else {
                            e == FsError::NotADirectory && !v_dir(old(self)@, p.drop_last())
                        }
                    },
                }
            }),
    {
        self.create_entry(path, true)
    }

    /// Create a file at the given path.
    pub fn create_file(&mut self, path: &str) -> (r: Result<(), FsError>)
        requires
            old(self).wf(),
        ensures
            final(self).wf(),
            ({
                let p = components_of(path@);
                match r {
                    Ok(()) => {
                        &&& p.len() > 0
                        &&& !v_has(old(self)@, p)
                        &&& v_dir(old(self)@, p.drop_last())
                        &&& final(self)@ == old(self)@.push((p, false))
                    },
                    Err(e) => {
                        &&& final(self)@ == old(self)@
                        &&& if p.len() == 0 || v_has(old(self)@, p) {
                            e == FsError::AlreadyExists
                        } else if !v_has(old(self)@, p.drop_last()) && p.len() > 1 {
                            e == FsError::NotFound && !v_dir(old(self)@, p.drop_last())
                        } else {
                            e == FsError::NotADirectory && !v_dir(old(self)@, p.drop_last())
                        }
                    },
                }
            }),
    {
        self.create_entry(path, false)
    }

    /// Create the directory at the given path and all of its missing parents.
    /// Fails with `NotADirectory` when some prefix exists as a file; the
    /// directories created up to that point remain.
    pub fn create_dir_all(&mut self, path: &str) -> (r: Result<(), FsError>)
        requires
            old(self).wf(),
        ensures
            final(self).wf(),
            old(self)@.is_prefix_of(final(self)@),
            forall|j: int|
                old(self)@.len() <= j < final(self)@.len() ==> (#[trigger] final(self)@[j]).1
                    && final(self)@[j].0.len() > 0 && comps_prefix(
                    final(self)@[j].0,
                    components_of(path@),
                ),
            r is Ok ==> forall|m: int|
                1 <= m <= components_of(path@).len() ==> v_dir(
                    final(self)@,
                    components_of(path@).take(m),
                ),
            r is Err ==> r == Err::<(), FsError>(FsError::NotADirectory),
            (r is Ok <==> forall|m: int|
                1 <= m <= components_of(path@).len() ==> (v_has(
                    old(self)@,
                    #[trigger] components_of(path@).take(m),
                ) ==> v_dir(old(self)@, components_of(path@).take(m)))),
    {
        let comps = split_path(path);
        let ghost p = components_of(path@);
        proof {
            assert(str_seq_view(comps@) == p);
            crate::paths::lemma_components_clean(path@);
        }
        let mut prefix: Vec<String> = Vec::new();
        let mut k: usize = 0;
        while k < comps.len()
            invariant
                old(self).wf(),
                k <= comps@.len(),
                str_seq_view(comps@) == p,
                p == components_of(path@),
                forall|x: int| 0 <= x < p.len() ==> clean_name(#[trigger] p[x]),
                str_seq_view(prefix@) =~= p.take(k as int),
                self.wf(),
                old(self)@.is_prefix_of(self@),
                forall|j: int|
                    old(self)@.len() <= j < self@.len() ==> (#[trigger] self@[j]).1 && self@[j].0.len()
                        > 0 && comps_prefix(self@[j].0, p),
                forall|m: int| 1 <= m <= k ==> v_dir(self@, p.take(m)),
                forall|m: int|
                    1 <= m <= k ==> (v_has(old(self)@, #[trigger] p.take(m)) ==> v_dir(
                        old(self)@,
                        p.take(m),
                    )),
            decreases comps@.len() - k,
        {
            let c = comps[k].clone();
            let ghost cv = c@;
            let ghost pr0 = prefix@;
            proof {
                assert(cv == p[k as int]);
                assert(str_seq_view(pr0).len() == pr0.len());
            }
            prefix.push(c);
            proof {
                assert(prefix@ == pr0.push(c));
                assert forall|x: int| 0 <= x < k + 1 implies #[trigger] str_seq_view(prefix@)[x]
                    == p.take(k + 1)[x] by {
                    assert(str_seq_view(prefix@)[x] == prefix@[x]@);
                    if x < k {
                        assert(prefix@[x] == pr0[x]);
                        assert(str_seq_view(pr0)[x] == pr0[x]@);
                    } else {
                        assert(prefix@[x]@ == cv);
                    }
                }
                assert(str_seq_view(prefix@) =~= p.take(k + 1));
            }
            match self.find_entry(&prefix) {
                Some(i) => {
                    if !self.entries[i].is_dir {
                        proof {
                            if v_dir(self@, p.take(k + 1)) {
                                let j = choose|j: int|
                                    0 <= j < self@.len() && (#[trigger] self@[j]).0 == p.take(k + 1)
                                        && self@[j].1;
                                if j != i as int {
                                    lemma_distinct_entry(self@, i as int, j);
                                }
                            }
                            // the file sitting at this prefix was there from
                            // the start: everything appended is a directory
                            assert(i < old(self)@.len());
                            assert(old(self)@[i as int] == self@.subrange(
                                0,
                                old(self)@.len() as int,
                            )[i as int]);
                            assert(v_has(old(self)@, p.take(k + 1)));
                            if v_dir(old(self)@, p.take(k + 1)) {
                                let j = choose|j: int|
                                    0 <= j < old(self)@.len() && (#[trigger] old(
                                        self,
                                    )@[j]).0 == p.take(k + 1) && old(self)@[j].1;
                                assert(old(self)@[j] == self@.subrange(
                                    0,
                                    old(self)@.len() as int,
                                )[j]);
                                assert(self@[j].0 == self@[i as int].0 && self@[j].1);
                                if j != i as int {
                                    lemma_distinct_entry(self@, i as int, j);
                                }
                            }
                            assert(!(v_has(old(self)@, p.take(k + 1)) ==> v_dir(
                                old(self)@,
                                p.take(k + 1),
                            )));
                        }
                        return Err(FsError::NotADirectory);
                    }
                    proof {
                        assert(v_dir(self@, p.take(k + 1)));
                        // an existing directory prefix was a directory from
                        // the start too, when it existed at all
                        if v_has(old(self)@, p.take(k + 1)) {
                            let x = choose|x: int|
                                0 <= x < old(self)@.len() && (#[trigger] old(self)@[x]).0
                                    == p.take(k + 1);
                            assert(old(self)@[x] == self@.subrange(
                                0,
                                old(self)@.len() as int,
                            )[x]);
                            if x != i as int {
                                lemma_distinct_entry(self@, x, i as int);
                            }
                            assert(old(self)@[x].1);
                            assert(v_dir(old(self)@, p.take(k + 1)));
                        }
                    }
                },
                None => {
                    let np = clone_string_vec(&prefix);
                    let ghost v0 = self@;
                    proof {
                        // the prefix is absent now, so it was absent from the
                        // start as well
                        if v_has(old(self)@, p.take(k + 1)) {
                            let x = choose|x: int|
                                0 <= x < old(self)@.len() && (#[trigger] old(self)@[x]).0
                                    == p.take(k + 1);
                            assert(old(self)@[x] == self@.subrange(
                                0,
                                old(self)@.len() as int,
                            )[x]);
                            assert(v_has(self@, p.take(k + 1)));
                        }
                        assert(p.take(k + 1).drop_last() =~= p.take(k as int));
                        if k == 0 {
                            assert(p.take(k + 1).drop_last().len() == 0);
                        }
                        assert(v_dir(self@, p.take(k + 1).drop_last()));
                        assert forall|x: int|
                            0 <= x < str_seq_view(np@).len() implies clean_name(
                            #[trigger] str_seq_view(np@)[x],
                        ) by {
                            assert(str_seq_view(np@)[x] == p.take(k + 1)[x]);
                        }
                    }
                    proof {
                        assert(!v_has(old(self)@, p.take(k + 1)));
                    }
                    self.insert_entry(np, true);
                    proof {
                        assert(self@ == v0.push((p.take(k + 1), true)));
                        assert(v0.is_prefix_of(self@)) by {
                            assert(self@.take(v0.len() as int) =~= v0);
                        }
                        assert forall|m: int| 1 <= m <= k + 1 implies v_dir(self@, p.take(m)) by {
                            if m <= k {
                                lemma_v_dir_push(v0, (p.take(k + 1), true), p.take(m));
                            } else {
                                assert(self@[v0.len() as int] == (p.take(k + 1), true));
                            }
                        }
                        assert forall|j: int|
                            old(self)@.len() <= j < self@.len() implies (#[trigger] self@[j]).1
                            && self@[j].0.len() > 0 && comps_prefix(self@[j].0, p) by {
                            if j >= v0.len() {
                                assert(self@[j] == (p.take(k + 1), true));
                                assert(p.take(p.take(k + 1).len() as int) =~= p.take(k + 1));
                            }
                        }
                    }
                },
            }
            k = k + 1;
        }
        Ok(())
    }

    /// Rename the entry at `from`, together with everything under it, to
    /// `to`. Fails with `NotFound` when `from` (or the parent of `to`) does
    /// not exist, `AlreadyExists` when `to` exists, `NotADirectory` when the
    /// parent of `to` is a file, and `Invalid` when `from` is the root or a
    /// prefix of `to`.
    pub fn rename(&mut self, from: &str, to: &str) -> (r: Result<(), FsError>)
        requires
            old(self).wf(),
        ensures
            final(self).wf(),
            ({
                let f = components_of(from@);
                let t = components_of(to@);
                match r {
                    Ok(()) => {
                        &&& f.len() > 0 && t.len() > 0
                        &&& v_has(old(self)@, f)
                        &&& !v_has(old(self)@, t)
                        &&& !comps_prefix(f, t)
                        &&& v_dir(old(self)@, t.drop_last())
                        &&& final(self)@ == v_rename(old(self)@, f, t)
                    },
                    Err(e) => {
                        &&& final(self)@ == old(self)@
                        &&& if f.len() == 0 {
                            e == FsError::Invalid
                        } else if !v_has(old(self)@, f) {
                            e == FsError::NotFound
                        } else if t.len() == 0 || v_has(old(self)@, t) {
                            e == FsError::AlreadyExists
                        } else if comps_prefix(f, t) {
                            e == FsError::Invalid
                        } else if !v_has(old(self)@, t.drop_last()) && t.len() > 1 {
                            e == FsError::NotFound && !v_dir(old(self)@, t.drop_last())
                        } else {
                            e == FsError::NotADirectory && !v_dir(old(self)@, t.drop_last())
                        }
                    },
                }
            }),
    {
        let fcomps = split_path(from);
        let tcomps = split_path(to);
        let ghost f = components_of(from@);
        let ghost t = components_of(to@);
        proof {
            assert(str_seq_view(fcomps@) == f);
            assert(str_seq_view(tcomps@) == t);
            crate::paths::lemma_components_clean(to@);
        }
        if fcomps.len() == 0 {
            return Err(FsError::Invalid);
        }
        if self.find_entry(&fcomps).is_none() {
            return Err(FsError::NotFound);
        }
        if tcomps.len() == 0 {
            return Err(FsError::AlreadyExists);
        }
        if self.find_entry(&tcomps).is_some() {
            return Err(FsError::AlreadyExists);
        }
        if comps_has_prefix(&tcomps, &fcomps) {
            return Err(FsError::Invalid);
        }
        if tcomps.len() > 1 {
            match self.find_parent(&tcomps) {
                None => {
                    return Err(FsError::NotFound);
                },
                Some(i) => {
                    if !self.entries[i].is_dir {
                        proof {
                            if v_dir(self@, t.drop_last()) {
                                let j = choose|j: int|
                                    0 <= j < self@.len() && (#[trigger] self@[j]).0
                                        == t.drop_last() && self@[j].1;
                                if j != i as int {
                                    lemma_distinct_entry(self@, i as int, j);
                                }
                            }
                        }
                        return Err(FsError::NotADirectory);
                    }
                },
            }
        } else {
            proof {
                assert(t.drop_last() =~= Seq::<Seq<char>>::empty());
            }
        }
        let ghost v0 = self@;
        let mut i: usize = 0;
        while i < self.entries.len()
            invariant
                self@.len() == v0.len(),
                self@.len() == self.entries@.len(),
                i <= self@.len(),
                str_seq_view(fcomps@) == f,
                str_seq_view(tcomps@) == t,
                forall|j: int|
                    0 <= j < i ==> #[trigger] self@[j] == (rename_comps(v0[j].0, f, t), v0[j].1),
                forall|j: int| i <= j < self@.len() ==> #[trigger] self@[j] == v0[j],
                forall|j: int|
                    0 <= j < self.entries@.len() ==> (#[trigger] self@[j]).0 == str_seq_view(
                        self.entries@[j].path@,
                    ) && self@[j].1 == self.entries@[j].is_dir,
            decreases self@.len() - i,
        {
            if comps_has_prefix(&self.entries[i].path, &fcomps) {
                let ghost vmid = self@;
                let ghost emid = self.entries@;
                let e = self.entries.remove(i);
                let mut np = clone_string_vec(&tcomps);
                let mut k: usize = fcomps.len();
                while k < e.path.len()
                    invariant
                        fcomps@.len() <= k <= e.path@.len(),
                        str_seq_view(tcomps@) == t,
                        comps_prefix(f, str_seq_view(e.path@)),
                        f == str_seq_view(fcomps@),
                        f.len() == fcomps@.len(),
                        str_seq_view(np@) =~= t + str_seq_view(e.path@).subrange(
                            f.len() as int,
                            k as int,
                        ),
                    decreases e.path@.len() - k,
                {
                    let c = e.path[k].clone();
                    let ghost cv = c@;
                    let ghost np0 = np@;
                    proof {
                        assert(cv == str_seq_view(e.path@)[k as int]);
                        assert(str_seq_view(np0).len() == np0.len());
                    }
                    np.push(c);
                    proof {
                        assert(np@ == np0.push(c));
                        assert forall|x: int|
                            0 <= x < str_seq_view(np@).len() implies #[trigger] str_seq_view(
                            np@,
                        )[x] == (t + str_seq_view(e.path@).subrange(f.len() as int, k + 1))[x] by {
                            assert(str_seq_view(np@)[x] == np@[x]@);
                            if x < np0.len() {
                                assert(np@[x] == np0[x]);
                                assert(str_seq_view(np0)[x] == np0[x]@);
                            } else {
                                assert(np@[x]@ == cv);
                            }
                        }
                        assert(str_seq_view(np@) =~= t + str_seq_view(e.path@).subrange(
                            f.len() as int,
                            k + 1,
                        ));
                    }
                    k = k + 1;
                }
                proof {
                    assert(str_seq_view(e.path@).subrange(
                        f.len() as int,
                        str_seq_view(e.path@).len() as int,
                    ) =~= str_seq_view(e.path@).skip(f.len() as int));
                    assert(str_seq_view(np@) == rename_comps(str_seq_view(e.path@), f, t));
                }
                let ghost newent = FsEntry { path: np, is_dir: e.is_dir }@;
                self.entries.insert(i, FsEntry { path: np, is_dir: e.is_dir });
                proof {
                    assert(self.entries@ =~= emid.update(i as int, self.entries@[i as int]));
                    assert forall|j: int| 0 <= j < self@.len() implies #[trigger] self@[j] == (
                    if j == i {
                        (rename_comps(vmid[j].0, f, t), vmid[j].1)
                    } else {
                        vmid[j]
                    }) by {
                        assert(self@[j] == self.entries@[j]@);
                        if j != i {
                            assert(self.entries@[j] == emid[j]);
                            assert(vmid[j] == emid[j]@);
                        }
                    }
                }
            } else {
                proof {
                    assert(rename_comps(self@[i as int].0, f, t) == self@[i as int].0);
                }
            }
            i = i + 1;
        }
        proof {
            lemma_rename_wf(v0, f, t);
            assert forall|j: int| 0 <= j < self@.len() implies #[trigger] self@[j] == v_rename(
                v0,
                f,
                t,
            )[j] by {
                assert(v_rename(v0, f, t)[j] == (rename_comps(v0[j].0, f, t), v0[j].1));
            }
            assert(self@ =~= v_rename(v0, f, t));
        }
        Ok(())
    }
}

/// Clone a vector of strings.
fn clone_string_vec(v: &Vec<String>) -> (r: Vec<String>)
    ensures
        str_seq_view(r@) == str_seq_view(v@),
{
    let mut r: Vec<String> = Vec::new();
    let mut i: usize = 0;
    while i < v.len()
        invariant
            i <= v@.len(),
            str_seq_view(r@) =~= str_seq_view(v@).take(i as int),
        decreases v@.len() - i,
    {
        let c = v[i].clone();
        let ghost cv = c@;
        let ghost r0 = r@;
        proof {
            assert(cv == v@[i as int]@);
            assert(str_seq_view(r0).len() == r0.len());
        }
        r.push(c);
        proof {
            assert(r@ == r0.push(c));
            assert forall|k: int| 0 <= k < i + 1 implies #[trigger] str_seq_view(r@)[k]
                == str_seq_view(v@).take(i + 1)[k] by {
                assert(str_seq_view(r@)[k] == r@[k]@);
                if k < i {
                    assert(r@[k] == r0[k]);
                    assert(str_seq_view(r0)[k] == r0[k]@);
                } else {
                    assert(r@[k]@ == cv);
                }
            }
            assert(str_seq_view(r@) =~= str_seq_view(v@).take(i + 1));
        }
        i = i + 1;
    }
    proof {
        assert(str_seq_view(v@).take(v@.len() as int) =~= str_seq_view(v@));
    }
    r
}

} // verus!
