//! Path strings with `/` separators: splitting a path into its components,
//! taking the final component and the parent, and joining paths.

use vstd::prelude::*;
use vstd::string::StrSliceExecFns;
use vstd::string::StringExecFns;

verus! {

/// The index of the last `/` in `s`, or `-1` when `s` has none.
pub open spec fn last_sep_idx(s: Seq<char>) -> int
    decreases s.len(),
{
    if s.len() == 0 {
        -1
    } else if s[s.len() - 1] == '/' {
        s.len() - 1
    } else {
        last_sep_idx(s.drop_last())
    }
}

/// Basic bounds of `last_sep_idx`: it is at least `-1` and below the length,
/// it points at a separator when non-negative, and nothing after it is one.
pub proof fn lemma_last_sep_bounds(s: Seq<char>)
    ensures
        -1 <= last_sep_idx(s) < s.len(),
        last_sep_idx(s) >= 0 ==> s[last_sep_idx(s)] == '/',
        forall|k: int| last_sep_idx(s) < k < s.len() ==> s[k] != '/',
    decreases s.len(),
{
    if s.len() > 0 && s[s.len() - 1] != '/' {
        lemma_last_sep_bounds(s.drop_last());
        assert forall|k: int| last_sep_idx(s) < k < s.len() implies s[k] != '/' by {
            if k < s.len() - 1 {
                assert(s.drop_last()[k] == s[k]);
            }
        }
    }
}

/// A string with no separator has `last_sep_idx` equal to `-1`.
pub proof fn lemma_last_sep_none(s: Seq<char>)
    requires
        forall|k: int| 0 <= k < s.len() ==> s[k] != '/',
    ensures
        last_sep_idx(s) == -1,
    decreases s.len(),
{
    if s.len() > 0 {
        lemma_last_sep_none(s.drop_last());
    }
}

/// A separator at `i` with none after it pins `last_sep_idx` to `i`.
pub proof fn lemma_last_sep_at(s: Seq<char>, i: int)
    requires
        0 <= i < s.len(),
        s[i] == '/',
        forall|k: int| i < k < s.len() ==> s[k] != '/',
    ensures
        last_sep_idx(s) == i,
    decreases s.len(),
{
    if i < s.len() - 1 {
        lemma_last_sep_at(s.drop_last(), i);
    }
}

/// A path component that names an entry: non-empty and not `.`.
pub open spec fn keep_component(c: Seq<char>) -> bool {
    c.len() > 0 && c != seq!['.']
}

/// A clean component name: non-empty, not `.`, and free of separators.
pub open spec fn clean_name(c: Seq<char>) -> bool {
    c.len() > 0 && c != seq!['.'] && forall|x: int| 0 <= x < c.len() ==> c[x] != '/'
}

/// The components of a path string: the `/`-separated pieces, with empty
/// pieces and `.` pieces dropped.
pub open spec fn components_of(s: Seq<char>) -> Seq<Seq<char>>
    decreases s.len(),
    via components_of_decreases
{
    if last_sep_idx(s) >= 0 {
        let c = s.skip(last_sep_idx(s) + 1);
        if keep_component(c) {
            components_of(s.take(last_sep_idx(s))).push(c)
        } else {
            components_of(s.take(last_sep_idx(s)))
        }
    } else {
        if keep_component(s) {
            seq![s]
        } else {
            Seq::empty()
        }
    }
}

#[via_fn]
proof fn components_of_decreases(s: Seq<char>) {
    lemma_last_sep_bounds(s);
}

/// Every component of a path is a clean name: non-empty, not `.`, and free
/// of separators.
pub proof fn lemma_components_clean(s: Seq<char>)
    ensures
        forall|k: int| 0 <= k < components_of(s).len() ==> clean_name(#[trigger] components_of(s)[k]),
    decreases s.len(),
{
    lemma_last_sep_bounds(s);
    let i = last_sep_idx(s);
    if i >= 0 {
        lemma_components_clean(s.take(i));
        let rest = components_of(s.take(i));
        let c = s.skip(i + 1);
        assert forall|x: int| 0 <= x < c.len() implies c[x] != '/' by {
            assert(c[x] == s[i + 1 + x]);
        }
        assert forall|k: int|
            0 <= k < components_of(s).len() implies clean_name(#[trigger] components_of(s)[k]) by {
            if k < rest.len() {
                assert(components_of(s)[k] == rest[k]);
            }
        }
    }
}

/// The views of a sequence of owned strings.
pub open spec fn str_seq_view(v: Seq<String>) -> Seq<Seq<char>> {
    v.map_values(|s: String| s@)
}

/// Whether a component names an entry: non-empty and not `.`.
fn keep_comp(c: &str) -> (r: bool)
    ensures
        r == keep_component(c@),
{
    let n = c.unicode_len();
    let r = n > 0 && !(n == 1 && c.get_char(0) == '.');
    proof {
        if n == 1 && c@[0] == '.' {
            assert(c@ =~= seq!['.']);
        }
        if n > 0 && c@ == seq!['.'] {
            assert(c@[0] == '.');
        }
    }
    r
}

/// Split a path string into its components.
pub fn split_path(s: &str) -> (v: Vec<String>)
    ensures
        str_seq_view(v@) == components_of(s@),
    decreases s@.len(),
{
    proof {
        lemma_last_sep_bounds(s@);
    }
    let n = s.unicode_len();
    let mut i = n;
    let mut sep = n;  // `n` stands for "no separator found yet"
    while i > 0 && sep == n
        invariant
            i <= n,
            sep <= n,
            n == s@.len(),
            sep == n ==> forall|k: int| i <= k < n ==> s@[k] != '/',
            sep < n ==> s@[sep as int] == '/',
            sep < n ==> forall|k: int| sep < k < n ==> s@[k] != '/',
        decreases (if sep == n { 1int } else { 0int }), i,
    {
        let c = s.get_char(i - 1);
        if c == '/' {
            sep = i - 1;
        } else {
            i = i - 1;
        }
    }
    if sep < n {
        proof {
            lemma_last_sep_at(s@, sep as int);
        }
        let mut v = split_path(s.substring_char(0, sep));
        let c = s.substring_char(sep + 1, n);
        if keep_comp(c) {
            v.push(c.to_owned());
        }
        proof {
            assert(str_seq_view(v@) =~= components_of(s@));
        }
        v
    } else {
        proof {
            lemma_last_sep_none(s@);
        }
        let mut v: Vec<String> = Vec::new();
        if keep_comp(s) {
            v.push(s.to_owned());
        }
        proof {
            assert(str_seq_view(v@) =~= components_of(s@));
        }
        v
    }
}

/// Trailing separators removed.
pub open spec fn trim_sep_back(s: Seq<char>) -> Seq<char>
    decreases s.len(),
{
    if s.len() > 0 && s.last() == '/' {
        trim_sep_back(s.drop_last())
    } else {
        s
    }
}

/// `trim_sep_back` keeps exactly the prefix before the trailing separators.
pub proof fn lemma_trim_sep_back_idx(s: Seq<char>, e: int)
    requires
        0 <= e <= s.len(),
        forall|k: int| e <= k < s.len() ==> s[k] == '/',
        e > 0 ==> s[e - 1] != '/',
    ensures
        trim_sep_back(s) == s.take(e),
    decreases s.len(),
{
    if s.len() > e {
        assert(forall|k: int| e <= k < s.drop_last().len() ==> s.drop_last()[k] == '/');
        if e > 0 {
            assert(s.drop_last()[e - 1] == s[e - 1]);
        }
        lemma_trim_sep_back_idx(s.drop_last(), e);
        assert(s.drop_last().take(e) =~= s.take(e));
    } else {
        assert(s.take(e) =~= s);
    }
}

/// The final component of a path, with trailing separators ignored; `None`
/// when the path ends in `.` or `..` or has no component at all.
pub open spec fn file_name_view(s: Seq<char>) -> Option<Seq<char>> {
    let t = trim_sep_back(s);
    let c = t.skip(last_sep_idx(t) + 1);
    if c.len() == 0 || c == seq!['.'] || c == seq!['.', '.'] {
        None
    } else {
        Some(c)
    }
}

/// The path without its final component: the prefix before the final
/// component with its separators trimmed, `/` when only the leading separator
/// is left, and the empty string when there is nothing before the component.
pub open spec fn parent_view(s: Seq<char>) -> Seq<char> {
    let t = trim_sep_back(s);
    if last_sep_idx(t) < 0 {
        Seq::empty()
    } else {
        let p = trim_sep_back(t.take(last_sep_idx(t)));
        if p.len() == 0 {
            seq!['/']
        } else {
            p
        }
    }
}

/// Scan back from `hi`, returning the least index `e` such that everything in
/// `s[e..hi]` is a separator.
fn scan_sep_run_back(s: &str, hi: usize) -> (e: usize)
    requires
        hi <= s@.len(),
    ensures
        e <= hi,
        forall|k: int| e <= k < hi ==> s@[k] == '/',
        e > 0 ==> s@[e - 1] != '/',
{
    let mut e = hi;
    while e > 0 && s.get_char(e - 1) == '/'
        invariant
            e <= hi <= s@.len(),
            forall|k: int| e <= k < hi ==> s@[k] == '/',
        decreases e,
    {
        e = e - 1;
    }
    e
}

/// Scan back from `hi`, returning the least index `b` such that nothing in
/// `s[b..hi]` is a separator.
fn scan_comp_back(s: &str, hi: usize) -> (b: usize)
    requires
        hi <= s@.len(),
    ensures
        b <= hi,
        forall|k: int| b <= k < hi ==> s@[k] != '/',
        b > 0 ==> s@[b - 1] == '/',
{
    let mut b = hi;
    while b > 0 && s.get_char(b - 1) != '/'
        invariant
            b <= hi <= s@.len(),
            forall|k: int| b <= k < hi ==> s@[k] != '/',
        decreases b,
    {
        b = b - 1;
    }
    b
}

/// The final component of a path, or `None` when the path has none (it is
/// empty, a bare root, or ends in `.` or `..`).
pub fn file_name_of(path: &str) -> (r: Option<String>)
    ensures
        crate::filename_parts::opt_str_view(r) == file_name_view(path@),
        r is Some ==> r.unwrap()@.len() > 0,
{
    let n = path.unicode_len();
    let e = scan_sep_run_back(path, n);
    let b = scan_comp_back(path, e);
    proof {
        lemma_trim_sep_back_idx(path@, e as int);
        let t = path@.take(e as int);
        if b > 0 {
            lemma_last_sep_at(t, b - 1);
        } else {
            lemma_last_sep_none(t);
        }
        assert(t.skip(last_sep_idx(t) + 1) =~= path@.subrange(b as int, e as int));
    }
    let c = path.substring_char(b, e);
    let cl = e - b;
    let none_like = cl == 0 || (cl == 1 && c.get_char(0) == '.') || (cl == 2 && c.get_char(0)
        == '.' && c.get_char(1) == '.');
    proof {
        if cl == 1 && c@[0] == '.' {
            assert(c@ =~= seq!['.']);
        }
        if cl == 2 && c@[0] == '.' && c@[1] == '.' {
            assert(c@ =~= seq!['.', '.']);
        }
        if cl > 0 && c@ == seq!['.'] {
            assert(c@[0] == '.');
        }
        if cl > 0 && c@ == seq!['.', '.'] {
            assert(c@[0] == '.' && c@[1] == '.');
        }
    }
    if none_like {
        None
    } else {
        Some(c.to_owned())
    }
}

/// The path without its final component.
pub fn parent_of(path: &str) -> (r: String)
    ensures
        r@ == parent_view(path@),
{
    let n = path.unicode_len();
    let e = scan_sep_run_back(path, n);
    let b = scan_comp_back(path, e);
    proof {
        lemma_trim_sep_back_idx(path@, e as int);
        let t = path@.take(e as int);
        if b > 0 {
            lemma_last_sep_at(t, b - 1);
        } else {
            lemma_last_sep_none(t);
        }
    }
    if b == 0 {
        proof {
            reveal_strlit("");
            assert(("")@ =~= Seq::<char>::empty());
        }
        return String::from_str("");
    }
    // `b - 1` is the separator before the component; trim the run before it
    let p = scan_sep_run_back(path, b - 1);
    proof {
        let t = path@.take(e as int);
        assert(forall|k: int| p <= k < b - 1 ==> #[trigger] t.take(b - 1)[k] == '/');
        if p > 0 {
            assert(t.take(b - 1)[p - 1] == path@[p - 1]);
        }
        lemma_trim_sep_back_idx(t.take(b - 1), p as int);
        assert(t.take(b - 1).take(p as int) =~= path@.take(p as int));
    }
    if p == 0 {
        proof {
            reveal_strlit("/");
            assert(("/")@ =~= seq!['/']);
        }
        String::from_str("/")
    } else {
        path.substring_char(0, p).to_owned()
    }
}

/// `a` joined with `b`: `b` itself when `b` is absolute, otherwise `a` and
/// `b` with a single separator between them, as the system path join does.
pub open spec fn join_view(a: Seq<char>, b: Seq<char>) -> Seq<char> {
    if b.len() > 0 && b[0] == '/' {
        b
    } else if a.len() == 0 {
        b
    } else if a.last() == '/' {
        a + b
    } else {
        a + seq!['/'] + b
    }
}

/// Join two path strings.
pub fn join_path(a: &str, b: &str) -> (r: String)
    ensures
        r@ == join_view(a@, b@),
{
    proof {
        reveal_strlit("/");
        assert(("/")@ =~= seq!['/']);
    }
    if b.unicode_len() > 0 && b.get_char(0) == '/' {
        return b.to_owned();
    }
    let al = a.unicode_len();
    if al == 0 {
        return b.to_owned();
    }
    let mut r = a.to_owned();
    if a.get_char(al - 1) != '/' {
        r.append("/");
    }
    r.append(b);
    proof {
        assert(r@ =~= join_view(a@, b@));
    }
    r
}

/// The path with its final component replaced by `name`.
pub fn with_file_name(path: &str, name: &str) -> (r: String)
    ensures
        r@ == join_view(parent_view(path@), name@),
{
    let p = parent_of(path);
    join_path(p.as_str(), name)
}

/// The components of a concatenation split at the separator boundary: `a` is
/// empty or ends in a separator, and `b` does not start with one.
proof fn lemma_components_concat(a: Seq<char>, b: Seq<char>)
    requires
        a.len() > 0 ==> a.last() == '/',
        b.len() > 0 ==> b[0] != '/',
    ensures
        components_of(a + b) == components_of(a) + components_of(b),
    decreases b.len(),
{
    lemma_last_sep_bounds(b);
    let s = a + b;
    let alen = a.len() as int;
    if a.len() == 0 {
        assert(s =~= b);
        assert(components_of(a) =~= Seq::<Seq<char>>::empty());
        assert(components_of(a) + components_of(b) =~= components_of(b));
    } else {
        let j = last_sep_idx(b);
        if j >= 0 {
            assert(s[alen + j] == b[j]);
            assert(forall|k: int| alen + j < k < s.len() ==> s[k] == b[k - alen] && s[k] != '/');
            lemma_last_sep_at(s, alen + j);
            assert(s.take(alen + j) =~= a + b.take(j));
            assert(s.skip(alen + j + 1) =~= b.skip(j + 1));
            assert(b[0] != '/' && b[j] == '/');
            assert(j >= 1);
            assert(b.take(j)[0] == b[0]);
            lemma_components_concat(a, b.take(j));
            let c = b.skip(j + 1);
            if keep_component(c) {
                assert(components_of(s) =~= components_of(a) + components_of(b));
            } else {
                assert(components_of(s) =~= components_of(a) + components_of(b));
            }
        } else {
            assert(s[alen - 1] == a.last());
            assert(forall|k: int| alen - 1 < k < s.len() ==> s[k] == b[k - alen] && s[k] != '/');
            lemma_last_sep_at(s, alen - 1);
            assert(s.take(alen - 1) =~= a.take(alen - 1));
            assert(s.skip(alen) =~= b);
            // a itself ends in the same separator, so its components agree
            assert(last_sep_idx(a) == alen - 1);
            assert(!keep_component(a.skip(alen)));
            assert(a.skip(alen) =~= Seq::<char>::empty());
            if keep_component(b) {
                assert(components_of(s) =~= components_of(a) + components_of(b));
            } else {
                assert(components_of(b) =~= Seq::<Seq<char>>::empty());
                assert(components_of(s) =~= components_of(a) + components_of(b));
            }
        }
    }
}

/// The components of a join are the components of the two sides, provided the
/// right side is not absolute.
pub proof fn lemma_components_join(a: Seq<char>, b: Seq<char>)
    requires
        b.len() > 0 ==> b[0] != '/',
    ensures
        components_of(join_view(a, b)) == components_of(a) + components_of(b),
{
    if a.len() == 0 {
        assert(components_of(a) =~= Seq::<Seq<char>>::empty());
        assert(components_of(a) + components_of(b) =~= components_of(b));
    } else if a.last() == '/' {
        lemma_components_concat(a, b);
    } else {
        let a2 = a + seq!['/'];
        lemma_last_sep_bounds(a2);
        assert(a2[a.len() as int] == '/');
        lemma_last_sep_at(a2, a.len() as int);
        assert(a2.take(a.len() as int) =~= a);
        assert(a2.skip(a.len() as int + 1) =~= Seq::<char>::empty());
        assert(!keep_component(a2.skip(a.len() as int + 1)));
        assert(components_of(a2) == components_of(a));
        assert(a2.last() == '/');
        lemma_components_concat(a2, b);
        assert(a2 + b =~= a + seq!['/'] + b);
        assert(join_view(a, b) == a2 + b);
    }
}

/// A separator-free name that keeps is its own single component.
pub proof fn lemma_components_single(nm: Seq<char>)
    requires
        keep_component(nm),
        forall|k: int| 0 <= k < nm.len() ==> nm[k] != '/',
    ensures
        components_of(nm) == seq![nm],
{
    lemma_last_sep_none(nm);
}

/// Substituting a separator-free name under a parent path and joining onto
/// the working directory appends exactly one component.
pub proof fn lemma_resolve_comps(cwd: Seq<char>, par: Seq<char>, nm: Seq<char>)
    requires
        keep_component(nm),
        forall|k: int| 0 <= k < nm.len() ==> nm[k] != '/',
    ensures
        components_of(join_view(cwd, join_view(par, nm))) == components_of(
            join_view(cwd, par),
        ).push(nm),
{
    lemma_components_single(nm);
    lemma_components_join(par, nm);
    let x = join_view(par, nm);
    assert(x.len() > 0);
    if par.len() > 0 && par[0] == '/' {
        assert(x[0] == '/');
        assert(components_of(join_view(cwd, x)) == components_of(x));
        assert(components_of(join_view(cwd, par)) == components_of(par));
        assert(components_of(par) + seq![nm] =~= components_of(par).push(nm));
    } else {
        assert(x[0] != '/') by {
            if par.len() == 0 {
                assert(x == nm);
            } else if par.last() == '/' {
                assert(x[0] == par[0]);
            } else {
                assert(x[0] == par[0]);
            }
        }
        lemma_components_join(cwd, x);
        lemma_components_join(cwd, par);
        assert(components_of(cwd) + (components_of(par) + seq![nm]) =~= (components_of(cwd)
            + components_of(par)).push(nm));
    }
}

} // verus!
