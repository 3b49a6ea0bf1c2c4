//! Collision resolution: given a candidate target path, find the next free
//! name by bumping the filename's zero-padded counter until no entry with
//! that name exists.

use vstd::prelude::*;
use crate::filename_parts::FilenameParts;
use crate::filename_parts::ext_view;
use crate::filename_parts::is_digit_char;
use crate::filename_parts::last_dot_idx;
use crate::filename_parts::lemma_last_dot_bounds;
use crate::filename_parts::lemma_merge_decompose;
use crate::filename_parts::lemma_padded_num_value;
use crate::filename_parts::lemma_round_trip;
use crate::filename_parts::dec_digits;
use crate::filename_parts::merged_view;
use crate::filename_parts::num_view;
use crate::filename_parts::padded_num;
use crate::filename_parts::region_has_num;
use crate::filename_parts::stem_num_region;
use crate::filename_parts::stem_view;
use crate::mem_fs::MemFs;
use crate::mem_fs::v_exists;
use crate::mem_fs::v_has;
use crate::paths::components_of;
use crate::paths::file_name_view;
use crate::paths::file_name_of;
use crate::paths::join_path;
use crate::paths::join_view;
use crate::paths::keep_component;
use crate::paths::lemma_resolve_comps;
use crate::paths::parent_of;
use crate::paths::parent_view;
use crate::paths::lemma_last_sep_bounds;
use crate::paths::last_sep_idx;
use crate::paths::trim_sep_back;

verus! {

/// The counter value after one bump: one more than the present counter, or
/// zero when there is none.
pub open spec fn bumped_num(s: Seq<char>) -> usize {
    match num_view(s) {
        Some(k) => (k + 1) as usize,
        None => 0usize,
    }
}

/// The filename after one counter bump.
pub open spec fn inc_view(s: Seq<char>) -> Seq<char> {
    merged_view(stem_view(s), Some(bumped_num(s)), ext_view(s))
}

/// The filename after `k` counter bumps.
pub open spec fn inc_iter(s: Seq<char>, k: nat) -> Seq<char>
    decreases k,
{
    if k == 0 {
        s
    } else {
        inc_view(inc_iter(s, (k - 1) as nat))
    }
}

/// A detected counter is at most `999`: it has exactly three digits.
pub proof fn lemma_num_view_bound(s: Seq<char>)
    ensures
        num_view(s) matches Some(k) ==> k <= 999,
{
}

/// Rank of a filename's counter: one more than its value, or zero without
/// one, so that a bump always increases the rank at equal length.
pub open spec fn counter_rank(s: Seq<char>) -> nat {
    match num_view(s) {
        Some(k) => k as nat + 1,
        None => 0,
    }
}

/// The strict order along a resolution chain: names grow in length, or keep
/// their length and grow in counter rank.
pub open spec fn measure_lt(a: Seq<char>, b: Seq<char>) -> bool {
    a.len() < b.len() || (a.len() == b.len() && counter_rank(a) < counter_rank(b))
}

/// Split, modify, and re-merge a filename to increment the collision-resolving
/// number, or start it at zero when it is absent.
pub fn inc_filename_num(filename: &str) -> (r: String)
    requires
        filename@.len() > 0,
    ensures
        r@ == inc_view(filename@),
{
    let parts = FilenameParts::from_filename(filename);
    proof {
        lemma_num_view_bound(filename@);
    }
    let num = match parts.num {
        Some(val) => Some(val + 1),
        None => Some(0usize),
    };
    let out = FilenameParts { stem: parts.stem, num, ext: parts.ext };
    out.merge()
}

/// Every character of the unpadded digit string is a decimal digit.
proof fn lemma_dec_digits_are_digits(n: nat)
    ensures
        forall|k: int| 0 <= k < dec_digits(n).len() ==> is_digit_char(#[trigger] dec_digits(n)[k]),
        dec_digits(n).len() > 0,
        n >= 10 ==> dec_digits(n).len() >= 2,
        n >= 100 ==> dec_digits(n).len() >= 3,
    decreases n,
{
    crate::filename_parts::lemma_char_of_digit(n % 10);
    if n >= 10 {
        lemma_dec_digits_are_digits(n / 10);
    } else {
        crate::filename_parts::lemma_char_of_digit(n);
    }
}

/// The padded counter never holds a separator or a dot.
proof fn lemma_padded_no_sep(n: nat)
    ensures
        forall|k: int|
            0 <= k < padded_num(n).len() ==> (#[trigger] padded_num(n)[k]) != '/' && padded_num(
                n,
            )[k] != '.',
        padded_num(n).len() >= 3,
{
    lemma_dec_digits_are_digits(n);
}

/// One bump makes a filename strictly larger in the chain order, keeps it
/// non-empty and at least four characters, and keeps it free of separators.
pub proof fn lemma_inc_measure(s: Seq<char>)
    requires
        s.len() > 0,
    ensures
        measure_lt(s, inc_view(s)),
        inc_view(s).len() >= 4,
        (forall|k: int| 0 <= k < s.len() ==> s[k] != '/') ==> forall|k: int|
            0 <= k < inc_view(s).len() ==> (#[trigger] inc_view(s)[k]) != '/',
{
    lemma_round_trip(s);
    lemma_last_dot_bounds(s);
    lemma_num_view_bound(s);
    let stem = stem_view(s);
    let num = num_view(s);
    let ext = ext_view(s);
    let b = bumped_num(s);
    lemma_padded_num_value(0);
    lemma_padded_no_sep(b as nat);
    match num {
        Some(k) => {
            lemma_padded_num_value(k as nat);
            if k < 999 {
                lemma_padded_num_value((k + 1) as nat);
                proof_ext_conditions(s);
                lemma_merge_decompose(stem, (k + 1) as usize, ext);
            } else {
                assert(dec_digits(1000).len() == 4) by {
                    reveal_with_fuel(dec_digits, 5);
                    assert(1000nat / 10 == 100 && 100nat / 10 == 10 && 10nat / 10 == 1);
                }
                assert(padded_num(1000).len() == 4);
            }
        },
        None => {
            assert(inc_view(s).len() == s.len() + 4);
        },
    }
    assert(inc_view(s).len() >= 4);
    if forall|k: int| 0 <= k < s.len() ==> s[k] != '/' {
        assert forall|k: int| 0 <= k < inc_view(s).len() implies (#[trigger] inc_view(s)[k])
            != '/' by {
            let m = inc_view(s);
            let t = stem;
            if k < t.len() {
                lemma_stem_chars(s, k);
            } else if k == t.len() {
            } else if k < t.len() + 1 + padded_num(b as nat).len() {
                assert(m[k] == padded_num(b as nat)[k - t.len() - 1]);
            } else {
                match ext {
                    Some(e) => {
                        if k > t.len() + 1 + padded_num(b as nat).len() {
                            let x = k - (t.len() + 2 + padded_num(b as nat).len());
                            assert(m[k] == e[x]);
                            assert(e[x] == s[last_dot_idx(s) + 1 + x]);
                        }
                    },
                    None => {},
                }
            }
        }
    }
}

/// Every stem character comes from the original filename.
proof fn lemma_stem_chars(s: Seq<char>, k: int)
    requires
        0 <= k < stem_view(s).len(),
    ensures
        exists|j: int| 0 <= j < s.len() && s[j] == stem_view(s)[k],
{
    lemma_last_dot_bounds(s);
    let t = stem_num_region(s);
    if last_dot_idx(s) >= 0 {
        if region_has_num(t) {
            assert(s[k] == stem_view(s)[k]);
        } else {
            assert(s[k] == stem_view(s)[k]);
        }
    } else {
        assert(s[k] == stem_view(s)[k]);
    }
}

/// The dot-placement conditions under which a merged name decomposes back.
proof fn proof_ext_conditions(s: Seq<char>)
    requires
        s.len() > 0,
    ensures
        match ext_view(s) {
            Some(e) => forall|k: int| 0 <= k < e.len() ==> e[k] != '.',
            None => forall|k: int| 0 <= k < stem_view(s).len() ==> stem_view(s)[k] != '.',
        },
{
    lemma_last_dot_bounds(s);
    let i = last_dot_idx(s);
    if i >= 0 {
        let e = ext_view(s).unwrap();
        assert forall|k: int| 0 <= k < e.len() implies e[k] != '.' by {
            assert(e[k] == s[i + 1 + k]);
        }
    } else {
        let t = stem_view(s);
        assert forall|k: int| 0 <= k < t.len() implies t[k] != '.' by {
            assert(t[k] == s[k]);
        }
    }
}

/// While the counter stays within its three-digit width, a bump preserves the
/// stem and the extension exactly and increments the counter by one: within
/// one resolution chain the counter of a given stem and extension only grows.
pub proof fn lemma_inc_preserves_parts(s: Seq<char>)
    requires
        s.len() > 0,
        num_view(s) matches Some(k) && k < 999,
    ensures
        stem_view(inc_view(s)) == stem_view(s),
        ext_view(inc_view(s)) == ext_view(s),
        num_view(inc_view(s)) == Some((num_view(s).unwrap() + 1) as usize),
{
    lemma_round_trip(s);
    lemma_last_dot_bounds(s);
    lemma_num_view_bound(s);
    let k = num_view(s).unwrap();
    proof_ext_conditions(s);
    lemma_merge_decompose(stem_view(s), (k + 1) as usize, ext_view(s));
}

/// Chains of bumps are strictly increasing in the chain order.
pub proof fn lemma_inc_iter_increases(s: Seq<char>, a: nat, b: nat)
    requires
        s.len() > 0,
        a < b,
    ensures
        measure_lt(inc_iter(s, a), inc_iter(s, b)),
        inc_iter(s, b).len() > 0,
    decreases b,
{
    if b == a + 1 {
        lemma_inc_iter_nonempty(s, a);
        lemma_inc_measure(inc_iter(s, a));
    } else {
        lemma_inc_iter_increases(s, a, (b - 1) as nat);
        lemma_inc_measure(inc_iter(s, (b - 1) as nat));
    }
}

/// Every element of a bump chain is non-empty.
pub proof fn lemma_inc_iter_nonempty(s: Seq<char>, k: nat)
    requires
        s.len() > 0,
    ensures
        inc_iter(s, k).len() > 0,
    decreases k,
{
    if k > 0 {
        lemma_inc_iter_nonempty(s, (k - 1) as nat);
        lemma_inc_measure(inc_iter(s, (k - 1) as nat));
    }
}

/// Whether an entry is a child of `par` whose name is at least `b` in the
/// chain order.
pub open spec fn collider_ge(e: (Seq<Seq<char>>, bool), par: Seq<Seq<char>>, b: Seq<char>) -> bool {
    e.0.len() == par.len() + 1 && e.0.drop_last() == par && !measure_lt(e.0.last(), b)
}

/// How many entries are children of `par` with a name at least `b` in the
/// chain order. This is the termination measure of collision resolution.
pub open spec fn count_colliders(
    v: Seq<(Seq<Seq<char>>, bool)>,
    par: Seq<Seq<char>>,
    b: Seq<char>,
) -> nat
    decreases v.len(),
{
    if v.len() == 0 {
        0
    } else {
        count_colliders(v.drop_last(), par, b) + (if collider_ge(v.last(), par, b) {
            1nat
        } else {
            0nat
        })
    }
}

/// Raising the bound never raises the count.
proof fn lemma_count_colliders_mono(
    v: Seq<(Seq<Seq<char>>, bool)>,
    par: Seq<Seq<char>>,
    b: Seq<char>,
    b2: Seq<char>,
)
    requires
        measure_lt(b, b2),
    ensures
        count_colliders(v, par, b2) <= count_colliders(v, par, b),
    decreases v.len(),
{
    if v.len() > 0 {
        lemma_count_colliders_mono(v.drop_last(), par, b, b2);
    }
}

/// Raising the bound past an existing child strictly lowers the count.
proof fn lemma_count_colliders_strict(
    v: Seq<(Seq<Seq<char>>, bool)>,
    par: Seq<Seq<char>>,
    b: Seq<char>,
    b2: Seq<char>,
    x: int,
)
    requires
        measure_lt(b, b2),
        0 <= x < v.len(),
        v[x].0 == par.push(b),
    ensures
        count_colliders(v, par, b2) < count_colliders(v, par, b),
    decreases v.len(),
{
    assert(v[x].0.drop_last() =~= par);
    assert(v[x].0.last() == b);
    if x == v.len() - 1 {
        lemma_count_colliders_mono(v.drop_last(), par, b, b2);
        assert(collider_ge(v.last(), par, b));
        assert(!collider_ge(v.last(), par, b2));
    } else {
        assert(v.drop_last()[x] == v[x]);
        lemma_count_colliders_strict(v.drop_last(), par, b, b2, x);
    }
}

/// A name returned by `file_name_of` is a clean component: non-empty, free of
/// separators, and not `.` or `..`.
pub proof fn lemma_file_name_clean(s: Seq<char>)
    requires
        file_name_view(s) is Some,
    ensures
        keep_component(file_name_view(s).unwrap()),
        forall|k: int|
            0 <= k < file_name_view(s).unwrap().len() ==> (#[trigger] file_name_view(
                s,
            ).unwrap()[k]) != '/',
{
    let t = trim_sep_back(s);
    lemma_last_sep_bounds(t);
    let c = t.skip(last_sep_idx(t) + 1);
    assert forall|k: int| 0 <= k < c.len() implies (#[trigger] c[k]) != '/' by {
        assert(c[k] == t[last_sep_idx(t) + 1 + k]);
    }
}

/// A bumped filename chain element stays free of separators and keeps at
/// least four characters.
pub proof fn lemma_inc_iter_clean(s: Seq<char>, k: nat)
    requires
        s.len() > 0,
        forall|j: int| 0 <= j < s.len() ==> s[j] != '/',
        k >= 1,
    ensures
        inc_iter(s, k).len() >= 4,
        forall|j: int| 0 <= j < inc_iter(s, k).len() ==> #[trigger] inc_iter(s, k)[j] != '/',
    decreases k,
{
    if k == 1 {
        lemma_inc_measure(s);
        assert(inc_iter(s, 0) == s);
        assert(inc_iter(s, 1) == inc_view(inc_iter(s, 0)));
    } else {
        lemma_inc_iter_clean(s, (k - 1) as nat);
        lemma_inc_measure(inc_iter(s, (k - 1) as nat));
        assert(inc_iter(s, k) == inc_view(inc_iter(s, (k - 1) as nat)));
    }
}

/// Whether `k` bumps of the candidate's filename reach the first free name:
/// the `k`-th bumped name is free and every earlier bumped name is taken.
pub open spec fn resolve_k(
    v: Seq<(Seq<Seq<char>>, bool)>,
    cwd: Seq<char>,
    path: Seq<char>,
    k: nat,
) -> bool {
    let base = file_name_view(path).unwrap();
    let par = components_of(join_view(cwd, parent_view(path)));
    &&& k >= 1
    &&& !v_exists(
        v,
        components_of(join_view(cwd, join_view(parent_view(path), inc_iter(base, k)))),
    )
    &&& forall|j: nat| 1 <= j < k ==> v_has(v, par.push(#[trigger] inc_iter(base, j)))
}

/// What collision resolution returns: the candidate itself when it is free,
/// otherwise the candidate with its filename bumped to the first free
/// counter.
pub open spec fn resolve_spec(
    v: Seq<(Seq<Seq<char>>, bool)>,
    cwd: Seq<char>,
    path: Seq<char>,
) -> Seq<char> {
    if !v_exists(v, components_of(join_view(cwd, path))) {
        path
    } else {
        let base = file_name_view(path).unwrap();
        let k = choose|k: nat| resolve_k(v, cwd, path, k);
        join_view(parent_view(path), inc_iter(base, k))
    }
}

/// The first free counter is unique.
pub proof fn lemma_resolve_k_unique(
    v: Seq<(Seq<Seq<char>>, bool)>,
    cwd: Seq<char>,
    path: Seq<char>,
    k1: nat,
    k2: nat,
)
    requires
        file_name_view(path) is Some,
        resolve_k(v, cwd, path, k1),
        resolve_k(v, cwd, path, k2),
    ensures
        k1 == k2,
{
    let base = file_name_view(path).unwrap();
    lemma_file_name_clean(path);
    if k1 != k2 {
        let (a, b) = if k1 < k2 {
            (k1, k2)
        } else {
            (k2, k1)
        };
        lemma_inc_iter_clean(base, a);
        assert(keep_component(inc_iter(base, a))) by {
            assert(inc_iter(base, a).len() >= 4);
        }
        lemma_resolve_comps(cwd, parent_view(path), inc_iter(base, a));
        assert(v_has(
            v,
            components_of(join_view(cwd, parent_view(path))).push(inc_iter(base, a)),
        ));
    }
}

/// Check whether the target path can be taken without clobbering an existing
/// entry; when it cannot, bump the filename's counter until a free name is
/// found. The result either is the candidate itself (when it did not exist)
/// or carries the filename reached from the candidate's filename by the least
/// number of counter bumps that frees it: every earlier name in the chain
/// exists, so counters only ever grow along one resolution and never reuse a
/// gap.
pub fn resolve_collision(fs: &MemFs, cwd: &str, path: &str) -> (r: String)
    requires
        v_exists(fs@, components_of(join_view(cwd@, path@))) ==> file_name_view(path@) is Some,
    ensures
        !v_exists(fs@, components_of(join_view(cwd@, r@))),
        r@ == resolve_spec(fs@, cwd@, path@),
        ({
            ||| (r@ == path@ && !v_exists(fs@, components_of(join_view(cwd@, path@))))
            ||| {
                &&& v_exists(fs@, components_of(join_view(cwd@, path@)))
                &&& exists|k: nat|
                    {
                        &&& k >= 1
                        &&& r@ == join_view(
                            parent_view(path@),
                            #[trigger] inc_iter(file_name_view(path@).unwrap(), k),
                        )
                        &&& forall|j: nat|
                            1 <= j < k ==> v_has(
                                fs@,
                                components_of(join_view(cwd@, parent_view(path@))).push(
                                    #[trigger] inc_iter(file_name_view(path@).unwrap(), j),
                                ),
                            )
                    }
            }
        }),
{
    let joined = join_path(cwd, path);
    if !fs.contains_path(joined.as_str()) {
        return path.to_owned();
    }
    let base = match file_name_of(path) {
        Some(n) => n,
        None => {
            // unreachable: the precondition promises a filename whenever the
            // candidate exists, and it was just found to exist
            proof {
                assert(false);
            }
            String::new()
        },
    };
    proof {
        lemma_file_name_clean(path@);
    }
    let parent = parent_of(path);
    let ghost par = components_of(join_view(cwd@, parent_view(path@)));
    let mut name = inc_filename_num(base.as_str());
    let ghost k: nat = 1;
    proof {
        lemma_inc_measure(base@);
        assert(inc_iter(base@, 0) == base@);
        assert(inc_iter(base@, 1) == inc_view(inc_iter(base@, 0)));
    }
    loop
        invariant
            par == components_of(join_view(cwd@, parent_view(path@))),
            parent@ == parent_view(path@),
            v_exists(fs@, components_of(join_view(cwd@, path@))) ==> file_name_view(path@)
                is Some,
            file_name_view(path@) is Some,
            base@ == file_name_view(path@).unwrap(),
            k >= 1,
            name@ == inc_iter(base@, k),
            name@.len() >= 4,
            forall|j: int| 0 <= j < name@.len() ==> name@[j] != '/',
            v_exists(fs@, components_of(join_view(cwd@, path@))),
            forall|j: nat| 1 <= j < k ==> v_has(fs@, par.push(#[trigger] inc_iter(base@, j))),
        decreases count_colliders(fs@, par, name@),
    {
        let cand = join_path(parent.as_str(), name.as_str());
        let jc = join_path(cwd, cand.as_str());
        proof {
            assert(keep_component(name@)) by {
                if name@ == seq!['.'] {
                    assert(name@.len() == 1);
                }
            }
            lemma_resolve_comps(cwd@, parent_view(path@), name@);
            assert(components_of(jc@) == par.push(name@));
        }
        if !fs.contains_path(jc.as_str()) {
            proof {
                assert(resolve_k(fs@, cwd@, path@, k));
                let k2 = choose|k2: nat| resolve_k(fs@, cwd@, path@, k2);
                lemma_resolve_k_unique(fs@, cwd@, path@, k, k2);
            }
            return cand;
        }
        proof {
            assert(v_has(fs@, par.push(name@)));
            let x = choose|x: int|
                0 <= x < fs@.len() && (#[trigger] fs@[x]).0 == par.push(name@);
            lemma_inc_measure(name@);
            lemma_count_colliders_strict(fs@, par, name@, inc_view(name@), x);
        }
        name = inc_filename_num(name.as_str());
        proof {
            k = k + 1;
        }
    }
}

/// Returns `true` if the path, joined onto the working directory, points at
/// an existing entry.
pub fn path_exists(fs: &MemFs, cwd: &str, path: &str) -> (r: bool)
    ensures
        r == v_exists(fs@, components_of(join_view(cwd@, path@))),
{
    let joined = join_path(cwd, path);
    fs.contains_path(joined.as_str())
}

} // verus!
