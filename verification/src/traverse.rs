//! The traversal engine: walk each input path, optionally descending into
//! directories, compute each entry's unix-friendly name, resolve collisions,
//! and perform the renames against the in-memory filesystem — for real runs
//! the performed operations are replayed onto the disk, for dry runs they are
//! only reported. Interactive questions are answered from a queue of answers;
//! an exhausted queue answers "no", as an empty reply would.

use vstd::prelude::*;
use crate::mem_fs::FsError;
use crate::mem_fs::MemFs;
use crate::mem_fs::comps_prefix;
use crate::mem_fs::depth_le;
use crate::mem_fs::lemma_rename_depth;
use crate::mem_fs::lemma_v_children_member;
use crate::mem_fs::v_children;
use crate::mem_fs::v_dir;
use crate::mem_fs::v_exists;
use crate::mem_fs::v_has;
use crate::mem_fs::v_rename;
use crate::mem_fs::v_wf;
use crate::opts::Flags;
use crate::paths::components_of;
use crate::paths::file_name_of;
use crate::paths::join_path;
use crate::paths::join_view;
use crate::paths::lemma_resolve_comps;
use crate::paths::parent_of;
use crate::paths::str_seq_view;
use crate::resolve::path_exists;
use crate::resolve::resolve_collision;
use crate::translit::unixize_filename_str;

verus! {

/// A queue of answers to the yes/no questions a run asks. The traversal
/// consumes one answer per question; when the queue is exhausted every
/// further question is answered "no", the default for an empty reply.
pub struct Answers {
    vals: Vec<bool>,
    pos: usize,
}

impl View for Answers {
    type V = Seq<bool>;

    closed spec fn view(&self) -> Seq<bool> {
        if self.pos <= self.vals@.len() {
            self.vals@.skip(self.pos as int)
        } else {
            Seq::empty()
        }
    }
}

impl Answers {
    /// A queue holding the given answers, in order.
    pub fn new(vals: Vec<bool>) -> (r: Answers)
        ensures
            r@ == vals@,
    {
        let r = Answers { vals, pos: 0 };
        proof {
            assert(r@ =~= r.vals@);
        }
        r
    }

    /// The next answer, or "no" when the queue is exhausted.
    pub fn next_or_no(&mut self) -> (r: bool)
        ensures
            r == (if old(self)@.len() > 0 {
                old(self)@[0]
            } else {
                false
            }),
            final(self)@ == (if old(self)@.len() > 0 {
                old(self)@.drop_first()
            } else {
                old(self)@
            }),
    {
        if self.pos < self.vals.len() {
            let r = self.vals[self.pos];
            self.pos = self.pos + 1;
            proof {
                assert(self@ =~= old(self)@.drop_first());
            }
            r
        } else {
            false
        }
    }
}

/// One performed (or simulated) rename, in the display form of its paths.
pub struct RenameOp {
    /// The path that was renamed, as the caller wrote it.
    pub from: String,
    /// The collision-free path it was renamed to.
    pub to: String,
}

/// The display paths of a sequence of rename operations.
pub open spec fn op_views(s: Seq<RenameOp>) -> Seq<(Seq<char>, Seq<char>)> {
    s.map_values(|o: RenameOp| (o.from@, o.to@))
}

/// One sequence of operations extends another.
pub open spec fn ops_prefix(a: Seq<RenameOp>, b: Seq<RenameOp>) -> bool {
    a.len() <= b.len() && forall|i: int| 0 <= i < a.len() ==> a[i] == b[i]
}

/// The filesystem view after the given renames, each joined onto the working
/// directory, applied in order.
pub open spec fn apply_ops(
    v: Seq<(Seq<Seq<char>>, bool)>,
    cwd: Seq<char>,
    s: Seq<(Seq<char>, Seq<char>)>,
) -> Seq<(Seq<Seq<char>>, bool)>
    decreases s.len(),
{
    if s.len() == 0 {
        v
    } else {
        apply_ops(
            v_rename(
                v,
                components_of(join_view(cwd, s[0].0)),
                components_of(join_view(cwd, s[0].1)),
            ),
            cwd,
            s.drop_first(),
        )
    }
}

/// Every rename in the sequence is sound at its turn: the source exists, the
/// target is free, the target's parent is a directory, the target is no
/// deeper than the source, and nothing is moved into its own subtree. In
/// particular no rename ever overwrites an existing entry.
pub open spec fn ops_ok(
    v: Seq<(Seq<Seq<char>>, bool)>,
    cwd: Seq<char>,
    s: Seq<(Seq<char>, Seq<char>)>,
) -> bool
    decreases s.len(),
{
    s.len() == 0 || {
        let f = components_of(join_view(cwd, s[0].0));
        let t = components_of(join_view(cwd, s[0].1));
        &&& f.len() > 0
        &&& t.len() > 0
        &&& v_has(v, f)
        &&& !v_has(v, t)
        &&& !comps_prefix(f, t)
        &&& v_dir(v, t.drop_last())
        &&& t.len() <= f.len()
        &&& ops_ok(v_rename(v, f, t), cwd, s.drop_first())
    }
}

/// Applying a concatenation of rename sequences is applying them in turn, and
/// soundness composes the same way.
proof fn lemma_apply_concat(
    v: Seq<(Seq<Seq<char>>, bool)>,
    cwd: Seq<char>,
    s1: Seq<(Seq<char>, Seq<char>)>,
    s2: Seq<(Seq<char>, Seq<char>)>,
)
    ensures
        apply_ops(v, cwd, s1 + s2) == apply_ops(apply_ops(v, cwd, s1), cwd, s2),
        (ops_ok(v, cwd, s1) && ops_ok(apply_ops(v, cwd, s1), cwd, s2)) ==> ops_ok(v, cwd, s1 + s2),
    decreases s1.len(),
{
    if s1.len() == 0 {
        assert(s1 + s2 =~= s2);
    } else {
        assert((s1 + s2)[0] == s1[0]);
        assert((s1 + s2).drop_first() =~= s1.drop_first() + s2);
        let f = components_of(join_view(cwd, s1[0].0));
        let t = components_of(join_view(cwd, s1[0].1));
        lemma_apply_concat(v_rename(v, f, t), cwd, s1.drop_first(), s2);
    }
}

/// The operations appended across two successive steps are the operations of
/// the first step followed by those of the second.
proof fn lemma_suffix_split(o0: Seq<RenameOp>, om: Seq<RenameOp>, of: Seq<RenameOp>)
    requires
        ops_prefix(o0, om),
        ops_prefix(om, of),
    ensures
        ops_prefix(o0, of),
        op_views(of.skip(o0.len() as int)) == op_views(om.skip(o0.len() as int)) + op_views(
            of.skip(om.len() as int),
        ),
{
    assert(op_views(of.skip(o0.len() as int)) =~= op_views(om.skip(o0.len() as int)) + op_views(
        of.skip(om.len() as int),
    ));
}

/// Stitch two successive traversal steps into one: the filesystem after both
/// is the old one with all appended operations applied, soundly.
proof fn lemma_step_stitch(
    fs0: Seq<(Seq<Seq<char>>, bool)>,
    cwd: Seq<char>,
    o0: Seq<RenameOp>,
    om: Seq<RenameOp>,
    of: Seq<RenameOp>,
    vm: Seq<(Seq<Seq<char>>, bool)>,
    vf: Seq<(Seq<Seq<char>>, bool)>,
)
    requires
        ops_prefix(o0, om),
        ops_prefix(om, of),
        vm == apply_ops(fs0, cwd, op_views(om.skip(o0.len() as int))),
        ops_ok(fs0, cwd, op_views(om.skip(o0.len() as int))),
        vf == apply_ops(vm, cwd, op_views(of.skip(om.len() as int))),
        ops_ok(vm, cwd, op_views(of.skip(om.len() as int))),
    ensures
        ops_prefix(o0, of),
        vf == apply_ops(fs0, cwd, op_views(of.skip(o0.len() as int))),
        ops_ok(fs0, cwd, op_views(of.skip(o0.len() as int))),
{
    lemma_suffix_split(o0, om, of);
    lemma_apply_concat(
        fs0,
        cwd,
        op_views(om.skip(o0.len() as int)),
        op_views(of.skip(om.len() as int)),
    );
}

/// Unixize the filenames under the children of `dir`, recursively.
fn unixize_children_at(
    fs: &mut MemFs,
    cwd: &str,
    dir: &str,
    flags: Flags,
    answers: &mut Answers,
    ops: &mut Vec<RenameOp>,
    fuel: usize,
) -> (r: Result<(), FsError>)
    requires
        old(fs).wf(),
        depth_le(old(fs)@, fuel as nat + components_of(join_view(cwd@, dir@)).len()),
    ensures
        final(fs).wf(),
        depth_le(final(fs)@, fuel as nat + components_of(join_view(cwd@, dir@)).len()),
        ops_prefix(old(ops)@, final(ops)@),
        final(fs)@ == apply_ops(
            old(fs)@,
            cwd@,
            op_views(final(ops)@.skip(old(ops)@.len() as int)),
        ),
        ops_ok(old(fs)@, cwd@, op_views(final(ops)@.skip(old(ops)@.len() as int))),
        final(fs)@ == children_stage_spec(
            fuel as nat,
            old(fs)@,
            cwd@,
            dir@,
            flags.recursive,
            flags.spec_should_prompt(),
            old(answers)@,
        ).fsv,
        op_views(final(ops)@.skip(old(ops)@.len() as int)) == children_stage_spec(
            fuel as nat,
            old(fs)@,
            cwd@,
            dir@,
            flags.recursive,
            flags.spec_should_prompt(),
            old(answers)@,
        ).ops,
        final(answers)@ == children_stage_spec(
            fuel as nat,
            old(fs)@,
            cwd@,
            dir@,
            flags.recursive,
            flags.spec_should_prompt(),
            old(answers)@,
        ).ans,
        (match children_stage_spec(
            fuel as nat,
            old(fs)@,
            cwd@,
            dir@,
            flags.recursive,
            flags.spec_should_prompt(),
            old(answers)@,
        ).err {
            None => r is Ok,
            Some(e) => r == Err::<(), FsError>(e),
        }),
    decreases fuel, 0int,
{
    let ghost v0 = fs@;
    let ghost a0 = answers@;
    let ghost o0 = ops@;
    let ghost rec = flags.recursive;
    let ghost pr = flags.spec_should_prompt();
    let ghost stv = children_stage_spec(fuel as nat, v0, cwd@, dir@, rec, pr, a0);
    let ghost p = components_of(join_view(cwd@, dir@));
    let joined = join_path(cwd, dir);
    let names = match fs.list_children(joined.as_str()) {
        Ok(n) => n,
        Err(e) => {
            proof {
                assert(op_views(ops@.skip(ops@.len() as int)) =~= Seq::<(Seq<char>, Seq<
                    char,
                >)>::empty());
                assert(stv.ops =~= Seq::<(Seq<char>, Seq<char>)>::empty());
            }
            return Err(e);
        },
    };
    let ghost fs0 = fs@;
    let ghost ops0 = ops@;
    let mut i: usize = 0;
    proof {
        assert(op_views(ops@.skip(ops@.len() as int)) =~= Seq::<(Seq<char>, Seq<char>)>::empty());
        let whole = visit_children_spec(fuel as nat, fs0, cwd@, dir@, str_seq_view(names@), 0, rec, pr, a0);
        let rest = visit_children_spec(fuel as nat, fs@, cwd@, dir@, str_seq_view(names@), 0, rec, pr, answers@);
        assert(whole.ops =~= op_views(ops@.skip(ops0.len() as int)) + rest.ops);
    }
    while i < names.len()
        invariant
            i <= names@.len(),
            fs.wf(),
            v_wf(fs0),
            fs0 == old(fs)@,
            ops0 == old(ops)@,
            v0 == old(fs)@,
            o0 == old(ops)@,
            a0 == old(answers)@,
            rec == flags.recursive,
            pr == flags.spec_should_prompt(),
            stv == children_stage_spec(fuel as nat, v0, cwd@, dir@, rec, pr, a0),
            stv == visit_children_spec(
                fuel as nat,
                fs0,
                cwd@,
                dir@,
                str_seq_view(names@),
                0,
                rec,
                pr,
                a0,
            ),
            p == components_of(join_view(cwd@, dir@)),
            str_seq_view(names@) == v_children(fs0, p),
            depth_le(fs0, fuel as nat + p.len()),
            depth_le(fs@, fuel as nat + p.len()),
            ops_prefix(ops0, ops@),
            fs@ == apply_ops(fs0, cwd@, op_views(ops@.skip(ops0.len() as int))),
            ops_ok(fs0, cwd@, op_views(ops@.skip(ops0.len() as int))),
            ({
                let rest = visit_children_spec(
                    fuel as nat,
                    fs@,
                    cwd@,
                    dir@,
                    str_seq_view(names@),
                    i as nat,
                    rec,
                    pr,
                    answers@,
                );
                &&& stv.fsv == rest.fsv
                &&& stv.ops == op_views(ops@.skip(ops0.len() as int)) + rest.ops
                &&& stv.ans == rest.ans
                &&& stv.err == rest.err
            }),
        decreases names@.len() - i,
    {
        let name = names[i].clone();
        proof {
            assert(name@ == v_children(fs0, p)[i as int]);
            assert(v_children(fs0, p).contains(name@));
            lemma_v_children_member(fs0, p, name@);
            let x = choose|x: int| 0 <= x < fs0.len() && (#[trigger] fs0[x]).0 == p.push(name@);
            assert(fs0[x].0.len() == p.len() + 1);
            assert(fs0[x].0.len() <= fuel as nat + p.len());
            assert(fuel >= 1);
            assert(crate::paths::clean_name(fs0[x].0[p.len() as int]));
            assert(fs0[x].0[p.len() as int] == name@);
            lemma_resolve_comps(cwd@, dir@, name@);
        }
        let child = join_path(dir, name.as_str());
        let ghost fs_pre = fs@;
        let ghost ops_pre = ops@;
        let ghost ans_pre = answers@;
        let r = visit(fs, cwd, child.as_str(), flags, answers, ops, fuel - 1);
        proof {
            lemma_step_stitch(fs0, cwd@, ops0, ops_pre, ops@, fs_pre, fs@);
            let nmv = str_seq_view(names@);
            let st = visit_spec((fuel - 1) as nat, fs_pre, cwd@, child@, rec, pr, ans_pre);
            assert(child@ == join_view(dir@, nmv[i as int]));
            let rest_i = visit_children_spec(fuel as nat, fs_pre, cwd@, dir@, nmv, i as nat, rec, pr, ans_pre);
            lemma_suffix_split(ops0, ops_pre, ops@);
            if st.err is Some {
                assert(rest_i == st);
            } else {
                let rest_n = visit_children_spec(fuel as nat, fs@, cwd@, dir@, nmv, (i + 1) as nat, rec, pr, answers@);
                assert(rest_i.fsv == rest_n.fsv && rest_i.ans == rest_n.ans && rest_i.err == rest_n.err);
                assert(rest_i.ops == st.ops + rest_n.ops);
                assert(stv.ops =~= op_views(ops@.skip(ops0.len() as int)) + rest_n.ops);
            }
        }
        if r.is_err() {
            return r;
        }
        i = i + 1;
    }
    proof {
        let rest = visit_children_spec(
            fuel as nat,
            fs@,
            cwd@,
            dir@,
            str_seq_view(names@),
            i as nat,
            rec,
            pr,
            answers@,
        );
        assert(rest.ops =~= Seq::<(Seq<char>, Seq<char>)>::empty());
        assert(stv.ops =~= op_views(ops@.skip(ops0.len() as int)));
    }
    Ok(())
}

/// Unixize the filename(s) specified by a path: descend into directories when
/// recursion is on (asking first when prompting is on), then rename the entry
/// itself to its unix-friendly, collision-free name (again asking first when
/// prompting is on). A path without a basename, such as `.`, only has its
/// children unixized.
/// The complete outcome of one traversal step: the filesystem view, the
/// rename operations performed, the answers still unconsumed, and the error
/// that stopped the step, if one did.
pub struct Step {
    /// The filesystem view after the step.
    pub fsv: Seq<(Seq<Seq<char>>, bool)>,
    /// The renames the step performed, in display form.
    pub ops: Seq<(Seq<char>, Seq<char>)>,
    /// The prompt answers not yet consumed.
    pub ans: Seq<bool>,
    /// The error that aborted the step, when one did.
    pub err: Option<FsError>,
}

/// The outcome of renaming `path` to `resolved`, mirroring the in-memory
/// filesystem's rename checks in order.
pub open spec fn rename_step_spec(
    v: Seq<(Seq<Seq<char>>, bool)>,
    cwd: Seq<char>,
    path: Seq<char>,
    resolved: Seq<char>,
    ops: Seq<(Seq<char>, Seq<char>)>,
    ans: Seq<bool>,
) -> Step {
    let f = components_of(join_view(cwd, path));
    let t = components_of(join_view(cwd, resolved));
    if t.len() > f.len() {
        Step { fsv: v, ops, ans, err: Some(FsError::Invalid) }
    } else if f.len() == 0 {
        Step { fsv: v, ops, ans, err: Some(FsError::Invalid) }
    } else if !v_has(v, f) {
        Step { fsv: v, ops, ans, err: Some(FsError::NotFound) }
    } else if t.len() == 0 || v_has(v, t) {
        Step { fsv: v, ops, ans, err: Some(FsError::AlreadyExists) }
    } else if comps_prefix(f, t) {
        Step { fsv: v, ops, ans, err: Some(FsError::Invalid) }
    } else if v_dir(v, t.drop_last()) {
        Step { fsv: v_rename(v, f, t), ops: ops.push((path, resolved)), ans, err: None }
    } else if !v_has(v, t.drop_last()) && t.len() > 1 {
        Step { fsv: v, ops, ans, err: Some(FsError::NotFound) }
    } else {
        Step { fsv: v, ops, ans, err: Some(FsError::NotADirectory) }
    }
}

/// What visiting one path does, from the filesystem view, the path, the two
/// behaviors that matter — whether to recurse and whether to prompt — and the
/// queue of prompt answers. This is the complete functional description of
/// the traversal; in particular it does not depend on whether the run is a
/// simulation.
pub open spec fn visit_spec(
    fuel: nat,
    v: Seq<(Seq<Seq<char>>, bool)>,
    cwd: Seq<char>,
    path: Seq<char>,
    recursive: bool,
    prompt: bool,
    ans: Seq<bool>,
) -> Step
    decreases fuel, 2nat, 0nat,
{
    match crate::paths::file_name_view(path) {
        None => children_stage_spec(fuel, v, cwd, path, recursive, prompt, ans),
        Some(basename) => {
            let p = components_of(join_view(cwd, path));
            if !v_exists(v, p) {
                Step { fsv: v, ops: Seq::empty(), ans, err: Some(FsError::NotFound) }
            } else {
                let is_dir = v_dir(v, p);
                let asks = recursive && is_dir && prompt;
                let descend = !asks || (ans.len() > 0 && ans[0]);
                let ans1 = if asks && ans.len() > 0 {
                    ans.drop_first()
                } else {
                    ans
                };
                let recurse = recursive && is_dir && descend;
                let st = if recurse {
                    children_stage_spec(fuel, v, cwd, path, recursive, prompt, ans1)
                } else {
                    Step { fsv: v, ops: Seq::empty(), ans: ans1, err: None }
                };
                if st.err is Some {
                    st
                } else {
                    let nb = crate::translit::unixized(basename);
                    if nb == basename {
                        st
                    } else {
                        let target = join_view(crate::paths::parent_view(path), nb);
                        let tp = components_of(join_view(cwd, target));
                        if v_exists(st.fsv, tp) && crate::paths::file_name_view(target) is None {
                            Step {
                                fsv: st.fsv,
                                ops: st.ops,
                                ans: st.ans,
                                err: Some(FsError::Invalid),
                            }
                        } else {
                            let resolved = crate::resolve::resolve_spec(st.fsv, cwd, target);
                            let go = !prompt || (st.ans.len() > 0 && st.ans[0]);
                            let ans2 = if prompt && st.ans.len() > 0 {
                                st.ans.drop_first()
                            } else {
                                st.ans
                            };
                            if !go {
                                Step { fsv: st.fsv, ops: st.ops, ans: ans2, err: None }
                            } else {
                                rename_step_spec(st.fsv, cwd, path, resolved, st.ops, ans2)
                            }
                        }
                    }
                }
            }
        },
    }
}

/// What listing a directory and visiting each child in sorted order does.
pub open spec fn children_stage_spec(
    fuel: nat,
    v: Seq<(Seq<Seq<char>>, bool)>,
    cwd: Seq<char>,
    dir: Seq<char>,
    recursive: bool,
    prompt: bool,
    ans: Seq<bool>,
) -> Step
    decreases fuel, 1nat, 0nat,
{
    let p = components_of(join_view(cwd, dir));
    if !v_exists(v, p) {
        Step { fsv: v, ops: Seq::empty(), ans, err: Some(FsError::NotFound) }
    } else if !v_dir(v, p) {
        Step { fsv: v, ops: Seq::empty(), ans, err: Some(FsError::NotADirectory) }
    } else {
        visit_children_spec(
            fuel,
            v,
            cwd,
            dir,
            crate::mem_fs::v_children(v, p),
            0,
            recursive,
            prompt,
            ans,
        )
    }
}

/// What visiting the children named `names[i..]` of `dir` does, in order.
pub open spec fn visit_children_spec(
    fuel: nat,
    v: Seq<(Seq<Seq<char>>, bool)>,
    cwd: Seq<char>,
    dir: Seq<char>,
    names: Seq<Seq<char>>,
    i: nat,
    recursive: bool,
    prompt: bool,
    ans: Seq<bool>,
) -> Step
    decreases fuel, 0nat, (if names.len() >= i { (names.len() - i) as nat } else { 0nat }),
{
    if i >= names.len() {
        Step { fsv: v, ops: Seq::empty(), ans, err: None }
    } else if fuel == 0 {
        // never reached: traversal fuel always covers the tree depth
        Step { fsv: v, ops: Seq::empty(), ans, err: Some(FsError::Invalid) }
    } else {
        let child = join_view(dir, names[i as int]);
        let st = visit_spec((fuel - 1) as nat, v, cwd, child, recursive, prompt, ans);
        if st.err is Some {
            st
        } else {
            let rest = visit_children_spec(
                fuel,
                st.fsv,
                cwd,
                dir,
                names,
                i + 1,
                recursive,
                prompt,
                st.ans,
            );
            Step { fsv: rest.fsv, ops: st.ops + rest.ops, ans: rest.ans, err: rest.err }
        }
    }
}

/// A successful, non-prompting visit of a path whose name needs work renames
/// it: the last appended operation renames the path to its unix-friendly
/// name, or to that name with a counter bumped by collision resolution.
pub open spec fn renamed_as_needed(ops0: Seq<RenameOp>, ops1: Seq<RenameOp>, path: Seq<char>) -> bool {
    &&& ops1.len() > ops0.len()
    &&& ops1.last().from@ == path
    &&& {
        let target = join_view(
            crate::paths::parent_view(path),
            crate::translit::unixized(crate::paths::file_name_view(path).unwrap()),
        );
        ||| ops1.last().to@ == target
        ||| exists|k: nat|
            k >= 1 && ops1.last().to@ == join_view(
                crate::paths::parent_view(target),
                #[trigger] crate::resolve::inc_iter(
                    crate::paths::file_name_view(target).unwrap(),
                    k,
                ),
            )
    }
}

#[verifier::rlimit(100)]
fn visit(
    fs: &mut MemFs,
    cwd: &str,
    path: &str,
    flags: Flags,
    answers: &mut Answers,
    ops: &mut Vec<RenameOp>,
    fuel: usize,
) -> (r: Result<(), FsError>)
    requires
        old(fs).wf(),
        depth_le(old(fs)@, fuel as nat + components_of(join_view(cwd@, path@)).len()),
    ensures
        final(fs).wf(),
        depth_le(final(fs)@, fuel as nat + components_of(join_view(cwd@, path@)).len()),
        ops_prefix(old(ops)@, final(ops)@),
        final(fs)@ == apply_ops(
            old(fs)@,
            cwd@,
            op_views(final(ops)@.skip(old(ops)@.len() as int)),
        ),
        ops_ok(old(fs)@, cwd@, op_views(final(ops)@.skip(old(ops)@.len() as int))),
        final(fs)@ == visit_spec(
            fuel as nat,
            old(fs)@,
            cwd@,
            path@,
            flags.recursive,
            flags.spec_should_prompt(),
            old(answers)@,
        ).fsv,
        op_views(final(ops)@.skip(old(ops)@.len() as int)) == visit_spec(
            fuel as nat,
            old(fs)@,
            cwd@,
            path@,
            flags.recursive,
            flags.spec_should_prompt(),
            old(answers)@,
        ).ops,
        final(answers)@ == visit_spec(
            fuel as nat,
            old(fs)@,
            cwd@,
            path@,
            flags.recursive,
            flags.spec_should_prompt(),
            old(answers)@,
        ).ans,
        (match visit_spec(
            fuel as nat,
            old(fs)@,
            cwd@,
            path@,
            flags.recursive,
            flags.spec_should_prompt(),
            old(answers)@,
        ).err {
            None => r is Ok,
            Some(e) => r == Err::<(), FsError>(e),
        }),
        (r is Ok && !flags.spec_should_prompt() && crate::paths::file_name_view(path@) is Some
            && crate::translit::unixized(crate::paths::file_name_view(path@).unwrap())
            != crate::paths::file_name_view(path@).unwrap()) ==> renamed_as_needed(
            old(ops)@,
            final(ops)@,
            path@,
        ),
    decreases fuel, 1int,
{
    let ghost v0 = fs@;
    let ghost a0 = answers@;
    let ghost o0 = ops@;
    let ghost rec = flags.recursive;
    let ghost pr = flags.spec_should_prompt();
    let ghost stv = visit_spec(fuel as nat, v0, cwd@, path@, rec, pr, a0);
    proof {
        assert(op_views(ops@.skip(ops@.len() as int)) =~= Seq::<(Seq<char>, Seq<char>)>::empty());
    }
    let basename = match file_name_of(path) {
        Some(b) => b,
        None => {
            // no basename (for example `.` or `..`): only unixize children
            let r = unixize_children_at(fs, cwd, path, flags, answers, ops, fuel);
            proof {
                assert(stv == children_stage_spec(fuel as nat, v0, cwd@, path@, rec, pr, a0));
            }
            return r;
        },
    };
    let new_basename = unixize_filename_str(basename.as_str());
    let joined = join_path(cwd, path);
    let ghost p = components_of(join_view(cwd@, path@));
    let stat = match fs.metadata(joined.as_str()) {
        Ok(m) => m,
        Err(e) => {
            proof {
                assert(!v_exists(v0, p));
                assert(stv.ops =~= Seq::<(Seq<char>, Seq<char>)>::empty());
                assert(op_views(ops@.skip(o0.len() as int)) =~= Seq::<(Seq<char>, Seq<
                    char,
                >)>::empty());
            }
            return Err(e);
        },
    };
    let should_prompt = flags.should_prompt();
    // decide whether to recurse, possibly by asking
    let recurse = flags.recursive && stat.is_dir && (!should_prompt || answers.next_or_no());
    let ghost a1 = answers@;
    let ghost fs0 = fs@;
    let ghost ops0 = ops@;
    // the recursion stage's outcome, as the specification computes it
    let ghost strec = (if recurse {
        children_stage_spec(fuel as nat, v0, cwd@, path@, rec, pr, a1)
    } else {
        Step { fsv: v0, ops: Seq::empty(), ans: a1, err: None }
    });
    proof {
        assert(v_exists(v0, p));
        assert(stat.is_dir == v_dir(v0, p));
        assert(op_views(ops0.skip(ops0.len() as int)) =~= Seq::<(Seq<char>, Seq<char>)>::empty());
        // the specification's descend decision is the executable one
        let asks = rec && v_dir(v0, p) && pr;
        if asks {
            assert(recurse == (a0.len() > 0 && a0[0]));
            assert(a1 == (if a0.len() > 0 {
                a0.drop_first()
            } else {
                a0
            }));
        } else {
            assert(recurse == (rec && v_dir(v0, p)));
            assert(a1 == a0);
        }
    }
    if recurse {
        let r = unixize_children_at(fs, cwd, path, flags, answers, ops, fuel);
        if r.is_err() {
            proof {
                assert(strec.err is Some);
                assert(stv == strec);
            }
            return r;
        }
    }
    proof {
        assert(fs@ == strec.fsv);
        assert(answers@ == strec.ans);
        assert(op_views(ops@.skip(o0.len() as int)) == strec.ops);
        assert(strec.err is None);
    }
    // entries that already carry a unix-friendly name are left alone; this
    // comes after the recursion, because a friendly directory name may hold
    // unfriendly names inside
    if str_eq(&basename, &new_basename) {
        proof {
            assert(crate::translit::unixized(basename@) == basename@);
            assert(stv == strec);
        }
        return Ok(());
    }
    let parent = parent_of(path);
    let new_path = join_path(parent.as_str(), new_basename.as_str());
    let ghost target = join_view(
        crate::paths::parent_view(path@),
        crate::translit::unixized(basename@),
    );
    proof {
        assert(new_path@ == target);
    }
    // a name that was erased entirely while its bare parent already exists
    // cannot be renamed at all
    if path_exists(fs, cwd, new_path.as_str()) && file_name_of(new_path.as_str()).is_none() {
        proof {
            assert(v_exists(strec.fsv, components_of(join_view(cwd@, target))));
            assert(crate::paths::file_name_view(target) is None);
            assert(stv.fsv == strec.fsv && stv.ops == strec.ops && stv.ans == strec.ans
                && stv.err == Some(FsError::Invalid));
        }
        return Err(FsError::Invalid);
    }
    let resolved = resolve_collision(fs, cwd, new_path.as_str());
    proof {
        assert(resolved@ == crate::resolve::resolve_spec(strec.fsv, cwd@, target));
    }
    if should_prompt {
        // ask whether to rename this entry, skipping it on "no"
        if !answers.next_or_no() {
            proof {
                assert(stv.fsv == strec.fsv && stv.ops == strec.ops && stv.ans == answers@
                    && stv.err is None);
            }
            return Ok(());
        }
    }
    let ghost a2 = answers@;
    proof {
        // the specification's rename prompt decision is the executable one
        if pr {
            assert(strec.ans.len() > 0 && strec.ans[0]);
            assert(a2 == strec.ans.drop_first());
        } else {
            assert(a2 == strec.ans);
        }
        assert(stv == rename_step_spec(strec.fsv, cwd@, path@, resolved@, strec.ops, a2));
    }
    let from_full = join_path(cwd, path);
    let to_full = join_path(cwd, resolved.as_str());
    // the resolved target names a sibling, so it can never be deeper than the
    // source; the guard keeps the depth bound evident
    let fcomps = crate::paths::split_path(from_full.as_str());
    let tcomps = crate::paths::split_path(to_full.as_str());
    proof {
        assert(str_seq_view(fcomps@).len() == components_of(join_view(cwd@, path@)).len());
        assert(str_seq_view(tcomps@).len() == components_of(join_view(cwd@, resolved@)).len());
    }
    if tcomps.len() > fcomps.len() {
        proof {
            assert(stv.fsv == strec.fsv && stv.ops == strec.ops && stv.ans == a2 && stv.err
                == Some(FsError::Invalid));
        }
        return Err(FsError::Invalid);
    }
    let ghost fs_pre = fs@;
    let ghost ops_pre = ops@;
    match fs.rename(from_full.as_str(), to_full.as_str()) {
        Ok(()) => {
            let ghost to_v = resolved@;
            let op = RenameOp { from: path_to_string(path), to: resolved };
            let ghost opval = op;
            ops.push(op);
            proof {
                let f = components_of(join_view(cwd@, path@));
                let t = components_of(join_view(cwd@, to_v));
                assert(ops@ == ops_pre.push(opval));
                assert(opval.from@ == path@ && opval.to@ == to_v);
                assert(ops@.skip(ops_pre.len() as int) =~= seq![opval]);
                let s = op_views(ops@.skip(ops_pre.len() as int));
                assert(s.len() == 1);
                assert(s[0] == (opval.from@, opval.to@));
                assert(from_full@ == join_view(cwd@, path@));
                assert(to_full@ == join_view(cwd@, to_v));
                assert(fs@ == v_rename(fs_pre, f, t));
                assert(s.drop_first() =~= Seq::<(Seq<char>, Seq<char>)>::empty());
                assert(apply_ops(v_rename(fs_pre, f, t), cwd@, s.drop_first()) == v_rename(
                    fs_pre,
                    f,
                    t,
                ));
                assert(fs@ == apply_ops(fs_pre, cwd@, s));
                assert(t.len() <= f.len());
                assert(ops_ok(v_rename(fs_pre, f, t), cwd@, s.drop_first()));
                assert(ops_ok(fs_pre, cwd@, s));
                lemma_rename_depth(
                    fs_pre,
                    f,
                    t,
                    fuel as nat + components_of(join_view(cwd@, path@)).len(),
                );
                lemma_step_stitch(fs0, cwd@, ops0, ops_pre, ops@, fs_pre, fs@);
                // the specification performs the same rename
                assert(stv.fsv == v_rename(strec.fsv, f, t));
                assert(stv.ops == strec.ops.push((path@, to_v)));
                assert(op_views(ops@.skip(o0.len() as int)) =~= strec.ops.push((path@, to_v)));
                assert(stv.ans == a2 && stv.err is None);
            }
            Ok(())
        },
        Err(e) => {
            proof {
                assert(stv.fsv == strec.fsv && stv.ops == strec.ops && stv.ans == a2);
                assert(stv.err == Some(e));
            }
            Err(e)
        },
    }
}

/// An owned copy of a path string.
fn path_to_string(path: &str) -> (r: String)
    ensures
        r@ == path@,
{
    path.to_owned()
}

/// String equality by characters.
fn str_eq(a: &String, b: &String) -> (r: bool)
    ensures
        r == (a@ == b@),
{
    a.eq(b)
}

/// What visiting one path does, with the traversal depth budget taken from
/// the filesystem itself.
pub open spec fn path_step_spec(
    v: Seq<(Seq<Seq<char>>, bool)>,
    cwd: Seq<char>,
    path: Seq<char>,
    recursive: bool,
    prompt: bool,
    ans: Seq<bool>,
) -> Step {
    visit_spec(crate::mem_fs::max_depth(v), v, cwd, path, recursive, prompt, ans)
}

/// What visiting the paths `paths[i..]` in turn does, stopping at the first
/// error.
pub open spec fn paths_spec(
    v: Seq<(Seq<Seq<char>>, bool)>,
    cwd: Seq<char>,
    paths: Seq<Seq<char>>,
    i: nat,
    recursive: bool,
    prompt: bool,
    ans: Seq<bool>,
) -> Step
    decreases paths.len() - i,
{
    if i >= paths.len() {
        Step { fsv: v, ops: Seq::empty(), ans, err: None }
    } else {
        let st = path_step_spec(v, cwd, paths[i as int], recursive, prompt, ans);
        if st.err is Some {
            st
        } else {
            let rest = paths_spec(st.fsv, cwd, paths, i + 1, recursive, prompt, st.ans);
            Step { fsv: rest.fsv, ops: st.ops + rest.ops, ans: rest.ans, err: rest.err }
        }
    }
}

/// A dry run and a forced run plan exactly the same renames on the same
/// filesystem: the traversal depends only on whether it recurses and whether
/// it prompts, and neither a dry nor a forced run prompts. The two runs
/// differ only in the reported line prefix and in whether the planned
/// operations are replayed onto the disk.
pub proof fn lemma_dry_run_plans_real_renames(
    v: Seq<(Seq<Seq<char>>, bool)>,
    cwd: Seq<char>,
    paths: Seq<Seq<char>>,
    ans: Seq<bool>,
    forced: Flags,
    dry: Flags,
)
    requires
        forced.recursive == dry.recursive,
        forced.force && !forced.dry_run,
        dry.dry_run && !dry.force,
    ensures
        paths_spec(v, cwd, paths, 0, forced.recursive, forced.spec_should_prompt(), ans)
            == paths_spec(v, cwd, paths, 0, dry.recursive, dry.spec_should_prompt(), ans),
{
}

/// Unixize the filename(s) specified by one path. The filesystem afterwards
/// is the old one with exactly the appended rename operations applied in
/// order, and every one of those renames was sound at its turn: its source
/// existed, its target was free, and nothing was overwritten.
pub fn unixize_path(
    fs: &mut MemFs,
    cwd: &str,
    path: &str,
    flags: Flags,
    answers: &mut Answers,
    ops: &mut Vec<RenameOp>,
) -> (r: Result<(), FsError>)
    requires
        old(fs).wf(),
    ensures
        final(fs).wf(),
        ops_prefix(old(ops)@, final(ops)@),
        final(fs)@ == apply_ops(
            old(fs)@,
            cwd@,
            op_views(final(ops)@.skip(old(ops)@.len() as int)),
        ),
        ops_ok(old(fs)@, cwd@, op_views(final(ops)@.skip(old(ops)@.len() as int))),
        final(fs)@ == path_step_spec(
            old(fs)@,
            cwd@,
            path@,
            flags.recursive,
            flags.spec_should_prompt(),
            old(answers)@,
        ).fsv,
        op_views(final(ops)@.skip(old(ops)@.len() as int)) == path_step_spec(
            old(fs)@,
            cwd@,
            path@,
            flags.recursive,
            flags.spec_should_prompt(),
            old(answers)@,
        ).ops,
        final(answers)@ == path_step_spec(
            old(fs)@,
            cwd@,
            path@,
            flags.recursive,
            flags.spec_should_prompt(),
            old(answers)@,
        ).ans,
        (match path_step_spec(
            old(fs)@,
            cwd@,
            path@,
            flags.recursive,
            flags.spec_should_prompt(),
            old(answers)@,
        ).err {
            None => r is Ok,
            Some(e) => r == Err::<(), FsError>(e),
        }),
        (r is Ok && !flags.spec_should_prompt() && crate::paths::file_name_view(path@) is Some
            && crate::translit::unixized(crate::paths::file_name_view(path@).unwrap())
            != crate::paths::file_name_view(path@).unwrap()) ==> renamed_as_needed(
            old(ops)@,
            final(ops)@,
            path@,
        ),
{
    proof {
        crate::mem_fs::lemma_max_depth(fs@);
    }
    let fuel = fs.depth_bound();
    visit(fs, cwd, path, flags, answers, ops, fuel)
}

/// Unixize the filenames specified by each path in turn, stopping at the
/// first error. The filesystem afterwards is the old one with exactly the
/// appended rename operations applied in order, each sound at its turn; the
/// operations, the consumed answers, and the outcome are exactly what
/// `paths_spec` computes from the starting state.
pub fn unixize_paths(
    fs: &mut MemFs,
    cwd: &str,
    paths: &Vec<String>,
    flags: Flags,
    answers: &mut Answers,
    ops: &mut Vec<RenameOp>,
) -> (r: Result<(), FsError>)
    requires
        old(fs).wf(),
    ensures
        final(fs).wf(),
        ops_prefix(old(ops)@, final(ops)@),
        final(fs)@ == apply_ops(
            old(fs)@,
            cwd@,
            op_views(final(ops)@.skip(old(ops)@.len() as int)),
        ),
        ops_ok(old(fs)@, cwd@, op_views(final(ops)@.skip(old(ops)@.len() as int))),
        final(fs)@ == paths_spec(
            old(fs)@,
            cwd@,
            str_seq_view(paths@),
            0,
            flags.recursive,
            flags.spec_should_prompt(),
            old(answers)@,
        ).fsv,
        op_views(final(ops)@.skip(old(ops)@.len() as int)) == paths_spec(
            old(fs)@,
            cwd@,
            str_seq_view(paths@),
            0,
            flags.recursive,
            flags.spec_should_prompt(),
            old(answers)@,
        ).ops,
        final(answers)@ == paths_spec(
            old(fs)@,
            cwd@,
            str_seq_view(paths@),
            0,
            flags.recursive,
            flags.spec_should_prompt(),
            old(answers)@,
        ).ans,
        (match paths_spec(
            old(fs)@,
            cwd@,
            str_seq_view(paths@),
            0,
            flags.recursive,
            flags.spec_should_prompt(),
            old(answers)@,
        ).err {
            None => r is Ok,
            Some(e) => r == Err::<(), FsError>(e),
        }),
{
    let ghost fs0 = fs@;
    let ghost ops0 = ops@;
    let ghost a0 = answers@;
    let ghost rec = flags.recursive;
    let ghost pr = flags.spec_should_prompt();
    let ghost stv = paths_spec(fs0, cwd@, str_seq_view(paths@), 0, rec, pr, a0);
    let mut i: usize = 0;
    proof {
        assert(op_views(ops@.skip(ops@.len() as int)) =~= Seq::<(Seq<char>, Seq<char>)>::empty());
        let rest = paths_spec(fs@, cwd@, str_seq_view(paths@), 0, rec, pr, answers@);
        assert(stv.ops =~= op_views(ops@.skip(ops0.len() as int)) + rest.ops);
    }
    while i < paths.len()
        invariant
            i <= paths@.len(),
            fs.wf(),
            fs0 == old(fs)@,
            ops0 == old(ops)@,
            a0 == old(answers)@,
            rec == flags.recursive,
            pr == flags.spec_should_prompt(),
            stv == paths_spec(fs0, cwd@, str_seq_view(paths@), 0, rec, pr, a0),
            ops_prefix(ops0, ops@),
            fs@ == apply_ops(fs0, cwd@, op_views(ops@.skip(ops0.len() as int))),
            ops_ok(fs0, cwd@, op_views(ops@.skip(ops0.len() as int))),
            ({
                let rest = paths_spec(fs@, cwd@, str_seq_view(paths@), i as nat, rec, pr, answers@);
                &&& stv.fsv == rest.fsv
                &&& stv.ops == op_views(ops@.skip(ops0.len() as int)) + rest.ops
                &&& stv.ans == rest.ans
                &&& stv.err == rest.err
            }),
        decreases paths@.len() - i,
    {
        let ghost fs_pre = fs@;
        let ghost ops_pre = ops@;
        let ghost ans_pre = answers@;
        let r = unixize_path(fs, cwd, paths[i].as_str(), flags, answers, ops);
        proof {
            lemma_step_stitch(fs0, cwd@, ops0, ops_pre, ops@, fs_pre, fs@);
            lemma_suffix_split(ops0, ops_pre, ops@);
            let pv = str_seq_view(paths@);
            assert(paths@[i as int]@ == pv[i as int]);
            let st = path_step_spec(fs_pre, cwd@, pv[i as int], rec, pr, ans_pre);
            let rest_i = paths_spec(fs_pre, cwd@, pv, i as nat, rec, pr, ans_pre);
            if st.err is Some {
                assert(rest_i == st);
            } else {
                let rest_n = paths_spec(fs@, cwd@, pv, (i + 1) as nat, rec, pr, answers@);
                assert(rest_i.fsv == rest_n.fsv && rest_i.ans == rest_n.ans && rest_i.err
                    == rest_n.err);
                assert(rest_i.ops == st.ops + rest_n.ops);
                assert(stv.ops =~= op_views(ops@.skip(ops0.len() as int)) + rest_n.ops);
            }
        }
        if r.is_err() {
            return r;
        }
        i = i + 1;
    }
    proof {
        let rest = paths_spec(fs@, cwd@, str_seq_view(paths@), i as nat, rec, pr, answers@);
        assert(rest.ops =~= Seq::<(Seq<char>, Seq<char>)>::empty());
        assert(stv.ops =~= op_views(ops@.skip(ops0.len() as int)));
    }
    Ok(())
}

/// The reported line for one rename: the real form, or the simulated form
/// with `would ` in front.
pub open spec fn line_view(op: (Seq<char>, Seq<char>), dry_run: bool) -> Seq<char> {
    (if dry_run {
        ("would rename '")@
    } else {
        ("rename '")@
    }) + op.0 + ("' -> '")@ + op.1 + ("'")@
}

/// A simulated rename line is exactly the real rename line with `would ` in
/// front: a dry run reports the same operations a real run performs, only the
/// prefix of each line differs.
pub proof fn lemma_line_dry_prefix(op: (Seq<char>, Seq<char>))
    ensures
        line_view(op, true) == ("would ")@ + line_view(op, false),
{
    reveal_strlit("would rename '");
    reveal_strlit("rename '");
    reveal_strlit("would ");
    assert(("would rename '")@ =~= ("would ")@ + ("rename '")@);
    assert(line_view(op, true) =~= ("would ")@ + line_view(op, false));
}

/// Render one rename operation as its reported line.
pub fn render_line(op: &RenameOp, dry_run: bool) -> (r: String)
    ensures
        r@ == line_view((op.from@, op.to@), dry_run),
{
    let mut r = if dry_run {
        path_to_string("would rename '")
    } else {
        path_to_string("rename '")
    };
    r.append(op.from.as_str());
    r.append("' -> '");
    r.append(op.to.as_str());
    r.append("'");
    proof {
        assert(r@ =~= line_view((op.from@, op.to@), dry_run));
    }
    r
}

/// Render every rename operation as its reported line, in order.
pub fn render_lines(ops: &Vec<RenameOp>, dry_run: bool) -> (r: Vec<String>)
    ensures
        r@.len() == ops@.len(),
        forall|i: int|
            0 <= i < ops@.len() ==> (#[trigger] r@[i])@ == line_view(
                (ops@[i].from@, ops@[i].to@),
                dry_run,
            ),
{
    let mut r: Vec<String> = Vec::new();
    let mut i: usize = 0;
    while i < ops.len()
        invariant
            i <= ops@.len(),
            r@.len() == i,
            forall|j: int|
                0 <= j < i ==> (#[trigger] r@[j])@ == line_view(
                    (ops@[j].from@, ops@[j].to@),
                    dry_run,
                ),
        decreases ops@.len() - i,
    {
        r.push(render_line(&ops[i], dry_run));
        i = i + 1;
    }
    r
}

} // verus!
