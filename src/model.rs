//! A model of the directory as a map from paths to contents, the effect of
//! a rotation plan on it, and the laws that rotation obeys.

use vstd::prelude::*;
use crate::gate::{eligible_size, gate_model, Gate};
use crate::error::ErrorKind;
use crate::path::{
    extension_of, file_name_of, is_file_path, join, last_pos, lemma_last_pos, lemma_split_name,
    parent_of, stem_of,
};
use crate::rotation::{
    classify, contains_text, is_bad, plan_model, present_stages, plan_prefix, stage_name, stage_path, step_model,
    StepModel,
};
use crate::stage::{lemma_ext_injective, lemma_stage_of_ext, stage_of_ext, Stage};

verus! {

/// The files of a filesystem: path to contents.
pub type Disk = Map<Seq<char>, Seq<u8>>;

/// What the file at `p` holds, if there is one.
pub open spec fn entry(fs: Disk, p: Seq<char>) -> Option<Seq<u8>> {
    if fs.contains_key(p) {
        Some(fs[p])
    } else {
        None
    }
}

/// The effect of one operation.
pub open spec fn apply_step(fs: Disk, st: StepModel) -> Disk {
    match st {
        StepModel::Delete(p) => fs.remove(p),
        StepModel::Copy(from, to, reset) => {
            let copied = fs.insert(to, fs[from]);
            if reset {
                copied.insert(from, seq![])
            } else {
                copied
            }
        },
    }
}

/// The effect of a sequence of operations carried out in order.
pub open spec fn run_steps(fs: Disk, steps: Seq<StepModel>) -> Disk
    decreases steps.len(),
{
    if steps.len() == 0 {
        fs
    } else {
        apply_step(run_steps(fs, steps.drop_last()), steps.last())
    }
}

/// The file that an entry path names: its name inside its directory (the
/// filesystem takes `a//b` and `a/b` for one file).
pub open spec fn entry_file(path: Seq<char>) -> Seq<char> {
    join(parent_of(path), file_name_of(path))
}

/// The names of the files in directory `dir`: what a listing of it returns.
pub open spec fn dir_names(fs: Disk, dir: Seq<char>) -> Set<Seq<char>> {
    Set::new(|n: Seq<char>| n.len() > 0 && !n.contains('/') && fs.contains_key(join(dir, n)))
}

/// The stages of the family `base` present in directory `dir`.
pub open spec fn disk_stages(fs: Disk, dir: Seq<char>, base: Seq<char>) -> Set<Stage> {
    Set::new(|s: Stage| exists|n: Seq<char>| #[trigger] dir_names(fs, dir).contains(n) && classify(base, n) == Some(Ok::<Stage, ErrorKind>(s)))
}

/// One run of the engine on the entry `path`: the size gate on the file it
/// names, a listing of its directory, then either the whole plan or, on any
/// error, nothing (the plan is complete before a file is touched).
pub open spec fn rotate_entry(fs: Disk, path: Seq<char>) -> Disk {
    let file = entry_file(path);
    let size = if fs.contains_key(file) {
        Some(fs[file].len())
    } else {
        None::<nat>
    };
    let dir = parent_of(path);
    let base = stem_of(file_name_of(path));
    if !is_file_path(path) {
        fs
    } else if gate_model(fs.contains_key(file), size) != Gate::Rotate {
        fs
    } else if exists|n: Seq<char>| #[trigger] dir_names(fs, dir).contains(n) && is_bad(base, n) {
        fs
    } else {
        run_steps(fs, plan_model(dir, base, disk_stages(fs, dir, base)))
    }
}

/// The family member of rank `r` (0 the head, `d + 1` backup `d`).
pub open spec fn rank_path(dir: Seq<char>, base: Seq<char>, r: int) -> Seq<char> {
    stage_path(dir, base, Stage::of_rank(r))
}

/// The stages of a family are all present on disk.
pub open spec fn on_disk(fs: Disk, dir: Seq<char>, base: Seq<char>, present: Set<Stage>) -> bool {
    forall|s: Stage| #[trigger]
        present.contains(s) ==> s.wf() && fs.contains_key(stage_path(dir, base, s))
}

/// What the member of rank `t` holds once the ranks from `m` up have been
/// advanced.
pub open spec fn after_ranks(
    fs0: Disk,
    dir: Seq<char>,
    base: Seq<char>,
    present: Set<Stage>,
    m: int,
    t: int,
) -> Option<Seq<u8>> {
    if t >= 1 && t - 1 >= m && present.contains(Stage::of_rank(t - 1)) {
        Some(fs0[rank_path(dir, base, t - 1)])
    } else if t == 10 && t >= m && present.contains(Stage::of_rank(10)) {
        None
    } else if t == 0 && m <= 0 && present.contains(Stage::Head) {
        Some(seq![])
    } else {
        entry(fs0, rank_path(dir, base, t))
    }
}

proof fn lemma_join_injective(dir: Seq<char>, a: Seq<char>, b: Seq<char>)
    requires
        join(dir, a) == join(dir, b),
    ensures
        a == b,
{
    let pre = if dir.len() == 0 || dir.last() == '/' {
        dir
    } else {
        dir + seq!['/']
    };
    assert(join(dir, a) =~= pre + a);
    assert(join(dir, b) =~= pre + b);
    assert(a =~= (pre + a).subrange(pre.len() as int, (pre + a).len() as int));
    assert(b =~= (pre + b).subrange(pre.len() as int, (pre + b).len() as int));
}

/// Distinct stages of one family live at distinct paths.
pub proof fn lemma_stage_path_injective(dir: Seq<char>, base: Seq<char>, s: Stage, t: Stage)
    requires
        s.wf(),
        t.wf(),
        stage_path(dir, base, s) == stage_path(dir, base, t),
    ensures
        s == t,
{
    lemma_join_injective(dir, stage_name(base, s), stage_name(base, t));
    let a = stage_name(base, s);
    let b = stage_name(base, t);
    let k: int = base.len() as int + 1;
    assert(s.ext() =~= a.subrange(k, a.len() as int));
    assert(t.ext() =~= b.subrange(k, b.len() as int));
    lemma_ext_injective(s, t);
}

proof fn lemma_rank_path_injective(dir: Seq<char>, base: Seq<char>, r: int, t: int)
    requires
        0 <= r <= 10,
        0 <= t <= 10,
        r != t,
    ensures
        rank_path(dir, base, r) != rank_path(dir, base, t),
{
    if rank_path(dir, base, r) == rank_path(dir, base, t) {
        lemma_stage_path_injective(dir, base, Stage::of_rank(r), Stage::of_rank(t));
        assert(Stage::of_rank(r).rank() == r);
        assert(Stage::of_rank(t).rank() == t);
    }
}

proof fn lemma_plan_prefix(fs0: Disk, dir: Seq<char>, base: Seq<char>, present: Set<Stage>, k: nat)
    requires
        k <= 11,
        on_disk(fs0, dir, base, present),
    ensures
        ({
            let fs = run_steps(fs0, plan_prefix(dir, base, present, k));
            &&& forall|t: int|
                0 <= t <= 10 ==> #[trigger] entry(fs, rank_path(dir, base, t)) == after_ranks(
                    fs0,
                    dir,
                    base,
                    present,
                    11 - k,
                    t,
                )
            &&& forall|p: Seq<char>|
                (forall|t: int| 0 <= t <= 10 ==> p != #[trigger] rank_path(dir, base, t)) ==> entry(
                    fs,
                    p,
                ) == entry(fs0, p)
        }),
    decreases k,
{
    if k == 0 {
        assert(plan_prefix(dir, base, present, 0) =~= seq![]);
        return;
    }
    let km = (k - 1) as nat;
    lemma_plan_prefix(fs0, dir, base, present, km);
    let prev_steps = plan_prefix(dir, base, present, km);
    let fsp = run_steps(fs0, prev_steps);
    let fs = run_steps(fs0, plan_prefix(dir, base, present, k));
    let r: int = 10 - km;
    let s = Stage::of_rank(r);
    let m_old: int = 11 - km;
    assert(s.wf());
    if !present.contains(s) {
        assert(plan_prefix(dir, base, present, k) == prev_steps);
        assert forall|t: int| 0 <= t <= 10 implies #[trigger] entry(fs, rank_path(dir, base, t))
            == after_ranks(fs0, dir, base, present, r, t) by {
            assert(entry(fsp, rank_path(dir, base, t)) == after_ranks(
                fs0,
                dir,
                base,
                present,
                m_old,
                t,
            ));
            if t == 0 {
                assert(Stage::of_rank(0) == Stage::Head);
            }
        }
    } else {
        let steps = plan_prefix(dir, base, present, k);
        assert(steps == prev_steps.push(step_model(dir, base, s)));
        assert(steps.drop_last() =~= prev_steps);
        assert(fs == apply_step(fsp, step_model(dir, base, s)));
        let src = rank_path(dir, base, r);
        assert(fs0.contains_key(src));
        // what the source holds just before it is advanced
        assert(entry(fsp, src) == after_ranks(fs0, dir, base, present, m_old, r));
        assert(entry(fsp, src) == Some(fs0[src]));
        if r == 10 {
            assert(s.next() is None);
            assert(fs == fsp.remove(src));
            assert forall|t: int| 0 <= t <= 10 implies #[trigger] entry(
                fs,
                rank_path(dir, base, t),
            ) == after_ranks(fs0, dir, base, present, r, t) by {
                assert(entry(fsp, rank_path(dir, base, t)) == after_ranks(
                    fs0,
                    dir,
                    base,
                    present,
                    m_old,
                    t,
                ));
                if t != 10 {
                    lemma_rank_path_injective(dir, base, t, 10);
                }
            }
            assert forall|p: Seq<char>|
                (forall|t: int| 0 <= t <= 10 ==> p != #[trigger] rank_path(
                    dir,
                    base,
                    t,
                )) implies entry(fs, p) == entry(fs0, p) by {
                assert(p != rank_path(dir, base, 10));
            }
        } else {
            let dst = rank_path(dir, base, r + 1);
            assert(s.next() == Some(Stage::of_rank(r + 1)));
            assert(step_model(dir, base, s) == StepModel::Copy(src, dst, s == Stage::Head));
            lemma_rank_path_injective(dir, base, r, r + 1);
            assert(fsp[src] == fs0[src]);
            assert forall|t: int| 0 <= t <= 10 implies #[trigger] entry(
                fs,
                rank_path(dir, base, t),
            ) == after_ranks(fs0, dir, base, present, r, t) by {
                assert(entry(fsp, rank_path(dir, base, t)) == after_ranks(
                    fs0,
                    dir,
                    base,
                    present,
                    m_old,
                    t,
                ));
                if t != r && t != r + 1 {
                    lemma_rank_path_injective(dir, base, t, r);
                    lemma_rank_path_injective(dir, base, t, r + 1);
                }
                if r == 0 {
                    assert(s == Stage::Head);
                } else {
                    assert(s != Stage::Head);
                }
            }
            assert forall|p: Seq<char>|
                (forall|t: int| 0 <= t <= 10 ==> p != #[trigger] rank_path(
                    dir,
                    base,
                    t,
                )) implies entry(fs, p) == entry(fs0, p) by {
                assert(p != rank_path(dir, base, r));
                assert(p != rank_path(dir, base, r + 1));
            }
        }
    }
}

} // verus!

verus! {

/// The effect of rotating a family whose present stages are on disk: the
/// member at each rank below the last takes the contents that the member one
/// rank younger held, the head is left empty, the last backup is gone unless
/// a younger one moved in, and every other path is untouched.
pub proof fn lemma_rotation_effect(fs0: Disk, dir: Seq<char>, base: Seq<char>, present: Set<Stage>)
    requires
        on_disk(fs0, dir, base, present),
    ensures
        ({
            let fs1 = run_steps(fs0, plan_model(dir, base, present));
            &&& forall|t: int|
                0 <= t <= 10 ==> #[trigger] entry(fs1, rank_path(dir, base, t)) == after_ranks(
                    fs0,
                    dir,
                    base,
                    present,
                    0,
                    t,
                )
            &&& forall|p: Seq<char>|
                (forall|t: int| 0 <= t <= 10 ==> p != #[trigger] rank_path(dir, base, t)) ==> entry(
                    fs1,
                    p,
                ) == entry(fs0, p)
        }),
{
    lemma_plan_prefix(fs0, dir, base, present, 11);
}

/// Rotating a family whose active log is present leaves backup `0` holding
/// what the log held, and the log itself present and empty.
pub proof fn lemma_head_rotated(fs0: Disk, dir: Seq<char>, base: Seq<char>, present: Set<Stage>)
    requires
        on_disk(fs0, dir, base, present),
        present.contains(Stage::Head),
    ensures
        ({
            let fs1 = run_steps(fs0, plan_model(dir, base, present));
            let head = stage_path(dir, base, Stage::Head);
            let first = stage_path(dir, base, Stage::Backup(0));
            &&& fs1.contains_key(first) && fs1[first] == fs0[head]
            &&& fs1.contains_key(head) && fs1[head] == Seq::<u8>::empty()
        }),
{
    lemma_rotation_effect(fs0, dir, base, present);
    let fs1 = run_steps(fs0, plan_model(dir, base, present));
    assert(entry(fs1, rank_path(dir, base, 0)) == after_ranks(fs0, dir, base, present, 0, 0));
    assert(entry(fs1, rank_path(dir, base, 1)) == after_ranks(fs0, dir, base, present, 0, 1));
    assert(Stage::of_rank(0) == Stage::Head);
    assert(Stage::of_rank(1) == Stage::Backup(0));
}

/// A single advance of backup `d < 9` copies it to backup `d + 1` and leaves
/// the source as it was.
pub proof fn lemma_backup_step_keeps_source(fs: Disk, dir: Seq<char>, base: Seq<char>, d: u8)
    requires
        d < 9,
        fs.contains_key(stage_path(dir, base, Stage::Backup(d))),
    ensures
        ({
            let fs1 = apply_step(fs, step_model(dir, base, Stage::Backup(d)));
            let src = stage_path(dir, base, Stage::Backup(d));
            let dst = stage_path(dir, base, Stage::Backup((d + 1) as u8));
            &&& fs1.contains_key(dst) && fs1[dst] == fs[src]
            &&& fs1.contains_key(src) && fs1[src] == fs[src]
        }),
{
    let src = stage_path(dir, base, Stage::Backup(d));
    let dst = stage_path(dir, base, Stage::Backup((d + 1) as u8));
    if src == dst {
        lemma_stage_path_injective(dir, base, Stage::Backup(d), Stage::Backup((d + 1) as u8));
    }
}

/// Rotating a family with backup `d < 9` present leaves backup `d + 1`
/// holding what backup `d` held, and backup `d` still present; backup `d`
/// keeps its own contents when no younger member moved into it.
pub proof fn lemma_backup_advanced(
    fs0: Disk,
    dir: Seq<char>,
    base: Seq<char>,
    present: Set<Stage>,
    d: u8,
)
    requires
        on_disk(fs0, dir, base, present),
        d < 9,
        present.contains(Stage::Backup(d)),
    ensures
        ({
            let fs1 = run_steps(fs0, plan_model(dir, base, present));
            let src = stage_path(dir, base, Stage::Backup(d));
            let dst = stage_path(dir, base, Stage::Backup((d + 1) as u8));
            let younger = Stage::of_rank(d as int);
            &&& fs1.contains_key(dst) && fs1[dst] == fs0[src]
            &&& fs1.contains_key(src)
            &&& !present.contains(younger) ==> fs1[src] == fs0[src]
        }),
{
    lemma_rotation_effect(fs0, dir, base, present);
    let fs1 = run_steps(fs0, plan_model(dir, base, present));
    let r: int = d as int + 1;
    assert(entry(fs1, rank_path(dir, base, r)) == after_ranks(fs0, dir, base, present, 0, r));
    assert(entry(fs1, rank_path(dir, base, r + 1)) == after_ranks(
        fs0,
        dir,
        base,
        present,
        0,
        r + 1,
    ));
    assert(Stage::of_rank(r) == Stage::Backup(d));
    assert(Stage::of_rank(r + 1) == Stage::Backup((d + 1) as u8));
}

/// Advancing the last backup deletes it; after a whole rotation its path is
/// empty unless backup `8` was present and moved in.
pub proof fn lemma_last_backup_removed(
    fs0: Disk,
    dir: Seq<char>,
    base: Seq<char>,
    present: Set<Stage>,
)
    requires
        on_disk(fs0, dir, base, present),
        present.contains(Stage::Backup(9)),
    ensures
        !apply_step(fs0, step_model(dir, base, Stage::Backup(9))).contains_key(
            stage_path(dir, base, Stage::Backup(9)),
        ),
        ({
            let fs1 = run_steps(fs0, plan_model(dir, base, present));
            let last = stage_path(dir, base, Stage::Backup(9));
            let prev = stage_path(dir, base, Stage::Backup(8));
            &&& !present.contains(Stage::Backup(8)) ==> !fs1.contains_key(last)
            &&& present.contains(Stage::Backup(8)) ==> fs1.contains_key(last) && fs1[last]
                == fs0[prev]
        }),
{
    lemma_rotation_effect(fs0, dir, base, present);
    let fs1 = run_steps(fs0, plan_model(dir, base, present));
    assert(entry(fs1, rank_path(dir, base, 10)) == after_ranks(fs0, dir, base, present, 0, 10));
    assert(Stage::of_rank(10) == Stage::Backup(9));
    assert(Stage::of_rank(9) == Stage::Backup(8));
}

/// A file at or below the threshold, or a missing one, is never touched: the
/// run leaves the whole filesystem as it was.
pub proof fn lemma_small_file_untouched(fs: Disk, path: Seq<char>)
    requires
        !fs.contains_key(entry_file(path)) || !eligible_size(fs[entry_file(path)].len()),
    ensures
        rotate_entry(fs, path) == fs,
{
}

/// The stages of a directory's family are on disk under their own names.
proof fn lemma_disk_stages_on_disk(fs: Disk, dir: Seq<char>, base: Seq<char>)
    ensures
        on_disk(fs, dir, base, disk_stages(fs, dir, base)),
{
    assert forall|s: Stage| #[trigger] disk_stages(fs, dir, base).contains(s) implies s.wf()
        && fs.contains_key(stage_path(dir, base, s)) by {
        let n = choose|n: Seq<char>| #[trigger] dir_names(fs, dir).contains(n) && classify(base, n) == Some(Ok::<Stage, ErrorKind>(s));
        let e = extension_of(n)->Some_0;
        lemma_stage_of_ext(e);
        lemma_split_name(n);
        assert(n == stage_name(base, s));
    }
}

/// Running the engine a second time straight after a run on the same log
/// file does nothing: either the first run changed nothing, or it rotated
/// and left the log empty, so the size gate turns it away.
pub proof fn lemma_second_run_idle(fs: Disk, path: Seq<char>)
    requires
        extension_of(file_name_of(path)) == Some(seq!['l', 'o', 'g']),
    ensures
        rotate_entry(rotate_entry(fs, path), path) == rotate_entry(fs, path),
{
    let fs1 = rotate_entry(fs, path);
    if fs1 == fs {
        return;
    }
    let dir = parent_of(path);
    let name = file_name_of(path);
    let base = stem_of(name);
    let present = disk_stages(fs, dir, base);
    let file = entry_file(path);
    assert(fs1 == run_steps(fs, plan_model(dir, base, present)));
    lemma_disk_stages_on_disk(fs, dir, base);
    // the log itself is a member of its family, at the head
    lemma_last_pos(path, '/');
    lemma_split_name(name);
    assert(name == base + seq!['.'] + seq!['l', 'o', 'g']);
    assert(!name.contains('/')) by {
        if name.contains('/') {
            let j = choose|j: int| 0 <= j < name.len() && name[j] == '/';
            assert(path[last_pos(path, '/') + 1 + j] == '/');
        }
    }
    assert(dir_names(fs, dir).contains(name));
    assert(name.subrange(0, 0int + base.len()) =~= base);
    assert(contains_text(name, base));
    assert(stage_of_ext(seq!['l', 'o', 'g']) == Some(Stage::Head));
    assert(classify(base, name) == Some(Ok::<Stage, ErrorKind>(Stage::Head)));
    assert(present.contains(Stage::Head));
    lemma_head_rotated(fs, dir, base, present);
    assert(stage_path(dir, base, Stage::Head) == file);
    assert(fs1[file].len() == 0);
}

/// A listing that returns exactly the names in the directory that hold the
/// base name (as the pattern `family_pattern` builds does) gives
/// `plan_rotation` the stages and the errors that `rotate_entry` reads from
/// the disk.
pub proof fn lemma_listing_is_directory(
    fs: Disk,
    dir: Seq<char>,
    base: Seq<char>,
    names: Seq<Seq<char>>,
)
    requires
        forall|n: Seq<char>|
            #[trigger] names.contains(n) <==> (dir_names(fs, dir).contains(n) && contains_text(
                n,
                base,
            )),
    ensures
        present_stages(base, names) == disk_stages(fs, dir, base),
        (exists|i: int| 0 <= i < names.len() && is_bad(base, names[i])) <==> (exists|n: Seq<char>|
            #[trigger] dir_names(fs, dir).contains(n) && is_bad(base, n)),
{
    assert forall|s: Stage| present_stages(base, names).contains(s) implies disk_stages(
        fs,
        dir,
        base,
    ).contains(s) by {
        let i = choose|i: int|
            0 <= i < names.len() && classify(base, names[i]) == Some(Ok::<Stage, ErrorKind>(s));
        assert(names.contains(names[i]));
        assert(dir_names(fs, dir).contains(names[i]));
    }
    assert forall|s: Stage| disk_stages(fs, dir, base).contains(s) implies present_stages(
        base,
        names,
    ).contains(s) by {
        let n = choose|n: Seq<char>| #[trigger] dir_names(fs, dir).contains(n) && classify(base, n) == Some(Ok::<Stage, ErrorKind>(s));
        assert(names.contains(n));
        let i = choose|i: int| 0 <= i < names.len() && names[i] == n;
    }
    assert(present_stages(base, names) =~= disk_stages(fs, dir, base));
    if exists|i: int| 0 <= i < names.len() && is_bad(base, names[i]) {
        let i = choose|i: int| 0 <= i < names.len() && is_bad(base, names[i]);
        assert(names.contains(names[i]));
        assert(dir_names(fs, dir).contains(names[i]));
    }
    if exists|n: Seq<char>| #[trigger] dir_names(fs, dir).contains(n) && is_bad(base, n) {
        let n = choose|n: Seq<char>| #[trigger] dir_names(fs, dir).contains(n) && is_bad(base, n);
        assert(names.contains(n));
        let i = choose|i: int| 0 <= i < names.len() && names[i] == n;
        assert(is_bad(base, names[i]));
    }
}

/// The stage reached after `n` rotations, if the file still exists.
pub open spec fn advance(s: Stage, n: nat) -> Option<Stage>
    decreases n,
{
    if n == 0 {
        Some(s)
    } else {
        match advance(s, (n - 1) as nat) {
            Some(t) => t.next(),
            None => None,
        }
    }
}

/// Stages only move forward: `n` rotations raise the rank by exactly `n`, so
/// no file ever returns to an earlier stage, and no file outlives ten more
/// rotations than its rank allows.
pub proof fn lemma_stages_only_advance(s: Stage, n: nat)
    requires
        s.wf(),
    ensures
        advance(s, n) matches Some(t) ==> t.wf() && t.rank() == s.rank() + n,
        s.rank() + n > 10 ==> advance(s, n) is None,
    decreases n,
{
    if n > 0 {
        lemma_stages_only_advance(s, (n - 1) as nat);
    }
}

/// The order of stages is total: two well-formed stages of equal rank are equal.
pub proof fn lemma_rank_injective(s: Stage, t: Stage)
    requires
        s.wf(),
        t.wf(),
        s.rank() == t.rank(),
    ensures
        s == t,
{
}

} // verus!

verus! {

/// Rotating a complete family, the log and all ten backups present, leaves
/// all eleven paths present: each backup holds what the stage before it held,
/// and the log is empty.
pub proof fn lemma_full_chain_shifts(fs0: Disk, dir: Seq<char>, base: Seq<char>, present: Set<Stage>)
    requires
        on_disk(fs0, dir, base, present),
        forall|s: Stage| s.wf() ==> #[trigger] present.contains(s),
    ensures
        ({
            let fs1 = run_steps(fs0, plan_model(dir, base, present));
            &&& forall|t: int| 0 <= t <= 10 ==> fs1.contains_key(#[trigger] rank_path(dir, base, t))
            &&& forall|t: int|
                1 <= t <= 10 ==> fs1[#[trigger] rank_path(dir, base, t)] == fs0[rank_path(
                    dir,
                    base,
                    t - 1,
                )]
            &&& fs1[rank_path(dir, base, 0)] == Seq::<u8>::empty()
        }),
{
    lemma_rotation_effect(fs0, dir, base, present);
    let fs1 = run_steps(fs0, plan_model(dir, base, present));
    assert forall|t: int| 0 <= t <= 10 implies fs1.contains_key(
        #[trigger] rank_path(dir, base, t),
    ) && (t >= 1 ==> fs1[rank_path(dir, base, t)] == fs0[rank_path(dir, base, t - 1)]) by {
        assert(entry(fs1, rank_path(dir, base, t)) == after_ranks(fs0, dir, base, present, 0, t));
        assert(Stage::of_rank(t).wf());
        if t >= 1 {
            assert(Stage::of_rank(t - 1).wf());
        } else {
            assert(present.contains(Stage::Head));
        }
    }
    assert(entry(fs1, rank_path(dir, base, 0)) == after_ranks(fs0, dir, base, present, 0, 0));
    assert(Stage::of_rank(0) == Stage::Head);
}

} // verus!
