//! Family discovery and the rotation plan: which files of a directory belong
//! to a log family, and the ordered file operations that advance each of them
//! by one stage.

use vstd::prelude::*;
use crate::error::{ErrorKind, RotateError};
use crate::path::{
    determine_directory, extension_of, file_name_of, find_last, is_file_path, join,
    lemma_last_pos, make_file_name, parent_of, stem_of,
};
use crate::stage::{parse_extension, stage_of_ext, Stage};

verus! {

/// The file name that a family member carries at stage `s`: `{base}.{ext}`.
pub open spec fn stage_name(base: Seq<char>, s: Stage) -> Seq<char> {
    base + seq!['.'] + s.ext()
}

/// The path of the family member at stage `s` in directory `dir`.
pub open spec fn stage_path(dir: Seq<char>, base: Seq<char>, s: Stage) -> Seq<char> {
    join(dir, stage_name(base, s))
}

/// `t` occurs in `s` as a run of consecutive characters.
pub open spec fn contains_text(s: Seq<char>, t: Seq<char>) -> bool {
    exists|i: int| 0 <= i && i + t.len() <= s.len() && #[trigger] s.subrange(i, i + t.len()) == t
}

/// What a directory entry named `name` is to the family with base name `base`.
/// Every entry whose name holds the base name is a member; a member without
/// an extension, or with one outside `log`, `0` .. `9`, cannot be rotated.
/// A rotatable member whose stem is not the base name belongs to another
/// family that shares the base name as part of its own (`webapp.log` beside
/// `app.log`) and is left alone: `None`, as for a name outside the family.
pub open spec fn classify(base: Seq<char>, name: Seq<char>) -> Option<Result<Stage, ErrorKind>> {
    if !contains_text(name, base) {
        None
    } else {
        match extension_of(name) {
            None => Some(Err(ErrorKind::MissingExtension)),
            Some(e) => match stage_of_ext(e) {
                None => Some(Err(ErrorKind::UnknownExtension)),
                Some(s) => if stem_of(name) == base {
                    Some(Ok(s))
                } else {
                    None
                },
            },
        }
    }
}

/// A member of the family that cannot be rotated.
pub open spec fn is_bad(base: Seq<char>, name: Seq<char>) -> bool {
    classify(base, name) matches Some(Err(_))
}

/// The stages present among the listed names.
pub open spec fn present_stages(base: Seq<char>, names: Seq<Seq<char>>) -> Set<Stage> {
    Set::new(|s: Stage| exists|i: int| 0 <= i < names.len() && classify(base, names[i]) == Some(Ok::<Stage, ErrorKind>(s)))
}

/// One file operation.
#[derive(Debug)]
pub enum Step {
    /// Remove the file.
    Delete { path: String },
    /// Copy `from` to `to`; with `reset_source`, then leave `from` as an empty file.
    Copy { from: String, to: String, reset_source: bool },
}

/// The mathematical form of a `Step`.
pub enum StepModel {
    Delete(Seq<char>),
    Copy(Seq<char>, Seq<char>, bool),
}

impl View for Step {
    type V = StepModel;

    open spec fn view(&self) -> StepModel {
        match self {
            Step::Delete { path } => StepModel::Delete(path@),
            Step::Copy { from, to, reset_source } => StepModel::Copy(from@, to@, *reset_source),
        }
    }
}

/// The operation that advances the member at stage `s`: the last backup is
/// deleted; any other is copied to the next stage, and the head is then emptied.
pub open spec fn step_model(dir: Seq<char>, base: Seq<char>, s: Stage) -> StepModel {
    match s.next() {
        None => StepModel::Delete(stage_path(dir, base, s)),
        Some(t) => StepModel::Copy(
            stage_path(dir, base, s),
            stage_path(dir, base, t),
            s == Stage::Head,
        ),
    }
}

/// The operations for the present stages among the `k` highest ranks, oldest first.
pub open spec fn plan_prefix(dir: Seq<char>, base: Seq<char>, present: Set<Stage>, k: nat) -> Seq<
    StepModel,
>
    decreases k,
{
    if k == 0 {
        seq![]
    } else {
        let s = Stage::of_rank(11 - k);
        let rest = plan_prefix(dir, base, present, (k - 1) as nat);
        if present.contains(s) {
            rest.push(step_model(dir, base, s))
        } else {
            rest
        }
    }
}

/// The whole rotation of a family: one operation per present stage, from the
/// last backup down to the head.
pub open spec fn plan_model(dir: Seq<char>, base: Seq<char>, present: Set<Stage>) -> Seq<StepModel> {
    plan_prefix(dir, base, present, 11)
}

pub open spec fn names_view(names: Seq<String>) -> Seq<Seq<char>> {
    names.map_values(|n: String| n@)
}

pub open spec fn steps_view(steps: Seq<Step>) -> Seq<StepModel> {
    steps.map_values(|s: Step| s@)
}

/// Whether two strings hold the same characters.
fn same_text(a: &str, b: &str) -> (r: bool)
    ensures
        r == (a@ == b@),
{
    let n = a.unicode_len();
    if n != b.unicode_len() {
        return false;
    }
    let mut i: usize = 0;
    while i < n
        invariant
            n == a@.len(),
            n == b@.len(),
            i <= n,
            forall|j: int| 0 <= j < i ==> a@[j] == b@[j],
        decreases n - i,
    {
        if a.get_char(i) != b.get_char(i) {
            return false;
        }
        i = i + 1;
    }
    assert(a@ =~= b@);
    true
}

/// The stem of a file name.
pub fn stem(name: &str) -> (r: String)
    ensures
        r@ == stem_of(name@),
{
    proof {
        lemma_last_pos(name@, '.');
    }
    match find_last(name, '.') {
        None => String::from_str(name),
        Some(k) => String::from_str(name.substring_char(0, k)),
    }
}

/// Whether `t` occurs in `s`.
pub fn has_text(s: &str, t: &str) -> (r: bool)
    ensures
        r == contains_text(s@, t@),
{
    let n = s.unicode_len();
    let m = t.unicode_len();
    if m > n {
        return false;
    }
    let mut i: usize = 0;
    loop
        invariant
            n == s@.len(),
            m == t@.len(),
            m <= n,
            i <= n - m,
            forall|j: int| 0 <= j < i ==> #[trigger] s@.subrange(j, j + m) != t@,
        ensures
            forall|j: int| 0 <= j <= n - m ==> #[trigger] s@.subrange(j, j + m) != t@,
        decreases n - m - i,
    {
        if same_text(s.substring_char(i, i + m), t) {
            assert(s@.subrange(i as int, i + t@.len()) == t@);
            return true;
        }
        if i == n - m {
            break;
        }
        i = i + 1;
    }
    assert forall|j: int| 0 <= j && j + t@.len() <= s@.len() implies #[trigger] s@.subrange(
        j,
        j + t@.len(),
    ) != t@ by {
        assert(j <= n - m);
    }
    false
}

/// Exec form of `classify`.
pub fn classify_name(base: &str, name: &str) -> (r: Option<Result<Stage, ErrorKind>>)
    ensures
        r == classify(base@, name@),
{
    proof {
        lemma_last_pos(name@, '.');
    }
    if !has_text(name, base) {
        return None;
    }
    let n = name.unicode_len();
    match find_last(name, '.') {
        None => Some(Err(ErrorKind::MissingExtension)),
        Some(k) => match parse_extension(name.substring_char(k + 1, n)) {
            None => Some(Err(ErrorKind::UnknownExtension)),
            Some(s) => if same_text(name.substring_char(0, k), base) {
                Some(Ok(s))
            } else {
                None
            },
        },
    }
}

/// `name` inside directory `dir`.
pub fn join_path(dir: &str, name: &str) -> (r: String)
    ensures
        r@ == join(dir@, name@),
{
    let n = dir.unicode_len();
    if n == 0 {
        return String::from_str(name);
    }
    let mut r = String::from_str(dir);
    if dir.get_char(n - 1) != '/' {
        r.append("/");
        proof {
            reveal_strlit("/");
        }
    }
    r.append(name);
    r
}

/// The path of the member of family `base` in `dir` at stage `s`.
pub fn stage_file_path(dir: &str, base: &str, s: Stage) -> (r: String)
    requires
        s.wf(),
    ensures
        r@ == stage_path(dir@, base@, s),
{
    let mut name = String::from_str(base);
    name.append(".");
    let e = s.extension();
    name.append(e.as_str());
    proof {
        reveal_strlit(".");
        assert(name@ =~= stage_name(base@, s));
    }
    join_path(dir, name.as_str())
}

/// The directory-listing pattern `{dir}/*{base}*` that finds the candidates
/// of a family: every entry whose name holds the base name.
pub fn family_pattern(dir: &str, base: &str) -> (r: String)
    ensures
        r@ == join(dir@, seq!['*'] + base@ + seq!['*']),
{
    let mut p = String::from_str("*");
    p.append(base);
    p.append("*");
    proof {
        reveal_strlit("*");
        assert(p@ =~= seq!['*'] + base@ + seq!['*']);
    }
    join_path(dir, p.as_str())
}

/// The operation that advances the member at stage `s`.
pub fn make_step(dir: &str, base: &str, s: Stage) -> (r: Step)
    requires
        s.wf(),
    ensures
        r@ == step_model(dir@, base@, s),
{
    let from = stage_file_path(dir, base, s);
    match s.successor() {
        None => Step::Delete { path: from },
        Some(t) => {
            let to = stage_file_path(dir, base, t);
            Step::Copy { from, to, reset_source: s == Stage::Head }
        },
    }
}

} // verus!

verus! {

/// The rotation of the log family of `path`, given the names of the entries
/// of its directory that may belong to it.
///
/// The family's base name is the stem of the path's file name; its members
/// are the listed names that hold the base name (see `classify`). Fails with
/// `MalformedPath` when the path does not name a file, and otherwise with the
/// first member, in the order given, that has no extension or one outside
/// `log`, `0` .. `9`. Members of another family whose name holds the base
/// name are left alone. On success the operations advance every present stage,
/// the last backup first and the head last, so that no file is overwritten
/// before it has been copied.
pub fn plan_rotation(path: &str, names: &Vec<String>) -> (r: Result<Vec<Step>, RotateError>)
    ensures
        !is_file_path(path@) ==> (r matches Err(e) && e.kind == ErrorKind::MalformedPath
            && e.subject@ == path@),
        is_file_path(path@) ==> ({
            let dir = parent_of(path@);
            let base = stem_of(file_name_of(path@));
            let ns = names_view(names@);
            &&& r is Ok <==> forall|i: int| 0 <= i < ns.len() ==> !is_bad(base, ns[i])
            &&& r matches Ok(steps) ==> steps_view(steps@) == plan_model(
                dir,
                base,
                present_stages(base, ns),
            )
            &&& r matches Err(e) ==> exists|i: int|
                0 <= i < ns.len() && classify(base, ns[i]) == Some(
                    Err::<Stage, ErrorKind>(e.kind),
                ) && e.subject@ == ns[i] && forall|j: int| 0 <= j < i ==> !is_bad(base, ns[j])
        }),
{
    let file_name = match make_file_name(path) {
        Ok(n) => n,
        Err(e) => {
            return Err(e);
        },
    };
    let dir = match determine_directory(path) {
        Ok(d) => d,
        Err(e) => {
            return Err(e);
        },
    };
    let base = stem(file_name.as_str());
    let ghost ns = names_view(names@);
    let ghost present = present_stages(base@, ns);
    let mut seen: Vec<bool> = Vec::new();
    while seen.len() < 11
        invariant
            seen.len() <= 11,
            forall|r: int| 0 <= r < seen.len() ==> !seen@[r],
        decreases 11 - seen.len(),
    {
        seen.push(false);
    }
    let mut i: usize = 0;
    while i < names.len()
        invariant
            i <= names.len(),
            ns == names_view(names@),
            is_file_path(path@),
            base@ == stem_of(file_name_of(path@)),
            dir@ == parent_of(path@),
            present == present_stages(base@, ns),
            seen.len() == 11,
            forall|j: int| 0 <= j < i ==> !is_bad(base@, ns[j]),
            forall|r: int|
                0 <= r < 11 ==> (seen@[r] <==> exists|j: int|
                    0 <= j < i && classify(base@, ns[j]) == Some(
                        Ok::<Stage, ErrorKind>(Stage::of_rank(r)),
                    )),
        decreases names.len() - i,
    {
        let c = classify_name(base.as_str(), names[i].as_str());
        assert(ns[i as int] == names@[i as int]@);
        match c {
            None => {},
            Some(Ok(s)) => {
                assert(s.wf());
                let k = s.rank_u8();
                assert(Stage::of_rank(k as int) == s);
                seen.set(k as usize, true);
            },
            Some(Err(kind)) => {
                let subject = names[i].clone();
                assert(classify(base@, ns[i as int]) == Some(Err::<Stage, ErrorKind>(kind)));
                assert(subject@ == ns[i as int]);
                return Err(RotateError { kind, subject });
            },
        }
        proof {
            assert forall|r: int|
                0 <= r < 11 implies (seen@[r] <==> exists|j: int|
                    0 <= j < i + 1 && classify(base@, ns[j]) == Some(
                        Ok::<Stage, ErrorKind>(Stage::of_rank(r)),
                    )) by {
                if seen@[r] && !(exists|j: int|
                    0 <= j < i && classify(base@, ns[j]) == Some(
                        Ok::<Stage, ErrorKind>(Stage::of_rank(r)),
                    )) {
                    assert(classify(base@, ns[i as int]) == Some(
                        Ok::<Stage, ErrorKind>(Stage::of_rank(r)),
                    ));
                }
            }
        }
        i = i + 1;
    }
    let mut steps: Vec<Step> = Vec::new();
    let mut k: u8 = 0;
    while k < 11
        invariant
            k <= 11,
            seen.len() == 11,
            forall|r: int|
                0 <= r < 11 ==> (seen@[r] <==> present.contains(Stage::of_rank(r))),
            steps_view(steps@) == plan_prefix(dir@, base@, present, k as nat),
        decreases 11 - k,
    {
        let s = Stage::from_rank(10 - k);
        if seen[(10 - k) as usize] {
            let st = make_step(dir.as_str(), base.as_str(), s);
            steps.push(st);
            assert(steps_view(steps@) =~= plan_prefix(dir@, base@, present, k as nat + 1));
        } else {
            assert(steps_view(steps@) =~= plan_prefix(dir@, base@, present, k as nat + 1));
        }
        k = k + 1;
    }
    Ok(steps)
}

} // verus!
