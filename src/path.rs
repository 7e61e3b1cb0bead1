//! Splitting a log path into its directory and file name, and a file name
//! into its stem and extension.

use vstd::prelude::*;
use crate::error::{ErrorKind, RotateError};

verus! {

/// Position of the last occurrence of `c` in `s`, or -1 when `c` does not occur.
pub open spec fn last_pos(s: Seq<char>, c: char) -> int
    decreases s.len(),
{
    if s.len() == 0 {
        -1
    } else if s.last() == c {
        s.len() - 1
    } else {
        last_pos(s.drop_last(), c)
    }
}

pub proof fn lemma_last_pos(s: Seq<char>, c: char)
    ensures
        -1 <= last_pos(s, c) < s.len(),
        last_pos(s, c) >= 0 ==> s[last_pos(s, c)] == c,
        forall|j: int| last_pos(s, c) < j < s.len() ==> s[j] != c,
    decreases s.len(),
{
    if s.len() > 0 && s.last() != c {
        lemma_last_pos(s.drop_last(), c);
        assert forall|j: int| last_pos(s, c) < j < s.len() implies s[j] != c by {
            if j < s.len() - 1 {
                assert(s[j] == s.drop_last()[j]);
            }
        }
    }
}

/// Index of the last `c` in `s`.
pub fn find_last(s: &str, c: char) -> (r: Option<usize>)
    ensures
        match r {
            Some(k) => k as int == last_pos(s@, c),
            None => last_pos(s@, c) == -1,
        },
{
    let n = s.unicode_len();
    let mut found: Option<usize> = None;
    let mut i: usize = 0;
    while i < n
        invariant
            n == s@.len(),
            i <= n,
            match found {
                Some(k) => k as int == last_pos(s@.subrange(0, i as int), c),
                None => last_pos(s@.subrange(0, i as int), c) == -1,
            },
        decreases n - i,
    {
        assert(s@.subrange(0, i as int + 1).drop_last() =~= s@.subrange(0, i as int));
        if s.get_char(i) == c {
            found = Some(i);
        }
        i = i + 1;
    }
    assert(s@.subrange(0, n as int) =~= s@);
    found
}

/// The file name: what follows the last `/`.
pub open spec fn file_name_of(p: Seq<char>) -> Seq<char> {
    p.subrange(last_pos(p, '/') + 1, p.len() as int)
}

/// The parent directory: what precedes the last `/`, or `/` itself when that
/// slash opens the path. A bare file name has the empty parent, which stands
/// for the current directory.
pub open spec fn parent_of(p: Seq<char>) -> Seq<char> {
    if last_pos(p, '/') < 0 {
        seq![]
    } else if last_pos(p, '/') == 0 {
        seq!['/']
    } else {
        p.subrange(0, last_pos(p, '/'))
    }
}

/// A path names a file: the name after its last `/` (the whole path when it
/// has none) is neither empty nor `.` nor `..`.
pub open spec fn is_file_path(p: Seq<char>) -> bool {
    &&& file_name_of(p).len() > 0
    &&& file_name_of(p) != seq!['.']
    &&& file_name_of(p) != seq!['.', '.']
}

/// `name` inside directory `dir`, with one `/` between them; `name` itself
/// in the empty directory, the current one.
pub open spec fn join(dir: Seq<char>, name: Seq<char>) -> Seq<char> {
    if dir.len() == 0 {
        name
    } else if dir.last() == '/' {
        dir + name
    } else {
        dir + seq!['/'] + name
    }
}

/// The stem of a file name: what precedes its last `.`, or the whole name.
pub open spec fn stem_of(name: Seq<char>) -> Seq<char> {
    if last_pos(name, '.') < 0 {
        name
    } else {
        name.subrange(0, last_pos(name, '.'))
    }
}

/// The extension of a file name: what follows its last `.`, if it has one.
pub open spec fn extension_of(name: Seq<char>) -> Option<Seq<char>> {
    if last_pos(name, '.') < 0 {
        None
    } else {
        Some(name.subrange(last_pos(name, '.') + 1, name.len() as int))
    }
}
/// A name with an extension is its stem, a `.`, and its extension.
pub proof fn lemma_split_name(name: Seq<char>)
    requires
        extension_of(name) is Some,
    ensures
        name == stem_of(name) + seq!['.'] + extension_of(name)->Some_0,
{
    lemma_last_pos(name, '.');
    assert(name =~= stem_of(name) + seq!['.'] + extension_of(name)->Some_0);
}

} // verus!

verus! {

/// Where the file name of a path starts, or `None` when the path does not
/// name a file.
fn file_name_start(path: &str) -> (r: Option<usize>)
    ensures
        r is Some <==> is_file_path(path@),
        r matches Some(k) ==> k as int == last_pos(path@, '/') + 1,
{
    proof {
        lemma_last_pos(path@, '/');
    }
    let n = path.unicode_len();
    let k = match find_last(path, '/') {
        None => 0,
        Some(j) => j + 1,
    };
    let len = n - k;
    let ghost name = file_name_of(path@);
    if len == 0 {
        None
    } else if len <= 2 && path.get_char(k) == '.' && (len == 1 || path.get_char(k + 1) == '.') {
        assert(name[0] == '.');
        if len == 1 {
            assert(name =~= seq!['.']);
        } else {
            assert(name[1] == '.');
            assert(name =~= seq!['.', '.']);
        }
        None
    } else {
        if len == 1 {
            assert(name[0] != seq!['.'][0]);
        } else if len == 2 {
            assert(name[0] != '.' || name[1] != '.');
            assert(name[0] != seq!['.', '.'][0] || name[1] != seq!['.', '.'][1]);
        } else {
            assert(name.len() != seq!['.'].len());
        }
        Some(k)
    }
}

fn malformed(path: &str) -> (e: RotateError)
    ensures
        e.kind == ErrorKind::MalformedPath,
        e.subject@ == path@,
{
    RotateError { kind: ErrorKind::MalformedPath, subject: String::from_str(path) }
}

/// The file name of `path`, or a `MalformedPath` error when the path does not
/// name a file.
pub fn make_file_name(path: &str) -> (r: Result<String, RotateError>)
    ensures
        match r {
            Ok(name) => is_file_path(path@) && name@ == file_name_of(path@),
            Err(e) => !is_file_path(path@) && e.kind == ErrorKind::MalformedPath && e.subject@
                == path@,
        },
{
    match file_name_start(path) {
        None => Err(malformed(path)),
        Some(k) => {
            proof {
                lemma_last_pos(path@, '/');
            }
            let n = path.unicode_len();
            Ok(String::from_str(path.substring_char(k, n)))
        },
    }
}

/// The parent directory of `path` (empty for a bare file name), or a
/// `MalformedPath` error when the path does not name a file.
pub fn determine_directory(path: &str) -> (r: Result<String, RotateError>)
    ensures
        match r {
            Ok(dir) => is_file_path(path@) && dir@ == parent_of(path@),
            Err(e) => !is_file_path(path@) && e.kind == ErrorKind::MalformedPath && e.subject@
                == path@,
        },
{
    match file_name_start(path) {
        None => Err(malformed(path)),
        Some(k) => {
            proof {
                lemma_last_pos(path@, '/');
            }
            if k == 0 {
                let here = String::new();
                assert(here@ =~= parent_of(path@));
                Ok(here)
            } else if k == 1 {
                let root = String::from_str("/");
                proof {
                    reveal_strlit("/");
                    assert(root@ =~= seq!['/']);
                }
                Ok(root)
            } else {
                Ok(String::from_str(path.substring_char(0, k - 1)))
            }
        },
    }
}

} // verus!
