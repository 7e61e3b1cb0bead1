//! The rotation stages `log < 0 < 1 < ... < 9`, their extensions, and the
//! successor of each.

use vstd::prelude::*;

verus! {

/// Where a file stands in its rotation chain.
#[derive(Clone, Copy, Debug, PartialEq, Eq, Structural)]
pub enum Stage {
    /// The active log file, extension `log`.
    Head,
    /// A backup, extension the single digit `d`, with `d <= 9`.
    Backup(u8),
}

/// The oldest backup: a file at this stage is deleted when rotated.
pub const LAST_BACKUP: u8 = 9;

/// The character that writes digit `d`.
pub open spec fn digit_char(d: u8) -> char {
    match d {
        0 => '0',
        1 => '1',
        2 => '2',
        3 => '3',
        4 => '4',
        5 => '5',
        6 => '6',
        7 => '7',
        8 => '8',
        _ => '9',
    }
}

impl Stage {
    pub open spec fn wf(self) -> bool {
        match self {
            Stage::Head => true,
            Stage::Backup(d) => d <= LAST_BACKUP,
        }
    }

    /// Position in the chain: 0 for the head, `d + 1` for backup `d`.
    pub open spec fn rank(self) -> nat {
        match self {
            Stage::Head => 0,
            Stage::Backup(d) => d as nat + 1,
        }
    }

    /// The file extension that marks this stage.
    pub open spec fn ext(self) -> Seq<char> {
        match self {
            Stage::Head => seq!['l', 'o', 'g'],
            Stage::Backup(d) => seq![digit_char(d)],
        }
    }

    /// The stage a file moves to when rotated; `None` for the last backup,
    /// which is deleted.
    pub open spec fn next(self) -> Option<Stage> {
        match self {
            Stage::Head => Some(Stage::Backup(0)),
            Stage::Backup(d) => if d < LAST_BACKUP {
                Some(Stage::Backup((d + 1) as u8))
            } else {
                None
            },
        }
    }

    /// The stage at a given rank, for ranks `0 ..= 10`.
    pub open spec fn of_rank(r: int) -> Stage {
        if r <= 0 {
            Stage::Head
        } else {
            Stage::Backup((r - 1) as u8)
        }
    }

    /// The exec form of `next`.
    pub fn successor(&self) -> (r: Option<Stage>)
        requires
            self.wf(),
        ensures
            r == self.next(),
    {
        match *self {
            Stage::Head => Some(Stage::Backup(0)),
            Stage::Backup(d) => if d < LAST_BACKUP {
                Some(Stage::Backup(d + 1))
            } else {
                None
            },
        }
    }

    /// The stage at rank `r`.
    pub fn from_rank(r: u8) -> (s: Stage)
        requires
            r <= 10,
        ensures
            s == Stage::of_rank(r as int),
            s.wf(),
            s.rank() == r,
    {
        if r == 0 {
            Stage::Head
        } else {
            Stage::Backup(r - 1)
        }
    }

    /// The rank of a well-formed stage, as a machine integer.
    pub fn rank_u8(&self) -> (r: u8)
        requires
            self.wf(),
        ensures
            r as nat == self.rank(),
            r <= 10,
    {
        match *self {
            Stage::Head => 0,
            Stage::Backup(d) => d + 1,
        }
    }

    /// The extension of this stage as a string.
    pub fn extension(&self) -> (r: String)
        requires
            self.wf(),
        ensures
            r@ == self.ext(),
    {
        let s: &str = match *self {
            Stage::Head => "log",
            Stage::Backup(0) => "0",
            Stage::Backup(1) => "1",
            Stage::Backup(2) => "2",
            Stage::Backup(3) => "3",
            Stage::Backup(4) => "4",
            Stage::Backup(5) => "5",
            Stage::Backup(6) => "6",
            Stage::Backup(7) => "7",
            Stage::Backup(8) => "8",
            Stage::Backup(_) => "9",
        };
        proof {
            reveal_strlit("log");
            reveal_strlit("0");
            reveal_strlit("1");
            reveal_strlit("2");
            reveal_strlit("3");
            reveal_strlit("4");
            reveal_strlit("5");
            reveal_strlit("6");
            reveal_strlit("7");
            reveal_strlit("8");
            reveal_strlit("9");
        }
        let r = String::from_str(s);
        assert(r@ =~= self.ext());
        r
    }
}

/// The digit that a character writes, if any.
pub open spec fn digit_value(c: char) -> Option<u8> {
    match c {
        '0' => Some(0u8),
        '1' => Some(1u8),
        '2' => Some(2u8),
        '3' => Some(3u8),
        '4' => Some(4u8),
        '5' => Some(5u8),
        '6' => Some(6u8),
        '7' => Some(7u8),
        '8' => Some(8u8),
        '9' => Some(9u8),
        _ => None,
    }
}

/// The stage marked by an extension, if any: `log`, or a single digit.
pub open spec fn stage_of_ext(e: Seq<char>) -> Option<Stage> {
    if e == seq!['l', 'o', 'g'] {
        Some(Stage::Head)
    } else if e.len() == 1 {
        match digit_value(e[0]) {
            Some(d) => Some(Stage::Backup(d)),
            None => None,
        }
    } else {
        None
    }
}

/// An extension that marks a stage is that stage's own.
pub proof fn lemma_stage_of_ext(e: Seq<char>)
    requires
        stage_of_ext(e) is Some,
    ensures
        stage_of_ext(e)->Some_0.wf(),
        stage_of_ext(e)->Some_0.ext() == e,
{
    if e != seq!['l', 'o', 'g'] {
        assert(seq![e[0]] =~= e);
    }
}

/// Distinct stages have distinct extensions.
pub proof fn lemma_ext_injective(s: Stage, t: Stage)
    requires
        s.wf(),
        t.wf(),
        s.ext() == t.ext(),
    ensures
        s == t,
{
    if s != t {
        match s {
            Stage::Head => {
                assert(s.ext().len() != t.ext().len());
            },
            Stage::Backup(d) => match t {
                Stage::Head => {
                    assert(s.ext().len() != t.ext().len());
                },
                Stage::Backup(e) => {
                    assert(s.ext()[0] == digit_char(d));
                    assert(t.ext()[0] == digit_char(e));
                    assert(digit_char(d) != digit_char(e));
                },
            },
        }
    }
}

/// Parses an extension: `log` is the head, a single digit is a backup.
pub fn parse_extension(e: &str) -> (r: Option<Stage>)
    ensures
        r == stage_of_ext(e@),
        r matches Some(s) ==> s.wf() && s.ext() == e@,
{
    let n = e.unicode_len();
    let r = if n == 3 && e.get_char(0) == 'l' && e.get_char(1) == 'o' && e.get_char(2) == 'g' {
        Some(Stage::Head)
    } else if n == 1 {
        match e.get_char(0) {
            '0' => Some(Stage::Backup(0)),
            '1' => Some(Stage::Backup(1)),
            '2' => Some(Stage::Backup(2)),
            '3' => Some(Stage::Backup(3)),
            '4' => Some(Stage::Backup(4)),
            '5' => Some(Stage::Backup(5)),
            '6' => Some(Stage::Backup(6)),
            '7' => Some(Stage::Backup(7)),
            '8' => Some(Stage::Backup(8)),
            '9' => Some(Stage::Backup(9)),
            _ => None,
        }
    } else {
        None
    };
    proof {
        if n == 3 {
            if e@ == seq!['l', 'o', 'g'] {
                assert(e@[0] == 'l' && e@[1] == 'o' && e@[2] == 'g');
            }
        } else {
            assert(e@ != seq!['l', 'o', 'g']);
        }
        if r is Some {
            assert(r->Some_0.ext() =~= e@);
        }
    }
    r
}

} // verus!
