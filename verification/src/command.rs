//! The text commands a player can type: open a cell, flag a cell, quit.
//!
//! A command line is either the single token `q`, or `o x y` or `f x y`
//! where `x` and `y` are 1-based coordinates up to 255.

use vstd::prelude::*;

verus! {

use crate::pos::Pos;
use vstd::string::*;

/// User command.
#[derive(Debug, PartialEq, Eq)]
pub enum Command {
    Open(Pos),
    Flag(Pos),
    Quit,
}

/// Invalid command error.
#[derive(Debug, PartialEq, Eq)]
pub enum InvalidCommand {
    /// The line is not one of the three command shapes; holds the line.
    Command(String),
    /// A coordinate is not a number from one to 255.
    Dimension,
}

/// A decimal digit.
pub open spec fn is_digit(c: char) -> bool {
    '0' <= c <= '9'
}

/// Value of a digit string, most significant digit first.
pub open spec fn digits_val(t: Seq<char>) -> int
    decreases t.len(),
{
    if t.len() == 0 {
        0
    } else {
        digits_val(t.drop_last()) * 10 + (t.last() as int - '0' as int)
    }
}

/// The token with an optional leading plus sign removed.
pub open spec fn unsigned_part(t: Seq<char>) -> Seq<char> {
    if t.len() > 0 && t[0] == '+' {
        t.skip(1)
    } else {
        t
    }
}

/// The token names a coordinate: digits, at most one leading plus sign,
/// value from one to 255.
pub open spec fn valid_coord(t: Seq<char>) -> bool {
    let d = unsigned_part(t);
    &&& d.len() >= 1
    &&& forall|i: int| 0 <= i < d.len() ==> is_digit(#[trigger] d[i])
    &&& 1 <= digits_val(d) <= 255
}

/// The coordinate value a token names.
pub open spec fn coord_val(t: Seq<char>) -> int {
    digits_val(unsigned_part(t))
}

/// Index of the first space at or after `from`; the length when there is
/// none.
pub open spec fn first_space(s: Seq<char>, from: int) -> int
    decreases s.len() - from,
{
    if from < 0 || from >= s.len() {
        s.len() as int
    } else if s[from] == ' ' {
        from
    } else {
        first_space(s, from + 1)
    }
}

/// The line splits on spaces into exactly three tokens.
pub open spec fn move_line(s: Seq<char>) -> bool {
    let sp1 = first_space(s, 0);
    let sp2 = first_space(s, sp1 + 1);
    &&& sp1 < s.len()
    &&& sp2 < s.len()
    &&& first_space(s, sp2 + 1) == s.len()
}

/// The three space-separated tokens of a move line.
pub open spec fn move_tokens(s: Seq<char>) -> (Seq<char>, Seq<char>, Seq<char>) {
    let sp1 = first_space(s, 0);
    let sp2 = first_space(s, sp1 + 1);
    (
        s.subrange(0, sp1),
        s.subrange(sp1 + 1, sp2),
        s.subrange(sp2 + 1, s.len() as int),
    )
}

/// A value of a digit string never falls when digits are appended.
proof fn lemma_digits_val_nonneg(t: Seq<char>)
    requires
        forall|i: int| 0 <= i < t.len() ==> is_digit(#[trigger] t[i]),
    ensures
        digits_val(t) >= 0,
    decreases t.len(),
{
    if t.len() > 0 {
        assert(forall|i: int| 0 <= i < t.len() - 1 ==> #[trigger] t.drop_last()[i] == t[i]);
        lemma_digits_val_nonneg(t.drop_last());
    }
}

/// A digit string is worth at least any of its prefixes.
proof fn lemma_digits_val_prefix(t: Seq<char>, m: int)
    requires
        0 <= m <= t.len(),
        forall|i: int| 0 <= i < t.len() ==> is_digit(#[trigger] t[i]),
    ensures
        digits_val(t.subrange(0, m)) <= digits_val(t),
    decreases t.len() - m,
{
    if m == t.len() {
        assert(t.subrange(0, m) =~= t);
    } else {
        let a = t.subrange(0, m);
        let b = t.subrange(0, m + 1);
        assert(b.drop_last() =~= a);
        assert(forall|i: int| 0 <= i < a.len() ==> #[trigger] a[i] == t[i]);
        lemma_digits_val_nonneg(a);
        assert(digits_val(b) == digits_val(a) * 10 + (t[m] as int - '0' as int));
        assert(digits_val(a) * 10 >= digits_val(a)) by (nonlinear_arith)
            requires
                digits_val(a) >= 0,
        ;
        lemma_digits_val_prefix(t, m + 1);
    }
}

/// Index of the first space at or after `from`.
fn find_space(s: &str, from: usize, n: usize) -> (i: usize)
    requires
        n == s@.len(),
        from <= n,
    ensures
        i as int == first_space(s@, from as int),
        from <= i <= n,
    decreases n - from,
{
    if from == n {
        n
    } else if s.get_char(from) == ' ' {
        from
    } else {
        find_space(s, from + 1, n)
    }
}

/// Parse the token `s[from..to]` as a coordinate: `Some` exactly when the
/// token is digits, at most one leading plus sign, worth one to 255.
fn parse_coord(s: &str, from: usize, to: usize) -> (r: Option<u8>)
    requires
        from <= to <= s@.len(),
    ensures
        r is Some <==> valid_coord(s@.subrange(from as int, to as int)),
        r matches Some(v) ==> v as int == coord_val(s@.subrange(from as int, to as int)) && v
            >= 1,
{
    let ghost tok = s@.subrange(from as int, to as int);
    let start = if from < to && s.get_char(from) == '+' {
        from + 1
    } else {
        from
    };
    let ghost d = s@.subrange(start as int, to as int);
    proof {
        assert(d =~= unsigned_part(tok));
    }
    let mut acc: u32 = 0;
    let mut j = start;
    while j < to
        invariant
            from <= start <= j <= to <= s@.len(),
            tok == s@.subrange(from as int, to as int),
            d == s@.subrange(start as int, to as int),
            d == unsigned_part(tok),
            acc <= 255,
            acc as int == digits_val(s@.subrange(start as int, j as int)),
            forall|i: int| start <= i < j ==> is_digit(#[trigger] s@[i]),
        decreases to - j,
    {
        let c = s.get_char(j);
        if !('0' <= c && c <= '9') {
            proof {
                assert(d[j - start] == s@[j as int]);
                if valid_coord(tok) {
                    assert(is_digit(unsigned_part(tok)[j - start]));
                }
            }
            return None;
        }
        let v = acc * 10 + (c as u32 - '0' as u32);
        proof {
            assert(s@.subrange(start as int, j as int + 1).drop_last() =~= s@.subrange(
                start as int,
                j as int,
            ));
            assert(s@.subrange(start as int, j as int + 1).last() == s@[j as int]);
        }
        if v > 255 {
            // whatever follows, the token's value stays beyond 255
            proof {
                if valid_coord(tok) {
                    assert(forall|i: int|
                        0 <= i < unsigned_part(tok).len() ==> is_digit(
                            #[trigger] unsigned_part(tok)[i],
                        ));
                    assert(digits_val(unsigned_part(tok)) <= 255);
                    assert(forall|i: int| 0 <= i < d.len() ==> is_digit(#[trigger] d[i]));
                    lemma_digits_val_prefix(d, j as int + 1 - start);
                    assert(d.subrange(0, j as int + 1 - start) =~= s@.subrange(
                        start as int,
                        j as int + 1,
                    ));
                }
            }
            return None;
        }
        acc = v;
        j += 1;
    }
    proof {
        assert(s@.subrange(start as int, to as int) =~= d);
        assert forall|i: int| 0 <= i < d.len() implies is_digit(#[trigger] d[i]) by {
            assert(d[i] == s@[start + i]);
        }
        assert(forall|i: int|
            0 <= i < unsigned_part(tok).len() ==> is_digit(#[trigger] unsigned_part(tok)[i]));
        assert(digits_val(unsigned_part(tok)) == acc as int);
    }
    if acc == 0 {
        return None;
    }
    Some(acc as u8)
}

/// Parse one command line: `q` quits; `o x y` opens and `f x y` flags the
/// cell at `(x, y)`. A line of any other shape is an invalid command; a
/// malformed coordinate in a move is an invalid dimension.
pub fn parse_command(s: &str) -> (r: Result<Command, InvalidCommand>)
    ensures
        s@ == "q"@ ==> r == Ok::<Command, InvalidCommand>(Command::Quit),
        move_line(s@) && s@.subrange(0, first_space(s@, 0)) == "o"@ && valid_coord(
            move_tokens(s@).1,
        ) && valid_coord(move_tokens(s@).2) ==> r == Ok::<Command, InvalidCommand>(
            Command::Open(
                Pos {
                    x: coord_val(move_tokens(s@).1) as u8,
                    y: coord_val(move_tokens(s@).2) as u8,
                },
            ),
        ),
        move_line(s@) && s@.subrange(0, first_space(s@, 0)) == "f"@ && valid_coord(
            move_tokens(s@).1,
        ) && valid_coord(move_tokens(s@).2) ==> r == Ok::<Command, InvalidCommand>(
            Command::Flag(
                Pos {
                    x: coord_val(move_tokens(s@).1) as u8,
                    y: coord_val(move_tokens(s@).2) as u8,
                },
            ),
        ),
        move_line(s@) && (s@.subrange(0, first_space(s@, 0)) == "o"@ || s@.subrange(
            0,
            first_space(s@, 0),
        ) == "f"@) && !(valid_coord(move_tokens(s@).1) && valid_coord(move_tokens(s@).2)) ==> r
            == Err::<Command, InvalidCommand>(InvalidCommand::Dimension),
        move_line(s@) && !(s@.subrange(0, first_space(s@, 0)) == "o"@ || s@.subrange(
            0,
            first_space(s@, 0),
        ) == "f"@) ==> (r matches Err(InvalidCommand::Command(m)) && m@ == s@),
        !(s@ == "q"@) && !move_line(s@) ==> (r matches Err(InvalidCommand::Command(m)) && m@
            == s@),
{
    proof {
        reveal_strlit("q");
        reveal_strlit("o");
        reveal_strlit("f");
    }
    let n = s.unicode_len();
    let sp1 = find_space(s, 0, n);
    if sp1 == n {
        if n == 1 && s.get_char(0) == 'q' {
            proof {
                assert(s@ =~= "q"@);
            }
            return Ok(Command::Quit);
        }
        proof {
            if s@ == "q"@ {
                assert(s@.len() == 1 && s@[0] == 'q');
            }
        }
        return Err(InvalidCommand::Command(s.to_owned()));
    }
    let sp2 = find_space(s, sp1 + 1, n);
    if sp2 == n {
        proof {
            if s@ == "q"@ {
                assert(s@[0] == 'q' && s@.len() == 1);
            }
        }
        return Err(InvalidCommand::Command(s.to_owned()));
    }
    let sp3 = find_space(s, sp2 + 1, n);
    if sp3 != n {
        proof {
            if s@ == "q"@ {
                assert(s@[0] == 'q' && s@.len() == 1);
            }
        }
        return Err(InvalidCommand::Command(s.to_owned()));
    }
    let ghost t0 = s@.subrange(0, first_space(s@, 0));
    let c0 = s.get_char(0);
    let verb_open = sp1 == 1 && c0 == 'o';
    let verb_flag = sp1 == 1 && c0 == 'f';
    proof {
        if verb_open {
            assert(t0 =~= "o"@);
        }
        if verb_flag {
            assert(t0 =~= "f"@);
        }
        if t0 == "o"@ {
            assert(t0.len() == 1);
            assert(t0[0] == 'o');
            assert(s@[0] == 'o');
        }
        if t0 == "f"@ {
            assert(t0.len() == 1);
            assert(t0[0] == 'f');
            assert(s@[0] == 'f');
        }
    }
    if !(verb_open || verb_flag) {
        return Err(InvalidCommand::Command(s.to_owned()));
    }
    let x = parse_coord(s, sp1 + 1, sp2);
    let y = parse_coord(s, sp2 + 1, n);
    proof {
        assert(s@.subrange(sp1 as int + 1, sp2 as int) == move_tokens(s@).1);
        assert(s@.subrange(sp2 as int + 1, n as int) == move_tokens(s@).2);
    }
    match (x, y) {
        (Some(xv), Some(yv)) => {
            if verb_open {
                Ok(Command::Open(Pos { x: xv, y: yv }))
            } else {
                Ok(Command::Flag(Pos { x: xv, y: yv }))
            }
        },
        _ => Err(InvalidCommand::Dimension),
    }
}

impl core::str::FromStr for Command {
    type Err = InvalidCommand;

    fn from_str(s: &str) -> Result<Command, InvalidCommand> {
        parse_command(s)
    }
}

} // verus!
