use vstd::prelude::*;
use crate::game::{click_post, count_where, flag_post, in_bounds, Game, VictoryState};

verus! {

/// A typed command: `f x y` flags the cell at `(x, y)`, any other first word opens it.
#[derive(Clone, Copy, Debug, PartialEq, Eq, Structural)]
pub enum Command {
    Flag(i8, i8),
    Click(i8, i8),
}

#[derive(Clone, Copy, Debug, PartialEq, Eq, Structural)]
pub enum CommandError {
    /// The line does not split into exactly three words at its spaces.
    TokenCount,
    /// A coordinate is not an integer in `-128..=127`.
    NotANumber,
    /// The coordinates lie outside the board.
    OutOfBounds,
}

pub open spec fn is_space() -> spec_fn(char) -> bool {
    |c: char| c == ' '
}

/// The characters that trimming strips at both ends: Unicode's White_Space set.
pub open spec fn is_trimmed_char(c: char) -> bool {
    let u = c as u32;
    (0x9 <= u <= 0xD) || u == 0x20 || u == 0x85 || u == 0xA0 || u == 0x1680 || (0x2000 <= u <= 0x200A)
        || u == 0x2028 || u == 0x2029 || u == 0x202F || u == 0x205F || u == 0x3000
}

fn is_white(c: char) -> (r: bool)
    ensures
        r == is_trimmed_char(c),
{
    let u = c as u32;
    (0x9 <= u && u <= 0xD) || u == 0x20 || u == 0x85 || u == 0xA0 || u == 0x1680 || (0x2000 <= u && u <= 0x200A)
        || u == 0x2028 || u == 0x2029 || u == 0x202F || u == 0x205F || u == 0x3000
}

/// Index of the first space, or the length when there is none.
pub open spec fn first_space(s: Seq<char>) -> int
    decreases s.len(),
{
    if s.len() == 0 || s[0] == ' ' {
        0
    } else {
        1 + first_space(s.skip(1))
    }
}

pub open spec fn trim_start(s: Seq<char>) -> Seq<char>
    decreases s.len(),
{
    if s.len() > 0 && is_trimmed_char(s[0]) {
        trim_start(s.skip(1))
    } else {
        s
    }
}

pub open spec fn trim_end(s: Seq<char>) -> Seq<char>
    decreases s.len(),
{
    if s.len() > 0 && is_trimmed_char(s.last()) {
        trim_end(s.drop_last())
    } else {
        s
    }
}

pub open spec fn trimmed(s: Seq<char>) -> Seq<char> {
    trim_end(trim_start(s))
}

pub open spec fn is_digit(c: char) -> bool {
    48 <= c as u32 <= 57
}

pub open spec fn digits_value(s: Seq<char>) -> int
    decreases s.len(),
{
    if s.len() == 0 {
        0
    } else {
        digits_value(s.drop_last()) * 10 + (s.last() as u32 - 48)
    }
}

pub open spec fn all_digits(s: Seq<char>) -> bool {
    forall|i: int| 0 <= i < s.len() ==> is_digit(#[trigger] s[i])
}

/// `s` without its leading sign, if it has one.
pub open spec fn unsigned_part(s: Seq<char>) -> Seq<char> {
    if s.len() > 0 && (s[0] == '-' || s[0] == '+') {
        s.skip(1)
    } else {
        s
    }
}

/// A decimal integer with an optional sign, if it fits in `i8`.
pub open spec fn parse_i8(s: Seq<char>) -> Option<int> {
    let neg = s.len() > 0 && s[0] == '-';
    let body = unsigned_part(s);
    let v = if neg {
        -digits_value(body)
    } else {
        digits_value(body)
    };
    if body.len() > 0 && all_digits(body) && -128 <= v <= 127 {
        Some(v)
    } else {
        None
    }
}

/// The command that a line of three space-separated words stands for; the coordinates are
/// trimmed before they are read.
pub open spec fn command_spec(s: Seq<char>) -> Result<Command, CommandError> {
    if count_where(s, is_space()) != 2 {
        Err(CommandError::TokenCount)
    } else {
        let i = first_space(s);
        let rest = s.skip(i + 1);
        let j = first_space(rest);
        let word = s.take(i);
        let xs = parse_i8(trimmed(rest.take(j)));
        let ys = parse_i8(trimmed(rest.skip(j + 1)));
        if xs is None || ys is None {
            Err(CommandError::NotANumber)
        } else if word == seq!['f'] {
            Ok(Command::Flag(xs->Some_0 as i8, ys->Some_0 as i8))
        } else {
            Ok(Command::Click(xs->Some_0 as i8, ys->Some_0 as i8))
        }
    }
}

proof fn lemma_first_space(s: Seq<char>, k: int)
    requires
        0 <= k <= s.len(),
        forall|j: int| 0 <= j < k ==> s[j] != ' ',
        k == s.len() || s[k] == ' ',
    ensures
        first_space(s) == k,
    decreases k,
{
    if k > 0 {
        lemma_first_space(s.skip(1), k - 1);
    }
}

proof fn lemma_trim_start(s: Seq<char>, k: int)
    requires
        0 <= k <= s.len(),
        forall|j: int| 0 <= j < k ==> is_trimmed_char(#[trigger] s[j]),
        k == s.len() || !is_trimmed_char(s[k]),
    ensures
        trim_start(s) == s.skip(k),
    decreases k,
{
    if k > 0 {
        lemma_trim_start(s.skip(1), k - 1);
        assert(s.skip(1).skip(k - 1) =~= s.skip(k));
    } else {
        assert(s.skip(0) =~= s);
    }
}

proof fn lemma_trim_end(s: Seq<char>, k: int)
    requires
        0 <= k <= s.len(),
        forall|j: int| k <= j < s.len() ==> is_trimmed_char(#[trigger] s[j]),
        k == 0 || !is_trimmed_char(s[k - 1]),
    ensures
        trim_end(s) == s.take(k),
    decreases s.len() - k,
{
    if k < s.len() {
        lemma_trim_end(s.drop_last(), k);
        assert(s.drop_last().take(k) =~= s.take(k));
    } else {
        assert(s.take(k) =~= s);
    }
}

/// Position of the first space at or after `from`, or the length.
fn find_space(s: &Vec<char>, from: usize) -> (r: usize)
    requires
        from <= s@.len(),
    ensures
        from <= r <= s@.len(),
        r < s@.len() ==> s@[r as int] == ' ',
        forall|j: int| from <= j < r ==> s@[j] != ' ',
        r - from == first_space(s@.subrange(from as int, s@.len() as int)),
{
    let mut i = from;
    while i < s.len() && s[i] != ' '
        invariant
            from <= i <= s@.len(),
            forall|j: int| from <= j < i ==> s@[j] != ' ',
        decreases s@.len() - i,
    {
        i = i + 1;
    }
    proof {
        let t = s@.subrange(from as int, s@.len() as int);
        lemma_first_space(t, i - from);
    }
    i
}

/// Bounds of `s[lo..hi]` without the blank characters at its two ends.
fn trim_bounds(s: &Vec<char>, lo: usize, hi: usize) -> (r: (usize, usize))
    requires
        lo <= hi <= s@.len(),
    ensures
        lo <= r.0 <= r.1 <= hi,
        s@.subrange(r.0 as int, r.1 as int) == trimmed(s@.subrange(lo as int, hi as int)),
{
    let mut a = lo;
    while a < hi && is_white(s[a])
        invariant
            lo <= a <= hi,
            hi <= s@.len(),
            forall|j: int| lo <= j < a ==> is_trimmed_char(#[trigger] s@[j]),
        decreases hi - a,
    {
        a = a + 1;
    }
    let mut b = hi;
    while b > a && is_white(s[b - 1])
        invariant
            a <= b <= hi,
            hi <= s@.len(),
            forall|j: int| b <= j < hi ==> is_trimmed_char(#[trigger] s@[j]),
        decreases b - a,
    {
        b = b - 1;
    }
    proof {
        let t = s@.subrange(lo as int, hi as int);
        assert forall|j: int| 0 <= j < a - lo implies is_trimmed_char(#[trigger] t[j]) by {
            assert(t[j] == s@[lo + j]);
        }
        lemma_trim_start(t, a - lo);
        let u = t.skip(a - lo);
        assert(u =~= s@.subrange(a as int, hi as int));
        assert forall|j: int| b - a <= j < u.len() implies is_trimmed_char(#[trigger] u[j]) by {
            assert(u[j] == s@[a + j]);
        }
        lemma_trim_end(u, b - a);
        assert(u.take(b - a) =~= s@.subrange(a as int, b as int));
    }
    (a, b)
}

/// Reads `s[lo..hi]` as a signed decimal `i8`.
fn parse_i8_range(s: &Vec<char>, lo: usize, hi: usize) -> (r: Option<i8>)
    requires
        lo <= hi <= s@.len(),
    ensures
        r matches Some(v) ==> parse_i8(s@.subrange(lo as int, hi as int)) == Some(v as int),
        r is None ==> parse_i8(s@.subrange(lo as int, hi as int)) is None,
{
    let ghost t = s@.subrange(lo as int, hi as int);
    let neg = lo < hi && s[lo] == '-';
    let start = if lo < hi && (s[lo] == '-' || s[lo] == '+') {
        lo + 1
    } else {
        lo
    };
    let ghost body = s@.subrange(start as int, hi as int);
    proof {
        if lo < hi {
            assert(t[0] == s@[lo as int]);
        }
        if start > lo {
            assert(t.skip(1) =~= body);
        } else {
            assert(t =~= body);
        }
    }
    if start == hi {
        return None;
    }
    // The value, held at 200 once it has grown past what an `i8` can take.
    let mut acc: i32 = 0;
    let mut i = start;
    while i < hi
        invariant
            start <= i <= hi,
            hi <= s@.len(),
            body == s@.subrange(start as int, hi as int),
            t == s@.subrange(lo as int, hi as int),
            body == unsigned_part(t),
            neg == (t.len() > 0 && t[0] == '-'),
            forall|j: int| start <= j < i ==> is_digit(#[trigger] s@[j]),
            0 <= acc <= 200,
            acc == if digits_value(s@.subrange(start as int, i as int)) >= 200 {
                200
            } else {
                digits_value(s@.subrange(start as int, i as int))
            },
            digits_value(s@.subrange(start as int, i as int)) >= 0,
        decreases hi - i,
    {
        let c = s[i];
        let cu = c as u32;
        if !(48 <= cu && cu <= 57) {
            proof {
                assert(body[i - start] == c);
                assert(!is_digit(body[i - start]));
                assert(!(forall|m: int| 0 <= m < body.len() ==> is_digit(#[trigger] body[m])));
            }
            return None;
        }
        let d = (cu - 48) as i32;
        proof {
            let p = s@.subrange(start as int, i as int + 1);
            assert(p.drop_last() =~= s@.subrange(start as int, i as int));
            assert(p.last() == c);
        }
        acc = acc * 10 + d;
        if acc > 200 {
            acc = 200;
        }
        i = i + 1;
    }
    proof {
        assert(s@.subrange(start as int, hi as int) =~= body);
        assert forall|j: int| 0 <= j < body.len() implies is_digit(#[trigger] body[j]) by {
            assert(body[j] == s@[start + j]);
        }
    }
    if neg {
        if acc <= 128 {
            Some((0 - acc) as i8)
        } else {
            None
        }
    } else {
        if acc <= 127 {
            Some(acc as i8)
        } else {
            None
        }
    }
}

/// Reads a typed command: three words separated by single spaces, the first `f` to flag
/// (anything else opens the cell), then the column and the row.
pub fn parse_command(line: &Vec<char>) -> (r: Result<Command, CommandError>)
    ensures
        r == command_spec(line@),
{
    let n = line.len();
    let mut spaces: usize = 0;
    let mut k: usize = 0;
    while k < n
        invariant
            k <= n,
            n == line@.len(),
            spaces == count_where(line@.take(k as int), is_space()),
            spaces <= k,
        decreases n - k,
    {
        proof {
            crate::game::lemma_count_take_step(line@, is_space(), k as int);
        }
        if line[k] == ' ' {
            spaces = spaces + 1;
        }
        k = k + 1;
    }
    proof {
        assert(line@.take(n as int) =~= line@);
    }
    if spaces != 2 {
        return Err(CommandError::TokenCount);
    }
    let i = find_space(line, 0);
    proof {
        assert(line@.subrange(0, n as int) =~= line@);
        if i == n {
            assert forall|j: int| 0 <= j < n implies !is_space()(#[trigger] line@[j]) by {
                lemma_first_space_none(line@, j);
            }
            crate::game::lemma_count_none(line@, is_space());
        }
    }
    let j = find_space(line, i + 1);
    let ghost rest = line@.skip(i + 1);
    proof {
        assert(line@.subrange(i + 1, n as int) =~= rest);
        if j == n {
            assert forall|m: int| 0 <= m < rest.len() implies !is_space()(#[trigger] rest[m]) by {
                lemma_first_space_none(rest, m);
            }
            crate::game::lemma_count_none(rest, is_space());
            lemma_count_split(line@, i as int);
        }
        assert(rest.take(j - (i + 1)) =~= line@.subrange(i + 1, j as int));
        assert(rest.skip(j - (i + 1) + 1) =~= line@.subrange(j + 1, n as int));
        assert(line@.take(i as int) =~= line@.subrange(0, i as int));
    }
    let (xa, xb) = trim_bounds(line, i + 1, j);
    let (ya, yb) = trim_bounds(line, j + 1, n);
    let x = parse_i8_range(line, xa, xb);
    let y = parse_i8_range(line, ya, yb);
    proof {
        assert(first_space(line@) == i);
        assert(first_space(rest) == j - (i + 1));
        assert(line@.subrange(xa as int, xb as int) == trimmed(rest.take(first_space(rest))));
        assert(line@.subrange(ya as int, yb as int) == trimmed(rest.skip(first_space(rest) + 1)));
    }
    match (x, y) {
        (Some(x), Some(y)) => {
            if i == 1 && line[0] == 'f' {
                proof {
                    assert(seq!['f'].len() == 1 && seq!['f'][0] == 'f');
                    assert(line@.take(1) =~= seq!['f']);
                }
                Ok(Command::Flag(x, y))
            } else {
                proof {
                    assert(seq!['f'].len() == 1 && seq!['f'][0] == 'f');
                    if line@.take(i as int) == seq!['f'] {
                        assert(line@.take(i as int)[0] == line@[0]);
                    }
                }
                Ok(Command::Click(x, y))
            }
        },
        _ => Err(CommandError::NotANumber),
    }
}

proof fn lemma_first_space_none(s: Seq<char>, m: int)
    requires
        first_space(s) == s.len(),
        0 <= m < s.len(),
    ensures
        s[m] != ' ',
    decreases m,
{
    if m > 0 {
        lemma_first_space_none(s.skip(1), m - 1);
    }
}

/// Spaces before the first space plus the first space plus those after it.
proof fn lemma_count_split(s: Seq<char>, i: int)
    requires
        0 <= i < s.len(),
        s[i] == ' ',
        forall|j: int| 0 <= j < i ==> s[j] != ' ',
        count_where(s.skip(i + 1), is_space()) == 0,
    ensures
        count_where(s, is_space()) == 1,
    decreases s.len(),
{
    if s.len() - 1 == i {
        assert(s.drop_last() =~= s.take(i));
        crate::game::lemma_count_none(s.take(i), is_space());
    } else {
        assert(s.skip(i + 1).drop_last() =~= s.drop_last().skip(i + 1));
        lemma_count_split(s.drop_last(), i);
    }
}

/// Carries out a typed command, after checking that its cell lies on the board.
pub fn run_command(game: &mut Game, command: Command) -> (r: Result<VictoryState, CommandError>)
    requires
        old(game)@.wf(),
    ensures
        final(game)@.wf(),
        r is Err <==> match command {
            Command::Flag(x, y) | Command::Click(x, y) => !in_bounds(
                old(game)@.width,
                old(game)@.height,
                x as int,
                y as int,
            ),
        },
        r is Err ==> r == Err::<VictoryState, CommandError>(CommandError::OutOfBounds) && final(game)@ == old(game)@,
        r matches Ok(s) ==> match command {
            Command::Flag(x, y) => flag_post(old(game)@, x as int, y as int, final(game)@, s),
            Command::Click(x, y) => click_post(old(game)@, x as int, y as int, final(game)@, s),
        },
{
    match command {
        Command::Flag(x, y) => {
            if game.is_oob(x, y) {
                return Err(CommandError::OutOfBounds);
            }
            Ok(game.flag(x, y))
        },
        Command::Click(x, y) => {
            if game.is_oob(x, y) {
                return Err(CommandError::OutOfBounds);
            }
            Ok(game.click(x, y))
        },
    }
}

} // verus!
