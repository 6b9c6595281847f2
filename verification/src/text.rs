//! Text helpers for the chat protocol: whitespace trimming, splitting a
//! command line at its first space, and decimal rendering of counters.

use vstd::prelude::*;
use vstd::string::StrSliceExecFns;

verus! {

/// The Unicode `White_Space` code points: the characters that trimming strips.
pub open spec fn is_space_char(c: char) -> bool {
    let u = c as u32;
    u == 0x20 || (0x09 <= u && u <= 0x0d) || u == 0x85 || u == 0xa0 || u == 0x1680 || (0x2000
        <= u && u <= 0x200a) || u == 0x2028 || u == 0x2029 || u == 0x202f || u == 0x205f || u
        == 0x3000
}

/// Decides `is_space_char` on a concrete character.
pub fn is_space(c: char) -> (r: bool)
    ensures
        r == is_space_char(c),
{
    let u = c as u32;
    u == 0x20 || (0x09 <= u && u <= 0x0d) || u == 0x85 || u == 0xa0 || u == 0x1680 || (0x2000
        <= u && u <= 0x200a) || u == 0x2028 || u == 0x2029 || u == 0x202f || u == 0x205f || u
        == 0x3000
}

/// `s` with its leading whitespace removed.
pub open spec fn trim_front_spec(s: Seq<char>) -> Seq<char>
    decreases s.len(),
{
    if s.len() == 0 {
        s
    } else if is_space_char(s[0]) {
        trim_front_spec(s.drop_first())
    } else {
        s
    }
}

/// `s` with its trailing whitespace removed.
pub open spec fn trim_back_spec(s: Seq<char>) -> Seq<char>
    decreases s.len(),
{
    if s.len() == 0 {
        s
    } else if is_space_char(s.last()) {
        trim_back_spec(s.drop_last())
    } else {
        s
    }
}

/// `s` with surrounding whitespace removed.
pub open spec fn trim_spec(s: Seq<char>) -> Seq<char> {
    trim_back_spec(trim_front_spec(s))
}

/// Removes surrounding whitespace from `s`.
pub fn trim_str(s: &str) -> (r: String)
    ensures
        r@ == trim_spec(s@),
{
    let n = s.unicode_len();
    proof {
        assert(s@.subrange(0, n as int) =~= s@);
    }
    let mut i: usize = 0;
    while i < n && is_space(s.get_char(i))
        invariant
            i <= n,
            n == s@.len(),
            trim_front_spec(s@) == trim_front_spec(s@.subrange(i as int, n as int)),
        decreases n - i,
    {
        proof {
            assert(s@.subrange(i as int, n as int).drop_first() =~= s@.subrange(
                i as int + 1,
                n as int,
            ));
        }
        i += 1;
    }
    proof {
        assert(trim_front_spec(s@) == s@.subrange(i as int, n as int));
    }
    let mut j: usize = n;
    while j > i && is_space(s.get_char(j - 1))
        invariant
            i <= j <= n,
            n == s@.len(),
            trim_front_spec(s@) == s@.subrange(i as int, n as int),
            trim_back_spec(s@.subrange(i as int, n as int)) == trim_back_spec(
                s@.subrange(i as int, j as int),
            ),
        decreases j,
    {
        proof {
            assert(s@.subrange(i as int, j as int).drop_last() =~= s@.subrange(
                i as int,
                j as int - 1,
            ));
        }
        j -= 1;
    }
    proof {
        assert(trim_spec(s@) == s@.subrange(i as int, j as int));
    }
    let r = s.substring_char(i, j);
    r.to_owned()
}

/// The digit character for a value below ten.
pub open spec fn digit_char(d: int) -> char {
    if d == 0 {
        '0'
    } else if d == 1 {
        '1'
    } else if d == 2 {
        '2'
    } else if d == 3 {
        '3'
    } else if d == 4 {
        '4'
    } else if d == 5 {
        '5'
    } else if d == 6 {
        '6'
    } else if d == 7 {
        '7'
    } else if d == 8 {
        '8'
    } else {
        '9'
    }
}

/// The decimal rendering of `n`, most significant digit first.
pub open spec fn dec_str(n: nat) -> Seq<char>
    decreases n,
{
    if n < 10 {
        seq![digit_char(n as int)]
    } else {
        dec_str(n / 10) + seq![digit_char((n % 10) as int)]
    }
}

/// The one-character string for a digit value.
fn digit_str(d: usize) -> (r: &'static str)
    requires
        d < 10,
    ensures
        r@ == seq![digit_char(d as int)],
{
    if d == 0 {
        proof {
            reveal_strlit("0");
            assert("0"@ =~= seq![digit_char(0int)]);
        }
        "0"
    } else if d == 1 {
        proof {
            reveal_strlit("1");
            assert("1"@ =~= seq![digit_char(1int)]);
        }
        "1"
    } else if d == 2 {
        proof {
            reveal_strlit("2");
            assert("2"@ =~= seq![digit_char(2int)]);
        }
        "2"
    } else if d == 3 {
        proof {
            reveal_strlit("3");
            assert("3"@ =~= seq![digit_char(3int)]);
        }
        "3"
    } else if d == 4 {
        proof {
            reveal_strlit("4");
            assert("4"@ =~= seq![digit_char(4int)]);
        }
        "4"
    } else if d == 5 {
        proof {
            reveal_strlit("5");
            assert("5"@ =~= seq![digit_char(5int)]);
        }
        "5"
    } else if d == 6 {
        proof {
            reveal_strlit("6");
            assert("6"@ =~= seq![digit_char(6int)]);
        }
        "6"
    } else if d == 7 {
        proof {
            reveal_strlit("7");
            assert("7"@ =~= seq![digit_char(7int)]);
        }
        "7"
    } else if d == 8 {
        proof {
            reveal_strlit("8");
            assert("8"@ =~= seq![digit_char(8int)]);
        }
        "8"
    } else {
        proof {
            reveal_strlit("9");
            assert("9"@ =~= seq![digit_char(9int)]);
        }
        "9"
    }
}

/// Appends the decimal rendering of `n` to `out`.
pub fn push_decimal(out: &mut String, n: usize)
    ensures
        final(out)@ == old(out)@ + dec_str(n as nat),
    decreases n,
{
    if n >= 10 {
        push_decimal(out, n / 10);
    }
    let d = digit_str(n % 10);
    out.append(d);
    proof {
        if n >= 10 {
            assert(old(out)@ + dec_str((n / 10) as nat) + seq![digit_char((n % 10) as int)]
                =~= old(out)@ + dec_str(n as nat));
        } else {
            assert(old(out)@ + seq![digit_char(n as int)] =~= old(out)@ + dec_str(n as nat));
        }
    }
}

/// Whether `m` holds a space character at all.
pub open spec fn has_space(m: Seq<char>) -> bool {
    exists|k: int| 0 <= k < m.len() && m[k] == ' '
}

/// The position of the first space in `m`, counting through `m` from the
/// front; equals `m.len()` when there is none.
pub open spec fn space_idx(m: Seq<char>) -> int
    decreases m.len(),
{
    if m.len() == 0 {
        0
    } else if m[0] == ' ' {
        0
    } else {
        1 + space_idx(m.drop_first())
    }
}

/// `space_idx` is the least index of a space when one exists.
pub proof fn lemma_space_idx(m: Seq<char>)
    requires
        has_space(m),
    ensures
        0 <= space_idx(m) < m.len(),
        m[space_idx(m)] == ' ',
        forall|k: int| 0 <= k < space_idx(m) ==> m[k] != ' ',
    decreases m.len(),
{
    if m.len() == 0 {
        assert(false);
    } else if m[0] == ' ' {
    } else {
        let k = choose|k: int| 0 <= k < m.len() && m[k] == ' ';
        assert(k >= 1);
        assert(m.drop_first()[k - 1] == ' ');
        assert(has_space(m.drop_first()));
        lemma_space_idx(m.drop_first());
        assert(m[space_idx(m)] == m.drop_first()[space_idx(m.drop_first())]);
        assert forall|j: int| 0 <= j < space_idx(m) implies m[j] != ' ' by {
            if j > 0 {
                assert(m[j] == m.drop_first()[j - 1]);
            }
        }
    }
}

/// The token of `m` before its first space; all of `m` when there is none.
pub open spec fn head_token(m: Seq<char>) -> Seq<char> {
    if has_space(m) {
        m.subrange(0, space_idx(m))
    } else {
        m
    }
}

/// What follows the first space of `m`, when there is one.
pub open spec fn arg_token(m: Seq<char>) -> Option<Seq<char>> {
    if has_space(m) {
        Some(m.subrange(space_idx(m) + 1, m.len() as int))
    } else {
        None
    }
}

/// Splits `m` at its first space into a command token and an optional
/// argument, the way a slash command line is read.
pub fn split_command(m: &str) -> (r: (String, Option<String>))
    ensures
        r.0@ == head_token(m@),
        match r.1 {
            Some(a) => arg_token(m@) == Some(a@),
            None => arg_token(m@) is None,
        },
{
    let n = m.unicode_len();
    let mut i: usize = 0;
    while i < n && m.get_char(i) != ' '
        invariant
            i <= n,
            n == m@.len(),
            forall|k: int| 0 <= k < i ==> m@[k] != ' ',
        decreases n - i,
    {
        i += 1;
    }
    if i == n {
        proof {
            assert(!has_space(m@));
        }
        (m.to_owned(), None)
    } else {
        proof {
            assert(m@[i as int] == ' ');
            assert(has_space(m@));
            lemma_space_idx(m@);
            if space_idx(m@) < i {
                assert(m@[space_idx(m@)] != ' ');
            }
            if space_idx(m@) > i {
                assert(m@[i as int] != ' ');
            }
            assert(space_idx(m@) == i);
        }
        let head = m.substring_char(0, i).to_owned();
        let arg = m.substring_char(i + 1, n).to_owned();
        (head, Some(arg))
    }
}

} // verus!
