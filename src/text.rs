//! Building display text.
use vstd::prelude::*;
use vstd::string::*;

verus! {

/// Appends `c` to `s`.
///
/// Relies on `String::push`, which appends one character to the string.
#[verifier::external_body]
pub(crate) fn push_char(s: &mut String, c: char)
    ensures
        final(s)@ == old(s)@.push(c),
{
    s.push(c);
}

/// The text that `{:?}` writes for `t`.
///
/// Relies on `format!` with the `Debug` implementation of `T`, which the
/// caller supplies; nothing is known of the text.
#[verifier::external_body]
pub(crate) fn debug_text<T: std::fmt::Debug>(t: &T) -> String {
    format!("{:?}", t)
}

/// The decimal digits of `n`.
pub open spec fn decimal(n: nat) -> Seq<char>
    decreases n,
{
    if n < 10 {
        seq![((n + 48) as u8) as char]
    } else {
        decimal(n / 10).push((((n % 10) + 48) as u8) as char)
    }
}

/// `n` copies of `c`.
pub open spec fn repeated(c: char, n: nat) -> Seq<char> {
    Seq::new(n, |i: int| c)
}

/// Appends `text` to `s`.
pub(crate) fn push_str(s: &mut String, text: &str)
    ensures
        final(s)@ == old(s)@ + text@,
{
    s.append(text);
}

/// Appends the decimal digits of `n` to `s`.
pub(crate) fn push_decimal(s: &mut String, n: usize)
    ensures
        final(s)@ == old(s)@ + decimal(n as nat),
    decreases n,
{
    if n >= 10 {
        push_decimal(s, n / 10);
    }
    let d = (n % 10) as u8;
    push_char(s, (d + 48) as char);
    proof {
        if n >= 10 {
            assert(old(s)@ + decimal(n as nat) =~= old(s)@ + decimal((n / 10) as nat) + seq![
                (((n % 10) + 48) as u8) as char,
            ]);
        } else {
            assert(old(s)@ + decimal(n as nat) =~= old(s)@.push(((n + 48) as u8) as char));
        }
    }
}

/// Appends `n` copies of `c` to `s`.
pub(crate) fn push_repeated(s: &mut String, c: char, n: usize)
    ensures
        final(s)@ == old(s)@ + repeated(c, n as nat),
{
    let ghost start = s@;
    let mut i: usize = 0;
    while i < n
        invariant
            i <= n,
            s@ == start + repeated(c, i as nat),
        decreases n - i,
    {
        push_char(s, c);
        i = i + 1;
        proof {
            assert(s@ =~= start + repeated(c, i as nat));
        }
    }
}

/// The line `line`, then a marker line: `column` spaces, a caret, and a
/// tilde under each further character of the line.
pub open spec fn pointed(line: Seq<char>, column: nat) -> Seq<char> {
    let tail: nat = if column + 1 < line.len() {
        (line.len() - column - 1) as nat
    } else {
        0
    };
    line + seq!['\n'] + repeated(' ', column) + seq!['^'] + repeated('~', tail)
}

/// Appends [`pointed`] of `line` and `column` to `s`.
pub(crate) fn push_pointed(s: &mut String, line: &str, column: usize)
    ensures
        final(s)@ == old(s)@ + pointed(line@, column as nat),
{
    let len = line.unicode_len();
    push_str(s, line);
    push_char(s, '\n');
    push_repeated(s, ' ', column);
    push_char(s, '^');
    let tail: usize = if column < len && column + 1 < len {
        len - column - 1
    } else {
        0
    };
    push_repeated(s, '~', tail);
    proof {
        assert(final(s)@ =~= old(s)@ + pointed(line@, column as nat));
    }
}

} // verus!
