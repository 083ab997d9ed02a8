//! Textual output: decimal line numbers and the canonical frame line.

use crate::stacktrace::StackFrame;
use vstd::prelude::*;
use vstd::string::StringExecFns;

verus! {

pub open spec fn digit_char(d: nat) -> char {
    if d == 0 {
        '0'
    } else if d == 1 {
        '1'
    } else if d == 2 {
        '2'
    } else if d == 3 {
        '3'
    } else if d == 4 {
        '4'
    } else if d == 5 {
        '5'
    } else if d == 6 {
        '6'
    } else if d == 7 {
        '7'
    } else if d == 8 {
        '8'
    } else {
        '9'
    }
}

/// The decimal digits of `n`, most significant first.
pub open spec fn dec_rep(n: nat) -> Seq<char>
    decreases n,
{
    if n < 10 {
        seq![digit_char(n)]
    } else {
        dec_rep(n / 10).push(digit_char(n % 10))
    }
}

/// The canonical rendering of one remapped frame: four spaces, `at `, the
/// class, a dot, the method, and in parentheses the file hint — or
/// `<unknown>` where there is none — a colon and the decimal line, closed
/// by one line terminator.
pub open spec fn frame_line(f: StackFrame) -> Seq<char> {
    "    at "@ + f.class@ + "."@ + f.method@ + "("@ + (match f.file {
        Some(x) => x@,
        None => "<unknown>"@,
    }) + ":"@ + dec_rep(f.line as nat) + ")"@ + "\n"@
}

fn append_digit(out: &mut String, d: usize)
    requires
        d < 10,
    ensures
        final(out)@ == old(out)@.push(digit_char(d as nat)),
{
    let s: &str = if d == 0 {
        "0"
    } else if d == 1 {
        "1"
    } else if d == 2 {
        "2"
    } else if d == 3 {
        "3"
    } else if d == 4 {
        "4"
    } else if d == 5 {
        "5"
    } else if d == 6 {
        "6"
    } else if d == 7 {
        "7"
    } else if d == 8 {
        "8"
    } else {
        "9"
    };
    proof {
        reveal_strlit("0");
        reveal_strlit("1");
        reveal_strlit("2");
        reveal_strlit("3");
        reveal_strlit("4");
        reveal_strlit("5");
        reveal_strlit("6");
        reveal_strlit("7");
        reveal_strlit("8");
        reveal_strlit("9");
        assert(s@ =~= seq![digit_char(d as nat)]);
    }
    out.append(s);
    proof {
        assert(old(out)@ + s@ =~= old(out)@.push(digit_char(d as nat)));
    }
}

/// Appends the decimal rendering of `n`.
pub fn append_dec(out: &mut String, n: usize)
    ensures
        final(out)@ == old(out)@ + dec_rep(n as nat),
    decreases n,
{
    if n < 10 {
        append_digit(out, n);
        proof {
            assert(old(out)@.push(digit_char(n as nat)) =~= old(out)@ + dec_rep(n as nat));
        }
    } else {
        append_dec(out, n / 10);
        append_digit(out, n % 10);
        proof {
            assert((old(out)@ + dec_rep((n / 10) as nat)).push(digit_char((n % 10) as nat)) =~= old(
                out,
            )@ + dec_rep(n as nat));
        }
    }
}

/// Appends `frame_line(*f)`.
pub fn append_frame_line(out: &mut String, f: &StackFrame)
    ensures
        final(out)@ == old(out)@ + frame_line(*f),
{
    out.append("    at ");
    out.append(f.class.as_str());
    out.append(".");
    out.append(f.method.as_str());
    out.append("(");
    match &f.file {
        Some(x) => out.append(x.as_str()),
        None => out.append("<unknown>"),
    }
    out.append(":");
    append_dec(out, f.line);
    out.append(")");
    out.append("\n");
    proof {
        assert(out@ =~= old(out)@ + frame_line(*f));
    }
}

} // verus!
