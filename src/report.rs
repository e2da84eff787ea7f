//! The output line: the requested counters in a fixed order.
use vstd::prelude::*;
use crate::counting::Stats;
use crate::options::Options;

verus! {

/// The decimal digit for `d`, which is below ten.
pub open spec fn digit_char(d: nat) -> char {
    if d == 0 {
        '0'
    } else if d == 1 {
        '1'
    } else if d == 2 {
        '2'
    } else if d == 3 {
        '3'
    } else if d == 4 {
        '4'
    } else if d == 5 {
        '5'
    } else if d == 6 {
        '6'
    } else if d == 7 {
        '7'
    } else if d == 8 {
        '8'
    } else {
        '9'
    }
}

/// The decimal numeral of `n`, without leading zeros.
pub open spec fn decimal(n: nat) -> Seq<char>
    decreases n,
{
    if n < 10 {
        seq![digit_char(n)]
    } else {
        decimal(n / 10).push(digit_char(n % 10))
    }
}

/// One printed counter: three spaces, then the number.
pub open spec fn field(n: nat) -> Seq<char> {
    seq![' ', ' ', ' '] + decimal(n)
}

/// `field(n)` when `on`, nothing otherwise.
pub open spec fn field_if(on: bool, n: nat) -> Seq<char> {
    if on {
        field(n)
    } else {
        Seq::empty()
    }
}

/// The output line: lines, words, bytes, characters, each only when
/// requested, in that order whatever the order of the flags, then a newline.
pub open spec fn report_line(st: Stats, lines: bool, words: bool, bytes: bool, chars: bool) -> Seq<
    char,
> {
    field_if(lines, st.lines as nat) + field_if(words, st.words as nat) + field_if(
        bytes,
        st.bytes as nat,
    ) + field_if(chars, st.chars as nat) + seq!['\n']
}

fn digit_str(d: usize) -> (r: &'static str)
    requires
        d < 10,
    ensures
        r@ == seq![digit_char(d as nat)],
{
    proof {
        reveal_strlit("0");
        reveal_strlit("1");
        reveal_strlit("2");
        reveal_strlit("3");
        reveal_strlit("4");
        reveal_strlit("5");
        reveal_strlit("6");
        reveal_strlit("7");
        reveal_strlit("8");
        reveal_strlit("9");
    }
    let r = if d == 0 {
        "0"
    } else if d == 1 {
        "1"
    } else if d == 2 {
        "2"
    } else if d == 3 {
        "3"
    } else if d == 4 {
        "4"
    } else if d == 5 {
        "5"
    } else if d == 6 {
        "6"
    } else if d == 7 {
        "7"
    } else if d == 8 {
        "8"
    } else {
        "9"
    };
    assert(r@ =~= seq![digit_char(d as nat)]);
    r
}

/// Appends the decimal numeral of `n` to `out`.
pub fn push_decimal(out: &mut String, n: usize)
    ensures
        final(out)@ == old(out)@ + decimal(n as nat),
    decreases n,
{
    if n >= 10 {
        push_decimal(out, n / 10);
    }
    out.append(digit_str(n % 10));
    assert(final(out)@ =~= old(out)@ + decimal(n as nat));
}

fn push_field(out: &mut String, on: bool, n: usize)
    ensures
        final(out)@ == old(out)@ + field_if(on, n as nat),
{
    if on {
        proof {
            reveal_strlit("   ");
        }
        out.append("   ");
        push_decimal(out, n);
    }
    assert(final(out)@ =~= old(out)@ + field_if(on, n as nat));
}

/// The line printed for `stats` under `options`.
pub fn render(stats: &Stats, options: &Options) -> (r: String)
    ensures
        r@ == report_line(*stats, options.lines, options.words, options.bytes, options.chars),
{
    let mut out = String::new();
    push_field(&mut out, options.lines, stats.lines);
    push_field(&mut out, options.words, stats.words);
    push_field(&mut out, options.bytes, stats.bytes);
    push_field(&mut out, options.chars, stats.chars);
    proof {
        reveal_strlit("\n");
    }
    out.append("\n");
    assert(out@ =~= report_line(*stats, options.lines, options.words, options.bytes, options.chars));
    out
}

} // verus!
