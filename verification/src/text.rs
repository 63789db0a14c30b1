//! Decimal text for numbers.

use vstd::prelude::*;
use vstd::string::StringExecFns;

verus! {

/// The character for one decimal digit.
pub open spec fn digit(d: int) -> char {
    if d == 0 {
        '0'
    } else if d == 1 {
        '1'
    } else if d == 2 {
        '2'
    } else if d == 3 {
        '3'
    } else if d == 4 {
        '4'
    } else if d == 5 {
        '5'
    } else if d == 6 {
        '6'
    } else if d == 7 {
        '7'
    } else if d == 8 {
        '8'
    } else {
        '9'
    }
}

/// The decimal digits of `n`, the most significant first, without leading
/// zeros.
pub open spec fn digits(n: nat) -> Seq<char>
    decreases n,
{
    if n < 10 {
        seq![digit(n as int)]
    } else {
        digits(n / 10).push(digit((n % 10) as int))
    }
}

/// The decimal text of `n`, with a minus sign where it is negative.
pub open spec fn decimal(n: int) -> Seq<char> {
    if n < 0 {
        seq!['-'] + digits((-n) as nat)
    } else {
        digits(n as nat)
    }
}

/// The text of one decimal digit.
fn digit_text(d: u64) -> (s: &'static str)
    requires
        d < 10,
    ensures
        s@ == seq![digit(d as int)],
{
    proof {
        reveal_strlit("0");
        reveal_strlit("1");
        reveal_strlit("2");
        reveal_strlit("3");
        reveal_strlit("4");
        reveal_strlit("5");
        reveal_strlit("6");
        reveal_strlit("7");
        reveal_strlit("8");
        reveal_strlit("9");
    }
    let s = if d == 0 {
        "0"
    } else if d == 1 {
        "1"
    } else if d == 2 {
        "2"
    } else if d == 3 {
        "3"
    } else if d == 4 {
        "4"
    } else if d == 5 {
        "5"
    } else if d == 6 {
        "6"
    } else if d == 7 {
        "7"
    } else if d == 8 {
        "8"
    } else {
        "9"
    };
    assert(s@ =~= seq![digit(d as int)]);
    s
}

/// Writes the decimal digits of `n` behind what `out` holds.
pub fn push_digits(out: &mut String, n: u64)
    ensures
        final(out)@ == old(out)@ + digits(n as nat),
    decreases n,
{
    if n >= 10 {
        push_digits(out, n / 10);
    }
    out.append(digit_text(n % 10));
    assert(final(out)@ =~= old(out)@ + digits(n as nat));
}

/// The decimal text of an unsigned number.
pub fn unsigned_text(n: u64) -> (s: String)
    ensures
        s@ == decimal(n as int),
{
    let mut s = String::new();
    push_digits(&mut s, n);
    assert(s@ =~= decimal(n as int));
    s
}

/// The decimal text of a signed number.
pub fn signed_text(n: i64) -> (s: String)
    ensures
        s@ == decimal(n as int),
{
    let mut s = String::new();
    if n < 0 {
        proof {
            reveal_strlit("-");
        }
        s.append("-");
        let magnitude: u64 = if n == i64::MIN {
            9223372036854775808u64
        } else {
            (-n) as u64
        };
        push_digits(&mut s, magnitude);
        assert(s@ =~= decimal(n as int));
    } else {
        push_digits(&mut s, n as u64);
        assert(s@ =~= decimal(n as int));
    }
    s
}

/// The views of the given texts.
pub open spec fn views(texts: Seq<String>) -> Seq<Seq<char>> {
    Seq::new(texts.len(), |i: int| texts[i]@)
}

/// The texts one after another, with `sep` between each two.
pub open spec fn joined(texts: Seq<Seq<char>>, sep: Seq<char>) -> Seq<char>
    decreases texts.len(),
{
    if texts.len() == 0 {
        Seq::empty()
    } else if texts.len() == 1 {
        texts[0]
    } else {
        joined(texts.drop_last(), sep) + sep + texts.last()
    }
}

/// The texts one after another, with `sep` between each two.
pub fn join(texts: &Vec<String>, sep: &str) -> (s: String)
    ensures
        s@ == joined(views(texts@), sep@),
{
    let mut s = String::new();
    let mut i: usize = 0;
    proof {
        assert(views(texts@.subrange(0, 0)) =~= Seq::<Seq<char>>::empty());
    }
    while i < texts.len()
        invariant
            i <= texts@.len(),
            s@ == joined(views(texts@.subrange(0, i as int)), sep@),
        decreases texts@.len() - i,
    {
        let ghost before = views(texts@.subrange(0, i as int));
        let ghost after = views(texts@.subrange(0, i + 1));
        if i > 0 {
            s.append(sep);
        }
        s.append(texts[i].as_str());
        proof {
            assert(after.drop_last() =~= before);
            assert(after.last() == texts@[i as int]@);
            if i == 0 {
                assert(s@ =~= after[0]);
            } else {
                assert(s@ =~= joined(before, sep@) + sep@ + after.last());
            }
        }
        i += 1;
    }
    assert(texts@.subrange(0, i as int) =~= texts@);
    s
}

} // verus!
