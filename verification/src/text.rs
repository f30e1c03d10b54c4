//! Building blocks of the error messages: numbers, pairs and lists in decimal.

use vstd::prelude::*;
use vstd::string::StringExecFns;

verus! {

/// A decimal digit.
pub open spec fn digit(d: nat) -> Seq<char> {
    if d == 0 {
        "0"@
    } else if d == 1 {
        "1"@
    } else if d == 2 {
        "2"@
    } else if d == 3 {
        "3"@
    } else if d == 4 {
        "4"@
    } else if d == 5 {
        "5"@
    } else if d == 6 {
        "6"@
    } else if d == 7 {
        "7"@
    } else if d == 8 {
        "8"@
    } else {
        "9"@
    }
}

/// A number in decimal, without leading zeros.
pub open spec fn decimal(n: nat) -> Seq<char>
    decreases n,
{
    if n < 10 {
        digit(n)
    } else {
        decimal(n / 10) + digit(n % 10)
    }
}

/// A pair in round brackets.
pub open spec fn pair(p: (usize, usize)) -> Seq<char> {
    "("@ + decimal(p.0 as nat) + ", "@ + decimal(p.1 as nat) + ")"@
}

/// Numbers separated by a comma and a space.
pub open spec fn comma_separated(ns: Seq<usize>) -> Seq<char>
    decreases ns.len(),
{
    if ns.len() == 0 {
        Seq::empty()
    } else if ns.len() == 1 {
        decimal(ns[0] as nat)
    } else {
        comma_separated(ns.drop_last()) + ", "@ + decimal(ns.last() as nat)
    }
}

/// A list in square brackets.
pub open spec fn list(ns: Seq<usize>) -> Seq<char> {
    "["@ + comma_separated(ns) + "]"@
}

fn digit_str(d: usize) -> (r: &'static str)
    requires
        d < 10,
    ensures
        r@ == digit(d as nat),
{
    match d {
        0 => "0",
        1 => "1",
        2 => "2",
        3 => "3",
        4 => "4",
        5 => "5",
        6 => "6",
        7 => "7",
        8 => "8",
        _ => "9",
    }
}

/// Appends `n` in decimal.
pub(crate) fn push_decimal(out: &mut String, n: usize)
    ensures
        final(out)@ == old(out)@ + decimal(n as nat),
    decreases n,
{
    if n >= 10 {
        push_decimal(out, n / 10);
    }
    out.append(digit_str(n % 10));
    assert(out@ =~= old(out)@ + decimal(n as nat));
}

/// Appends a pair.
pub(crate) fn push_pair(out: &mut String, p: (usize, usize))
    ensures
        final(out)@ == old(out)@ + pair(p),
{
    out.append("(");
    push_decimal(out, p.0);
    out.append(", ");
    push_decimal(out, p.1);
    out.append(")");
    assert(out@ =~= old(out)@ + pair(p));
}

/// Appends a list.
pub(crate) fn push_list(out: &mut String, ns: &Vec<usize>)
    ensures
        final(out)@ == old(out)@ + list(ns@),
{
    out.append("[");
    let mut i: usize = 0;
    while i < ns.len()
        invariant
            i <= ns@.len(),
            out@ == old(out)@ + "["@ + comma_separated(ns@.take(i as int)),
        decreases ns@.len() - i,
    {
        let ghost before = out@;
        if i > 0 {
            out.append(", ");
        }
        push_decimal(out, ns[i]);
        proof {
            let shorter = ns@.take(i as int);
            let longer = ns@.take(i + 1);
            assert(longer.drop_last() =~= shorter);
            assert(longer.last() == ns@[i as int]);
            assert(out@ =~= old(out)@ + "["@ + comma_separated(longer));
        }
        i = i + 1;
    }
    out.append("]");
    assert(ns@.take(ns@.len() as int) =~= ns@);
    assert(out@ =~= old(out)@ + list(ns@));
}

/// The number that a text of decimal digits stands for.
pub open spec fn number(text: Seq<char>) -> int
    decreases text.len(),
{
    if text.len() == 0 {
        0
    } else {
        number(text.drop_last()) * 10 + (text.last() as int - '0' as int)
    }
}

/// A number in decimal reads back as the number. It is made of digits, at least one, and starts with
/// a zero only if it is zero.
pub proof fn lemma_decimal_reads_back(n: nat)
    ensures
        number(decimal(n)) == n,
        decimal(n).len() > 0,
        forall|i: int| 0 <= i < decimal(n).len() ==> '0' <= #[trigger] decimal(n)[i] <= '9',
        n > 0 ==> decimal(n)[0] != '0',
    decreases n,
{
    reveal_strlit("0");
    reveal_strlit("1");
    reveal_strlit("2");
    reveal_strlit("3");
    reveal_strlit("4");
    reveal_strlit("5");
    reveal_strlit("6");
    reveal_strlit("7");
    reveal_strlit("8");
    reveal_strlit("9");
    let last = digit(n % 10);
    assert(last.len() == 1 && last[0] as int - '0' as int == n % 10);
    if n < 10 {
        assert(decimal(n) =~= last);
        assert(decimal(n).drop_last() =~= Seq::empty());
        assert(number(decimal(n).drop_last()) == 0);
    } else {
        lemma_decimal_reads_back(n / 10);
        let front = decimal(n / 10);
        assert(decimal(n) =~= front.push(last[0]));
        assert(decimal(n).drop_last() =~= front);
        assert(decimal(n).last() == last[0]);
        assert forall|i: int| 0 <= i < decimal(n).len() implies '0' <= #[trigger] decimal(n)[i]
            <= '9' by {
            if i < front.len() {
                assert(decimal(n)[i] == front[i]);
            }
        }
        assert(decimal(n)[0] == front[0]);
    }
}

/// A list of one number is that number, and two lists are joined by a comma and a space: every number
/// is there, in its place.
pub proof fn lemma_list_names_every_number(ns: Seq<usize>, ms: Seq<usize>)
    requires
        ns.len() > 0,
        ms.len() > 0,
    ensures
        comma_separated(ns + ms) == comma_separated(ns) + ", "@ + comma_separated(ms),
        comma_separated(seq![ns[0]]) == decimal(ns[0] as nat),
        comma_separated(Seq::empty()).len() == 0,
        list(ns) == "["@ + comma_separated(ns) + "]"@,
    decreases ms.len(),
{
    let all = ns + ms;
    assert(all.drop_last() =~= ns + ms.drop_last());
    assert(all.last() == ms.last());
    if ms.len() == 1 {
        assert(ns + ms.drop_last() =~= ns);
        assert(ms.last() == ms[0]);
    } else {
        lemma_list_names_every_number(ns, ms.drop_last());
        assert(comma_separated(all) =~= comma_separated(ns) + ", "@ + comma_separated(ms));
    }
}

/// A pair is two numbers in round brackets.
pub proof fn lemma_pair_names_both_numbers(p: (usize, usize))
    ensures
        pair(p) == "("@ + decimal(p.0 as nat) + ", "@ + decimal(p.1 as nat) + ")"@,
{
}

} // verus!
