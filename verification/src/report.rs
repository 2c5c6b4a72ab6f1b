//! The text of a diagnostic report on the structure of a set.

use vstd::prelude::*;
use vstd::string::StringExecFns;

verus! {

/// The character for the digit `d`.
pub open spec fn digit(d: nat) -> char {
    if d == 0 {
        '0'
    } else if d == 1 {
        '1'
    } else if d == 2 {
        '2'
    } else if d == 3 {
        '3'
    } else if d == 4 {
        '4'
    } else if d == 5 {
        '5'
    } else if d == 6 {
        '6'
    } else if d == 7 {
        '7'
    } else if d == 8 {
        '8'
    } else {
        '9'
    }
}

/// The number `n` in decimal digits, without leading zeros.
pub open spec fn decimal(n: nat) -> Seq<char>
    decreases n,
{
    if n < 10 {
        seq![digit(n)]
    } else {
        decimal(n / 10).push(digit(n % 10))
    }
}

/// The numbers `sizes` in decimal digits, separated by a comma and a blank.
pub open spec fn listed(sizes: Seq<nat>) -> Seq<char>
    decreases sizes.len(),
{
    if sizes.len() == 0 {
        Seq::empty()
    } else if sizes.len() == 1 {
        decimal(sizes[0])
    } else {
        listed(sizes.drop_last()) + ", "@ + decimal(sizes.last())
    }
}

/// The report on a set whose buckets may hold `max` terms each, which holds
/// `size` terms, and whose buckets hold `sizes` terms.
pub open spec fn report_text(max: nat, size: nat, sizes: Seq<nat>) -> Seq<char> {
    "SortedSet { max_bucket_size: "@ + decimal(max) + ", size: "@ + decimal(size)
        + ", buckets: ["@ + listed(sizes) + "] }"@
}

/// The text of one digit.
fn digit_text(d: usize) -> (text: &'static str)
    requires
        d < 10,
    ensures
        text@ == seq![digit(d as nat)],
{
    proof {
        reveal_strlit("0");
        reveal_strlit("1");
        reveal_strlit("2");
        reveal_strlit("3");
        reveal_strlit("4");
        reveal_strlit("5");
        reveal_strlit("6");
        reveal_strlit("7");
        reveal_strlit("8");
        reveal_strlit("9");
    }
    let text = if d == 0 {
        "0"
    } else if d == 1 {
        "1"
    } else if d == 2 {
        "2"
    } else if d == 3 {
        "3"
    } else if d == 4 {
        "4"
    } else if d == 5 {
        "5"
    } else if d == 6 {
        "6"
    } else if d == 7 {
        "7"
    } else if d == 8 {
        "8"
    } else {
        "9"
    };
    assert(text@ =~= seq![digit(d as nat)]);
    text
}

/// Appends `n` in decimal digits to `text`.
fn append_decimal(text: &mut String, n: usize)
    ensures
        final(text)@ == old(text)@ + decimal(n as nat),
    decreases n,
{
    if n >= 10 {
        append_decimal(text, n / 10);
    }
    text.append(digit_text(n % 10));
    assert(text@ =~= old(text)@ + decimal(n as nat));
}

/// Writes the report on a set whose buckets may hold `max` terms each, which
/// holds `size` terms, and whose buckets hold `sizes` terms.
pub fn write_report(max: usize, size: usize, sizes: &Vec<usize>) -> (text: String)
    ensures
        text@ == report_text(max as nat, size as nat, sizes@.map_values(|n: usize| n as nat)),
{
    let ghost all = sizes@.map_values(|n: usize| n as nat);
    let mut text = String::from_str("SortedSet { max_bucket_size: ");
    append_decimal(&mut text, max);
    text.append(", size: ");
    append_decimal(&mut text, size);
    text.append(", buckets: [");
    let ghost head = text@;
    let mut i: usize = 0;
    assert(listed(all.take(0)) =~= Seq::<char>::empty());
    while i < sizes.len()
        invariant
            i <= sizes.len(),
            all == sizes@.map_values(|n: usize| n as nat),
            text@ == head + listed(all.take(i as int)),
        decreases sizes.len() - i,
    {
        proof {
            assert(all.take(i + 1).drop_last() =~= all.take(i as int));
            assert(all.take(i + 1).last() == sizes@[i as int] as nat);
        }
        if i > 0 {
            text.append(", ");
        }
        append_decimal(&mut text, sizes[i]);
        assert(text@ =~= head + listed(all.take(i + 1)));
        i += 1;
    }
    assert(all.take(i as int) =~= all);
    text.append("] }");
    assert(text@ =~= report_text(max as nat, size as nat, all));
    text
}

} // verus!
