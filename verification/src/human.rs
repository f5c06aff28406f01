//! Numbers written for people: decimal digits grouped in threes by commas,
//! as the store's reports print sizes and counts.
use vstd::prelude::*;
use vstd::string::StringExecFns;

verus! {

/// The character of the decimal digit `d`.
pub open spec fn digit_char(d: int) -> char {
    if d == 0 {
        '0'
    } else if d == 1 {
        '1'
    } else if d == 2 {
        '2'
    } else if d == 3 {
        '3'
    } else if d == 4 {
        '4'
    } else if d == 5 {
        '5'
    } else if d == 6 {
        '6'
    } else if d == 7 {
        '7'
    } else if d == 8 {
        '8'
    } else {
        '9'
    }
}

/// The decimal digits of `n`, most significant first, with no leading zero.
pub open spec fn decimal(n: nat) -> Seq<char>
    decreases n,
{
    if n < 10 {
        seq![digit_char(n as int)]
    } else {
        decimal(n / 10).push(digit_char((n % 10) as int))
    }
}

/// `s` with a comma put before every group of three characters counted from
/// the right, except before the first character.
pub open spec fn group_thousands(s: Seq<char>) -> Seq<char>
    decreases s.len(),
{
    if s.len() <= 3 {
        s
    } else {
        group_thousands(s.subrange(0, s.len() - 3)) + seq![','] + s.subrange(s.len() - 3, s.len() as int)
    }
}

/// The one-character string of the digit `d`.
fn digit_str(d: u64) -> (r: &'static str)
    requires
        d < 10,
    ensures
        r@ == seq![digit_char(d as int)],
{
    proof {
        reveal_strlit("0");
        reveal_strlit("1");
        reveal_strlit("2");
        reveal_strlit("3");
        reveal_strlit("4");
        reveal_strlit("5");
        reveal_strlit("6");
        reveal_strlit("7");
        reveal_strlit("8");
        reveal_strlit("9");
    }
    if d == 0 {
        "0"
    } else if d == 1 {
        "1"
    } else if d == 2 {
        "2"
    } else if d == 3 {
        "3"
    } else if d == 4 {
        "4"
    } else if d == 5 {
        "5"
    } else if d == 6 {
        "6"
    } else if d == 7 {
        "7"
    } else if d == 8 {
        "8"
    } else {
        "9"
    }
}

proof fn lemma_decimal_nonempty(n: nat)
    ensures
        decimal(n).len() >= 1,
        n >= 10 ==> decimal(n).len() >= 2,
        n >= 100 ==> decimal(n).len() >= 3,
        n >= 1000 ==> decimal(n).len() >= 4,
    decreases n,
{
    if n >= 10 {
        lemma_decimal_nonempty(n / 10);
    }
}

proof fn lemma_decimal_short(n: nat)
    requires
        n < 1000,
    ensures
        decimal(n).len() <= 3,
    decreases n,
{
    if n >= 10 {
        lemma_decimal_short_2(n / 10);
    }
}

proof fn lemma_decimal_short_2(n: nat)
    requires
        n < 100,
    ensures
        decimal(n).len() <= 2,
{
    if n >= 10 {
        assert(n / 10 < 10);
        assert(decimal(n / 10).len() == 1);
    }
}

/// Past three digits, the decimal digits of `n` are those of `n / 1000`
/// followed by the three digits of `n % 1000`.
proof fn lemma_decimal_thousands(n: nat)
    requires
        n >= 1000,
    ensures
        decimal(n) =~= decimal(n / 1000) + seq![
            digit_char((n / 100 % 10) as int),
            digit_char((n / 10 % 10) as int),
            digit_char((n % 10) as int),
        ],
{
    let a = n / 10;
    let b = a / 10;
    assert(b == n / 100) by {
        vstd::arithmetic::div_mod::lemma_div_denominator(n as int, 10, 10);
    }
    assert(b / 10 == n / 1000) by {
        vstd::arithmetic::div_mod::lemma_div_denominator(n as int, 100, 10);
    }
    assert(a % 10 == n / 10 % 10);
    assert(decimal(n) == decimal(a).push(digit_char((n % 10) as int)));
    assert(decimal(a) == decimal(b).push(digit_char((a % 10) as int)));
    assert(decimal(b) == decimal(b / 10).push(digit_char((b % 10) as int)));
}

/// Appends the decimal digits of `n` to `s`.
fn push_decimal(s: &mut String, n: u64)
    ensures
        final(s)@ == old(s)@ + decimal(n as nat),
    decreases n,
{
    if n >= 10 {
        push_decimal(s, n / 10);
    }
    s.append(digit_str(n % 10));
    proof {
        if n < 10 {
            assert(n % 10 == n);
        }
        assert(final(s)@ =~= old(s)@ + decimal(n as nat));
    }
}

/// `n` in decimal, its digits grouped in threes by commas: 1234567 is
/// written "1,234,567".
pub fn human(n: u64) -> (r: String)
    ensures
        r@ == group_thousands(decimal(n as nat)),
    decreases n,
{
    if n < 1000 {
        let mut s = String::new();
        push_decimal(&mut s, n);
        proof {
            lemma_decimal_short(n as nat);
            assert(s@ =~= decimal(n as nat));
        }
        s
    } else {
        let mut s = human(n / 1000);
        s.append(",");
        s.append(digit_str(n / 100 % 10));
        s.append(digit_str(n / 10 % 10));
        s.append(digit_str(n % 10));
        proof {
            reveal_strlit(",");
            let d = decimal(n as nat);
            lemma_decimal_thousands(n as nat);
            lemma_decimal_nonempty(n as nat);
            assert(d.subrange(0, d.len() - 3) =~= decimal((n / 1000) as nat));
            assert(s@ =~= group_thousands(d));
        }
        s
    }
}

proof fn lemma_grouping_keeps_chars(s: Seq<char>)
    requires
        forall|i: int| 0 <= i < s.len() ==> s[i] != ',',
    ensures
        group_thousands(s).filter(|c: char| c != ',') == s,
    decreases s.len(),
{
    reveal(Seq::filter);
    broadcast use Seq::filter_distributes_over_add;

    if s.len() <= 3 {
        lemma_filter_no_commas(s);
    } else {
        let head = s.subrange(0, s.len() - 3);
        let tail = s.subrange(s.len() - 3, s.len() as int);
        lemma_grouping_keeps_chars(head);
        lemma_filter_no_commas(tail);
        assert(seq![','].filter(|c: char| c != ',') =~= Seq::<char>::empty()) by {
            let e = seq![','];
            assert(e.drop_last() =~= Seq::<char>::empty());
            assert(e.last() == ',');
            assert(Seq::<char>::empty().filter(|c: char| c != ',') =~= Seq::<char>::empty());
            assert(e.drop_last().filter(|c: char| c != ',') =~= Seq::<char>::empty());
        }
        assert(head + tail =~= s);
    }
}

proof fn lemma_decimal_has_no_comma(n: nat)
    ensures
        forall|i: int| 0 <= i < decimal(n).len() ==> decimal(n)[i] != ',',
    decreases n,
{
    if n >= 10 {
        lemma_decimal_has_no_comma(n / 10);
        let d = decimal(n);
        assert(d == decimal(n / 10).push(digit_char((n % 10) as int)));
        assert forall|i: int| 0 <= i < d.len() implies d[i] != ',' by {
            if i < d.len() - 1 {
                assert(d[i] == decimal(n / 10)[i]);
            }
        }
    }
}

/// Dropping the commas from what `human` writes for `n` gives back the
/// decimal digits of `n`: the grouping adds commas and nothing else.
pub proof fn law_human_keeps_digits(n: nat)
    ensures
        group_thousands(decimal(n)).filter(|c: char| c != ',') == decimal(n),
{
    lemma_decimal_has_no_comma(n);
    lemma_grouping_keeps_chars(decimal(n));
}

proof fn lemma_filter_no_commas(s: Seq<char>)
    requires
        forall|i: int| 0 <= i < s.len() ==> s[i] != ',',
    ensures
        s.filter(|c: char| c != ',') == s,
    decreases s.len(),
{
    reveal(Seq::filter);
    if s.len() > 0 {
        lemma_filter_no_commas(s.drop_last());
        assert(s.drop_last().push(s.last()) =~= s);
    }
}

proof fn lemma_grouping_shape(s: Seq<char>)
    requires
        s.len() >= 1,
        forall|i: int| 0 <= i < s.len() ==> s[i] != ',',
    ensures
        group_thousands(s).len() == s.len() + (s.len() - 1) / 3,
        forall|i: int|
            0 <= i < group_thousands(s).len() ==> (#[trigger] group_thousands(s)[i] == ',' <==> (
            group_thousands(s).len() - i) % 4 == 0),
    decreases s.len(),
{
    let t = group_thousands(s);
    if s.len() > 3 {
        let head = s.subrange(0, s.len() - 3);
        let tail = s.subrange(s.len() - 3, s.len() as int);
        lemma_grouping_shape(head);
        let g = group_thousands(head);
        assert(t == g + seq![','] + tail);
        assert forall|i: int| 0 <= i < t.len() implies (#[trigger] t[i] == ',' <==> (t.len() - i) % 4 == 0) by {
            if i < g.len() {
                assert(t[i] == g[i]);
                assert((t.len() - i) % 4 == (g.len() - i) % 4);
            } else if i == g.len() {
                assert(t[i] == ',');
            } else {
                assert(t[i] == tail[i - g.len() - 1]);
                assert(tail[i - g.len() - 1] == s[s.len() - 3 + (i - g.len() - 1)]);
            }
        }
    }
}

/// What `human` writes for `n` has its commas exactly where groups of three
/// digits start, counting from the right: the characters between two
/// commas, and after the last one, are three digits, and those before the
/// first comma are one to three digits.
pub proof fn law_human_groups_of_three(n: nat)
    ensures
        group_thousands(decimal(n)).len() == decimal(n).len() + (decimal(n).len() - 1) / 3,
        forall|i: int|
            0 <= i < group_thousands(decimal(n)).len() ==> (#[trigger] group_thousands(decimal(n))[i] == ','
                <==> (group_thousands(decimal(n)).len() - i) % 4 == 0),
        1 <= group_thousands(decimal(n)).len() % 4 <= 3,
{
    lemma_decimal_nonempty(n);
    lemma_decimal_has_no_comma(n);
    lemma_grouping_shape(decimal(n));
}

} // verus!
