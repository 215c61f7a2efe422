//! Numbers and bytes as text.

use vstd::prelude::*;
use vstd::string::StringExecFns;

verus! {

/// The digit with value `d`, in lower case.
pub open spec fn digit(d: int) -> char {
    if d < 10 {
        (48 + d) as char
    } else {
        (87 + d) as char
    }
}

/// `n` in decimal.
pub open spec fn decimal(n: nat) -> Seq<char>
    decreases n,
{
    if n < 10 {
        seq![digit(n as int)]
    } else {
        decimal(n / 10).push(digit((n % 10) as int))
    }
}

/// The bytes of `s` in hexadecimal, two digits each.
pub open spec fn hex(s: Seq<u8>) -> Seq<char>
    decreases s.len(),
{
    if s.len() == 0 {
        Seq::empty()
    } else {
        hex(s.drop_last()) + seq![digit((s.last() / 16) as int), digit((s.last() % 16) as int)]
    }
}

/// The value of a hexadecimal digit, in either case.
pub open spec fn digit_value(c: char) -> Option<int> {
    let n = c as int;
    if 48 <= n <= 57 {
        Some(n - 48)
    } else if 97 <= n <= 102 {
        Some(n - 87)
    } else if 65 <= n <= 70 {
        Some(n - 55)
    } else {
        None
    }
}

/// The bytes that pairs of hexadecimal digits spell, if `s` is made of such pairs.
pub open spec fn unhex(s: Seq<char>) -> Option<Seq<u8>>
    decreases s.len(),
{
    if s.len() == 0 {
        Some(Seq::empty())
    } else if s.len() == 1 {
        None
    } else {
        let high = digit_value(s[s.len() - 2]);
        let low = digit_value(s[s.len() - 1]);
        match (unhex(s.take(s.len() - 2)), high, low) {
            (Some(before), Some(h), Some(l)) => Some(before.push((16 * h + l) as u8)),
            _ => None,
        }
    }
}

/// What is written in hexadecimal is read back.
pub proof fn hex_round_trip(s: Seq<u8>)
    ensures
        unhex(hex(s)) == Some(s),
        hex(s).len() == 2 * s.len(),
    decreases s.len(),
{
    if s.len() == 0 {
        assert(unhex(hex(s)) == Some(Seq::<u8>::empty()));
        assert(s =~= Seq::empty());
    } else {
        hex_round_trip(s.drop_last());
        let t = hex(s);
        let h = (s.last() / 16) as int;
        let l = (s.last() % 16) as int;
        assert(t[t.len() - 2] == digit(h) && t[t.len() - 1] == digit(l));
        assert(t.take(t.len() - 2) =~= hex(s.drop_last()));
        assert(s.drop_last().push(s.last()) =~= s);
    }
}

fn digit_text(d: u8) -> (r: &'static str)
    requires
        d < 16,
    ensures
        r@ == seq![digit(d as int)],
{
    proof {
        reveal_strlit("0");
        reveal_strlit("1");
        reveal_strlit("2");
        reveal_strlit("3");
        reveal_strlit("4");
        reveal_strlit("5");
        reveal_strlit("6");
        reveal_strlit("7");
        reveal_strlit("8");
        reveal_strlit("9");
        reveal_strlit("a");
        reveal_strlit("b");
        reveal_strlit("c");
        reveal_strlit("d");
        reveal_strlit("e");
        reveal_strlit("f");
    }
    let r = match d {
        0 => "0",
        1 => "1",
        2 => "2",
        3 => "3",
        4 => "4",
        5 => "5",
        6 => "6",
        7 => "7",
        8 => "8",
        9 => "9",
        10 => "a",
        11 => "b",
        12 => "c",
        13 => "d",
        14 => "e",
        _ => "f",
    };
    assert(r@ =~= seq![digit(d as int)]);
    r
}

/// Appends a number in decimal.
pub fn push_decimal(out: &mut String, n: u64)
    ensures
        final(out)@ == old(out)@ + decimal(n as nat),
    decreases n,
{
    let ghost before = out@;
    if n >= 10 {
        push_decimal(out, n / 10);
    }
    out.append(digit_text((n % 10) as u8));
    assert(out@ =~= before + decimal(n as nat));
}

/// Appends bytes in hexadecimal.
pub fn push_hex(out: &mut String, s: &[u8])
    ensures
        final(out)@ == old(out)@ + hex(s@),
{
    let ghost before = out@;
    let mut i: usize = 0;
    assert(out@ =~= before + hex(s@.take(0)));
    while i < s.len()
        invariant
            i <= s@.len(),
            out@ == before + hex(s@.take(i as int)),
        decreases s@.len() - i,
    {
        out.append(digit_text(s[i] / 16));
        out.append(digit_text(s[i] % 16));
        i = i + 1;
        proof {
            let t = s@.take(i as int);
            assert(t.drop_last() =~= s@.take(i - 1));
            assert(out@ =~= before + hex(t));
        }
    }
    assert(s@.take(i as int) =~= s@);
}

/// The number that decimal digits spell.
pub open spec fn decimal_value(s: Seq<char>) -> nat
    decreases s.len(),
{
    if s.len() == 0 {
        0
    } else {
        (10 * decimal_value(s.drop_last()) + (s.last() as int - 48)) as nat
    }
}

/// A number in decimal is made of digits, spells the number, and begins with a zero only
/// where it is zero.
pub proof fn decimal_spells(n: nat)
    ensures
        decimal(n).len() > 0,
        forall|i: int| 0 <= i < decimal(n).len() ==> 48 <= #[trigger] decimal(n)[i] as int <= 57,
        decimal_value(decimal(n)) == n,
        decimal(n)[0] == '0' ==> n == 0,
    decreases n,
{
    if n < 10 {
        assert(decimal(n).drop_last() =~= Seq::empty());
        assert(decimal_value(decimal(n).drop_last()) == 0);
        assert(decimal(n).last() as int == 48 + n);
    } else {
        decimal_spells(n / 10);
        assert(decimal(n).drop_last() =~= decimal(n / 10));
        assert(decimal(n).last() as int == 48 + n % 10);
    }
}

/// Each byte is written with two digits, the more significant one first, in lower case.
pub proof fn hex_digits_stand_in_order(s: Seq<u8>, i: int)
    requires
        0 <= i < s.len(),
    ensures
        hex(s).len() == 2 * s.len(),
        digit_value(hex(s)[2 * i]) == Some((s[i] / 16) as int),
        digit_value(hex(s)[2 * i + 1]) == Some((s[i] % 16) as int),
        !(65 <= hex(s)[2 * i] as int <= 90),
        !(65 <= hex(s)[2 * i + 1] as int <= 90),
    decreases s.len(),
{
    hex_round_trip(s);
    hex_round_trip(s.drop_last());
    if i < s.len() - 1 {
        hex_digits_stand_in_order(s.drop_last(), i);
        assert(hex(s)[2 * i] == hex(s.drop_last())[2 * i]);
        assert(hex(s)[2 * i + 1] == hex(s.drop_last())[2 * i + 1]);
    }
}

/// A hexadecimal digit has the same value in either case, and nothing else is a digit.
pub proof fn hex_digits_have_their_values(c: char)
    ensures
        '0' <= c <= '9' ==> digit_value(c) == Some(c as int - '0' as int),
        'a' <= c <= 'f' ==> digit_value(c) == Some(10 + c as int - 'a' as int),
        'A' <= c <= 'F' ==> digit_value(c) == Some(10 + c as int - 'A' as int),
        digit_value(c) is Some ==> '0' <= c <= '9' || 'a' <= c <= 'f' || 'A' <= c <= 'F',
{
}

} // verus!
