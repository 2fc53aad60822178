//! Numbers as text.

use vstd::prelude::*;
use vstd::string::StringExecFns;

verus! {

/// The character of the digit `d`, in lower or upper case.
pub open spec fn digit_char(d: int, upper: bool) -> char {
    if d == 0 {
        '0'
    } else if d == 1 {
        '1'
    } else if d == 2 {
        '2'
    } else if d == 3 {
        '3'
    } else if d == 4 {
        '4'
    } else if d == 5 {
        '5'
    } else if d == 6 {
        '6'
    } else if d == 7 {
        '7'
    } else if d == 8 {
        '8'
    } else if d == 9 {
        '9'
    } else if d == 10 {
        if upper {
            'A'
        } else {
            'a'
        }
    } else if d == 11 {
        if upper {
            'B'
        } else {
            'b'
        }
    } else if d == 12 {
        if upper {
            'C'
        } else {
            'c'
        }
    } else if d == 13 {
        if upper {
            'D'
        } else {
            'd'
        }
    } else if d == 14 {
        if upper {
            'E'
        } else {
            'e'
        }
    } else {
        if upper {
            'F'
        } else {
            'f'
        }
    }
}

/// The digits of `n` in base `radix`, the most significant first, without
/// leading zeros.
pub open spec fn digits(n: nat, radix: nat, upper: bool) -> Seq<char>
    decreases n,
{
    if n < radix || radix < 2 {
        seq![digit_char(n as int, upper)]
    } else {
        proof {
            assert(n / radix < n) by (nonlinear_arith)
                requires
                    2 <= radix <= n,
            ;
        }
        digits(n / radix, radix, upper).push(digit_char((n % radix) as int, upper))
    }
}

fn digit_text(d: usize, upper: bool) -> (text: &'static str)
    requires
        d < 16,
    ensures
        text@ == seq![digit_char(d as int, upper)],
{
    proof {
        reveal_strlit("0");
        reveal_strlit("1");
        reveal_strlit("2");
        reveal_strlit("3");
        reveal_strlit("4");
        reveal_strlit("5");
        reveal_strlit("6");
        reveal_strlit("7");
        reveal_strlit("8");
        reveal_strlit("9");
        reveal_strlit("a");
        reveal_strlit("b");
        reveal_strlit("c");
        reveal_strlit("d");
        reveal_strlit("e");
        reveal_strlit("f");
        reveal_strlit("A");
        reveal_strlit("B");
        reveal_strlit("C");
        reveal_strlit("D");
        reveal_strlit("E");
        reveal_strlit("F");
    }
    let text = if d == 0 {
        "0"
    } else if d == 1 {
        "1"
    } else if d == 2 {
        "2"
    } else if d == 3 {
        "3"
    } else if d == 4 {
        "4"
    } else if d == 5 {
        "5"
    } else if d == 6 {
        "6"
    } else if d == 7 {
        "7"
    } else if d == 8 {
        "8"
    } else if d == 9 {
        "9"
    } else if upper {
        if d == 10 {
            "A"
        } else if d == 11 {
            "B"
        } else if d == 12 {
            "C"
        } else if d == 13 {
            "D"
        } else if d == 14 {
            "E"
        } else {
            "F"
        }
    } else {
        if d == 10 {
            "a"
        } else if d == 11 {
            "b"
        } else if d == 12 {
            "c"
        } else if d == 13 {
            "d"
        } else if d == 14 {
            "e"
        } else {
            "f"
        }
    };
    assert(text@ =~= seq![digit_char(d as int, upper)]);
    text
}

/// Appends the digits of `n` in base `radix` to `text`.
pub fn append_number(text: &mut String, n: usize, radix: usize, upper: bool)
    requires
        2 <= radix <= 16,
    ensures
        final(text)@ == old(text)@ + digits(n as nat, radix as nat, upper),
    decreases n,
{
    proof {
        vstd::arithmetic::div_mod::lemma_fundamental_div_mod(n as int, radix as int);
        assert(0 <= (n as int) % (radix as int) < radix) by (nonlinear_arith)
            requires
                0 < radix,
        ;
        if n >= radix {
            assert((n as int) / (radix as int) < n) by (nonlinear_arith)
                requires
                    2 <= radix <= n,
            ;
        } else {
            vstd::arithmetic::div_mod::lemma_small_mod(n as nat, radix as nat);
        }
    }
    if n >= radix {
        append_number(text, n / radix, radix, upper);
    }
    text.append(digit_text(n % radix, upper));
    proof {
        if n >= radix {
            assert(old(text)@ + digits((n / radix) as nat, radix as nat, upper) + seq![
                digit_char((n % radix) as int, upper),
            ] =~= old(text)@ + digits(n as nat, radix as nat, upper));
        }
    }
}

/// The digits of `n` in base `radix`, as a string.
pub fn number_text(n: usize, radix: usize, upper: bool) -> (text: String)
    requires
        2 <= radix <= 16,
    ensures
        text@ == digits(n as nat, radix as nat, upper),
{
    let mut text = String::new();
    append_number(&mut text, n, radix, upper);
    assert(Seq::<char>::empty() + digits(n as nat, radix as nat, upper) =~= digits(
        n as nat,
        radix as nat,
        upper,
    ));
    text
}

} // verus!
