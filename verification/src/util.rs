//! Byte predicates and small output helpers shared by the tools.

use vstd::prelude::*;
use vstd::string::StringExecFns;

verus! {

/// The line-feed byte.
pub const NEWLINE: u8 = 10;

/// The horizontal-tab byte.
pub const TAB: u8 = 9;

/// True exactly of the line-feed byte.
pub fn is_newline(bt: u8) -> (r: bool)
    ensures
        r == (bt == NEWLINE),
{
    bt == NEWLINE
}

/// True exactly of the horizontal-tab byte.
pub fn is_tab(bt: u8) -> (r: bool)
    ensures
        r == (bt == TAB),
{
    bt == TAB
}

/// True exactly of the horizontal-tab and line-feed bytes.
pub fn is_tab_or_newline(bt: u8) -> (r: bool)
    ensures
        r == (bt == TAB || bt == NEWLINE),
{
    is_tab(bt) || is_newline(bt)
}

/// The character for the decimal digit `d`.
pub open spec fn digit_char(d: nat) -> char
    recommends
        d < 10,
{
    if d == 0 {
        '0'
    } else if d == 1 {
        '1'
    } else if d == 2 {
        '2'
    } else if d == 3 {
        '3'
    } else if d == 4 {
        '4'
    } else if d == 5 {
        '5'
    } else if d == 6 {
        '6'
    } else if d == 7 {
        '7'
    } else if d == 8 {
        '8'
    } else {
        '9'
    }
}

/// The decimal representation of `n`, most significant digit first, with
/// no leading zeros (zero itself is one digit).
pub open spec fn dec_digits(n: nat) -> Seq<char>
    decreases n,
{
    if n < 10 {
        seq![digit_char(n)]
    } else {
        dec_digits(n / 10) + seq![digit_char(n % 10)]
    }
}

/// The digit characters of `ds`, least significant digit first, reversed:
/// the digits of a number read back in print order.
pub open spec fn digits_reversed(ds: Seq<usize>) -> Seq<char>
    decreases ds.len(),
{
    if ds.len() == 0 {
        Seq::empty()
    } else {
        digits_reversed(ds.subrange(1, ds.len() as int)) + seq![digit_char(ds[0] as nat)]
    }
}

/// Appending a more significant digit puts its character in front.
proof fn lemma_digits_reversed_push(ds: Seq<usize>, d: usize)
    ensures
        digits_reversed(ds.push(d)) == seq![digit_char(d as nat)] + digits_reversed(ds),
    decreases ds.len(),
{
    let p = ds.push(d);
    assert(p.len() == ds.len() + 1);
    assert(digits_reversed(p) == digits_reversed(p.subrange(1, p.len() as int)) + seq![
        digit_char(p[0] as nat),
    ]);
    if ds.len() == 0 {
        assert(p[0] == d);
        assert(p.subrange(1, p.len() as int) =~= Seq::<usize>::empty());
        assert(digits_reversed(Seq::<usize>::empty()) =~= Seq::<char>::empty());
        assert(digits_reversed(ds) =~= Seq::<char>::empty());
        assert(Seq::<char>::empty() + seq![digit_char(d as nat)] =~= seq![digit_char(d as nat)]);
        assert(seq![digit_char(d as nat)] + digits_reversed(ds) =~= seq![digit_char(d as nat)]);
    } else {
        assert(p[0] == ds[0]);
        let sub = ds.subrange(1, ds.len() as int);
        assert(p.subrange(1, p.len() as int) =~= sub.push(d));
        lemma_digits_reversed_push(sub, d);
        assert(digits_reversed(ds) == digits_reversed(sub) + seq![digit_char(ds[0] as nat)]);
        assert((seq![digit_char(d as nat)] + digits_reversed(sub)) + seq![digit_char(ds[0] as nat)]
            =~= seq![digit_char(d as nat)] + (digits_reversed(sub) + seq![digit_char(ds[0] as nat)]));
    }
}

/// The one-character string for the decimal digit `d`.
fn digit_str(d: usize) -> (s: &'static str)
    requires
        d < 10,
    ensures
        s@ == seq![digit_char(d as nat)],
{
    proof {
        reveal_strlit("0");
        reveal_strlit("1");
        reveal_strlit("2");
        reveal_strlit("3");
        reveal_strlit("4");
        reveal_strlit("5");
        reveal_strlit("6");
        reveal_strlit("7");
        reveal_strlit("8");
        reveal_strlit("9");
    }
    let s = if d == 0 {
        "0"
    } else if d == 1 {
        "1"
    } else if d == 2 {
        "2"
    } else if d == 3 {
        "3"
    } else if d == 4 {
        "4"
    } else if d == 5 {
        "5"
    } else if d == 6 {
        "6"
    } else if d == 7 {
        "7"
    } else if d == 8 {
        "8"
    } else {
        "9"
    };
    proof {
        assert(s@ =~= seq![digit_char(d as nat)]);
    }
    s
}

/// Renders `n` in decimal.
pub fn usize_to_string(n: usize) -> (s: String)
    ensures
        s@ == dec_digits(n as nat),
{
    let mut ds: Vec<usize> = Vec::new();
    let mut m = n;
    proof {
        assert(digits_reversed(Seq::<usize>::empty()) =~= Seq::<char>::empty());
        assert(dec_digits(m as nat) + Seq::<char>::empty() =~= dec_digits(m as nat));
    }
    while m >= 10
        invariant
            forall|j: int| 0 <= j < ds@.len() ==> ds@[j] < 10,
            dec_digits(n as nat) == dec_digits(m as nat) + digits_reversed(ds@),
        decreases m,
    {
        let ghost m0 = m as nat;
        let ghost ds0 = ds@;
        let d = m % 10;
        ds.push(d);
        m = m / 10;
        proof {
            assert(m as nat == m0 / 10);
            assert(d as nat == m0 % 10);
            assert(dec_digits(m0) == dec_digits(m0 / 10) + seq![digit_char(m0 % 10)]);
            lemma_digits_reversed_push(ds0, d);
            assert((dec_digits(m0 / 10) + seq![digit_char(m0 % 10)]) + digits_reversed(ds0) =~=
                dec_digits(m0 / 10) + (seq![digit_char(m0 % 10)] + digits_reversed(ds0)));
        }
    }
    let ghost m_last = m as nat;
    let ghost ds_last = ds@;
    ds.push(m);
    proof {
        assert(dec_digits(m_last) == seq![digit_char(m_last)]);
        lemma_digits_reversed_push(ds_last, m);
        assert(seq![digit_char(m_last)] + digits_reversed(ds_last) =~= digits_reversed(ds@));
        assert(dec_digits(n as nat) =~= digits_reversed(ds@));
    }
    let mut s = String::new();
    let mut k = ds.len();
    proof {
        assert(ds@.subrange(k as int, ds@.len() as int) =~= Seq::<usize>::empty());
    }
    while k > 0
        invariant
            k <= ds.len(),
            forall|j: int| 0 <= j < ds@.len() ==> ds@[j] < 10,
            s@ == digits_reversed(ds@.subrange(k as int, ds@.len() as int)),
        decreases k,
    {
        k = k - 1;
        s.append(digit_str(ds[k]));
        proof {
            let sub = ds@.subrange(k as int, ds@.len() as int);
            assert(sub.subrange(1, sub.len() as int) =~= ds@.subrange(
                k as int + 1,
                ds@.len() as int,
            ));
            assert(digits_reversed(sub) == digits_reversed(sub.subrange(1, sub.len() as int))
                + seq![digit_char(sub[0] as nat)]);
        }
    }
    proof {
        assert(ds@.subrange(0, ds@.len() as int) =~= ds@);
    }
    s
}

/// Renders an optional count: its decimal digits, or nothing at all.
pub fn opt_as_empty_str(str_opt: Option<usize>) -> (s: String)
    ensures
        s@ == match str_opt {
            Some(n) => dec_digits(n as nat),
            None => Seq::<char>::empty(),
        },
{
    match str_opt {
        Some(n) => usize_to_string(n),
        None => String::new(),
    }
}

/// Appends one byte to an output buffer.
pub fn write_u8(writer: &mut Vec<u8>, n: u8)
    ensures
        final(writer)@ == old(writer)@ + seq![n],
{
    writer.push(n);
}

} // verus!
