//! Bytes as hexadecimal text.

use vstd::prelude::*;
use vstd::string::StringExecFns;
use crate::preprocessing::{flip_ordering, reversed_bits};

verus! {

/// The lower-case hexadecimal digit for a value below 16.
pub open spec fn hex_digit(n: u8) -> char {
    if n < 10 {
        (48 + n) as char
    } else {
        (87 + n) as char
    }
}

/// The two hexadecimal digits of each byte, with a space before every
/// fifth, ninth, ... byte.
pub open spec fn hex_text(bytes: Seq<u8>) -> Seq<char>
    decreases bytes.len(),
{
    if bytes.len() == 0 {
        Seq::empty()
    } else {
        let head = hex_text(bytes.drop_last());
        let gap = if bytes.len() > 1 && (bytes.len() - 1) % 4 == 0 {
            seq![' ']
        } else {
            Seq::empty()
        };
        head + gap + seq![hex_digit(bytes.last() / 16), hex_digit(bytes.last() % 16)]
    }
}

fn digit_text(n: u8) -> (r: &'static str)
    requires
        n < 16,
    ensures
        r@ == seq![hex_digit(n)],
{
    proof {
        reveal_strlit("0");
        reveal_strlit("1");
        reveal_strlit("2");
        reveal_strlit("3");
        reveal_strlit("4");
        reveal_strlit("5");
        reveal_strlit("6");
        reveal_strlit("7");
        reveal_strlit("8");
        reveal_strlit("9");
        reveal_strlit("a");
        reveal_strlit("b");
        reveal_strlit("c");
        reveal_strlit("d");
        reveal_strlit("e");
        reveal_strlit("f");
    }
    let r = match n {
        0 => "0",
        1 => "1",
        2 => "2",
        3 => "3",
        4 => "4",
        5 => "5",
        6 => "6",
        7 => "7",
        8 => "8",
        9 => "9",
        10 => "a",
        11 => "b",
        12 => "c",
        13 => "d",
        14 => "e",
        _ => "f",
    };
    assert(r@ =~= seq![hex_digit(n)]);
    r
}

/// The bytes as hexadecimal values, with a space after every four bytes.
pub fn print_bytes_be(v: &Vec<u8>) -> (r: String)
    ensures
        r@ == hex_text(v@),
{
    let mut res = String::from_str("");
    let mut n: usize = 0;
    let mut k: usize = 0;
    proof {
        reveal_strlit("");
        reveal_strlit(" ");
        assert(res@ =~= hex_text(v@.take(0)));
    }
    while k < v.len()
        invariant
            k <= v.len(),
            " "@ == seq![' '],
            res@ == hex_text(v@.take(k as int)),
            k == 0 ==> n == 0,
            k > 0 ==> n == (k - 1) % 4 + 1,
        decreases v.len() - k,
    {
        let elem = v[k];
        if n == 4 {
            res.append(" ");
            n = 0;
        }
        res.append(digit_text(elem / 16));
        res.append(digit_text(elem % 16));
        n += 1;
        k = k + 1;
        proof {
            assert(v@.take(k as int).drop_last() =~= v@.take(k - 1));
            assert(res@ =~= hex_text(v@.take(k as int)));
        }
    }
    assert(v@.take(k as int) =~= v@);
    return res;
}

/// The bytes, each turned round bit for bit, as hexadecimal values with a
/// space after every four bytes.
pub fn print_bytes_le(v: &Vec<u8>) -> (r: String)
    ensures
        r@ == hex_text(v@.map_values(|b: u8| reversed_bits(b))),
{
    let v = flip_ordering(v);
    print_bytes_be(&v)
}

} // verus!
