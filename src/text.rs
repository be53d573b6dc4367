//! Decimal and hexadecimal rendering of integers into text, and the
//! matching readers for unsigned decimal numerals.
use vstd::prelude::*;
use vstd::string::*;

verus! {

/// The character that writes the digit `d` (base 16, lower case above nine).
pub open spec fn digit_char(d: nat) -> char {
    if d == 0 { '0' }
    else if d == 1 { '1' }
    else if d == 2 { '2' }
    else if d == 3 { '3' }
    else if d == 4 { '4' }
    else if d == 5 { '5' }
    else if d == 6 { '6' }
    else if d == 7 { '7' }
    else if d == 8 { '8' }
    else if d == 9 { '9' }
    else if d == 10 { 'a' }
    else if d == 11 { 'b' }
    else if d == 12 { 'c' }
    else if d == 13 { 'd' }
    else if d == 14 { 'e' }
    else { 'f' }
}

pub open spec fn is_digit(c: char) -> bool {
    '0' <= c && c <= '9'
}

pub open spec fn digit_value(c: char) -> nat {
    ((c as u32) - ('0' as u32)) as nat
}

/// The shortest decimal numeral of `n`.
pub open spec fn dec(n: nat) -> Seq<char>
    decreases n,
{
    if n < 10 {
        seq![digit_char(n)]
    } else {
        dec(n / 10).push(digit_char(n % 10))
    }
}

proof fn lemma_digit_roundtrip(c: char)
    requires
        is_digit(c),
    ensures
        digit_value(c) < 10,
        digit_char(digit_value(c)) == c,
{
}

fn push_digit(s: &mut String, d: u64)
    requires
        d < 16,
    ensures
        final(s)@ == old(s)@.push(digit_char(d as nat)),
{
    if d == 0 {
        proof {
            reveal_strlit("0");
        }
        s.append("0");
    } else if d == 1 {
        proof {
            reveal_strlit("1");
        }
        s.append("1");
    } else if d == 2 {
        proof {
            reveal_strlit("2");
        }
        s.append("2");
    } else if d == 3 {
        proof {
            reveal_strlit("3");
        }
        s.append("3");
    } else if d == 4 {
        proof {
            reveal_strlit("4");
        }
        s.append("4");
    } else if d == 5 {
        proof {
            reveal_strlit("5");
        }
        s.append("5");
    } else if d == 6 {
        proof {
            reveal_strlit("6");
        }
        s.append("6");
    } else if d == 7 {
        proof {
            reveal_strlit("7");
        }
        s.append("7");
    } else if d == 8 {
        proof {
            reveal_strlit("8");
        }
        s.append("8");
    } else if d == 9 {
        proof {
            reveal_strlit("9");
        }
        s.append("9");
    } else if d == 10 {
        proof {
            reveal_strlit("a");
        }
        s.append("a");
    } else if d == 11 {
        proof {
            reveal_strlit("b");
        }
        s.append("b");
    } else if d == 12 {
        proof {
            reveal_strlit("c");
        }
        s.append("c");
    } else if d == 13 {
        proof {
            reveal_strlit("d");
        }
        s.append("d");
    } else if d == 14 {
        proof {
            reveal_strlit("e");
        }
        s.append("e");
    } else {
        proof {
            reveal_strlit("f");
        }
        s.append("f");
    }
}

/// Appends the decimal numeral of `n`.
pub fn append_dec(s: &mut String, n: u64)
    ensures
        final(s)@ == old(s)@ + dec(n as nat),
    decreases n,
{
    if n >= 10 {
        append_dec(s, n / 10);
    }
    push_digit(s, n % 10);
    proof {
        assert(final(s)@ =~= old(s)@ + dec(n as nat));
    }
}

/// The decimal numeral of `n`, padded on the left with zeros to three digits.
pub open spec fn dec_pad3(n: nat) -> Seq<char> {
    if n < 10 {
        seq!['0', '0'] + dec(n)
    } else if n < 100 {
        seq!['0'] + dec(n)
    } else {
        dec(n)
    }
}

/// Two lower-case hexadecimal digits of a byte.
pub open spec fn hex2(b: nat) -> Seq<char> {
    seq![digit_char(b / 16), digit_char(b % 16)]
}

/// Appends the decimal numeral of `n`, padded to at least three digits.
pub fn append_dec_pad3(s: &mut String, n: u64)
    ensures
        final(s)@ == old(s)@ + dec_pad3(n as nat),
{
    let ghost s0 = s@;
    if n < 10 {
        push_digit(s, 0);
        push_digit(s, 0);
    } else if n < 100 {
        push_digit(s, 0);
    }
    append_dec(s, n);
    assert(s@ =~= s0 + dec_pad3(n as nat));
}

/// Appends the two hexadecimal digits of the byte `b`.
pub fn append_hex2(s: &mut String, b: u64)
    requires
        b < 256,
    ensures
        final(s)@ == old(s)@ + hex2(b as nat),
{
    let ghost s0 = s@;
    push_digit(s, b / 16);
    push_digit(s, b % 16);
    assert(s@ =~= s0 + hex2(b as nat));
}

/// The number that a string of decimal digits writes.
pub open spec fn digits_value(r: Seq<char>) -> nat
    decreases r.len(),
{
    if r.len() == 0 {
        0
    } else {
        digits_value(r.drop_last()) * 10 + digit_value(r.last())
    }
}

/// A numeral of one to three digits without a superfluous leading zero.
pub open spec fn is_short_numeral(r: Seq<char>) -> bool {
    &&& 1 <= r.len() <= 3
    &&& forall|k: int| 0 <= k < r.len() ==> is_digit(#[trigger] r[k])
    &&& r.len() > 1 ==> r[0] != '0'
}

proof fn lemma_digit_char_value(d: nat)
    requires
        d < 10,
    ensures
        is_digit(digit_char(d)),
        digit_value(digit_char(d)) == d,
{
}

pub proof fn lemma_dec_facts(n: nat)
    ensures
        digits_value(dec(n)) == n,
        dec(n).len() >= 1,
        forall|k: int| 0 <= k < dec(n).len() ==> is_digit(#[trigger] dec(n)[k]),
        n < 10 <==> dec(n).len() == 1,
        dec(n).len() > 1 ==> dec(n)[0] != '0',
        n < 100 ==> dec(n).len() <= 2,
        n < 1000 ==> dec(n).len() <= 3,
    decreases n,
{
    if n < 10 {
        lemma_digit_char_value(n);
        assert(dec(n).drop_last() =~= Seq::<char>::empty());
        assert(digits_value(dec(n).drop_last()) == 0);
    } else {
        lemma_dec_facts(n / 10);
        lemma_digit_char_value(n % 10);
        let d = dec(n);
        assert(digits_value(d) == digits_value(d.drop_last()) * 10 + digit_value(d.last()));
        assert((n / 10) * 10 + n % 10 == n);
        assert(d.last() == digit_char(n % 10));
        assert(d.drop_last() =~= dec(n / 10));
        assert(d[0] == dec(n / 10)[0]);
    }
}

proof fn lemma_short_numeral_dec(r: Seq<char>)
    requires
        is_short_numeral(r),
    ensures
        dec(digits_value(r)) == r,
        digits_value(r) < 1000,
{
    let v = digits_value(r);
    assert(is_digit(r[0]));
    lemma_digit_roundtrip(r[0]);
    if r.len() == 1 {
        assert(r.drop_last() =~= Seq::<char>::empty());
        assert(digits_value(r.drop_last()) == 0);
        assert(r.last() == r[0]);
        assert(v == digit_value(r[0]));
        assert(dec(v) =~= r);
    } else if r.len() == 2 {
        assert(is_digit(r[1]));
        lemma_digit_roundtrip(r[1]);
        let r1 = r.drop_last();
        assert(r1.drop_last() =~= Seq::<char>::empty());
        assert(digits_value(r1.drop_last()) == 0);
        assert(r1.last() == r[0]);
        assert(digits_value(r1) == digit_value(r[0]));
        assert(v / 10 == digit_value(r[0]));
        assert(v % 10 == digit_value(r[1]));
        assert(digit_value(r[0]) != 0);
        assert(dec(v / 10) == seq![r[0]]);
        assert(dec(v) == dec(v / 10).push(digit_char(v % 10)));
        assert(dec(v) =~= r);
    } else {
        assert(is_digit(r[1]));
        assert(is_digit(r[2]));
        lemma_digit_roundtrip(r[1]);
        lemma_digit_roundtrip(r[2]);
        let r2 = r.drop_last();
        let r1 = r2.drop_last();
        assert(r1.drop_last() =~= Seq::<char>::empty());
        assert(digits_value(r1.drop_last()) == 0);
        assert(r1.last() == r[0]);
        assert(r2.last() == r[1]);
        assert(digits_value(r1) == digit_value(r[0]));
        assert(digits_value(r2) == digit_value(r[0]) * 10 + digit_value(r[1]));
        assert(v / 10 == digits_value(r2));
        assert(v % 10 == digit_value(r[2]));
        assert(digits_value(r2) / 10 == digit_value(r[0]));
        assert(digits_value(r2) % 10 == digit_value(r[1]));
        assert(digit_value(r[0]) != 0);
        let w = digits_value(r2);
        assert(dec(w / 10) == seq![r[0]]);
        assert(dec(w) == dec(w / 10).push(digit_char(w % 10)));
        assert(dec(w) =~= r2);
        assert(dec(v) == dec(v / 10).push(digit_char(v % 10)));
        assert(dec(v) =~= r);
    }
}

/// Whether `s` holds at `i` the numeral `dec(n)`, ended by the end of `s` or by
/// a character that is no digit.
pub open spec fn numeral_at(s: Seq<char>, i: int, n: nat) -> bool {
    let k = dec(n).len() as int;
    &&& 0 <= i
    &&& i + k <= s.len()
    &&& s.subrange(i, i + k) == dec(n)
    &&& (i + k == s.len() || !is_digit(s[i + k]))
}

/// Reads, at position `i` of `s`, a decimal numeral of at most three digits
/// that has no superfluous leading zero and is not followed by another digit.
/// Returns its value and the position after it.
pub fn scan_numeral(s: &str, i: usize) -> (r: Option<(u32, usize)>)
    requires
        i <= s@.len(),
    ensures
        r matches Some((v, j)) ==> v < 1000 && numeral_at(s@, i as int, v as nat) && j == i
            + dec(v as nat).len(),
        forall|n: nat| n < 1000 && numeral_at(s@, i as int, n) ==> r == Some(
            (n as u32, (i + dec(n).len()) as usize),
        ),
{
    let len = s.unicode_len();
    let mut j: usize = i;
    let mut v: u32 = 0;
    while j < len && j - i < 4 && is_digit_char(s.get_char(j))
        invariant
            len == s@.len(),
            i <= j <= len,
            j - i <= 4,
            forall|k: int| i <= k < j ==> is_digit(#[trigger] s@[k]),
            v == digits_value(s@.subrange(i as int, j as int)),
            j - i == 0 ==> v == 0,
            j - i == 1 ==> v < 10,
            j - i == 2 ==> v < 100,
            j - i == 3 ==> v < 1000,
            v < 10000,
        decreases len - j,
    {
        let c = s.get_char(j);
        let ghost before = s@.subrange(i as int, j as int);
        proof {
            assert(s@.subrange(i as int, j + 1).drop_last() =~= before);
            if j - i == 0 {
                assert(before =~= Seq::<char>::empty());
            }
        }
        v = v * 10 + (c as u32 - '0' as u32);
        j = j + 1;
    }
    let ghost run = s@.subrange(i as int, j as int);
    proof {
        assert forall|n: nat| n < 1000 && numeral_at(s@, i as int, n) implies j == i + dec(
            n,
        ).len() && run == dec(n) && digits_value(run) == n && 1 <= run.len() <= 3 && (run.len() > 1
            ==> run[0] != '0') by {
            lemma_dec_facts(n);
            let kn = dec(n).len() as int;
            assert forall|k: int| i <= k < i + kn implies is_digit(#[trigger] s@[k]) by {
                assert(s@[k] == s@.subrange(i as int, i + kn)[k - i]);
            }
            if j < i + kn {
                assert(is_digit(s@[j as int]));
            }
            if j > i + kn {
                assert(is_digit(s@[i + kn]));
            }
        }
    }
    if j == i || j - i == 4 {
        return None;
    }
    let first = s.get_char(i);
    if j - i > 1 && first == '0' {
        proof {
            assert(run[0] == s@[i as int]);
        }
        return None;
    }
    proof {
        assert forall|k: int| 0 <= k < run.len() implies is_digit(#[trigger] run[k]) by {
            assert(run[k] == s@[i + k]);
        }
        assert(run.len() > 1 ==> run[0] == s@[i as int]);
        lemma_short_numeral_dec(run);
        lemma_dec_facts(v as nat);
    }
    Some((v, j))
}

fn is_digit_char(c: char) -> (r: bool)
    ensures
        r == is_digit(c),
{
    '0' <= c && c <= '9'
}

} // verus!
