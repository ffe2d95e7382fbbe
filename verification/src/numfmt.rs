//! Decimal rendering and integer parsing for the engine's numeric I/O:
//! OUTN emits the decimal string of a popped value, and INPN parses an
//! integer from one line of input (surrounding ASCII whitespace ignored,
//! optional sign, decimal digits, value within the stack cell range).

use vstd::prelude::*;

verus! {

/// The decimal digit character for `d` in `0..10`.
pub open spec fn digit_char(d: int) -> char {
    ((48 + d) as u8) as char
}

/// The decimal digit string of a nonnegative number, most significant digit
/// first, no leading zeros (a lone zero for 0).
pub open spec fn dec_digits_of(n: nat) -> Seq<char>
    decreases n,
{
    if n < 10 {
        seq![digit_char(n as int)]
    } else {
        dec_digits_of(n / 10).push(digit_char((n % 10) as int))
    }
}

/// The decimal string of an integer: a minus sign for negatives, then the
/// digits of the magnitude.
pub open spec fn dec_str_of(v: int) -> Seq<char> {
    if v < 0 {
        seq!['-'] + dec_digits_of((-v) as nat)
    } else {
        dec_digits_of(v as nat)
    }
}

/// Relies on `String::push` of std: appends exactly the given character.
pub assume_specification[ String::push ](s: &mut String, ch: char)
    ensures
        final(s)@ == old(s)@.push(ch),
;

/// Appends the decimal digits of `n` to `s`.
pub(crate) fn push_digits(s: &mut String, n: u64)
    ensures
        final(s)@ == old(s)@ + dec_digits_of(n as nat),
    decreases n,
{
    if n < 10 {
        let d: u8 = 48 + (n as u8);
        s.push(d as char);
        proof {
            assert(d as char == digit_char(n as int));
            assert(final(s)@ =~= old(s)@ + dec_digits_of(n as nat));
        }
    } else {
        push_digits(s, n / 10);
        let d: u8 = 48 + ((n % 10) as u8);
        s.push(d as char);
        proof {
            assert(d as char == digit_char((n % 10) as int));
            assert(final(s)@ =~= old(s)@ + dec_digits_of(n as nat));
        }
    }
}

/// Renders a stack value in decimal.
pub fn i32_to_string(v: i32) -> (r: String)
    ensures
        r@ == dec_str_of(v as int),
{
    let mut s = String::new();
    if v < 0 {
        s.push('-');
        let m: i64 = -(v as i64);
        push_digits(&mut s, m as u64);
        proof {
            assert(m as u64 as nat == (-(v as int)) as nat);
            assert(s@ =~= dec_str_of(v as int));
        }
    } else {
        push_digits(&mut s, v as u64);
    }
    s
}

/// ASCII whitespace, as the parser ignores it around a number.
pub open spec fn is_ws(b: u8) -> bool {
    b == 32 || b == 9 || b == 10 || b == 13
}

/// An ASCII decimal digit.
pub open spec fn is_digit(b: u8) -> bool {
    48 <= b <= 57
}

/// `s` with leading ASCII whitespace removed.
pub open spec fn trim_front(s: Seq<u8>) -> Seq<u8>
    decreases s.len(),
{
    if s.len() > 0 && is_ws(s[0]) {
        trim_front(s.drop_first())
    } else {
        s
    }
}

/// `s` with trailing ASCII whitespace removed.
pub open spec fn trim_back(s: Seq<u8>) -> Seq<u8>
    decreases s.len(),
{
    if s.len() > 0 && is_ws(s.last()) {
        trim_back(s.drop_last())
    } else {
        s
    }
}

/// The number denoted by a digit string, most significant digit first.
pub open spec fn digits_val(s: Seq<u8>) -> int
    decreases s.len(),
{
    if s.len() == 0 {
        0
    } else {
        digits_val(s.drop_last()) * 10 + (s.last() - 48)
    }
}

/// One input line with surrounding ASCII whitespace removed.
pub open spec fn trimmed_of(s: Seq<u8>) -> Seq<u8> {
    trim_back(trim_front(s))
}

/// Whether the trimmed line starts with a minus sign.
pub open spec fn neg_of(s: Seq<u8>) -> bool {
    let t = trimmed_of(s);
    t.len() > 0 && t[0] == 45
}

/// The digit part of the trimmed line: everything after one optional `+` or
/// `-` sign.
pub open spec fn digits_of(s: Seq<u8>) -> Seq<u8> {
    let t = trimmed_of(s);
    if t.len() > 0 && (t[0] == 45 || t[0] == 43) {
        t.drop_first()
    } else {
        t
    }
}

/// What parsing one input line as an integer yields: surrounding ASCII
/// whitespace is ignored, one optional `+` or `-` sign precedes at least one
/// decimal digit, and the signed value must fit the stack cell range.
pub open spec fn parse_i32_spec(s: Seq<u8>) -> Option<i32> {
    let ds = digits_of(s);
    if ds.len() >= 1 && (forall|i: int| 0 <= i < ds.len() ==> is_digit(#[trigger] ds[i])) {
        let v = if neg_of(s) {
            -digits_val(ds)
        } else {
            digits_val(ds)
        };
        if i32::MIN <= v <= i32::MAX {
            Some(v as i32)
        } else {
            None
        }
    } else {
        None
    }
}

/// A digit string denotes a nonnegative number.
proof fn lemma_digits_val_nonneg(s: Seq<u8>)
    requires
        forall|i: int| 0 <= i < s.len() ==> is_digit(#[trigger] s[i]),
    ensures
        digits_val(s) >= 0,
    decreases s.len(),
{
    if s.len() > 0 {
        lemma_digits_val_nonneg(s.drop_last());
    }
}

/// A digit string denotes at least as much as any of its prefixes.
proof fn lemma_digits_val_prefix(s: Seq<u8>, i: int)
    requires
        forall|k: int| 0 <= k < s.len() ==> is_digit(#[trigger] s[k]),
        0 <= i <= s.len(),
    ensures
        digits_val(s.take(i)) <= digits_val(s),
    decreases s.len() - i,
{
    if i == s.len() {
        assert(s.take(i) =~= s);
    } else {
        lemma_digits_val_prefix(s, i + 1);
        let p = s.take(i + 1);
        assert(p.drop_last() =~= s.take(i));
        assert(digits_val(p) == digits_val(s.take(i)) * 10 + (p.last() - 48));
        lemma_digits_val_nonneg(s.take(i));
        assert(forall|k: int| 0 <= k < p.len() ==> is_digit(#[trigger] p[k]));
        assert(digits_val(s.take(i)) <= digits_val(s.take(i)) * 10 + (p.last() - 48));
    }
}

/// Parses one input line as an integer.
pub fn parse_i32(bytes: &Vec<u8>) -> (r: Option<i32>)
    ensures
        r == parse_i32_spec(bytes@),
{
    let n = bytes.len();
    let mut a: usize = 0;
    proof {
        assert(bytes@.skip(0) =~= bytes@);
    }
    while a < n && (bytes[a] == 32 || bytes[a] == 9 || bytes[a] == 10 || bytes[a] == 13)
        invariant
            n == bytes@.len(),
            a <= n,
            trim_front(bytes@) == trim_front(bytes@.skip(a as int)),
        decreases n - a,
    {
        proof {
            assert(bytes@.skip(a as int)[0] == bytes@[a as int]);
            assert(bytes@.skip(a as int).drop_first() =~= bytes@.skip(a as int + 1));
        }
        a += 1;
    }
    proof {
        if a < n {
            assert(bytes@.skip(a as int)[0] == bytes@[a as int]);
            assert(!is_ws(bytes@.skip(a as int)[0]));
        } else {
            assert(bytes@.skip(a as int) =~= Seq::<u8>::empty());
        }
        assert(trim_front(bytes@) == bytes@.skip(a as int));
    }
    let mut b: usize = n;
    while b > a && (bytes[b - 1] == 32 || bytes[b - 1] == 9 || bytes[b - 1] == 10 || bytes[b - 1] == 13)
        invariant
            n == bytes@.len(),
            a <= b <= n,
            trim_front(bytes@) == bytes@.skip(a as int),
            trim_back(bytes@.skip(a as int)) == trim_back(bytes@.subrange(a as int, b as int)),
        decreases b,
    {
        proof {
            let t = bytes@.subrange(a as int, b as int);
            assert(t.last() == bytes@[b as int - 1]);
            assert(t.drop_last() =~= bytes@.subrange(a as int, b as int - 1));
        }
        b -= 1;
    }
    let ghost t = bytes@.subrange(a as int, b as int);
    proof {
        if b > a {
            assert(t.last() == bytes@[b as int - 1]);
            assert(!is_ws(t.last()));
        } else {
            assert(t =~= Seq::<u8>::empty());
        }
        assert(trim_back(trim_front(bytes@)) == t);
    }
    // optional sign
    let mut i: usize = a;
    let mut neg = false;
    if b > a && (bytes[a] == 45 || bytes[a] == 43) {
        neg = bytes[a] == 45;
        i = a + 1;
        proof {
            assert(t[0] == bytes@[a as int]);
        }
    }
    let ghost ds = bytes@.subrange(i as int, b as int);
    proof {
        assert(trimmed_of(bytes@) == t);
        if i > a {
            assert(t.drop_first() =~= ds);
        } else {
            assert(t =~= ds);
        }
        assert(digits_of(bytes@) == ds);
        assert(neg_of(bytes@) == neg);
    }
    if i == b {
        // no digits at all
        return None;
    }
    // digits, accumulated while the magnitude can still be in range
    let mut acc: i64 = 0;
    let mut j: usize = i;
    while j < b
        invariant
            n == bytes@.len(),
            a <= i <= j <= b <= n,
            ds == bytes@.subrange(i as int, b as int),
            digits_of(bytes@) == ds,
            neg_of(bytes@) == neg,
            i < b,
            forall|k: int| 0 <= k < j - i ==> is_digit(#[trigger] ds[k]),
            acc == digits_val(ds.take(j - i)),
            0 <= acc <= 0x8000_0000i64,
        decreases b - j,
    {
        let ch = bytes[j];
        if ch < 48 || ch > 57 {
            proof {
                assert(ds[j - i] == bytes@[j as int]);
                assert(!is_digit(ds[j - i]));
            }
            return None;
        }
        proof {
            assert(ds[j - i] == bytes@[j as int]);
            assert(ds.take(j - i + 1).drop_last() =~= ds.take(j as int - i));
            assert(ds.take(j - i + 1).last() == ds[j - i]);
        }
        acc = acc * 10 + ((ch - 48) as i64);
        j += 1;
        if acc > 0x8000_0000i64 {
            proof {
                if forall|k: int| 0 <= k < ds.len() ==> is_digit(#[trigger] ds[k]) {
                    lemma_digits_val_prefix(ds, j - i);
                    assert(digits_val(ds) >= acc);
                }
            }
            return None;
        }
    }
    proof {
        assert(ds.take(j - i) =~= ds);
        assert(digits_val(ds) == acc);
    }
    if neg {
        let v = -acc;
        proof {
            assert(i32::MIN <= v <= i32::MAX);
        }
        Some(v as i32)
    } else {
        if acc > 0x7fff_ffffi64 {
            return None;
        }
        Some(acc as i32)
    }
}

} // verus!
