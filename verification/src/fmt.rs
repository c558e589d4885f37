use vstd::prelude::*;

verus! {

use vstd::string::StringExecFns;
use vstd::string::StrSliceExecFns;

// Verified text helpers shared by the display routines, the parser and the
// syscall layer: decimal and hexadecimal rendering, decimal/hex/binary
// numerals, and plain string comparison.

/// The character for one decimal digit value.
pub open spec fn dec_digit(d: int) -> char {
    if d == 0 {
        '0'
    } else if d == 1 {
        '1'
    } else if d == 2 {
        '2'
    } else if d == 3 {
        '3'
    } else if d == 4 {
        '4'
    } else if d == 5 {
        '5'
    } else if d == 6 {
        '6'
    } else if d == 7 {
        '7'
    } else if d == 8 {
        '8'
    } else {
        '9'
    }
}

/// The decimal numeral of `n`, most significant digit first.
pub open spec fn dec_seq(n: nat) -> Seq<char>
    decreases n,
{
    if n < 10 {
        seq![dec_digit(n as int)]
    } else {
        dec_seq(n / 10).push(dec_digit((n % 10) as int))
    }
}

/// The character for one hexadecimal digit value, lower case.
pub open spec fn hex_digit(d: int) -> char {
    if d < 10 {
        dec_digit(d)
    } else if d == 10 {
        'a'
    } else if d == 11 {
        'b'
    } else if d == 12 {
        'c'
    } else if d == 13 {
        'd'
    } else if d == 14 {
        'e'
    } else {
        'f'
    }
}

/// The hexadecimal numeral of `n` in exactly `k` digits (leading zeros kept).
pub open spec fn hex_seq(n: nat, k: nat) -> Seq<char>
    decreases k,
{
    if k == 0 {
        Seq::empty()
    } else {
        hex_seq(n / 16, (k - 1) as nat).push(hex_digit((n % 16) as int))
    }
}

/// The one-character string for a decimal digit value.
fn dec_digit_str(d: u32) -> (r: &'static str)
    requires
        d < 10,
    ensures
        r@ == seq![dec_digit(d as int)],
{
    proof {
        reveal_strlit("0");
        reveal_strlit("1");
        reveal_strlit("2");
        reveal_strlit("3");
        reveal_strlit("4");
        reveal_strlit("5");
        reveal_strlit("6");
        reveal_strlit("7");
        reveal_strlit("8");
        reveal_strlit("9");
    }
    match d {
        0 => "0",
        1 => "1",
        2 => "2",
        3 => "3",
        4 => "4",
        5 => "5",
        6 => "6",
        7 => "7",
        8 => "8",
        _ => "9",
    }
}

/// The one-character string for a hexadecimal digit value, lower case.
fn hex_digit_str(d: u32) -> (r: &'static str)
    requires
        d < 16,
    ensures
        r@ == seq![hex_digit(d as int)],
{
    proof {
        reveal_strlit("a");
        reveal_strlit("b");
        reveal_strlit("c");
        reveal_strlit("d");
        reveal_strlit("e");
        reveal_strlit("f");
    }
    if d < 10 {
        dec_digit_str(d)
    } else {
        match d {
            10 => "a",
            11 => "b",
            12 => "c",
            13 => "d",
            14 => "e",
            _ => "f",
        }
    }
}

/// Appends the decimal numeral of `n` to `s`.
pub fn append_dec(s: &mut String, n: u32)
    ensures
        final(s)@ == old(s)@ + dec_seq(n as nat),
    decreases n,
{
    if n < 10 {
        s.append(dec_digit_str(n));
    } else {
        append_dec(s, n / 10);
        s.append(dec_digit_str(n % 10));
    }
}

/// Appends the hexadecimal numeral of `n` in exactly `k` digits to `s`.
pub fn append_hex(s: &mut String, n: u32, k: u32)
    ensures
        final(s)@ == old(s)@ + hex_seq(n as nat, k as nat),
    decreases k,
{
    if k == 0 {
        proof {
            assert(old(s)@ + hex_seq(n as nat, 0) =~= old(s)@);
        }
    } else {
        append_hex(s, n / 16, k - 1);
        s.append(hex_digit_str(n % 16));
        proof {
            assert(old(s)@ + hex_seq((n / 16) as nat, (k - 1) as nat) + seq![
                hex_digit((n % 16) as int),
            ] =~= old(s)@ + hex_seq(n as nat, k as nat));
        }
    }
}

/// The decimal numeral of `n` as ASCII bytes, most significant digit first.
pub open spec fn dec_bytes(n: nat) -> Seq<u8>
    decreases n,
{
    if n < 10 {
        seq![(48 + n) as u8]
    } else {
        dec_bytes(n / 10).push((48 + n % 10) as u8)
    }
}

/// Appends the decimal numeral of `n` as ASCII bytes to `out`.
pub fn append_dec_bytes(out: &mut Vec<u8>, n: u32)
    ensures
        final(out)@ == old(out)@ + dec_bytes(n as nat),
    decreases n,
{
    if n < 10 {
        out.push(48 + (n as u8));
    } else {
        append_dec_bytes(out, n / 10);
        out.push(48 + ((n % 10) as u8));
    }
}

/// Whether two string slices hold the same characters.
pub fn str_eq(a: &str, b: &str) -> (r: bool)
    ensures
        r == (a@ == b@),
{
    let sa = String::from_str(a);
    let sb = String::from_str(b);
    sa == sb
}

/// The value of a decimal digit character, or none.
pub open spec fn dec_digit_val(c: char) -> Option<nat> {
    if '0' <= c && c <= '9' {
        Some((c as nat - '0' as nat) as nat)
    } else {
        None
    }
}

/// Whether every character of `s` is a decimal digit and `s` is not empty.
pub open spec fn is_dec_numeral(s: Seq<char>) -> bool {
    s.len() > 0 && forall|i: int| 0 <= i < s.len() ==> dec_digit_val(#[trigger] s[i]) is Some
}

/// The value of a decimal numeral.
pub open spec fn dec_val(s: Seq<char>) -> nat
    decreases s.len(),
{
    if s.len() == 0 {
        0
    } else {
        dec_val(s.drop_last()) * 10 + dec_digit_val(s.last()).unwrap_or(0)
    }
}

proof fn lemma_dec_val_prefix_le(s: Seq<char>, i: int)
    requires
        0 <= i <= s.len(),
    ensures
        dec_val(s.take(i)) <= dec_val(s),
    decreases s.len() - i,
{
    if i < s.len() {
        assert(s.take(i + 1).drop_last() =~= s.take(i));
        assert(dec_val(s.take(i)) <= dec_val(s.take(i + 1)));
        lemma_dec_val_prefix_le(s, i + 1);
    } else {
        assert(s.take(i) =~= s);
    }
}

/// Parses a decimal numeral as a 32-bit value.
/// Succeeds exactly on non-empty all-digit strings whose value fits.
pub fn parse_dec_u32(s: &Vec<char>) -> (r: Option<u32>)
    ensures
        match r {
            Some(v) => is_dec_numeral(s@) && v == dec_val(s@),
            None => !(is_dec_numeral(s@) && dec_val(s@) < 0x1_0000_0000),
        },
{
    if s.len() == 0 {
        return None;
    }
    let mut acc: u32 = 0;
    let mut i: usize = 0;
    while i < s.len()
        invariant
            0 <= i <= s@.len(),
            is_dec_numeral(s@.take(i as int)) || i == 0,
            forall|j: int| 0 <= j < i ==> dec_digit_val(#[trigger] s@[j]) is Some,
            acc == dec_val(s@.take(i as int)),
        decreases s@.len() - i,
    {
        let c = s[i];
        if c < '0' || c > '9' {
            return None;
        }
        let d: u32 = (c as u32) - 48;
        if acc > 0xFFFF_FFFFu32 / 10 || (acc == 0xFFFF_FFFFu32 / 10 && d > 5) {
            proof {
                assert(s@.take(i + 1).drop_last() =~= s@.take(i as int));
                assert(dec_val(s@.take(i + 1)) >= 0x1_0000_0000);
                lemma_dec_val_prefix_le(s@, i + 1);
            }
            return None;
        }
        proof {
            assert(s@.take(i + 1).drop_last() =~= s@.take(i as int));
        }
        acc = acc * 10 + d;
        i = i + 1;
    }
    proof {
        assert(s@.take(s@.len() as int) =~= s@);
    }
    Some(acc)
}

/// The value of a hexadecimal digit character, or none.
pub open spec fn hex_digit_val(c: char) -> Option<nat> {
    if '0' <= c && c <= '9' {
        Some((c as nat - '0' as nat) as nat)
    } else if 'a' <= c && c <= 'f' {
        Some((c as nat - 'a' as nat + 10) as nat)
    } else if 'A' <= c && c <= 'F' {
        Some((c as nat - 'A' as nat + 10) as nat)
    } else {
        None
    }
}

/// Whether every character of `s` is a digit in base `b` (16 or 2) and `s` is not empty.
pub open spec fn is_radix_numeral(s: Seq<char>, b: nat) -> bool {
    s.len() > 0 && forall|i: int| 0 <= i < s.len() ==> {
        let v = radix_digit_val(#[trigger] s[i], b);
        v is Some
    }
}

/// The value of one digit character in base `b`.
pub open spec fn radix_digit_val(c: char, b: nat) -> Option<nat> {
    match hex_digit_val(c) {
        Some(v) => if v < b {
            Some(v)
        } else {
            None
        },
        None => None,
    }
}

/// The value of a numeral in base `b`.
pub open spec fn radix_val(s: Seq<char>, b: nat) -> nat
    decreases s.len(),
{
    if s.len() == 0 {
        0
    } else {
        radix_val(s.drop_last(), b) * b + radix_digit_val(s.last(), b).unwrap_or(0)
    }
}

proof fn lemma_radix_val_prefix_le(s: Seq<char>, b: nat, i: int)
    requires
        0 <= i <= s.len(),
        b >= 1,
    ensures
        radix_val(s.take(i), b) <= radix_val(s, b),
    decreases s.len() - i,
{
    if i < s.len() {
        assert(s.take(i + 1).drop_last() =~= s.take(i));
        assert(radix_val(s.take(i), b) * b >= radix_val(s.take(i), b) * 1) by (nonlinear_arith)
            requires
                b >= 1,
        ;
        assert(radix_val(s.take(i), b) <= radix_val(s.take(i + 1), b));
        lemma_radix_val_prefix_le(s, b, i + 1);
    } else {
        assert(s.take(i) =~= s);
    }
}

/// Parses a numeral in base 16 or base 2 as a 32-bit value.
/// Succeeds exactly on non-empty all-digit strings whose value fits.
pub fn parse_radix_u32(s: &Vec<char>, start: usize, base: u32) -> (r: Option<u32>)
    requires
        start <= s@.len(),
        base == 16 || base == 2,
    ensures
        match r {
            Some(v) => is_radix_numeral(s@.skip(start as int), base as nat) && v == radix_val(
                s@.skip(start as int),
                base as nat,
            ),
            None => !(is_radix_numeral(s@.skip(start as int), base as nat) && radix_val(
                s@.skip(start as int),
                base as nat,
            ) < 0x1_0000_0000),
        },
{
    let ghost t = s@.skip(start as int);
    if start >= s.len() {
        return None;
    }
    let mut acc: u32 = 0;
    let mut i: usize = start;
    while i < s.len()
        invariant
            start <= i <= s@.len(),
            t == s@.skip(start as int),
            forall|j: int| 0 <= j < i - start ==> radix_digit_val(#[trigger] t[j], base as nat)
                is Some,
            acc == radix_val(t.take(i - start), base as nat),
            base == 16 || base == 2,
        decreases s@.len() - i,
    {
        let c = s[i];
        let ghost k = i - start;
        let dv: Option<u32> = if c >= '0' && c <= '9' {
            Some((c as u32) - 48)
        } else if c >= 'a' && c <= 'f' {
            Some((c as u32) - 97 + 10)
        } else if c >= 'A' && c <= 'F' {
            Some((c as u32) - 65 + 10)
        } else {
            None
        };
        let d: u32 = match dv {
            Some(d) => {
                if d >= base {
                    proof {
                        assert(t.take(k + 1).drop_last() =~= t.take(k));
                        lemma_radix_val_prefix_le(t, base as nat, k + 1);
                    }
                    assert(radix_digit_val(t[k], base as nat) is None);
                    return None;
                }
                d
            }
            None => {
                assert(radix_digit_val(t[k], base as nat) is None);
                return None;
            }
        };
        if acc > 0xFFFF_FFFFu32 / base || (acc == 0xFFFF_FFFFu32 / base && d > 0xFFFF_FFFFu32 % base) {
            proof {
                assert(t.take(k + 1).drop_last() =~= t.take(k));
                assert(acc * base + d >= 0x1_0000_0000) by (nonlinear_arith)
                    requires
                        base == 16 || base == 2,
                        d < base,
                        acc > 0xFFFF_FFFFu32 / base || (acc == 0xFFFF_FFFFu32 / base && d
                            > 0xFFFF_FFFFu32 % base),
                ;
                assert(radix_val(t.take(k + 1), base as nat) >= 0x1_0000_0000);
                lemma_radix_val_prefix_le(t, base as nat, k + 1);
            }
            return None;
        }
        proof {
            assert(t.take(k + 1).drop_last() =~= t.take(k));
            assert(acc * base + d < 0x1_0000_0000) by (nonlinear_arith)
                requires
                    base == 16 || base == 2,
                    d < base,
                    !(acc > 0xFFFF_FFFFu32 / base || (acc == 0xFFFF_FFFFu32 / base && d
                        > 0xFFFF_FFFFu32 % base)),
            ;
        }
        acc = acc * base + d;
        i = i + 1;
    }
    proof {
        assert(t.take(t.len() as int) =~= t);
    }
    Some(acc)
}

/// The hexadecimal numeral of `n` without leading zeros, lower case.
pub open spec fn hexv_seq(n: nat) -> Seq<char>
    decreases n,
{
    if n < 16 {
        seq![hex_digit(n as int)]
    } else {
        hexv_seq(n / 16).push(hex_digit((n % 16) as int))
    }
}

/// Appends the hexadecimal numeral of `n` without leading zeros to `s`.
pub fn append_hexv(s: &mut String, n: u32)
    ensures
        final(s)@ == old(s)@ + hexv_seq(n as nat),
    decreases n,
{
    if n < 16 {
        s.append(hex_digit_str(n));
    } else {
        append_hexv(s, n / 16);
        s.append(hex_digit_str(n % 16));
    }
}

/// `text` wrapped in the ANSI 256-colour foreground escape for `code`:
/// `ESC [ 3 8 ; 5 ;` then the decimal colour code, `m`, the text, and `ESC [ 0 m`.
pub open spec fn colored_seq(text: Seq<char>, code: u8) -> Seq<char> {
    "\u{1b}[38;5;"@ + dec_seq(code as nat) + "m"@ + text + "\u{1b}[0m"@
}

/// Wraps `text` in the ANSI 256-colour foreground escape for `code`.
pub fn colored(text: &str, code: u8) -> (r: String)
    ensures
        r@ == colored_seq(text@, code),
{
    let mut s = String::new();
    s.append("\u{1b}[38;5;");
    append_dec(&mut s, code as u32);
    s.append("m");
    s.append(text);
    s.append("\u{1b}[0m");
    proof {
        assert(s@ =~= colored_seq(text@, code));
    }
    s
}

/// Whether `needle` occurs in `hay` starting at position `k`.
pub open spec fn contains_at(hay: Seq<char>, needle: Seq<char>, k: int) -> bool {
    0 <= k && k + needle.len() <= hay.len() && hay.subrange(k, k + needle.len()) == needle
}

/// Whether `needle` occurs anywhere in `hay`.
pub open spec fn seq_contains(hay: Seq<char>, needle: Seq<char>) -> bool {
    exists|k: int| contains_at(hay, needle, k)
}

/// Whether `needle` occurs as a substring of `hay`.
pub fn str_contains(hay: &str, needle: &str) -> (r: bool)
    ensures
        r == seq_contains(hay@, needle@),
{
    let hlen = hay.unicode_len();
    let nlen = needle.unicode_len();
    if nlen > hlen {
        proof {
            assert(forall|k: int| !contains_at(hay@, needle@, k));
        }
        return false;
    }
    let mut k: usize = 0;
    while k <= hlen - nlen
        invariant
            nlen <= hlen,
            hlen == hay@.len(),
            nlen == needle@.len(),
            k <= hlen - nlen + 1,
            forall|q: int| 0 <= q < k ==> !contains_at(hay@, needle@, q),
        decreases hlen - nlen + 1 - k,
    {
        let mut j: usize = 0;
        let mut all_eq = true;
        while j < nlen
            invariant
                nlen <= hlen,
                hlen == hay@.len(),
                nlen == needle@.len(),
                k + nlen <= hlen,
                j <= nlen,
                all_eq == (forall|q: int| 0 <= q < j ==> hay@[k + q] == needle@[q]),
                !all_eq ==> j == nlen,
            decreases nlen - j,
        {
            let hc = hay.get_char(k + j);
            let nc = needle.get_char(j);
            if hc != nc {
                all_eq = false;
                proof {
                    assert(hay@[k + j] != needle@[j as int]);
                }
                j = nlen;
            } else {
                proof {
                    assert(forall|q: int| 0 <= q < j + 1 ==> hay@[k as int + q] == needle@[q]);
                }
                j = j + 1;
            }
        }
        if all_eq {
            proof {
                assert(hay@.subrange(k as int, k + nlen) =~= needle@);
                assert(contains_at(hay@, needle@, k as int));
            }
            return true;
        }
        proof {
            assert(!contains_at(hay@, needle@, k as int)) by {
                if contains_at(hay@, needle@, k as int) {
                    let q = choose|q: int|
                        0 <= q < nlen && hay@[k + q] != needle@[q];
                    assert(hay@.subrange(k as int, k + nlen)[q] == needle@[q]);
                }
            }
        }
        k = k + 1;
    }
    proof {
        assert(forall|q: int| q >= k ==> !contains_at(hay@, needle@, q));
    }
    false
}

} // verus!
