//! Fixed-width hexadecimal rendering and parsing of numbers, plus decimal
//! rendering, over `Seq<char>` models.  The token format of the
//! authentication module and the diagnostic messages of the rule evaluator
//! are built from these.

use vstd::prelude::*;
use vstd::string::StrSliceExecFns;
use vstd::string::StringExecFns;

verus! {

/// 16 to the power `k`.
pub open spec fn pow16(k: nat) -> int
    decreases k,
{
    if k == 0 {
        1
    } else {
        16 * pow16((k - 1) as nat)
    }
}

/// The lower-case hexadecimal digit character for a value below 16.
pub open spec fn hex_char(d: int) -> char {
    if d < 10 {
        (48 + d) as char
    } else {
        (87 + d) as char
    }
}

/// The numeric value of a lower-case hexadecimal digit character, if any.
pub open spec fn hex_digit_value(c: char) -> Option<int> {
    if 48 <= c as int && c as int <= 57 {
        Some(c as int - 48)
    } else if 97 <= c as int && c as int <= 102 {
        Some(c as int - 87)
    } else {
        None
    }
}

/// `w` hexadecimal digits rendering `u`, most significant first.
/// Values at or above `pow16(w)` lose their high digits.
pub open spec fn hex_w(u: int, w: nat) -> Seq<char>
    decreases w,
{
    if w == 0 {
        Seq::<char>::empty()
    } else {
        hex_w(u / 16, (w - 1) as nat).push(hex_char(u % 16))
    }
}

/// The value of the `w` hexadecimal digits of `p` starting at `i`,
/// or `None` if the range is out of bounds or holds a non-digit.
pub open spec fn parse_hex_run(p: Seq<char>, i: int, w: nat) -> Option<int>
    decreases w,
{
    if w == 0 {
        if 0 <= i && i <= p.len() {
            Some(0)
        } else {
            None
        }
    } else {
        match parse_hex_run(p, i, (w - 1) as nat) {
            None => None,
            Some(hi) => {
                if i + w <= p.len() {
                    match hex_digit_value(p[i + w - 1]) {
                        None => None,
                        Some(d) => Some(hi * 16 + d),
                    }
                } else {
                    None
                }
            },
        }
    }
}

/// Every character of `hex_w` is a digit, and reads back as the digit written.
pub proof fn lemma_hex_char_value(d: int)
    requires
        0 <= d < 16,
    ensures
        hex_digit_value(hex_char(d)) == Some(d),
{
}

/// Appending one character to the text advances `parse_hex_run` by one digit.
pub proof fn lemma_parse_hex_run_of_hex_w(p: Seq<char>, i: int, u: int, w: nat)
    requires
        0 <= u < pow16(w),
        0 <= i,
        i + w <= p.len(),
        p.subrange(i, i + w) =~= hex_w(u, w),
    ensures
        parse_hex_run(p, i, w) == Some(u),
    decreases w,
{
    if w == 0 {
    } else {
        let prev = (w - 1) as nat;
        assert(hex_w(u, w) == hex_w(u / 16, prev).push(hex_char(u % 16)));
        assert(hex_w(u / 16, prev).len() == prev) by {
            lemma_hex_w_len(u / 16, prev);
        }
        assert(p.subrange(i, i + prev) =~= hex_w(u / 16, prev)) by {
            assert(forall|k: int|
                0 <= k < prev ==> #[trigger] p.subrange(i, i + prev)[k] == p.subrange(i, i + w)[k]);
        }
        assert(u / 16 < pow16(prev)) by {
            lemma_pow16_div(u, w);
        }
        lemma_parse_hex_run_of_hex_w(p, i, u / 16, prev);
        assert(p[i + w - 1] == p.subrange(i, i + w)[w - 1]);
        assert(p[i + w - 1] == hex_char(u % 16));
        lemma_hex_char_value(u % 16);
        assert((u / 16) * 16 + u % 16 == u) by {
            vstd::arithmetic::div_mod::lemma_fundamental_div_mod(u, 16);
        }
    }
}

/// `hex_w` renders exactly `w` characters.
pub proof fn lemma_hex_w_len(u: int, w: nat)
    ensures
        hex_w(u, w).len() == w,
    decreases w,
{
    if w > 0 {
        lemma_hex_w_len(u / 16, (w - 1) as nat);
    }
}

/// `pow16` is positive.
pub proof fn lemma_pow16_pos(w: nat)
    ensures
        pow16(w) >= 1,
    decreases w,
{
    if w > 0 {
        lemma_pow16_pos((w - 1) as nat);
    }
}

/// A value below `pow16(w)` keeps its quotient by 16 below `pow16(w - 1)`.
proof fn lemma_pow16_div(u: int, w: nat)
    requires
        w > 0,
        0 <= u < pow16(w),
    ensures
        0 <= u / 16 < pow16((w - 1) as nat),
{
    let prev = (w - 1) as nat;
    assert(pow16(w) == 16 * pow16(prev));
    lemma_pow16_pos(prev);
    let p = pow16(prev);
    assert(0 <= u / 16 < p) by (nonlinear_arith)
        requires
            0 <= u,
            u < 16 * p,
            p >= 1,
    ;
}

/// Appends the digit character for `d` to `s`.
fn push_hex_digit(s: &mut String, d: u8)
    requires
        d < 16,
    ensures
        final(s)@ == old(s)@ + seq![hex_char(d as int)],
{
    proof {
        reveal_strlit("0");
        reveal_strlit("1");
        reveal_strlit("2");
        reveal_strlit("3");
        reveal_strlit("4");
        reveal_strlit("5");
        reveal_strlit("6");
        reveal_strlit("7");
        reveal_strlit("8");
        reveal_strlit("9");
        reveal_strlit("a");
        reveal_strlit("b");
        reveal_strlit("c");
        reveal_strlit("d");
        reveal_strlit("e");
        reveal_strlit("f");
    }
    match d {
        0 => s.append("0"),
        1 => s.append("1"),
        2 => s.append("2"),
        3 => s.append("3"),
        4 => s.append("4"),
        5 => s.append("5"),
        6 => s.append("6"),
        7 => s.append("7"),
        8 => s.append("8"),
        9 => s.append("9"),
        10 => s.append("a"),
        11 => s.append("b"),
        12 => s.append("c"),
        13 => s.append("d"),
        14 => s.append("e"),
        _ => s.append("f"),
    }
}

/// Appends the 16-digit hexadecimal rendering of `u` to `s`.
pub fn append_hex16(s: &mut String, u: u64)
    ensures
        final(s)@ == old(s)@ + hex_w(u as int, 16),
{
    let mut digits: Vec<u8> = Vec::new();
    let mut v: u64 = u;
    let mut j: usize = 0;
    while j < 16
        invariant
            j <= 16,
            digits@.len() == j,
            v as int == div_pow16(u as int, j as nat),
            forall|m: int|
                0 <= m < j ==> digits@[m] as int == div_pow16(u as int, m as nat) % 16,
        decreases 16 - j,
    {
        digits.push((v % 16) as u8);
        proof {
            assert(div_pow16(u as int, (j + 1) as nat) == div_pow16(u as int, j as nat) / 16);
        }
        v = v / 16;
        j = j + 1;
    }
    let mut k: usize = 16;
    while k > 0
        invariant
            k <= 16,
            digits@.len() == 16,
            forall|m: int|
                0 <= m < 16 ==> digits@[m] as int == div_pow16(u as int, m as nat) % 16,
            s@ == old(s)@ + hex_w(div_pow16(u as int, k as nat), (16 - k) as nat),
        decreases k,
    {
        let d = digits[k - 1];
        proof {
            lemma_div_pow16_step(u as int, (k - 1) as nat);
        }
        push_hex_digit(s, d);
        proof {
            let x = div_pow16(u as int, (k - 1) as nat);
            assert(hex_w(x, (16 - (k - 1)) as nat) == hex_w(x / 16, (16 - k) as nat).push(
                hex_char(x % 16),
            ));
            assert(s@ =~= old(s)@ + hex_w(x, (16 - (k - 1)) as nat));
        }
        k = k - 1;
    }
    proof {
        assert(div_pow16(u as int, 0) == u as int);
    }
}

/// The quotient of `u` by `pow16(k)`.
pub open spec fn div_pow16(u: int, k: nat) -> int
    decreases k,
{
    if k == 0 {
        u
    } else {
        div_pow16(u, (k - 1) as nat) / 16
    }
}

proof fn lemma_div_pow16_step(u: int, k: nat)
    ensures
        div_pow16(u, (k + 1) as nat) == div_pow16(u, k) / 16,
{
}

/// Reads the 16 hexadecimal digits of `s` starting at `i`, if they are
/// there; mirrors `parse_hex_run(s@, i, 16)`.
pub fn read_hex16(s: &str, i: usize) -> (r: Option<u64>)
    requires
        i <= s@.len(),
    ensures
        match r {
            Some(u) => parse_hex_run(s@, i as int, 16) == Some(u as int),
            None => parse_hex_run(s@, i as int, 16) is None,
        },
{
    let n = s.unicode_len();
    if n - i < 16 {
        proof {
            lemma_parse_short(s@, i as int, 16);
        }
        return None;
    }
    let mut acc: u64 = 0;
    let mut j: usize = 0;
    while j < 16
        invariant
            j <= 16,
            n == s@.len(),
            i + 16 <= n,
            parse_hex_run(s@, i as int, j as nat) == Some(acc as int),
            (acc as int) < pow16(j as nat),
        decreases 16 - j,
    {
        let c = s.get_char(i + j);
        let u = c as u32;
        let d: u64 = if 48 <= u && u <= 57 {
            (u - 48) as u64
        } else if 97 <= u && u <= 102 {
            (u - 87) as u64
        } else {
            proof {
                lemma_parse_bad_digit(s@, i as int, (j + 1) as nat, 16);
            }
            return None;
        };
        proof {
            assert(hex_digit_value(s@[i + j]) == Some(d as int));
            assert(pow16((j + 1) as nat) == 16 * pow16(j as nat));
            assert((acc as int) * 16 + d < 16 * pow16(j as nat));
            lemma_pow16_le_u64(16);
            lemma_pow16_grows(( j + 1) as nat, 16);
        }
        acc = acc * 16 + d;
        j = j + 1;
    }
    Some(acc)
}

/// A range that runs past the end never parses.
proof fn lemma_parse_short(p: Seq<char>, i: int, w: nat)
    requires
        i + w > p.len(),
    ensures
        parse_hex_run(p, i, w) is None,
    decreases w,
{
    if w > 0 {
        if i + (w - 1) > p.len() {
            lemma_parse_short(p, i, (w - 1) as nat);
        }
    }
}

/// A non-digit inside the range spoils every wider read.
proof fn lemma_parse_bad_digit(p: Seq<char>, i: int, bad: nat, w: nat)
    requires
        0 < bad <= w,
        i + bad - 1 < p.len(),
        hex_digit_value(p[i + bad - 1]) is None,
    ensures
        parse_hex_run(p, i, w) is None,
    decreases w,
{
    if w > bad {
        lemma_parse_bad_digit(p, i, bad, (w - 1) as nat);
    }
}

/// `pow16` only grows with its argument.
proof fn lemma_pow16_grows(a: nat, b: nat)
    requires
        a <= b,
    ensures
        pow16(a) <= pow16(b),
    decreases b,
{
    if a < b {
        lemma_pow16_grows(a, (b - 1) as nat);
        lemma_pow16_pos((b - 1) as nat);
        assert(pow16(b) == 16 * pow16((b - 1) as nat));
    }
}

/// Sixteen hexadecimal digits cover exactly the 64-bit range.
pub proof fn lemma_pow16_le_u64(w: nat)
    requires
        w <= 16,
    ensures
        pow16(w) <= 0x1_0000_0000_0000_0000,
{
    lemma_pow16_grows(w, 16);
    reveal_with_fuel(pow16, 17);
    assert(pow16(16) == 0x1_0000_0000_0000_0000);
}

/// The decimal rendering of a non-negative number, no leading zeros.
pub open spec fn dec_str(n: int) -> Seq<char>
    decreases n,
{
    if n <= 0 {
        seq!['0']
    } else if n < 10 {
        seq![hex_char(n)]
    } else {
        dec_str(n / 10).push(hex_char(n % 10))
    }
}

/// The digits still to be stacked while rendering a number.
pub open spec fn pending_digits(v: int) -> Seq<char> {
    if v > 0 {
        dec_str(v)
    } else {
        Seq::<char>::empty()
    }
}

/// Appends the decimal rendering of `n` to `s`.
pub fn append_decimal(s: &mut String, n: u64)
    ensures
        final(s)@ == old(s)@ + dec_str(n as int),
{
    if n == 0 {
        push_hex_digit(s, 0);
        assert(s@ =~= old(s)@ + dec_str(0));
        return ;
    }
    let mut digits: Vec<u8> = Vec::new();
    let mut v: u64 = n;
    while v > 0
        invariant
            n > 0,
            dec_str(n as int) =~= pending_digits(v as int) + digits_chars(digits@),
            forall|m: int| 0 <= m < digits@.len() ==> digits@[m] < 10,
        decreases v,
    {
        let ghost pre = digits@;
        let ghost vv = v as int;
        digits.push((v % 10) as u8);
        assert(v as int / 10 < v as int) by (nonlinear_arith)
            requires
                v > 0,
        ;
        v = v / 10;
        proof {
            assert(digits@ =~= pre.push((vv % 10) as u8));
            assert(digits@.last() as int == vv % 10);
            assert(digits@.drop_last() =~= pre);
            assert(digits_chars(digits@) =~= seq![hex_char(vv % 10)] + digits_chars(pre));
            if vv >= 10 {
                assert(dec_str(vv) == dec_str(vv / 10).push(hex_char(vv % 10)));
                assert(pending_digits(vv) =~= pending_digits(vv / 10) + seq![hex_char(vv % 10)]);
            } else {
                assert(dec_str(vv) == seq![hex_char(vv)]);
                assert(pending_digits(vv) =~= pending_digits(vv / 10) + seq![hex_char(vv % 10)]);
            }
            assert(pending_digits(vv) + digits_chars(pre) =~= pending_digits(vv / 10)
                + digits_chars(digits@));
        }
    }
    let mut k: usize = digits.len();
    proof {
        assert(dec_str(n as int) =~= digits_chars(digits@));
    }
    while k > 0
        invariant
            k <= digits@.len(),
            dec_str(n as int) =~= digits_chars(digits@),
            forall|m: int| 0 <= m < digits@.len() ==> digits@[m] < 10,
            s@ == old(s)@ + digits_chars(digits@).take(digits@.len() - k),
        decreases k,
    {
        let d = digits[k - 1];
        push_hex_digit(s, d);
        proof {
            let whole = digits_chars(digits@);
            lemma_digits_chars_index(digits@, digits@.len() - k);
            assert(whole[digits@.len() - k] == hex_char(d as int));
            assert(whole.take(digits@.len() - (k - 1)) =~= whole.take(digits@.len() - k).push(
                hex_char(d as int),
            ));
        }
        k = k - 1;
    }
    proof {
        lemma_digits_chars_len(digits@);
        assert(digits_chars(digits@).take(digits@.len() as int) =~= digits_chars(digits@));
    }
}

/// `digits_chars` keeps the length of the stack.
pub proof fn lemma_digits_chars_len(ds: Seq<u8>)
    ensures
        digits_chars(ds).len() == ds.len(),
    decreases ds.len(),
{
    if ds.len() > 0 {
        lemma_digits_chars_len(ds.drop_last());
    }
}

/// `digits_chars` reverses the stack: position `m` holds digit `len - 1 - m`.
pub proof fn lemma_digits_chars_index(ds: Seq<u8>, m: int)
    requires
        0 <= m < ds.len(),
    ensures
        digits_chars(ds).len() == ds.len(),
        digits_chars(ds)[m] == hex_char(ds[ds.len() - 1 - m] as int),
    decreases ds.len(),
{
    lemma_digits_chars_len(ds);
    if m == 0 {
    } else {
        lemma_digits_chars_index(ds.drop_last(), m - 1);
    }
}

/// The characters of a digit stack, last digit pushed first.
pub open spec fn digits_chars(ds: Seq<u8>) -> Seq<char>
    decreases ds.len(),
{
    if ds.len() == 0 {
        Seq::<char>::empty()
    } else {
        seq![hex_char(ds.last() as int)] + digits_chars(ds.drop_last())
    }
}

} // verus!
