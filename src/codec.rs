//! Text of fixed-point values (prices, profits) with exactly four decimal
//! places, and of signals.

use vstd::prelude::*;

use crate::trades::Trade;

verus! {

/// Largest magnitude of a fixed-point value that is read back from text: room
/// for prices and for the profit between two of them.
pub const FIXED4_LIMIT: i64 = 100_000_000_000_000_000;

/// The ASCII digit for `d`.
pub open spec fn digit_byte(d: int) -> u8 {
    (48 + d) as u8
}

pub open spec fn is_digit(b: u8) -> bool {
    48 <= b <= 57
}

pub open spec fn all_digits(s: Seq<u8>) -> bool {
    forall|k: int| 0 <= k < s.len() ==> is_digit(#[trigger] s[k])
}

/// The decimal digits of `n`, most significant first, without leading zeros.
pub open spec fn digits_of(n: nat) -> Seq<u8>
    decreases n,
{
    if n < 10 {
        seq![digit_byte(n as int)]
    } else {
        digits_of(n / 10).push(digit_byte((n % 10) as int))
    }
}

/// The number that a sequence of digits denotes.
pub open spec fn value_of(s: Seq<u8>) -> int
    decreases s.len(),
{
    if s.len() == 0 {
        0
    } else {
        value_of(s.drop_last()) * 10 + (s.last() - 48)
    }
}

/// Four digits for a number below 10000, zeros in front.
pub open spec fn four_digits(n: int) -> Seq<u8> {
    seq![
        digit_byte((n / 1000) % 10),
        digit_byte((n / 100) % 10),
        digit_byte((n / 10) % 10),
        digit_byte(n % 10),
    ]
}

pub open spec fn abs(v: int) -> int {
    if v < 0 { -v } else { v }
}

/// The text of a fixed-point value `v` (1 stands for 0.0001): an optional
/// minus sign, the integer part, a point and exactly four decimals.
pub open spec fn fixed4_text(v: int) -> Seq<u8> {
    let a = abs(v);
    (if v < 0 { seq![45u8] } else { Seq::<u8>::empty() }) + digits_of((a / 10000) as nat) + seq![46u8]
        + four_digits(a % 10000)
}

/// The value of a text made of an optional minus sign, one or more digits, a
/// point and exactly four digits; `None` for any other text.
pub open spec fn fixed4_value(s: Seq<u8>) -> Option<int> {
    let neg = s.len() > 0 && s[0] == 45u8;
    let body = if neg { s.drop_first() } else { s };
    let whole = body.take(body.len() - 5);
    let frac = body.skip(body.len() - 4);
    if body.len() >= 6 && body[body.len() - 5] == 46u8 && all_digits(whole) && all_digits(frac) {
        let m = value_of(whole) * 10000 + value_of(frac);
        Some(if neg { -m } else { m })
    } else {
        None
    }
}

proof fn lemma_digits_of(n: nat)
    ensures
        digits_of(n).len() > 0,
        all_digits(digits_of(n)),
        value_of(digits_of(n)) == n,
    decreases n,
{
    let d = digits_of(n);
    if n < 10 {
        assert(d.drop_last() =~= Seq::<u8>::empty());
        assert(value_of(d.drop_last()) == 0);
        assert(d.last() == digit_byte(n as int));
    } else {
        lemma_digits_of(n / 10);
        assert(d.drop_last() =~= digits_of(n / 10));
        assert(d.last() == digit_byte((n % 10) as int));
        assert(n == (n / 10) * 10 + n % 10);
    }
}

proof fn lemma_four_digits(n: int)
    requires
        0 <= n < 10000,
    ensures
        all_digits(four_digits(n)),
        value_of(four_digits(n)) == n,
{
    let f = four_digits(n);
    let s1 = seq![f[0]];
    let s2 = seq![f[0], f[1]];
    let s3 = seq![f[0], f[1], f[2]];
    assert(s1.drop_last() =~= Seq::<u8>::empty());
    assert(value_of(s1.drop_last()) == 0);
    assert(value_of(s1) == (n / 1000) % 10);
    assert(s2.drop_last() =~= s1);
    assert(value_of(s2) == (n / 1000) % 10 * 10 + (n / 100) % 10);
    assert(s3.drop_last() =~= s2);
    assert(value_of(s3) == ((n / 1000) % 10 * 10 + (n / 100) % 10) * 10 + (n / 10) % 10);
    assert(f.drop_last() =~= s3);
    assert(value_of(f) == (((n / 1000) % 10 * 10 + (n / 100) % 10) * 10 + (n / 10) % 10) * 10 + n % 10);
    assert((((n / 1000) % 10 * 10 + (n / 100) % 10) * 10 + (n / 10) % 10) * 10 + n % 10 == n) by (nonlinear_arith)
        requires 0 <= n < 10000;
}

/// A value of digits is at least that of any prefix.
proof fn lemma_value_prefix(s: Seq<u8>, k: int)
    requires
        0 <= k <= s.len(),
        all_digits(s),
    ensures
        value_of(s) >= value_of(s.take(k)) >= 0,
    decreases s.len(),
{
    if k == s.len() {
        assert(s.take(k) =~= s);
        if s.len() > 0 {
            lemma_value_prefix(s.drop_last(), 0);
        } else {
        }
    } else {
        assert(s.drop_last().take(k) =~= s.take(k));
        lemma_value_prefix(s.drop_last(), k);
    }
}

/// Writing a fixed-point value within the limit and reading the text back
/// gives the value again.
pub proof fn lemma_fixed4_round_trip(v: i64)
    requires
        -FIXED4_LIMIT <= v <= FIXED4_LIMIT,
    ensures
        fixed4_value(fixed4_text(v as int)) == Some(v as int),
{
    let a = abs(v as int);
    let q = (a / 10000) as nat;
    let r = a % 10000;
    lemma_digits_of(q);
    lemma_four_digits(r);
    let body = digits_of(q) + seq![46u8] + four_digits(r);
    let s = fixed4_text(v as int);
    if v < 0 {
        assert(s.drop_first() =~= body);
    } else {
        assert(s =~= body);
    }
    assert(body.take(body.len() - 5) =~= digits_of(q));
    assert(body.skip(body.len() - 4) =~= four_digits(r));
    assert(q * 10000 + r == a);
}

spec fn pow10(k: nat) -> int
    decreases k,
{
    if k == 0 { 1 } else { 10 * pow10((k - 1) as nat) }
}

/// Pushes the digits of `n` to `out`.
fn push_digits(n: u64, out: &mut Vec<u8>)
    ensures
        final(out)@ == old(out)@ + digits_of(n as nat),
    decreases n,
{
    if n >= 10 {
        push_digits(n / 10, out);
    }
    out.push(48 + (n % 10) as u8);
    proof {
        if n >= 10 {
            assert(digits_of(n as nat) == digits_of((n / 10) as nat).push(digit_byte((n % 10) as int)));
        }
    }
}

/// The text of a fixed-point value, with exactly four decimals.
pub fn format_fixed4(v: i64) -> (r: Vec<u8>)
    requires
        v != i64::MIN,
    ensures
        r@ == fixed4_text(v as int),
{
    let a: u64 = if v < 0 { (-v) as u64 } else { v as u64 };
    let mut out: Vec<u8> = Vec::new();
    if v < 0 {
        out.push(45);
    }
    push_digits(a / 10000, &mut out);
    out.push(46);
    let f = a % 10000;
    out.push(48 + (f / 1000 % 10) as u8);
    out.push(48 + (f / 100 % 10) as u8);
    out.push(48 + (f / 10 % 10) as u8);
    out.push(48 + (f % 10) as u8);
    proof {
        assert(out@ =~= fixed4_text(v as int));
    }
    out
}

/// Reads a fixed-point value written with exactly four decimals; `None` for
/// other text or a value beyond `FIXED4_LIMIT`.
pub fn parse_fixed4(s: &[u8]) -> (r: Option<i64>)
    ensures
        r == (match fixed4_value(s@) {
            Some(m) => if -FIXED4_LIMIT <= m <= FIXED4_LIMIT { Some(m as i64) } else { None },
            None => None,
        }),
{
    let n = s.len();
    let neg = n > 0 && s[0] == 45;
    let start: usize = if neg { 1 } else { 0 };
    let ghost body = if neg { s@.drop_first() } else { s@ };
    proof {
        assert(body.len() == n - start);
    }
    if n < start + 6 {
        return None;
    }
    let dot = n - 5;
    proof {
        assert(body.len() == n - start);
        assert(body[body.len() - 5] == s@[dot as int]);
    }
    if s[dot] != 46 {
        return None;
    }
    let ghost whole = body.take(body.len() - 5);
    let ghost frac = body.skip(body.len() - 4);
    let mut acc: u64 = 0;
    let mut i: usize = start;
    while i < dot
        invariant
            start <= i <= dot,
            dot == n - 5,
            n == s@.len(),
            start + 6 <= n,
            body == if neg { s@.drop_first() } else { s@ },
            start == (if neg { 1int } else { 0int }),
            neg == (s@.len() > 0 && s@[0] == 45u8),
            whole == body.take(body.len() - 5),
            frac == body.skip(body.len() - 4),
            s@[dot as int] == 46u8,
            all_digits(whole.take(i - start)),
            acc == value_of(whole.take(i - start)),
            acc <= 10_000_000_000_000,
        decreases dot - i,
    {
        let b = s[i];
        proof {
            assert(whole[i - start] == s@[i as int]);
            assert(whole.take(i + 1 - start).drop_last() =~= whole.take(i - start));
        }
        if b < 48 || b > 57 {
            proof {
                assert(!is_digit(whole[i - start]));
                assert(!all_digits(whole));
                assert(fixed4_value(s@).is_none());
            }
            return None;
        }
        acc = acc * 10 + (b - 48) as u64;
        proof {
            let t = whole.take(i + 1 - start);
            assert(t.last() == b);
            assert(value_of(t) == acc);
            assert forall|k: int| 0 <= k < t.len() implies is_digit(#[trigger] t[k]) by {
                if k < t.len() - 1 {
                    assert(t[k] == whole.take(i - start)[k]);
                }
            }
        }
        if acc > 10_000_000_000_000 {
            proof {
                if all_digits(whole) {
                    lemma_value_prefix(whole, i + 1 - start);
                    assert(body.len() >= 6 && all_digits(frac) ==> value_of(frac) >= 0) by {
                        if all_digits(frac) {
                            lemma_value_prefix(frac, 0);
                        }
                    }
                }
            }
            return None;
        }
        i = i + 1;
    }
    proof {
        assert(whole.take(dot - start) =~= whole);
    }
    let mut f: u64 = 0;
    let mut j: usize = dot + 1;
    while j < n
        invariant
            dot + 1 <= j <= n,
            dot == n - 5,
            n == s@.len(),
            start + 6 <= n,
            body == if neg { s@.drop_first() } else { s@ },
            start == (if neg { 1int } else { 0int }),
            neg == (s@.len() > 0 && s@[0] == 45u8),
            whole == body.take(body.len() - 5),
            frac == body.skip(body.len() - 4),
            s@[dot as int] == 46u8,
            all_digits(whole),
            acc == value_of(whole),
            acc <= 10_000_000_000_000,
            all_digits(frac.take(j - dot - 1)),
            f == value_of(frac.take(j - dot - 1)),
            f < pow10((j - dot - 1) as nat),
        decreases n - j,
    {
        let b = s[j];
        proof {
            assert(frac[j - dot - 1] == s@[j as int]);
            assert(frac.take(j + 1 - dot - 1).drop_last() =~= frac.take(j - dot - 1));
        }
        if b < 48 || b > 57 {
            proof {
                assert(!is_digit(frac[j - dot - 1]));
            }
            return None;
        }
        proof {
            reveal_with_fuel(pow10, 5);
        }
        f = f * 10 + (b - 48) as u64;
        proof {
            let t = frac.take(j + 1 - dot - 1);
            assert(t.last() == b);
            assert(value_of(t) == f);
            assert forall|k: int| 0 <= k < t.len() implies is_digit(#[trigger] t[k]) by {
                if k < t.len() - 1 {
                    assert(t[k] == frac.take(j - dot - 1)[k]);
                }
            }
        }
        j = j + 1;
    }
    proof {
        assert(frac.take(4) =~= frac);
        reveal_with_fuel(pow10, 5);
    }
    let m: i64 = acc as i64 * 10000 + f as i64;
    if m > FIXED4_LIMIT {
        return None;
    }
    if neg { Some(-m) } else { Some(m) }
}

/// The text of a signal: "-1", "0" or "1".
pub open spec fn signal_text(sig: i8) -> Seq<u8> {
    if sig < 0 {
        seq![45u8, 49u8]
    } else if sig == 0 {
        seq![48u8]
    } else {
        seq![49u8]
    }
}

/// The signal that a text denotes, if it is one of "-1", "0" and "1".
pub open spec fn signal_value(s: Seq<u8>) -> Option<i8> {
    if s == seq![45u8, 49u8] {
        Some(-1i8)
    } else if s == seq![48u8] {
        Some(0i8)
    } else if s == seq![49u8] {
        Some(1i8)
    } else {
        None
    }
}

/// The text of a signal in {-1, 0, 1}.
pub fn format_signal(sig: i8) -> (r: Vec<u8>)
    requires
        -1 <= sig <= 1,
    ensures
        r@ == signal_text(sig),
{
    let mut out: Vec<u8> = Vec::new();
    if sig < 0 {
        out.push(45);
        out.push(49);
    } else if sig == 0 {
        out.push(48);
    } else {
        out.push(49);
    }
    proof {
        assert(out@ =~= signal_text(sig));
    }
    out
}

/// Reads a signal written as "-1", "0" or "1".
pub fn parse_signal(s: &[u8]) -> (r: Option<i8>)
    ensures
        r == signal_value(s@),
{
    let n = s.len();
    if n == 2 && s[0] == 45 && s[1] == 49 {
        proof {
            assert(s@ =~= seq![45u8, 49u8]);
        }
        Some(-1)
    } else if n == 1 && s[0] == 48 {
        proof {
            assert(s@ =~= seq![48u8]);
        }
        Some(0)
    } else if n == 1 && s[0] == 49 {
        proof {
            assert(s@ =~= seq![49u8]);
        }
        Some(1)
    } else {
        proof {
            if s@ == seq![45u8, 49u8] {
                assert(s@[0] == 45u8 && s@[1] == 49u8);
            }
            if s@ == seq![48u8] {
                assert(s@[0] == 48u8);
            }
            if s@ == seq![49u8] {
                assert(s@[0] == 49u8);
            }
        }
        None
    }
}

/// Writing a trade's prices, gross profit and signal as text and reading them
/// back gives/// the same values.
pub proof fn lemma_trade_fields_round_trip(t: Trade)
    requires
        t.wf(),
    ensures
        fixed4_value(fixed4_text(t.entry_price as int)) == Some(t.entry_price as int),
        fixed4_value(fixed4_text(t.exit_price as int)) == Some(t.exit_price as int),
        fixed4_value(fixed4_text(t.gross_pnl as int)) == Some(t.gross_pnl as int),
        -FIXED4_LIMIT <= t.entry_price <= FIXED4_LIMIT,
        -FIXED4_LIMIT <= t.exit_price <= FIXED4_LIMIT,
        -FIXED4_LIMIT <= t.gross_pnl <= FIXED4_LIMIT,
        signal_value(signal_text(t.signal)) == Some(t.signal),
{
    lemma_fixed4_round_trip(t.entry_price);
    lemma_fixed4_round_trip(t.exit_price);
    lemma_fixed4_round_trip(t.gross_pnl);
    assert(signal_text(-1i8) =~= seq![45u8, 49u8]);
    assert(seq![49u8] != seq![45u8, 49u8]);
    assert(seq![49u8] != seq![48u8]) by {
        assert(seq![49u8][0] != seq![48u8][0]);
    }
}

} // verus!
