//! Decimal numbers as text: the grammar of a decimal literal
//! (`-?digits(.digits)?`), its value, and a parser proved against them.

use crate::arith::{lemma_pow10_pos, pow10};
use crate::decimal::{spec_dec, Decimal, MAX_SCALE};
use vstd::prelude::*;
use vstd::string::StrSliceExecFns;

verus! {

/// Whether `c` is an ASCII digit.
pub open spec fn is_digit(c: char) -> bool {
    48 <= c as u32 <= 57
}

/// The value of an ASCII digit.
pub open spec fn digit_val(c: char) -> int {
    c as u32 - 48
}

/// Whether every character is an ASCII digit.
pub open spec fn all_digits(s: Seq<char>) -> bool {
    forall|i: int| 0 <= i < s.len() ==> is_digit(#[trigger] s[i])
}

/// The number a digit string denotes, most significant digit first.
pub open spec fn digits_val(s: Seq<char>) -> int
    decreases s.len(),
{
    if s.len() == 0 {
        0
    } else {
        digits_val(s.drop_last()) * 10 + digit_val(s.last())
    }
}

/// The position of the first `.`, or `-1` where there is none.
pub open spec fn dot_index(s: Seq<char>) -> int
    decreases s.len(),
{
    if s.len() == 0 {
        -1
    } else if s[0] == '.' {
        0
    } else {
        let r = dot_index(s.subrange(1, s.len() as int));
        if r < 0 {
            -1
        } else {
            r + 1
        }
    }
}

/// What `dot_index` finds: the first dot, if any.
pub proof fn lemma_dot_index(s: Seq<char>)
    ensures
        dot_index(s) == -1 ==> forall|i: int| 0 <= i < s.len() ==> s[i] != '.',
        dot_index(s) >= 0 ==> 0 <= dot_index(s) < s.len() && s[dot_index(s)] == '.' && forall|
            j: int,
        | 0 <= j < dot_index(s) ==> s[j] != '.',
    decreases s.len(),
{
    if s.len() == 0 {
    } else if s[0] == '.' {
    } else {
        let t = s.subrange(1, s.len() as int);
        lemma_dot_index(t);
        if dot_index(s) == -1 {
            assert forall|i: int| 0 <= i < s.len() implies s[i] != '.' by {
                if i >= 1 {
                    assert(s[i] == t[i - 1]);
                }
            }
        } else {
            let d = dot_index(s);
            assert(s[d] == t[d - 1]);
            assert forall|j: int| 0 <= j < d implies s[j] != '.' by {
                if j >= 1 {
                    assert(s[j] == t[j - 1]);
                }
            }
        }
    }
}

/// `dot_index` is pinned by any witness of a first dot.
pub proof fn lemma_dot_index_at(s: Seq<char>, d: int)
    requires
        0 <= d < s.len(),
        s[d] == '.',
        forall|j: int| 0 <= j < d ==> s[j] != '.',
    ensures
        dot_index(s) == d,
    decreases s.len(),
{
    if d == 0 {
    } else {
        let t = s.subrange(1, s.len() as int);
        assert(forall|i: int| 0 <= i < t.len() ==> t[i] == s[i + 1]);
        lemma_dot_index_at(t, d - 1);
    }
}

/// A digit string denotes a non-negative number.
pub proof fn lemma_digits_val_nonneg(s: Seq<char>)
    requires
        all_digits(s),
    ensures
        digits_val(s) >= 0,
    decreases s.len(),
{
    if s.len() > 0 {
        assert(all_digits(s.drop_last())) by {
            assert(forall|i: int| 0 <= i < s.len() - 1 ==> s.drop_last()[i] == s[i]);
        }
        lemma_digits_val_nonneg(s.drop_last());
    }
}

/// Concatenation of digit strings: the left part is shifted by the length
/// of the right part.
pub proof fn lemma_digits_val_concat(a: Seq<char>, b: Seq<char>)
    ensures
        digits_val(a + b) == digits_val(a) * pow10(b.len()) + digits_val(b),
    decreases b.len(),
{
    if b.len() == 0 {
        assert(a + b =~= a);
        assert(digits_val(a) * pow10(0) == digits_val(a) * 1);
    } else {
        lemma_digits_val_concat(a, b.drop_last());
        assert((a + b).drop_last() =~= a + b.drop_last());
        assert((a + b).last() == b.last());
        let p = pow10(b.drop_last().len());
        assert(digits_val(a + b) == (digits_val(a) * p + digits_val(b.drop_last())) * 10
            + digit_val(b.last()));
        assert(pow10(b.len()) == 10 * p) by {
            assert(b.len() == b.drop_last().len() + 1);
        }
        assert((digits_val(a) * p) * 10 == digits_val(a) * (10 * p)) by (nonlinear_arith);
    }
}

/// A longer digit string never denotes a smaller number than its prefix.
pub proof fn lemma_digits_val_prefix(s: Seq<char>, k: int)
    requires
        all_digits(s),
        0 <= k <= s.len(),
    ensures
        digits_val(s) >= digits_val(s.subrange(0, k)),
{
    let p = s.subrange(0, k);
    let t = s.subrange(k, s.len() as int);
    assert(s =~= p + t);
    lemma_digits_val_concat(p, t);
    assert(all_digits(p)) by {
        assert(forall|i: int| 0 <= i < p.len() ==> p[i] == s[i]);
    }
    assert(all_digits(t)) by {
        assert(forall|i: int| 0 <= i < t.len() ==> t[i] == s[i + k]);
    }
    lemma_digits_val_nonneg(p);
    lemma_digits_val_nonneg(t);
    lemma_pow10_pos(t.len());
    assert(digits_val(p) * pow10(t.len()) >= digits_val(p)) by (nonlinear_arith)
        requires
            digits_val(p) >= 0,
            pow10(t.len()) >= 1,
    ;
}

/// Whether `b` (with no sign) is a well-formed decimal literal: digits with
/// at most one dot, neither starting nor ending the literal.
pub open spec fn decimal_body_ok(b: Seq<char>) -> bool {
    let d = dot_index(b);
    if d < 0 {
        b.len() >= 1 && all_digits(b)
    } else {
        1 <= d < b.len() - 1 && all_digits(b.subrange(0, d)) && all_digits(
            b.subrange(d + 1, b.len() as int),
        )
    }
}

/// The digits of a well-formed body, the dot dropped.
pub open spec fn body_digits(b: Seq<char>) -> Seq<char> {
    let d = dot_index(b);
    if d < 0 {
        b
    } else {
        b.subrange(0, d) + b.subrange(d + 1, b.len() as int)
    }
}

/// The number of fractional digits of a well-formed body.
pub open spec fn body_scale(b: Seq<char>) -> nat {
    let d = dot_index(b);
    if d < 0 {
        0
    } else {
        (b.len() - 1 - d) as nat
    }
}

/// What a decimal literal denotes: `None` unless it is an optional `-`
/// followed by a well-formed body whose digits fit a signed 64-bit mantissa
/// and whose fractional part fits [`MAX_SCALE`].
pub open spec fn parse_decimal_spec(s: Seq<char>) -> Option<Decimal> {
    let neg = s.len() > 0 && s[0] == '-';
    let b = if neg {
        s.subrange(1, s.len() as int)
    } else {
        s
    };
    if decimal_body_ok(b) && digits_val(body_digits(b)) <= i64::MAX && body_scale(b) <= MAX_SCALE {
        Some(
            spec_dec(
                if neg {
                    -digits_val(body_digits(b))
                } else {
                    digits_val(body_digits(b))
                },
                body_scale(b),
            ),
        )
    } else {
        None
    }
}

/// Parse a decimal literal: exactly the strings that
/// [`parse_decimal_spec`] accepts yield a value.
pub fn parse_decimal(s: &str) -> (r: Option<Decimal>)
    ensures
        r == parse_decimal_spec(s@),
{
    let n = s.unicode_len();
    if n == 0 {
        return None;
    }
    let neg = s.get_char(0) == '-';
    let start: usize = if neg {
        1
    } else {
        0
    };
    let ghost b: Seq<char> = if neg {
        s@.subrange(1, s@.len() as int)
    } else {
        s@
    };
    proof {
        assert(forall|j: int| 0 <= j < b.len() ==> b[j] == s@[j + start as int]);
    }
    if start >= n {
        return None;
    }
    let mut i: usize = start;
    let mut m: i64 = 0;
    let mut dot: usize = 0;
    let mut has_dot: bool = false;
    while i < n
        invariant
            start <= i <= n,
            n == s@.len(),
            start == if neg { 1int } else { 0int },
            neg == (s@.len() > 0 && s@[0] == '-'),
            start < n,
            b == (if neg { s@.subrange(1, s@.len() as int) } else { s@ }),
            b.len() == n - start,
            forall|j: int| 0 <= j < b.len() ==> b[j] == s@[j + start as int],
            0 <= m <= i64::MAX,
            has_dot ==> start < dot < i && b[dot - start as int] == '.',
            has_dot ==> all_digits(b.subrange(0, dot - start as int)) && all_digits(
                b.subrange(dot - start + 1, i - start as int),
            ) && m == digits_val(
                b.subrange(0, dot - start as int) + b.subrange(dot - start + 1, i - start as int),
            ),
            !has_dot ==> all_digits(b.subrange(0, i - start as int)) && m == digits_val(
                b.subrange(0, i - start as int),
            ),
        decreases n - i,
    {
        let c = s.get_char(i);
        let u = c as u32;
        let ghost bi = i - start as int;
        if 48 <= u && u <= 57 {
            let d = (u - 48) as i64;
            if m > (i64::MAX - d) / 10 {
                proof {
                    vstd::arithmetic::div_mod::lemma_fundamental_div_mod(
                        i64::MAX - d as int,
                        10,
                    );
                    lemma_overflow_rejects(b, bi, m as int, d as int, has_dot, dot - start as int);
                }
                return None;
            }
            proof {
                vstd::arithmetic::div_mod::lemma_fundamental_div_mod(i64::MAX - d as int, 10);
                if has_dot {
                    let bd = dot - start as int;
                    let p0 = b.subrange(0, bd);
                    let fp_old = b.subrange(bd + 1, bi);
                    let fp_new = b.subrange(bd + 1, bi + 1);
                    assert(fp_new.drop_last() =~= fp_old);
                    assert((p0 + fp_new).drop_last() =~= p0 + fp_old);
                    assert((p0 + fp_new).last() == b[bi]);
                } else {
                    let p_old = b.subrange(0, bi);
                    let p_new = b.subrange(0, bi + 1);
                    assert(p_new.drop_last() =~= p_old);
                    assert(p_new.last() == b[bi]);
                }
            }
            m = m * 10 + d;
        } else if c == '.' && !has_dot && i > start {
            proof {
                let fp_new = b.subrange(bi + 1, bi + 1);
                assert(b.subrange(0, bi) + fp_new =~= b.subrange(0, bi));
            }
            has_dot = true;
            dot = i;
        } else {
            proof {
                lemma_bad_char_rejects(b, bi, c, has_dot, dot - start as int, i == start);
            }
            return None;
        }
        i = i + 1;
    }
    if has_dot && dot == n - 1 {
        proof {
            let bd = dot - start as int;
            lemma_digits_no_dot(b, bd);
            lemma_dot_index_at(b, bd);
        }
        return None;
    }
    let scale: usize = if has_dot {
        n - 1 - dot
    } else {
        0
    };
    proof {
        if has_dot {
            lemma_digits_no_dot(b, dot - start as int);
            lemma_dot_index_at(b, dot - start as int);
            assert(b.subrange(dot - start + 1, n - start as int) =~= b.subrange(
                dot - start + 1,
                b.len() as int,
            ));
        } else {
            assert(b.subrange(0, n - start as int) =~= b);
            lemma_dot_index(b);
            if dot_index(b) >= 0 {
                assert(is_digit(b[dot_index(b)]));
                assert(false);
            }
        }
    }
    if scale > 28 {
        return None;
    }
    let mantissa: i128 = if neg {
        -(m as i128)
    } else {
        m as i128
    };
    Some(crate::decimal::normalize(mantissa, scale as u32))
}

/// The digit character of a value between zero and nine.
pub open spec fn digit_char(d: int) -> char {
    if d == 0 {
        '0'
    } else if d == 1 {
        '1'
    } else if d == 2 {
        '2'
    } else if d == 3 {
        '3'
    } else if d == 4 {
        '4'
    } else if d == 5 {
        '5'
    } else if d == 6 {
        '6'
    } else if d == 7 {
        '7'
    } else if d == 8 {
        '8'
    } else {
        '9'
    }
}

/// The decimal digits of a non-negative number, most significant first.
pub open spec fn digits_seq(n: int) -> Seq<char>
    decreases n,
{
    if n < 10 {
        seq![digit_char(n)]
    } else {
        digits_seq(n / 10).push(digit_char(n % 10))
    }
}

/// Exactly `s` digits spelling a value below ten to the `s`, zero-padded.
pub open spec fn frac_digits(n: int, s: nat) -> Seq<char>
    decreases s,
{
    if s == 0 {
        Seq::empty()
    } else {
        frac_digits(n / 10, (s - 1) as nat).push(digit_char(n % 10))
    }
}

/// The text of a decimal: an optional sign, the integer digits, and for a
/// positive scale a dot with exactly that many fractional digits.
pub open spec fn dec_text_spec(d: Decimal) -> Seq<char> {
    let mag = crate::arith::abs_int(d.m());
    let p = pow10(d.s());
    let sign: Seq<char> = if d.m() < 0 {
        seq!['-']
    } else {
        Seq::empty()
    };
    if d.s() == 0 {
        sign + digits_seq(mag)
    } else {
        sign + digits_seq(mag / p) + seq!['.'] + frac_digits(mag % p, d.s())
    }
}

/// What `digits_seq` spells: the number itself, in digits.
pub proof fn lemma_digits_seq_val(n: int)
    requires
        n >= 0,
    ensures
        all_digits(digits_seq(n)),
        digits_val(digits_seq(n)) == n,
        digits_seq(n).len() >= 1,
    decreases n,
{
    if n < 10 {
        assert(digits_seq(n) =~= seq![digit_char(n)]);
        assert(digits_val(digits_seq(n)) == digits_val(digits_seq(n).drop_last()) * 10 + digit_val(
            digits_seq(n).last(),
        ));
        assert(digits_seq(n).drop_last() =~= Seq::empty());
    } else {
        lemma_digits_seq_val(n / 10);
        vstd::arithmetic::div_mod::lemma_fundamental_div_mod(n, 10);
        let w = digits_seq(n);
        assert(w.drop_last() =~= digits_seq(n / 10));
        assert(w.last() == digit_char(n % 10));
        assert forall|i: int| 0 <= i < w.len() implies is_digit(#[trigger] w[i]) by {
            if i < w.len() - 1 {
                assert(w[i] == digits_seq(n / 10)[i]);
            }
        }
    }
}

/// What `frac_digits` spells: the value itself, over exactly `s` digits.
pub proof fn lemma_frac_digits_val(n: int, s: nat)
    requires
        0 <= n < pow10(s),
    ensures
        all_digits(frac_digits(n, s)),
        digits_val(frac_digits(n, s)) == n,
        frac_digits(n, s).len() == s,
    decreases s,
{
    if s == 0 {
    } else {
        vstd::arithmetic::div_mod::lemma_fundamental_div_mod(n, 10);
        assert(pow10(s) == 10 * pow10((s - 1) as nat));
        assert(n / 10 < pow10((s - 1) as nat)) by (nonlinear_arith)
            requires
                n < 10 * pow10((s - 1) as nat),
                n == 10 * (n / 10) + n % 10,
                0 <= n % 10 < 10,
                0 <= n,
        ;
        lemma_frac_digits_val(n / 10, (s - 1) as nat);
        let w = frac_digits(n, s);
        assert(w.drop_last() =~= frac_digits(n / 10, (s - 1) as nat));
        assert(w.last() == digit_char(n % 10));
        assert forall|i: int| 0 <= i < w.len() implies is_digit(#[trigger] w[i]) by {
            if i < w.len() - 1 {
                assert(w[i] == frac_digits(n / 10, (s - 1) as nat)[i]);
            }
        }
    }
}

/// The single-character string of a digit.
fn digit_str(d: u8) -> (r: &'static str)
    requires
        d <= 9,
    ensures
        r@ =~= seq![digit_char(d as int)],
{
    proof {
        reveal_strlit("0");
        reveal_strlit("1");
        reveal_strlit("2");
        reveal_strlit("3");
        reveal_strlit("4");
        reveal_strlit("5");
        reveal_strlit("6");
        reveal_strlit("7");
        reveal_strlit("8");
        reveal_strlit("9");
    }
    if d == 0 {
        "0"
    } else if d == 1 {
        "1"
    } else if d == 2 {
        "2"
    } else if d == 3 {
        "3"
    } else if d == 4 {
        "4"
    } else if d == 5 {
        "5"
    } else if d == 6 {
        "6"
    } else if d == 7 {
        "7"
    } else if d == 8 {
        "8"
    } else {
        "9"
    }
}

/// Append the decimal digits of `n`.
fn append_digits(out: &mut String, n: i128)
    requires
        n >= 0,
    ensures
        final(out)@ == old(out)@ + digits_seq(n as int),
    decreases n,
{
    if n < 10 {
        out.append(digit_str(n as u8));
        proof {
            assert(old(out)@ + seq![digit_char(n as int)] =~= final(out)@);
        }
    } else {
        let ghost mid = old(out)@ + digits_seq(n as int / 10);
        append_digits(out, n / 10);
        out.append(digit_str((n % 10) as u8));
        proof {
            assert(mid + seq![digit_char(n as int % 10)] =~= old(out)@ + digits_seq(n as int));
        }
    }
}

/// Append exactly `s` digits spelling `n`, zero-padded on the left.
fn append_frac(out: &mut String, n: i128, s: u32)
    requires
        n >= 0,
    ensures
        final(out)@ == old(out)@ + frac_digits(n as int, s as nat),
    decreases s,
{
    if s == 0 {
        proof {
            assert(old(out)@ + frac_digits(n as int, 0) =~= old(out)@);
        }
    } else {
        let ghost mid = old(out)@ + frac_digits(n as int / 10, (s - 1) as nat);
        append_frac(out, n / 10, s - 1);
        out.append(digit_str((n % 10) as u8));
        proof {
            assert(mid + seq![digit_char(n as int % 10)] =~= old(out)@ + frac_digits(
                n as int,
                s as nat,
            ));
        }
    }
}

/// Render a decimal as text: exactly [`dec_text_spec`].
pub fn decimal_to_text(d: &Decimal) -> (r: String)
    ensures
        r@ == dec_text_spec(*d),
{
    proof {
        use_type_invariant(d);
        d.lemma_form();
        reveal_strlit("-");
        reveal_strlit(".");
    }
    let mut out = String::new();
    if d.mantissa() < 0 {
        out.append("-");
        proof {
            assert(out@ =~= seq!['-']);
        }
    }
    let ghost sign = out@;
    let mag = crate::arith::abs_i128(d.mantissa());
    let s = d.scale();
    if s == 0 {
        append_digits(&mut out, mag);
        proof {
            assert(out@ =~= dec_text_spec(*d));
        }
    } else {
        let p = crate::arith::pow10_i128(s);
        proof {
            lemma_pow10_pos(s as nat);
        }
        append_digits(&mut out, mag / p);
        let ghost mid = out@;
        out.append(".");
        proof {
            assert(out@ =~= mid + seq!['.']);
        }
        append_frac(&mut out, mag % p, s);
        proof {
            assert(out@ =~= dec_text_spec(*d));
        }
    }
    out
}

/// Nothing in a decimal's text is a space.
pub proof fn lemma_dec_text_no_space(d: Decimal)
    requires
        d.inv(),
    ensures
        forall|i: int| 0 <= i < dec_text_spec(d).len() ==> dec_text_spec(d)[i] != ' ',
{
    let mag = crate::arith::abs_int(d.m());
    let p = pow10(d.s());
    d.lemma_form();
    lemma_pow10_pos(d.s());
    lemma_digits_seq_val(mag);
    if d.s() == 0 {
        assert forall|i: int| 0 <= i < dec_text_spec(d).len() implies dec_text_spec(d)[i]
            != ' ' by {
            let t = dec_text_spec(d);
            if d.m() < 0 {
                if i >= 1 {
                    assert(is_digit(digits_seq(mag)[i - 1]));
                }
            } else {
                assert(is_digit(digits_seq(mag)[i]));
            }
        }
    } else {
        lemma_digits_seq_val(mag / p);
        vstd::arithmetic::div_mod::lemma_fundamental_div_mod(mag, p);
        lemma_frac_digits_val(mag % p, d.s());
        let ip = digits_seq(mag / p);
        let fp = frac_digits(mag % p, d.s());
        assert forall|i: int| 0 <= i < dec_text_spec(d).len() implies dec_text_spec(d)[i]
            != ' ' by {
            let off: int = if d.m() < 0 {
                1
            } else {
                0
            };
            if i >= off {
                let k = i - off;
                if k < ip.len() {
                    assert(is_digit(ip[k]));
                } else if k > ip.len() {
                    assert(is_digit(fp[k - ip.len() - 1]));
                }
            }
        }
    }
}

/// Parsing a decimal's own text gives the decimal back: rendering is
/// injective and loses nothing.
pub proof fn lemma_dec_text_round_trip(d: Decimal)
    requires
        d.inv(),
        crate::arith::abs_int(d.m()) <= i64::MAX,
    ensures
        parse_decimal_spec(dec_text_spec(d)) == Some(d),
{
    let mag = crate::arith::abs_int(d.m());
    let p = pow10(d.s());
    let t = dec_text_spec(d);
    d.lemma_form();
    lemma_pow10_pos(d.s());
    lemma_digits_seq_val(mag);
    let b = if d.m() < 0 {
        t.subrange(1, t.len() as int)
    } else {
        t
    };
    if d.s() == 0 {
        assert(b =~= digits_seq(mag));
        lemma_dot_index(b);
        if dot_index(b) >= 0 {
            assert(is_digit(b[dot_index(b)]));
        }
        assert(decimal_body_ok(b));
        assert(body_digits(b) == b && body_scale(b) == 0);
        crate::decimal::lemma_spec_dec_canonical(d);
        if d.m() < 0 {
            assert(t[0] == '-');
            assert(-digits_val(b) == d.m());
        } else {
            assert(t[0] == b[0] && !is_digit('-') ==> true);
            assert(is_digit(t[0]));
            assert(t[0] != '-');
            assert(digits_val(b) == d.m());
        }
    } else {
        vstd::arithmetic::div_mod::lemma_fundamental_div_mod(mag, p);
        assert(0 <= mag % p < p);
        assert(mag / p >= 0) by (nonlinear_arith)
            requires
                mag >= 0,
                p >= 1,
                mag == p * (mag / p) + mag % p,
                0 <= mag % p < p,
        ;
        lemma_digits_seq_val(mag / p);
        lemma_frac_digits_val(mag % p, d.s());
        let ip = digits_seq(mag / p);
        let fp = frac_digits(mag % p, d.s());
        let ld = ip.len() as int;
        assert(b =~= ip + seq!['.'] + fp);
        assert(b[ld] == '.');
        assert forall|j: int| 0 <= j < ld implies b[j] != '.' by {
            assert(b[j] == ip[j]);
            assert(is_digit(ip[j]));
        }
        lemma_dot_index_at(b, ld);
        assert(b.subrange(0, ld) =~= ip);
        assert(b.subrange(ld + 1, b.len() as int) =~= fp);
        assert(decimal_body_ok(b));
        assert(body_digits(b) =~= ip + fp);
        assert(body_scale(b) == d.s());
        lemma_digits_val_concat(ip, fp);
        assert(digits_val(ip + fp) == (mag / p) * p + (mag % p)) by {
            assert(fp.len() == d.s());
            assert(digits_val(ip) == mag / p);
            assert(digits_val(fp) == mag % p);
        }
        assert((mag / p) * p + mag % p == mag) by (nonlinear_arith)
            requires
                mag == p * (mag / p) + mag % p,
        ;
        crate::decimal::lemma_spec_dec_canonical(d);
        if d.m() < 0 {
            assert(t[0] == '-');
            assert(-digits_val(body_digits(b)) == d.m());
        } else {
            assert(is_digit(t[0]));
            assert(t[0] != '-');
            assert(digits_val(body_digits(b)) == d.m());
        }
    }
}

/// Digits are not dots: a digit prefix pins where a dot can be.
proof fn lemma_digits_no_dot(b: Seq<char>, d: int)
    requires
        0 <= d <= b.len(),
        all_digits(b.subrange(0, d)),
    ensures
        forall|j: int| 0 <= j < d ==> b[j] != '.',
{
    assert forall|j: int| 0 <= j < d implies b[j] != '.' by {
        assert(is_digit(b.subrange(0, d)[j]));
    }
}

/// When the digits read so far already exceed the mantissa bound, no
/// well-formed completion of the literal stays within it.
proof fn lemma_overflow_rejects(b: Seq<char>, bi: int, m: int, d: int, has_dot: bool, bd: int)
    requires
        0 <= bi < b.len(),
        is_digit(b[bi]),
        d == digit_val(b[bi]),
        m * 10 + d > i64::MAX,
        m >= 0,
        has_dot ==> 0 < bd < bi && b[bd] == '.' && all_digits(b.subrange(0, bd)) && all_digits(
            b.subrange(bd + 1, bi),
        ) && m == digits_val(b.subrange(0, bd) + b.subrange(bd + 1, bi)),
        !has_dot ==> all_digits(b.subrange(0, bi)) && m == digits_val(b.subrange(0, bi)),
    ensures
        decimal_body_ok(b) ==> digits_val(body_digits(b)) > i64::MAX,
{
    if decimal_body_ok(b) {
        let dd = dot_index(b);
        lemma_dot_index(b);
        if has_dot {
            lemma_digits_no_dot(b, bd);
            lemma_dot_index_at(b, bd);
            let ip = b.subrange(0, bd);
            let fp = b.subrange(bd + 1, b.len() as int);
            let pnew = ip + b.subrange(bd + 1, bi + 1);
            assert(pnew.drop_last() =~= ip + b.subrange(bd + 1, bi));
            assert(pnew.last() == b[bi]);
            assert(digits_val(pnew) == m * 10 + d);
            assert((ip + fp).subrange(0, bi) =~= pnew);
            assert(all_digits(ip + fp)) by {
                assert(forall|j: int|
                    0 <= j < ip.len() + fp.len() ==> (ip + fp)[j] == if j < bd {
                        b[j]
                    } else {
                        b[j + 1]
                    });
            }
            lemma_digits_val_prefix(ip + fp, bi);
        } else {
            let pnew = b.subrange(0, bi + 1);
            assert(pnew.drop_last() =~= b.subrange(0, bi));
            assert(pnew.last() == b[bi]);
            assert(digits_val(pnew) == m * 10 + d);
            if dd < 0 {
                assert(b.subrange(0, bi + 1) =~= b.subrange(0, bi + 1));
                lemma_digits_val_prefix(b, bi + 1);
            } else {
                // every position up to bi is a digit, so the dot is past bi
                assert(dd > bi) by {
                    if dd <= bi {
                        if dd < bi {
                            assert(is_digit(b.subrange(0, bi)[dd]));
                        }
                        assert(is_digit(b[bi]));
                    }
                }
                let ip = b.subrange(0, dd);
                let fp = b.subrange(dd + 1, b.len() as int);
                assert((ip + fp).subrange(0, bi + 1) =~= pnew);
                assert(all_digits(ip + fp)) by {
                    assert(forall|j: int|
                        0 <= j < ip.len() + fp.len() ==> (ip + fp)[j] == if j < dd {
                            b[j]
                        } else {
                            b[j + 1]
                        });
                }
                lemma_digits_val_prefix(ip + fp, bi + 1);
            }
        }
    }
}

/// A character that fits no production of the grammar refutes the whole
/// literal.
proof fn lemma_bad_char_rejects(b: Seq<char>, bi: int, c: char, has_dot: bool, bd: int, at0: bool)
    requires
        0 <= bi < b.len(),
        c == b[bi],
        !is_digit(c),
        !(c == '.' && !has_dot && !at0),
        at0 ==> bi == 0,
        has_dot ==> 0 < bd < bi && b[bd] == '.' && all_digits(b.subrange(0, bd)) && all_digits(
            b.subrange(bd + 1, bi),
        ),
        !has_dot ==> all_digits(b.subrange(0, bi)),
    ensures
        !decimal_body_ok(b),
{
    let dd = dot_index(b);
    lemma_dot_index(b);
    if decimal_body_ok(b) {
        if has_dot {
            lemma_digits_no_dot(b, bd);
            lemma_dot_index_at(b, bd);
            if c == '.' {
                // a second dot lands in the fractional part
                assert(is_digit(b.subrange(bd + 1, b.len() as int)[bi - bd - 1]));
            } else {
                assert(is_digit(b.subrange(bd + 1, b.len() as int)[bi - bd - 1]));
            }
            assert(false);
        } else {
            if c == '.' {
                // only reachable with the dot first
                lemma_dot_index_at(b, 0);
                assert(false);
            } else {
                if dd < 0 {
                    assert(is_digit(b[bi]));
                } else {
                    assert(dd != bi);
                    if dd < bi {
                        assert(is_digit(b.subrange(0, bi)[dd]));
                    } else {
                        assert(is_digit(b.subrange(0, dd)[bi]));
                    }
                }
                assert(false);
            }
        }
    }
}

} // verus!
