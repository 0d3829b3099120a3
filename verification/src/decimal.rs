//! Exact decimal numbers as an integer mantissa with a power-of-ten scale:
//! `mantissa / 10^scale`.  Range bounds and steps are such decimals; keeping
//! them exact (never binary floating point) is what makes range expansion
//! drift-free.

use vstd::prelude::*;

use crate::text::{
    all_digits, canonical_digits, dec_digit_limit, dec_digit_limit_exec, digit_check, digit_value,
    digits_val, fdigits, fdigits_string, find_ch, find_char_from, is_digit,
    lemma_digits_val_bounds, lemma_fdigits_of_val, lemma_find_ch, lemma_pow10_18, lemma_pow10_37,
    lemma_pow10_adds, lemma_pow10_increases, lemma_pow10_pos, lemma_udigits_of_val, pow10,
    pow10_u128, udigits, udigits_string,
};

verus! {

/// A decimal number with at most `dec_digit_limit()` significant digits:
/// the exact value `mantissa / 10^scale`.
#[derive(Clone, Copy, Debug, PartialEq, Eq, Structural)]
pub struct Decimal {
    pub mantissa: i128,
    pub scale: u32,
}

/// The mathematical content of a `Decimal`.
pub struct DecimalView {
    pub mantissa: int,
    pub scale: nat,
}

impl View for Decimal {
    type V = DecimalView;

    open spec fn view(&self) -> DecimalView {
        DecimalView { mantissa: self.mantissa as int, scale: self.scale as nat }
    }
}

/// A well-formed parsed decimal: scale within the digit limit and a mantissa
/// of at most that many digits.
pub open spec fn dec_wf(d: DecimalView) -> bool {
    &&& d.scale <= dec_digit_limit()
    &&& -pow10(dec_digit_limit()) < d.mantissa < pow10(dec_digit_limit())
}

/// The value of `d` scaled to a fixed denominator of `10^dec_digit_limit()`:
/// an integer proxy on which comparison and addition of decimals is exact.
pub open spec fn dec_scaled(d: DecimalView) -> int
    recommends
        d.scale <= dec_digit_limit(),
{
    d.mantissa * pow10((dec_digit_limit() - d.scale) as nat)
}

pub proof fn lemma_scaled_sign(d: DecimalView)
    requires
        d.scale <= dec_digit_limit(),
    ensures
        dec_scaled(d) > 0 <==> d.mantissa > 0,
        dec_scaled(d) == 0 <==> d.mantissa == 0,
        dec_scaled(d) < 0 <==> d.mantissa < 0,
{
    let p = pow10((dec_digit_limit() - d.scale) as nat);
    lemma_pow10_pos((dec_digit_limit() - d.scale) as nat);
    assert(d.mantissa > 0 ==> d.mantissa * p > 0) by (nonlinear_arith)
        requires p >= 1;
    assert(d.mantissa == 0 ==> d.mantissa * p == 0) by (nonlinear_arith);
    assert(d.mantissa < 0 ==> d.mantissa * p < 0) by (nonlinear_arith)
        requires p >= 1;
}

// ---------------------------------------------------------------------------
// Canonical text
// ---------------------------------------------------------------------------

/// Canonical text of the nonnegative value `a / 10^scale`.
pub open spec fn dec_abs_text(a: int, scale: nat) -> Seq<char> {
    if scale == 0 {
        udigits(a)
    } else {
        udigits(a / pow10(scale)) + seq!['.'] + fdigits(a % pow10(scale), scale)
    }
}

/// Canonical text of the value `m / 10^scale`; a sign, digits, and a point
/// followed by exactly `scale` digits when the scale is positive.
pub open spec fn dec_to_text(m: int, scale: nat) -> Seq<char> {
    if m < 0 {
        seq!['-'] + dec_abs_text(-m, scale)
    } else {
        dec_abs_text(m, scale)
    }
}

/// Parse a decimal literal: an optional minus sign, a canonical integer part
/// (no leading zero unless exactly "0"), and an optional point with at least
/// one fractional digit.  At most `dec_digit_limit()` digits in all, and a
/// minus sign only on a nonzero value, so that every accepted literal is the
/// canonical text of its value.
pub open spec fn dec_from_text(s: Seq<char>) -> Option<DecimalView> {
    let neg = s.len() > 0 && s[0] == '-';
    let body = if neg { s.skip(1) } else { s };
    let dot = find_ch(body, '.') as int;
    if dot == body.len() {
        if canonical_digits(body) && body.len() <= dec_digit_limit() && (neg ==> digits_val(body)
            > 0) {
            Some(
                DecimalView {
                    mantissa: if neg {
                        -digits_val(body)
                    } else {
                        digits_val(body)
                    },
                    scale: 0,
                },
            )
        } else {
            None
        }
    } else {
        let ip = body.take(dot);
        let fp = body.skip(dot + 1);
        let a = digits_val(ip) * pow10(fp.len()) + digits_val(fp);
        if canonical_digits(ip) && fp.len() >= 1 && all_digits(fp) && find_ch(fp, '.') == fp.len()
            && ip.len() + fp.len() <= dec_digit_limit() && (neg ==> a > 0) {
            Some(
                DecimalView {
                    mantissa: if neg {
                        -a
                    } else {
                        a
                    },
                    scale: fp.len(),
                },
            )
        } else {
            None
        }
    }
}

/// Every accepted decimal literal is well formed and renders back to itself.
pub proof fn lemma_dec_round_trip(s: Seq<char>)
    requires
        dec_from_text(s) is Some,
    ensures
        dec_wf(dec_from_text(s).unwrap()),
        dec_to_text(dec_from_text(s).unwrap().mantissa, dec_from_text(s).unwrap().scale) == s,
{
    let d = dec_from_text(s).unwrap();
    let neg = s.len() > 0 && s[0] == '-';
    let body = if neg { s.skip(1) } else { s };
    let dot = find_ch(body, '.') as int;
    lemma_find_ch(body, '.');
    if dot == body.len() {
        lemma_digits_val_bounds(body);
        lemma_pow10_increases(body.len(), dec_digit_limit());
        lemma_udigits_of_val(body);
        if neg {
            assert(seq!['-'] + body =~= s);
        }
    } else {
        let ip = body.take(dot);
        let fp = body.skip(dot + 1);
        let w = fp.len();
        let iv = digits_val(ip);
        let fv = digits_val(fp);
        let a = iv * pow10(w) + fv;
        lemma_digits_val_bounds(ip);
        lemma_digits_val_bounds(fp);
        lemma_pow10_pos(w);
        // the mantissa has at most the permitted number of digits
        lemma_pow10_adds(ip.len(), w);
        assert(0 <= a < pow10(ip.len()) * pow10(w)) by (nonlinear_arith)
            requires
                a == iv * pow10(w) + fv,
                0 <= iv <= pow10(ip.len()) - 1,
                0 <= fv < pow10(w),
                pow10(w) >= 1,
        ;
        assert(a < pow10(ip.len() + w));
        lemma_pow10_increases(ip.len() + w, dec_digit_limit());
        // splitting the mantissa recovers the two digit groups
        vstd::arithmetic::div_mod::lemma_fundamental_div_mod_converse(a, pow10(w), iv, fv);
        lemma_udigits_of_val(ip);
        lemma_fdigits_of_val(fp);
        assert(dec_abs_text(a, w) == udigits(iv) + seq!['.'] + fdigits(fv, w));
        assert(body[dot] == '.');
        assert(ip + seq!['.'] + fp =~= body);
        if neg {
            assert(seq!['-'] + body =~= s);
        }
    }
}

// ---------------------------------------------------------------------------
// Executable parsing
// ---------------------------------------------------------------------------

/// Scan `s[from..to]`: all digits, and their numeric value.
fn scan_digits(s: &str, from: usize, to: usize) -> (r: Option<u128>)
    requires
        from <= to <= s@.len(),
        to - from <= dec_digit_limit(),
    ensures
        r is Some <==> all_digits(s@.subrange(from as int, to as int)),
        r is Some ==> r.unwrap() as int == digits_val(s@.subrange(from as int, to as int)),
{
    let ghost whole = s@.subrange(from as int, to as int);
    let mut val: u128 = 0;
    let mut i: usize = from;
    proof {
        assert(s@.subrange(from as int, from as int) =~= Seq::<char>::empty());
        lemma_pow10_18();
    }
    #[verifier::loop_isolation(false)]
    while i < to
        invariant
            from <= i <= to,
            all_digits(s@.subrange(from as int, i as int)),
            val as int == digits_val(s@.subrange(from as int, i as int)),
            val < pow10((i - from) as nat),
        decreases to - i,
    {
        let c = s.get_char(i);
        if !digit_check(c) {
            proof {
                assert(whole[i - from] == s@[i as int]);
            }
            return None;
        }
        proof {
            let pre = s@.subrange(from as int, i as int);
            let ext = s@.subrange(from as int, i + 1);
            assert(ext.drop_last() =~= pre);
            assert(ext.last() == s@[i as int]);
            assert(forall|j: int| 0 <= j < ext.len() ==> #[trigger] is_digit(ext[j]));
            lemma_digits_val_bounds(ext);
            lemma_pow10_increases((i + 1 - from) as nat, dec_digit_limit());
        }
        val = val * 10 + (digit_value(c) as u128);
        i = i + 1;
    }
    proof {
        lemma_pow10_increases((to - from) as nat, dec_digit_limit());
    }
    Some(val)
}

/// Parse a decimal literal, exactly as `dec_from_text` describes.
pub fn parse_decimal(s: &str) -> (r: Option<Decimal>)
    ensures
        r is Some <==> dec_from_text(s@) is Some,
        r is Some ==> r.unwrap()@ == dec_from_text(s@).unwrap(),
        r is Some ==> dec_wf(r.unwrap()@),
{
    proof {
        lemma_pow10_18();
        if dec_from_text(s@) is Some {
            lemma_dec_round_trip(s@);
        }
    }
    let n = s.unicode_len();
    let neg = n > 0 && s.get_char(0) == '-';
    let b0: usize = if neg { 1 } else { 0 };
    let ghost body = if neg { s@.skip(1) } else { s@ };
    proof {
        assert(body =~= s@.subrange(b0 as int, n as int));
    }
    let dot = find_char_from(s,b0, '.');
    let ghost dotrel: int = dot - b0;
    if dot == n {
        // no fractional part
        if n - b0 == 0 || n - b0 > dec_digit_limit_exec() as usize {
            return None;
        }
        if n - b0 >= 2 && s.get_char(b0) == '0' {
            proof {
                assert(body[0] == '0');
            }
            return None;
        }
        let val = match scan_digits(s, b0, n) {
            Some(v) => v,
            None => {
                return None;
            },
        };
        if neg && val == 0 {
            return None;
        }
        proof {
            lemma_digits_val_bounds(body);
            lemma_pow10_increases(body.len(), dec_digit_limit());
        }
        let m: i128 = if neg {
            -(val as i128)
        } else {
            val as i128
        };
        Some(Decimal { mantissa: m, scale: 0 })
    } else {
        // integer part, point, fractional part
        let ghost ip = body.take(dotrel);
        let ghost fp = body.skip(dotrel + 1);
        proof {
            assert(ip =~= s@.subrange(b0 as int, dot as int));
            assert(fp =~= s@.subrange(dot + 1, n as int));
        }
        if dot - b0 == 0 || n - (dot + 1) == 0 {
            return None;
        }
        if (dot - b0) + (n - (dot + 1)) > dec_digit_limit_exec() as usize {
            return None;
        }
        if dot - b0 >= 2 && s.get_char(b0) == '0' {
            proof {
                assert(ip[0] == '0');
            }
            return None;
        }
        let dot2 = find_char_from(s,dot + 1, '.');
        if dot2 != n {
            proof {
                lemma_find_ch(fp, '.');
            }
            return None;
        }
        let iv = match scan_digits(s, b0, dot) {
            Some(v) => v,
            None => {
                return None;
            },
        };
        let fv = match scan_digits(s, dot + 1, n) {
            Some(v) => v,
            None => {
                return None;
            },
        };
        let w: u32 = ((n - dot) - 1) as u32;
        let p = pow10_u128(w);
        proof {
            lemma_digits_val_bounds(ip);
            lemma_digits_val_bounds(fp);
            lemma_pow10_adds(ip.len(), fp.len());
            lemma_pow10_increases(ip.len() + fp.len(), dec_digit_limit());
            lemma_pow10_pos(fp.len());
            assert((iv as int) * (p as int) + (fv as int) < pow10(ip.len()) * pow10(fp.len()))
                by (nonlinear_arith)
                requires
                    iv as int <= pow10(ip.len()) - 1,
                    0 <= (fv as int) < pow10(fp.len()),
                    p as int == pow10(fp.len()),
                    p >= 1,
            ;
        }
        let a = iv * p + fv;
        if neg && a == 0 {
            return None;
        }
        let m: i128 = if neg {
            -(a as i128)
        } else {
            a as i128
        };
        Some(Decimal { mantissa: m, scale: w })
    }
}

/// Render the value `m / 10^scale` as its canonical text.
pub fn render_decimal(m: i128, scale: u32) -> (r: String)
    requires
        scale <= dec_digit_limit(),
        -pow10(37) < (m as int) < pow10(37),
    ensures
        r@ == dec_to_text(m as int, scale as nat),
{
    proof {
        lemma_pow10_37();
        reveal_strlit("-");
        reveal_strlit(".");
    }
    let neg = m < 0;
    let a: u128 = if neg {
        (-m) as u128
    } else {
        m as u128
    };
    let digits = if scale == 0 {
        udigits_string(a)
    } else {
        let p = pow10_u128(scale);
        proof {
            lemma_pow10_pos(scale as nat);
        }
        let hi = a / p;
        let lo = a % p;
        let mut t = udigits_string(hi);
        t.append(".");
        let f = fdigits_string(lo, scale);
        t.append(f.as_str());
        proof {
            assert(t@ =~= dec_abs_text(a as int, scale as nat));
        }
        t
    };
    if neg {
        let mut r = String::new();
        r.append("-");
        r.append(digits.as_str());
        proof {
            assert(r@ =~= dec_to_text(m as int, scale as nat));
        }
        r
    } else {
        proof {
            assert(digits@ =~= dec_to_text(m as int, scale as nat));
        }
        digits
    }
}

/// The scaled integer proxy of a well-formed decimal.
pub fn scaled_i128(d: &Decimal) -> (r: i128)
    requires
        dec_wf(d@),
    ensures
        r as int == dec_scaled(d@),
        -pow10(36) < (r as int) < pow10(36),
{
    proof {
        lemma_pow10_18();
        lemma_pow10_adds(18, 18);
        lemma_pow10_37();
        lemma_pow10_increases(36, 37);
    }
    let e: u32 = dec_digit_limit_exec() - d.scale;
    let p = pow10_u128(e);
    let neg = d.mantissa < 0;
    let a: u128 = if neg {
        (-d.mantissa) as u128
    } else {
        d.mantissa as u128
    };
    proof {
        lemma_pow10_increases(e as nat, 18);
        lemma_pow10_pos(e as nat);
        assert(a * p < pow10(18) * pow10(18)) by (nonlinear_arith)
            requires
                (a as int) < pow10(18),
                0 < p as int <= pow10(18),
                pow10(18) > 0,
        ;
        lemma_pow10_pos(e as nat);
        assert((a * p) as int == (a as int) * (p as int));
    }
    let prod = a * p;
    if neg {
        let r = -(prod as i128);
        proof {
            assert(r as int == d@.mantissa * pow10(e as nat)) by (nonlinear_arith)
                requires
                    r as int == -((a as int) * (p as int)),
                    a as int == -d@.mantissa,
                    p as int == pow10(e as nat),
            ;
        }
        r
    } else {
        let r = prod as i128;
        proof {
            assert(r as int == d@.mantissa * pow10(e as nat));
        }
        r
    }
}

} // verus!
