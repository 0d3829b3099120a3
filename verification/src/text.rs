//! Characters, digit strings and searching/splitting of character sequences:
//! the ground layer that both the grammar and the decimal numbers build on.

use vstd::prelude::*;

verus! {

// ---------------------------------------------------------------------------
// Powers of ten
// ---------------------------------------------------------------------------

pub open spec fn pow10(e: nat) -> int
    decreases e,
{
    if e == 0 {
        1
    } else {
        10 * pow10((e - 1) as nat)
    }
}

pub proof fn lemma_pow10_pos(e: nat)
    ensures
        pow10(e) >= 1,
    decreases e,
{
    if e > 0 {
        lemma_pow10_pos((e - 1) as nat);
    }
}

pub proof fn lemma_pow10_adds(a: nat, b: nat)
    ensures
        pow10(a + b) == pow10(a) * pow10(b),
    decreases a,
{
    if a == 0 {
    } else {
        lemma_pow10_adds((a - 1) as nat, b);
        assert(pow10(a + b) == 10 * pow10((a - 1) as nat + b));
        assert(10 * (pow10((a - 1) as nat) * pow10(b)) == (10 * pow10((a - 1) as nat)) * pow10(b))
            by (nonlinear_arith);
    }
}

pub proof fn lemma_pow10_increases(a: nat, b: nat)
    requires
        a <= b,
    ensures
        pow10(a) <= pow10(b),
    decreases b,
{
    if a < b {
        lemma_pow10_increases(a, (b - 1) as nat);
        lemma_pow10_pos((b - 1) as nat);
    }
}

/// Ten to the eighteenth: the largest mantissa magnitude a parsed decimal may have.
pub proof fn lemma_pow10_18()
    ensures
        pow10(18) == 0x_de0_b6b3_a764_0000,
{
    reveal_with_fuel(pow10, 20);
}

pub proof fn lemma_pow10_37()
    ensures
        pow10(37) == 10_000_000_000_000_000_000_000_000_000_000_000_000,
{
    reveal_with_fuel(pow10, 40);
}

pub fn pow10_u128(e: u32) -> (r: u128)
    requires
        e <= 37,
    ensures
        r as int == pow10(e as nat),
{
    let mut r: u128 = 1;
    let mut i: u32 = 0;
    proof {
        lemma_pow10_37();
    }
    #[verifier::loop_isolation(false)]
    while i < e
        invariant
            i <= e,
            r as int == pow10(i as nat),
        decreases e - i,
    {
        proof {
            lemma_pow10_increases((i + 1) as nat, 37);
        }
        r = r * 10;
        i = i + 1;
    }
    r
}

// ---------------------------------------------------------------------------
// Digits
// ---------------------------------------------------------------------------

/// How many significant digits a decimal literal may carry.  Eighteen keeps
/// every scaled mantissa comfortably inside an `i128` during range stepping.
pub open spec fn dec_digit_limit() -> nat {
    18
}

pub fn dec_digit_limit_exec() -> (r: u32)
    ensures
        r as nat == dec_digit_limit(),
{
    18
}

pub open spec fn is_digit(c: char) -> bool {
    c == '0' || c == '1' || c == '2' || c == '3' || c == '4' || c == '5' || c == '6' || c == '7'
        || c == '8' || c == '9'
}

pub open spec fn digit_val(c: char) -> int {
    if c == '0' {
        0
    } else if c == '1' {
        1
    } else if c == '2' {
        2
    } else if c == '3' {
        3
    } else if c == '4' {
        4
    } else if c == '5' {
        5
    } else if c == '6' {
        6
    } else if c == '7' {
        7
    } else if c == '8' {
        8
    } else {
        9
    }
}

pub open spec fn digit_char(v: int) -> char {
    if v == 0 {
        '0'
    } else if v == 1 {
        '1'
    } else if v == 2 {
        '2'
    } else if v == 3 {
        '3'
    } else if v == 4 {
        '4'
    } else if v == 5 {
        '5'
    } else if v == 6 {
        '6'
    } else if v == 7 {
        '7'
    } else if v == 8 {
        '8'
    } else {
        '9'
    }
}

pub fn digit_check(c: char) -> (b: bool)
    ensures
        b == is_digit(c),
{
    c == '0' || c == '1' || c == '2' || c == '3' || c == '4' || c == '5' || c == '6' || c == '7'
        || c == '8' || c == '9'
}

pub fn digit_value(c: char) -> (v: u32)
    requires
        is_digit(c),
    ensures
        v as int == digit_val(c),
        v < 10,
{
    if c == '0' {
        0
    } else if c == '1' {
        1
    } else if c == '2' {
        2
    } else if c == '3' {
        3
    } else if c == '4' {
        4
    } else if c == '5' {
        5
    } else if c == '6' {
        6
    } else if c == '7' {
        7
    } else if c == '8' {
        8
    } else {
        9
    }
}

/// Every character of `s` is a decimal digit.
pub open spec fn all_digits(s: Seq<char>) -> bool {
    forall|i: int| 0 <= i < s.len() ==> #[trigger] is_digit(s[i])
}

/// A digit string in canonical form: nonempty, and without a leading zero
/// unless it is exactly "0".
pub open spec fn canonical_digits(s: Seq<char>) -> bool {
    &&& s.len() >= 1
    &&& all_digits(s)
    &&& (s.len() == 1 || s[0] != '0')
}

/// The numeric value of a digit string.
pub open spec fn digits_val(s: Seq<char>) -> int
    decreases s.len(),
{
    if s.len() == 0 {
        0
    } else {
        10 * digits_val(s.drop_last()) + digit_val(s.last())
    }
}

/// The canonical digit string of a nonnegative number.
pub open spec fn udigits(n: int) -> Seq<char>
    decreases n,
{
    if n < 10 {
        seq![digit_char(n)]
    } else {
        udigits(n / 10).push(digit_char(n % 10))
    }
}

/// The digit string of a nonnegative number padded on the left to exactly
/// `w` digits (used for the fractional part of a decimal).
pub open spec fn fdigits(n: int, w: nat) -> Seq<char>
    decreases w,
{
    if w == 0 {
        Seq::empty()
    } else {
        fdigits(n / 10, (w - 1) as nat).push(digit_char(n % 10))
    }
}

pub proof fn lemma_digits_val_bounds(s: Seq<char>)
    requires
        all_digits(s),
    ensures
        0 <= digits_val(s) < pow10(s.len()),
    decreases s.len(),
{
    if s.len() == 0 {
    } else {
        lemma_digits_val_bounds(s.drop_last());
        assert(0 <= digit_val(s.last()) <= 9);
        assert(10 * digits_val(s.drop_last()) <= 10 * (pow10((s.len() - 1) as nat) - 1))
            by (nonlinear_arith)
            requires digits_val(s.drop_last()) <= pow10((s.len() - 1) as nat) - 1;
    }
}

pub proof fn lemma_digits_val_lower(s: Seq<char>)
    requires
        all_digits(s),
        s.len() >= 1,
        s[0] != '0',
    ensures
        digits_val(s) >= pow10((s.len() - 1) as nat),
    decreases s.len(),
{
    if s.len() == 1 {
        assert(digit_val(s[0]) >= 1);
        assert(digits_val(s) == 10 * digits_val(s.drop_last()) + digit_val(s.last()));
        assert(s.drop_last().len() == 0);
    } else {
        lemma_digits_val_lower(s.drop_last());
        lemma_digits_val_bounds(s);
        assert(10 * digits_val(s.drop_last()) >= 10 * pow10((s.len() - 2) as nat))
            by (nonlinear_arith)
            requires digits_val(s.drop_last()) >= pow10((s.len() - 2) as nat);
    }
}

/// Rendering the value of a canonical digit string gives that string back.
pub proof fn lemma_udigits_of_val(s: Seq<char>)
    requires
        canonical_digits(s),
    ensures
        udigits(digits_val(s)) == s,
    decreases s.len(),
{
    lemma_digits_val_bounds(s);
    if s.len() == 1 {
        reveal_with_fuel(digits_val, 2);
        assert(s.drop_last().len() == 0);
        assert(is_digit(s[0]));
        assert(digits_val(s) == digit_val(s[0]));
        assert(udigits(digits_val(s)) =~= s);
    } else {
        let p = s.drop_last();
        assert(p[0] == s[0]);
        assert(all_digits(p)) by {
            assert(forall|i: int| 0 <= i < p.len() ==> p[i] == s[i]);
        }
        lemma_udigits_of_val(p);
        lemma_digits_val_lower(p);
        lemma_pow10_pos((p.len() - 1) as nat);
        let v = digits_val(s);
        let d = digit_val(s.last());
        assert(v == digits_val(p) * 10 + d) by (nonlinear_arith)
            requires v == 10 * digits_val(p) + d;
        vstd::arithmetic::div_mod::lemma_fundamental_div_mod_converse(v, 10, digits_val(p), d);
        assert(v >= 10);
        assert(udigits(v) == udigits(digits_val(p)).push(digit_char(d)));
        assert(is_digit(s[s.len() - 1]));
        assert(digit_char(digit_val(s.last())) == s.last());
        assert(p.push(s.last()) =~= s);
    }
}

/// Rendering the value of any digit string at its own width gives it back.
pub proof fn lemma_fdigits_of_val(s: Seq<char>)
    requires
        all_digits(s),
    ensures
        fdigits(digits_val(s), s.len()) == s,
    decreases s.len(),
{
    if s.len() == 0 {
        assert(fdigits(0, 0) =~= s);
    } else {
        let p = s.drop_last();
        assert(all_digits(p)) by {
            assert(forall|i: int| 0 <= i < p.len() ==> p[i] == s[i]);
        }
        lemma_fdigits_of_val(p);
        lemma_digits_val_bounds(p);
        let v = digits_val(s);
        let d = digit_val(s.last());
        assert(v == digits_val(p) * 10 + d) by (nonlinear_arith)
            requires v == 10 * digits_val(p) + d;
        vstd::arithmetic::div_mod::lemma_fundamental_div_mod_converse(v, 10, digits_val(p), d);
        assert(is_digit(s[s.len() - 1]));
        assert(digit_char(digit_val(s.last())) == s.last());
        assert(p.push(s.last()) =~= s);
    }
}

// ---------------------------------------------------------------------------
// Searching and splitting
// ---------------------------------------------------------------------------

/// Index of the first occurrence of `c` in `s`, or `s.len()` if absent.
pub open spec fn find_ch(s: Seq<char>, c: char) -> nat
    decreases s.len(),
{
    if s.len() == 0 {
        0
    } else if s[0] == c {
        0
    } else {
        1 + find_ch(s.skip(1), c)
    }
}

pub proof fn lemma_find_ch(s: Seq<char>, c: char)
    ensures
        find_ch(s, c) <= s.len(),
        find_ch(s, c) < s.len() ==> s[find_ch(s, c) as int] == c,
        forall|j: int| 0 <= j < find_ch(s, c) ==> s[j] != c,
    decreases s.len(),
{
    if s.len() == 0 {
    } else if s[0] == c {
    } else {
        lemma_find_ch(s.skip(1), c);
        assert forall|j: int| 0 <= j < find_ch(s, c) implies s[j] != c by {
            if j >= 1 {
                assert(s.skip(1)[j - 1] == s[j]);
            }
        }
    }
}

/// `find_ch` is pinned down by its characteristic properties.
pub proof fn lemma_find_ch_unique(s: Seq<char>, c: char, i: int)
    requires
        0 <= i <= s.len(),
        i < s.len() ==> s[i] == c,
        forall|j: int| 0 <= j < i ==> s[j] != c,
    ensures
        find_ch(s, c) == i,
{
    lemma_find_ch(s, c);
    let f = find_ch(s, c) as int;
    if f < i {
        assert(s[f] == c);
    } else if i < f {
        assert(i < s.len());
    }
}

/// The pieces of `s` between occurrences of `c` (never empty as a list).
pub open spec fn split_ch(s: Seq<char>, c: char) -> Seq<Seq<char>>
    decreases s.len(),
    via split_ch_dec
{
    let f = find_ch(s, c) as int;
    if f == s.len() {
        seq![s]
    } else {
        seq![s.take(f)] + split_ch(s.skip(f + 1), c)
    }
}

#[via_fn]
proof fn split_ch_dec(s: Seq<char>, c: char) {
    lemma_find_ch(s, c);
}

/// The pieces joined back with `c` between them.
pub open spec fn join_ch(parts: Seq<Seq<char>>, c: char) -> Seq<char>
    decreases parts.len(),
{
    if parts.len() == 0 {
        Seq::empty()
    } else if parts.len() == 1 {
        parts[0]
    } else {
        parts[0] + seq![c] + join_ch(parts.skip(1), c)
    }
}

/// Joining distributes over appending one more piece.
pub proof fn lemma_join_push(parts: Seq<Seq<char>>, x: Seq<char>, c: char)
    requires
        parts.len() >= 1,
    ensures
        join_ch(parts.push(x), c) == join_ch(parts, c) + seq![c] + x,
    decreases parts.len(),
{
    if parts.len() == 1 {
        reveal_with_fuel(join_ch, 3);
        assert(parts.push(x).skip(1) =~= seq![x]);
        assert(join_ch(parts.push(x), c) =~= parts[0] + seq![c] + x);
        assert(join_ch(parts, c) + seq![c] + x =~= parts[0] + seq![c] + x);
    } else {
        lemma_join_push(parts.skip(1), x, c);
        assert(parts.push(x).skip(1) =~= parts.skip(1).push(x));
        assert(join_ch(parts.push(x), c) == parts[0] + seq![c] + (join_ch(parts.skip(1), c)
            + seq![c] + x));
        assert(parts[0] + seq![c] + (join_ch(parts.skip(1), c) + seq![c] + x) =~= (parts[0]
            + seq![c] + join_ch(parts.skip(1), c)) + seq![c] + x);
    }
}

pub proof fn lemma_split_len(s: Seq<char>, c: char)
    ensures
        split_ch(s, c).len() >= 1,
        find_ch(s, c) < s.len() ==> split_ch(s, c).len() >= 2,
    decreases s.len(),
{
    lemma_find_ch(s, c);
    let f = find_ch(s, c) as int;
    if f < s.len() {
        lemma_split_len(s.skip(f + 1), c);
    }
}

/// Joining the split of `s` gives `s` back.
pub proof fn lemma_join_split(s: Seq<char>, c: char)
    ensures
        join_ch(split_ch(s, c), c) == s,
    decreases s.len(),
{
    lemma_find_ch(s, c);
    let f = find_ch(s, c) as int;
    if f == s.len() {
    } else {
        lemma_join_split(s.skip(f + 1), c);
        lemma_split_len(s.skip(f + 1), c);
        let parts = split_ch(s, c);
        assert(parts.skip(1) =~= split_ch(s.skip(f + 1), c));
        assert(join_ch(parts, c) == s.take(f) + seq![c] + s.skip(f + 1));
        assert(s.take(f) + seq![c] + s.skip(f + 1) =~= s);
    }
}

/// No piece of the split contains the separator.
pub proof fn lemma_split_parts_free(s: Seq<char>, c: char)
    ensures
        forall|k: int, j: int|
            0 <= k < split_ch(s, c).len() && 0 <= j < split_ch(s, c)[k].len()
                ==> split_ch(s, c)[k][j] != c,
    decreases s.len(),
{
    lemma_find_ch(s, c);
    let f = find_ch(s, c) as int;
    if f == s.len() {
    } else {
        lemma_split_parts_free(s.skip(f + 1), c);
        let parts = split_ch(s, c);
        assert(parts.skip(1) =~= split_ch(s.skip(f + 1), c));
        assert(forall|j: int| 0 <= j < f ==> parts[0][j] == s[j]);
        assert(forall|k: int, j: int|
            1 <= k < parts.len() && 0 <= j < parts[k].len()
                ==> parts[k][j] == split_ch(s.skip(f + 1), c)[k - 1][j]);
    }
}

// ---------------------------------------------------------------------------
// Executable helpers
// ---------------------------------------------------------------------------

/// First position `>= from` of `c` in `s` (in characters), or the length.
pub fn find_char_from(s: &str, from: usize, c: char) -> (r: usize)
    requires
        from <= s@.len(),
    ensures
        from <= r <= s@.len(),
        r - from == find_ch(s@.skip(from as int), c),
{
    let n = s.unicode_len();
    let mut i: usize = from;
    #[verifier::loop_isolation(false)]
    while i < n
        invariant
            from <= i <= n,
            forall|j: int| from <= j < i ==> s@[j] != c,
        decreases n - i,
    {
        if s.get_char(i) == c {
            proof {
                let sub = s@.skip(from as int);
                assert(forall|j: int| 0 <= j < i - from ==> sub[j] == s@[j + from]);
                lemma_find_ch_unique(sub, c, i - from);
            }
            return i;
        }
        i = i + 1;
    }
    proof {
        let sub = s@.skip(from as int);
        assert(forall|j: int| 0 <= j < sub.len() ==> sub[j] == s@[j + from]);
        lemma_find_ch_unique(sub, c, n - from);
    }
    n
}

/// The one-character string of a digit value.
pub fn digit_string(d: u128) -> (r: &'static str)
    requires
        d < 10,
    ensures
        r@ == seq![digit_char(d as int)],
{
    proof {
        reveal_strlit("0");
        reveal_strlit("1");
        reveal_strlit("2");
        reveal_strlit("3");
        reveal_strlit("4");
        reveal_strlit("5");
        reveal_strlit("6");
        reveal_strlit("7");
        reveal_strlit("8");
        reveal_strlit("9");
    }
    let r = if d == 0 {
        "0"
    } else if d == 1 {
        "1"
    } else if d == 2 {
        "2"
    } else if d == 3 {
        "3"
    } else if d == 4 {
        "4"
    } else if d == 5 {
        "5"
    } else if d == 6 {
        "6"
    } else if d == 7 {
        "7"
    } else if d == 8 {
        "8"
    } else {
        "9"
    };
    proof {
        assert(r@ =~= seq![digit_char(d as int)]);
    }
    r
}

/// The canonical digit string of `n`.
pub fn udigits_string(n: u128) -> (r: String)
    ensures
        r@ == udigits(n as int),
    decreases n,
{
    if n < 10 {
        let r = digit_string(n).to_owned();
        proof {
            assert(r@ =~= udigits(n as int));
        }
        r
    } else {
        let mut r = udigits_string(n / 10);
        r.append(digit_string(n % 10));
        proof {
            assert(r@ =~= udigits(n as int));
        }
        r
    }
}

/// The digit string of `n` padded on the left to `w` digits.
pub fn fdigits_string(n: u128, w: u32) -> (r: String)
    ensures
        r@ == fdigits(n as int, w as nat),
    decreases w,
{
    if w == 0 {
        let r = String::new();
        proof {
            assert(r@ =~= fdigits(n as int, 0));
        }
        r
    } else {
        let mut r = fdigits_string(n / 10, w - 1);
        r.append(digit_string(n % 10));
        proof {
            assert(r@ =~= fdigits(n as int, w as nat));
        }
        r
    }
}

} // verus!
