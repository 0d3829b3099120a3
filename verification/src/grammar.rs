//! The surface grammar.  A statement is a sequence of expressions; each
//! expression is literal text (running to the next `{`), or a placeholder
//! `{...}`.  A placeholder whose body is a bare name is a variable use; any
//! other body is a permutation: an optional `digits:` ordering prefix, an
//! optional `name:` variable assignment, then either alternatives separated
//! by `|` or three decimals separated by `;`, and after the closing brace an
//! optional `!` marking the permutation hidden.
//!
//! Names and alternatives may use any characters except the five structural
//! ones `{ } | ; :`.  An ordering prefix must be a canonical digit string (a
//! prefix with a leading zero reads as a variable assignment instead), and
//! decimals are canonical as `decimal::dec_from_text` describes; this keeps
//! rendering an exact inverse of parsing.

use vstd::prelude::*;

use crate::decimal::{
    dec_from_text, dec_scaled, dec_wf, lemma_dec_round_trip, parse_decimal, scaled_i128,
};
use crate::expression::{
    iter_wf, render_expr, render_iter, render_perm, render_stmt, stmt_wf, Expression,
    ExpressionView, IterableView, Permutation, PermutationIterable, PermutationView, VariableName,
};
use crate::statement::Statement;
use crate::text::{
    all_digits, canonical_digits, digit_check, digit_value, digits_val, find_ch, find_char_from,
    is_digit, join_ch, lemma_digits_val_bounds, lemma_digits_val_lower, lemma_find_ch,
    lemma_join_split, lemma_pow10_increases, lemma_pow10_pos, lemma_split_len,
    lemma_udigits_of_val, pow10, split_ch, udigits,
};

verus! {

// ---------------------------------------------------------------------------
// The grammar, as specification functions
// ---------------------------------------------------------------------------

/// The five characters that structure a placeholder body.
pub open spec fn is_structural(c: char) -> bool {
    c == '{' || c == '}' || c == '|' || c == ';' || c == ':'
}

pub open spec fn plain_chars(s: Seq<char>) -> bool {
    forall|i: int| 0 <= i < s.len() ==> !is_structural(#[trigger] s[i])
}

/// A variable name: nonempty, without structural characters.
pub open spec fn is_name(s: Seq<char>) -> bool {
    s.len() >= 1 && plain_chars(s)
}

/// An alternative of a disjunction: possibly empty, without structural
/// characters.
pub open spec fn alt_ok(s: Seq<char>) -> bool {
    plain_chars(s)
}

/// The iterable at the end of a permutation body: alternatives if a `|`
/// occurs, else a three-part decimal range if a `;` occurs.
#[verifier::opaque]
pub open spec fn parse_iterable(b: Seq<char>) -> Option<IterableView> {
    if find_ch(b, '|') < b.len() {
        let parts = split_ch(b, '|');
        if forall|k: int| 0 <= k < parts.len() ==> alt_ok(#[trigger] parts[k]) {
            Some(IterableView::Disjunction(parts))
        } else {
            None
        }
    } else if find_ch(b, ';') < b.len() {
        let f1 = find_ch(b, ';') as int;
        let p1 = b.take(f1);
        let rest = b.skip(f1 + 1);
        let f2 = find_ch(rest, ';') as int;
        if f2 == rest.len() {
            None
        } else {
            let p2 = rest.take(f2);
            let p3 = rest.skip(f2 + 1);
            if find_ch(p3, ';') < p3.len() {
                None
            } else {
                match (dec_from_text(p1), dec_from_text(p2), dec_from_text(p3)) {
                    (Some(start), Some(end), Some(step)) => {
                        if dec_scaled(step) != 0 && (dec_scaled(step) > 0 <==> dec_scaled(start)
                            <= dec_scaled(end)) {
                            Some(IterableView::Range { start, end, step })
                        } else {
                            None
                        }
                    },
                    _ => None,
                }
            }
        }
    } else {
        None
    }
}

/// After the optional ordering prefix: an optional `name:` variable
/// assignment, then the iterable.
#[verifier::opaque]
pub open spec fn parse_tail(rest: Seq<char>) -> Option<(Option<Seq<char>>, IterableView)> {
    let f = find_ch(rest, ':') as int;
    if f < rest.len() && is_name(rest.take(f)) {
        match parse_iterable(rest.skip(f + 1)) {
            Some(it) => Some((Some(rest.take(f)), it)),
            None => None,
        }
    } else {
        match parse_iterable(rest) {
            Some(it) => Some((None, it)),
            None => None,
        }
    }
}

/// What a placeholder body means (hidden is decided outside the braces).
pub enum BodyView {
    UseVar(Seq<char>),
    Perm(PermutationView),
}

/// A bare name is a variable use; otherwise the body is a permutation with
/// an optional canonical-digit ordering prefix that must fit a `u64`.
#[verifier::opaque]
pub open spec fn parse_body(b: Seq<char>) -> Option<BodyView> {
    if is_name(b) {
        Some(BodyView::UseVar(b))
    } else {
        let f1 = find_ch(b, ':') as int;
        let hasord = f1 < b.len() && canonical_digits(b.take(f1));
        if hasord && digits_val(b.take(f1)) > u64::MAX {
            None
        } else {
            let ordering: Option<u64> = if hasord {
                Some(digits_val(b.take(f1)) as u64)
            } else {
                None
            };
            let rest = if hasord {
                b.skip(f1 + 1)
            } else {
                b
            };
            match parse_tail(rest) {
                Some((var, it)) => Some(
                    BodyView::Perm(
                        PermutationView {
                            iterable: it,
                            ordering: ordering,
                            var_name: var,
                            hidden: false,
                        },
                    ),
                ),
                None => None,
            }
        }
    }
}

/// The whole statement grammar, one expression at a time.
pub open spec fn parse_stmt(s: Seq<char>) -> Option<Seq<ExpressionView>>
    decreases s.len(),
    via parse_stmt_dec
{
    if s.len() == 0 {
        Some(Seq::empty())
    } else if s[0] == '{' {
        let close = find_ch(s, '}') as int;
        if close == s.len() {
            None
        } else {
            let body = s.subrange(1, close);
            match parse_body(body) {
                None => None,
                Some(BodyView::UseVar(n)) => match parse_stmt(s.skip(close + 1)) {
                    Some(rest) => Some(seq![ExpressionView::Variable(n)] + rest),
                    None => None,
                },
                Some(BodyView::Perm(p)) => {
                    let hidden = close + 1 < s.len() && s[close + 1] == '!';
                    let consumed = if hidden {
                        close + 2
                    } else {
                        close + 1
                    };
                    match parse_stmt(s.skip(consumed)) {
                        Some(rest) => Some(
                            seq![
                                ExpressionView::Permutation(
                                    PermutationView {
                                        iterable: p.iterable,
                                        ordering: p.ordering,
                                        var_name: p.var_name,
                                        hidden: hidden,
                                    },
                                ),
                            ] + rest,
                        ),
                        None => None,
                    }
                },
            }
        }
    } else {
        let k = find_ch(s, '{') as int;
        match parse_stmt(s.skip(k)) {
            Some(rest) => Some(seq![ExpressionView::Literal(s.take(k))] + rest),
            None => None,
        }
    }
}

#[via_fn]
proof fn parse_stmt_dec(s: Seq<char>) {
    lemma_find_ch(s, '}');
    lemma_find_ch(s, '{');
}

// ---------------------------------------------------------------------------
// Every parse is well formed
// ---------------------------------------------------------------------------

pub proof fn lemma_parse_iterable_wf(b: Seq<char>)
    requires
        parse_iterable(b) is Some,
    ensures
        iter_wf(parse_iterable(b).unwrap()),
{
    reveal(parse_iterable);
    lemma_find_ch(b, '|');
    if find_ch(b, '|') < b.len() {
        lemma_split_len(b, '|');
    } else {
        let f1 = find_ch(b, ';') as int;
        let rest = b.skip(f1 + 1);
        let f2 = find_ch(rest, ';') as int;
        lemma_dec_round_trip(b.take(f1));
        lemma_dec_round_trip(rest.take(f2));
        lemma_dec_round_trip(rest.skip(f2 + 1));
    }
}

/// A parsed permutation body always carries a well-formed iterable.
pub proof fn lemma_parse_body_wf(b: Seq<char>)
    requires
        parse_body(b) matches Some(BodyView::Perm(p)),
    ensures
        (match parse_body(b) {
            Some(BodyView::Perm(p)) => iter_wf(p.iterable),
            _ => true,
        }),
{
    reveal(parse_body);
    reveal(parse_tail);
    let f1 = find_ch(b, ':') as int;
    let hasord = f1 < b.len() && canonical_digits(b.take(f1));
    let rest = if hasord {
        b.skip(f1 + 1)
    } else {
        b
    };
    let f = find_ch(rest, ':') as int;
    if f < rest.len() && is_name(rest.take(f)) {
        lemma_parse_iterable_wf(rest.skip(f + 1));
    } else {
        lemma_parse_iterable_wf(rest);
    }
}

/// A variable-use body is exactly the name between the braces.
pub proof fn lemma_parse_body_usevar(b: Seq<char>)
    requires
        parse_body(b) matches Some(BodyView::UseVar(n)),
    ensures
        parse_body(b) == Some(BodyView::UseVar(b)),
{
    reveal(parse_body);
}

pub proof fn lemma_parse_stmt_wf(s: Seq<char>)
    requires
        parse_stmt(s) is Some,
    ensures
        stmt_wf(parse_stmt(s).unwrap()),
    decreases s.len(),
{
    lemma_find_ch(s, '}');
    lemma_find_ch(s, '{');
    if s.len() == 0 {
    } else if s[0] == '{' {
        let close = find_ch(s, '}') as int;
        let body = s.subrange(1, close);
        match parse_body(body) {
            None => {},
            Some(BodyView::UseVar(_)) => {
                lemma_parse_stmt_wf(s.skip(close + 1));
            },
            Some(BodyView::Perm(p)) => {
                let hidden = close + 1 < s.len() && s[close + 1] == '!';
                let consumed = if hidden {
                    close + 2
                } else {
                    close + 1
                };
                lemma_parse_stmt_wf(s.skip(consumed));
                lemma_parse_body_wf(body);
            },
        }
    } else {
        let k = find_ch(s, '{') as int;
        lemma_parse_stmt_wf(s.skip(k));
    }
}

// ---------------------------------------------------------------------------
// Rendering inverts parsing
// ---------------------------------------------------------------------------

pub proof fn lemma_parse_iterable_render(b: Seq<char>)
    requires
        parse_iterable(b) is Some,
    ensures
        render_iter(parse_iterable(b).unwrap()) == b,
{
    reveal(parse_iterable);
    lemma_find_ch(b, '|');
    if find_ch(b, '|') < b.len() {
        lemma_join_split(b, '|');
    } else {
        lemma_find_ch(b, ';');
        let f1 = find_ch(b, ';') as int;
        let p1 = b.take(f1);
        let rest = b.skip(f1 + 1);
        lemma_find_ch(rest, ';');
        let f2 = find_ch(rest, ';') as int;
        let p2 = rest.take(f2);
        let p3 = rest.skip(f2 + 1);
        lemma_dec_round_trip(p1);
        lemma_dec_round_trip(p2);
        lemma_dec_round_trip(p3);
        assert(rest[f2] == ';');
        assert(b[f1] == ';');
        assert(p2 + seq![';'] + p3 =~= rest);
        assert(render_iter(parse_iterable(b).unwrap()) =~= p1 + seq![';'] + (p2 + seq![';'] + p3));
        assert(p1 + seq![';'] + rest =~= b);
        assert(p1 + seq![';'] + (p2 + seq![';'] + p3) =~= p1 + seq![';'] + rest);
    }
}

pub proof fn lemma_parse_tail_render(rest: Seq<char>)
    requires
        parse_tail(rest) is Some,
    ensures
        ({
            let (var, it) = parse_tail(rest).unwrap();
            (match var {
                Some(n) => n + seq![':'],
                None => Seq::<char>::empty(),
            }) + render_iter(it) == rest
        }),
{
    reveal(parse_tail);
    lemma_find_ch(rest, ':');
    let f = find_ch(rest, ':') as int;
    if f < rest.len() && is_name(rest.take(f)) {
        lemma_parse_iterable_render(rest.skip(f + 1));
        assert(rest[f] == ':');
        assert((rest.take(f) + seq![':']) + rest.skip(f + 1) =~= rest);
    } else {
        lemma_parse_iterable_render(rest);
        assert(Seq::<char>::empty() + render_iter(parse_tail(rest).unwrap().1) =~= rest);
    }
}

pub proof fn lemma_parse_body_render(b: Seq<char>, hidden: bool)
    requires
        parse_body(b) matches Some(BodyView::Perm(p)),
    ensures
        ({
            let p = match parse_body(b).unwrap() {
                BodyView::Perm(p) => p,
                _ => arbitrary(),
            };
            render_perm(
                PermutationView {
                    iterable: p.iterable,
                    ordering: p.ordering,
                    var_name: p.var_name,
                    hidden: hidden,
                },
            ) == seq!['{'] + b + seq!['}'] + (if hidden {
                seq!['!']
            } else {
                Seq::<char>::empty()
            })
        }),
{
    reveal(parse_body);
    lemma_find_ch(b, ':');
    let f1 = find_ch(b, ':') as int;
    let hasord = f1 < b.len() && canonical_digits(b.take(f1));
    let rest = if hasord {
        b.skip(f1 + 1)
    } else {
        b
    };
    lemma_parse_tail_render(rest);
    let (var, it) = parse_tail(rest).unwrap();
    let varpart = (match var {
        Some(n) => n + seq![':'],
        None => Seq::<char>::empty(),
    });
    if hasord {
        lemma_udigits_of_val(b.take(f1));
        lemma_digits_val_bounds(b.take(f1));
        let o = digits_val(b.take(f1)) as u64;
        assert(o as int == digits_val(b.take(f1)));
        assert(udigits(o as int) == b.take(f1));
        assert(b[f1] == ':');
        assert((b.take(f1) + seq![':']) + rest =~= b);
        assert((udigits(o as int) + seq![':']) + (varpart + render_iter(it)) =~= b);
    } else {
        assert(Seq::<char>::empty() + (varpart + render_iter(it)) =~= b);
    }
    let p = match parse_body(b).unwrap() {
        BodyView::Perm(p) => p,
        _ => arbitrary(),
    };
    let full = PermutationView {
        iterable: p.iterable,
        ordering: p.ordering,
        var_name: p.var_name,
        hidden: hidden,
    };
    let ord = match full.ordering {
        Some(o) => udigits(o as int) + seq![':'],
        None => Seq::<char>::empty(),
    };
    assert(render_perm(full) == seq!['{'] + ord + varpart + render_iter(it) + seq!['}'] + (
    if hidden {
        seq!['!']
    } else {
        Seq::<char>::empty()
    }));
    assert(seq!['{'] + ord + varpart + render_iter(it) + seq!['}'] + (if hidden {
        seq!['!']
    } else {
        Seq::<char>::empty()
    }) =~= seq!['{'] + b + seq!['}'] + (if hidden {
        seq!['!']
    } else {
        Seq::<char>::empty()
    }));
}

/// Round trip: rendering a parsed statement reproduces the source exactly.
#[verifier::rlimit(100)]
#[verifier::spinoff_prover]
pub proof fn lemma_parse_round_trip(s: Seq<char>)
    requires
        parse_stmt(s) is Some,
    ensures
        render_stmt(parse_stmt(s).unwrap()) == s,
    decreases s.len(),
{
    lemma_find_ch(s, '}');
    lemma_find_ch(s, '{');
    let es = parse_stmt(s).unwrap();
    if s.len() == 0 {
        assert(render_stmt(es) =~= s);
    } else if s[0] == '{' {
        let close = find_ch(s, '}') as int;
        let body = s.subrange(1, close);
        match parse_body(body) {
            None => {},
            Some(BodyView::UseVar(n)) => {
                lemma_parse_body_usevar(body);
                lemma_parse_round_trip(s.skip(close + 1));
                let rest = parse_stmt(s.skip(close + 1)).unwrap();
                assert(es[0] == ExpressionView::Variable(n));
                assert(es.skip(1) =~= rest);
                assert(render_expr(es[0]) =~= s.take(close + 1));
                assert(s.take(close + 1) + s.skip(close + 1) =~= s);
            },
            Some(BodyView::Perm(p)) => {
                let hidden = close + 1 < s.len() && s[close + 1] == '!';
                let consumed = if hidden {
                    close + 2
                } else {
                    close + 1
                };
                lemma_parse_round_trip(s.skip(consumed));
                lemma_parse_body_render(body, hidden);
                let rest = parse_stmt(s.skip(consumed)).unwrap();
                assert(es.skip(1) =~= rest);
                assert(render_expr(es[0]) =~= s.take(consumed));
                assert(s.take(consumed) + s.skip(consumed) =~= s);
            },
        }
    } else {
        let k = find_ch(s, '{') as int;
        lemma_parse_round_trip(s.skip(k));
        let rest = parse_stmt(s.skip(k)).unwrap();
        assert(es.skip(1) =~= rest);
        assert(render_expr(es[0]) == s.take(k));
        assert(s.take(k) + s.skip(k) =~= s);
    }
}

// ---------------------------------------------------------------------------
// The executable parser
// ---------------------------------------------------------------------------

/// A parse failure: a human-readable cause and the character position of the
/// placeholder it occurred in.
#[derive(Debug)]
pub struct ParseError {
    pub message: String,
    pub at: usize,
}

/// True when `s[from..to]` has no structural character.
fn check_plain(s: &str, from: usize, to: usize) -> (r: bool)
    requires
        from <= to <= s@.len(),
    ensures
        r == plain_chars(s@.subrange(from as int, to as int)),
{
    let ghost sub = s@.subrange(from as int, to as int);
    let mut i: usize = from;
    #[verifier::loop_isolation(false)]
    while i < to
        invariant
            from <= i <= to,
            forall|j: int| 0 <= j < i - from ==> !is_structural(#[trigger] sub[j]),
        decreases to - i,
    {
        let c = s.get_char(i);
        if c == '{' || c == '}' || c == '|' || c == ';' || c == ':' {
            proof {
                assert(sub[i - from] == s@[i as int]);
            }
            return false;
        }
        proof {
            assert(sub[i - from] == s@[i as int]);
        }
        i = i + 1;
    }
    true
}

/// True when `s[from..to]` is a canonical digit string.
fn check_canonical_digits(s: &str, from: usize, to: usize) -> (r: bool)
    requires
        from <= to <= s@.len(),
    ensures
        r == canonical_digits(s@.subrange(from as int, to as int)),
{
    let ghost sub = s@.subrange(from as int, to as int);
    if to == from {
        return false;
    }
    if to - from >= 2 && s.get_char(from) == '0' {
        proof {
            assert(sub[0] == s@[from as int]);
        }
        return false;
    }
    let mut i: usize = from;
    #[verifier::loop_isolation(false)]
    while i < to
        invariant
            from <= i <= to,
            forall|j: int| 0 <= j < i - from ==> is_digit(#[trigger] sub[j]),
        decreases to - i,
    {
        let c = s.get_char(i);
        proof {
            assert(sub[i - from] == s@[i as int]);
        }
        if !digit_check(c) {
            return false;
        }
        i = i + 1;
    }
    true
}

/// The numeric value of the canonical digit string `s[from..to]`, unless it
/// does not fit a `u64`.
fn parse_ordering(s: &str, from: usize, to: usize) -> (r: Option<u64>)
    requires
        from < to <= s@.len(),
        canonical_digits(s@.subrange(from as int, to as int)),
    ensures
        r is Some <==> digits_val(s@.subrange(from as int, to as int)) <= u64::MAX,
        r is Some ==> r.unwrap() as int == digits_val(s@.subrange(from as int, to as int)),
{
    let ghost sub = s@.subrange(from as int, to as int);
    if to - from > 20 {
        proof {
            lemma_digits_val_lower(sub);
            lemma_pow10_increases(20, (sub.len() - 1) as nat);
            reveal_with_fuel(pow10, 25);
        }
        return None;
    }
    let mut val: u128 = 0;
    let mut i: usize = from;
    proof {
        assert(s@.subrange(from as int, from as int) =~= Seq::<char>::empty());
        reveal_with_fuel(pow10, 25);
    }
    #[verifier::loop_isolation(false)]
    while i < to
        invariant
            from <= i <= to,
            val as int == digits_val(s@.subrange(from as int, i as int)),
            val < pow10((i - from) as nat),
        decreases to - i,
    {
        let c = s.get_char(i);
        proof {
            assert(sub[i - from] == s@[i as int]);
            let pre = s@.subrange(from as int, i as int);
            let ext = s@.subrange(from as int, i + 1);
            assert(ext.drop_last() =~= pre);
            assert(ext.last() == s@[i as int]);
            assert(forall|j: int| 0 <= j < ext.len() ==> ext[j] == sub[j]);
            assert(forall|j: int| 0 <= j < ext.len() ==> is_digit(#[trigger] ext[j]));
            lemma_digits_val_bounds(ext);
            lemma_pow10_increases((i + 1 - from) as nat, 20);
        }
        let d = digit_value(c);
        val = val * 10 + (d as u128);
        i = i + 1;
    }
    if val > u64::MAX as u128 {
        None
    } else {
        Some(val as u64)
    }
}

/// What a placeholder body parses to (hidden is decided by the caller).
enum ParsedBody {
    UseVar(VariableName),
    Perm(Permutation),
}

/// Parse the iterable part of a permutation body.
fn parse_iterable_exec(b: &str) -> (r: Result<PermutationIterable, String>)
    ensures
        r is Ok <==> parse_iterable(b@) is Some,
        r matches Ok(it) ==> parse_iterable(b@) == Some(it@),
{
    let n = b.unicode_len();
    let bar = find_char_from(b, 0, '|');
    proof {
        reveal(parse_iterable);
        assert(b@.skip(0) =~= b@);
    }
    if bar < n {
        // disjunction
        let ghost parts_spec = split_ch(b@, '|');
        let mut parts: Vec<String> = Vec::new();
        let mut pos: usize = 0;
        let mut f = bar;
        #[verifier::loop_isolation(false)]
        while f < n
            invariant
                pos <= f <= n,
                f - pos == find_ch(b@.skip(pos as int), '|'),
                parts_spec =~= parts@.map_values(|x: String| x@) + split_ch(
                    b@.skip(pos as int),
                    '|',
                ),
                forall|k: int| 0 <= k < parts@.len() ==> alt_ok(#[trigger] parts_spec[k]),
            decreases n - pos,
        {
            if !check_plain(b, pos, f) {
                proof {
                    reveal(parse_iterable);
                    let tailsplit = split_ch(b@.skip(pos as int), '|');
                    assert(tailsplit[0] =~= b@.subrange(pos as int, f as int));
                    assert(parts_spec[parts@.len() as int] == tailsplit[0]);
                }
                return Err(alt_error());
            }
            let piece = b.substring_char(pos, f).to_owned();
            proof {
                let tailsplit = split_ch(b@.skip(pos as int), '|');
                assert(tailsplit[0] =~= b@.subrange(pos as int, f as int));
                assert(tailsplit.skip(1) =~= split_ch(b@.skip(pos as int).skip(f - pos + 1), '|'));
                assert(b@.skip(pos as int).skip(f - pos + 1) =~= b@.skip(f + 1));
                assert((parts@.map_values(|x: String| x@)).push(piece@) =~= parts@.push(
                    piece,
                ).map_values(|x: String| x@));
                assert(parts_spec =~= parts@.push(piece).map_values(|x: String| x@) + split_ch(
                    b@.skip(f + 1),
                    '|',
                ));
            }
            parts.push(piece);
            pos = f + 1;
            f = find_char_from(b, pos, '|');
        }
        // the final piece after the last separator
        if !check_plain(b, pos, n) {
            proof {
                reveal(parse_iterable);
                let tailsplit = split_ch(b@.skip(pos as int), '|');
                assert(tailsplit[0] =~= b@.subrange(pos as int, n as int));
                assert(parts_spec[parts@.len() as int] == tailsplit[0]);
            }
            return Err(alt_error());
        }
        let piece = b.substring_char(pos, n).to_owned();
        proof {
            let tailsplit = split_ch(b@.skip(pos as int), '|');
            assert(tailsplit =~= seq![b@.subrange(pos as int, n as int)]);
            assert(parts_spec =~= parts@.push(piece).map_values(|x: String| x@));
        }
        parts.push(piece);
        let r = PermutationIterable::Disjunction(parts);
        proof {
            reveal(parse_iterable);
            assert(parse_iterable(b@) == Some(r@));
        }
        Ok(r)
    } else {
        let s1 = find_char_from(b, 0, ';');
        if s1 == n {
            return Err(iterable_error());
        }
        let s2 = find_char_from(b, s1 + 1, ';');
        proof {
            assert(b@.take(s1 as int) =~= b@.subrange(0, s1 as int));
        }
        if s2 == n {
            return Err(range_parts_error());
        }
        let s3 = find_char_from(b, s2 + 1, ';');
        let ghost rest = b@.skip(s1 + 1);
        let ghost p3 = rest.skip(s2 - s1);
        proof {
            assert(p3 =~= b@.skip(s2 + 1));
            assert(find_ch(p3, ';') == s3 - (s2 + 1));
        }
        if s3 != n {
            return Err(range_parts_error());
        }
        let d1 = match parse_decimal(b.substring_char(0, s1)) {
            Some(d) => d,
            None => {
                proof {
                    assert(b@.subrange(0, s1 as int) =~= b@.take(s1 as int));
                }
                return Err(range_decimal_error());
            },
        };
        let d2 = match parse_decimal(b.substring_char(s1 + 1, s2)) {
            Some(d) => d,
            None => {
                proof {
                    assert(b@.subrange(s1 + 1, s2 as int) =~= rest.take(s2 - s1 - 1));
                }
                return Err(range_decimal_error());
            },
        };
        let d3 = match parse_decimal(b.substring_char(s2 + 1, n)) {
            Some(d) => d,
            None => {
                proof {
                    assert(b@.subrange(s2 + 1, n as int) =~= rest.skip(s2 - s1));
                }
                return Err(range_decimal_error());
            },
        };
        proof {
            assert(b@.subrange(0, s1 as int) =~= b@.take(s1 as int));
            assert(b@.subrange(s1 + 1, s2 as int) =~= rest.take(s2 - s1 - 1));
            assert(b@.subrange(s2 + 1, n as int) =~= rest.skip(s2 - s1));
        }
        let vs = scaled_i128(&d1);
        let ve = scaled_i128(&d2);
        let vt = scaled_i128(&d3);
        if vt == 0 {
            return Err(step_zero_error());
        }
        if (vt > 0) != (vs <= ve) {
            return Err(step_sign_error());
        }
        let r = PermutationIterable::Range { start: d1, end: d2, step: d3 };
        proof {
            assert(parse_iterable(b@) == Some(r@));
        }
        Ok(r)
    }
}

fn alt_error() -> (r: String) {
    "unexpected character in an alternative".to_owned()
}

fn iterable_error() -> (r: String) {
    "a placeholder needs alternatives, a range, or a name".to_owned()
}

fn range_parts_error() -> (r: String) {
    "a range needs exactly three parts".to_owned()
}

fn range_decimal_error() -> (r: String) {
    "malformed decimal in a range".to_owned()
}

fn step_zero_error() -> (r: String) {
    "step cannot be zero".to_owned()
}

fn step_sign_error() -> (r: String) {
    "step has the wrong sign".to_owned()
}

fn ordering_error() -> (r: String) {
    "ordering does not fit an unsigned integer".to_owned()
}

fn unclosed_error() -> (r: String) {
    "unclosed placeholder".to_owned()
}

/// Parse a placeholder body.
fn parse_body_exec(b: &str) -> (r: Result<ParsedBody, String>)
    ensures
        r is Ok <==> parse_body(b@) is Some,
        r matches Ok(ParsedBody::UseVar(v)) ==> parse_body(b@) == Some(BodyView::UseVar(v@)),
        r matches Ok(ParsedBody::Perm(p)) ==> parse_body(b@) == Some(BodyView::Perm(p@))
            && p@.hidden == false,
{
    proof {
        reveal(parse_body);
        reveal(parse_tail);
    }
    let n = b.unicode_len();
    if n >= 1 && check_plain(b, 0, n) {
        proof {
            assert(b@.subrange(0, n as int) =~= b@);
        }
        return Ok(ParsedBody::UseVar(VariableName(b.to_owned())));
    }
    proof {
        assert(b@.subrange(0, n as int) =~= b@);
        assert(b@.skip(0) =~= b@);
    }
    let f1 = find_char_from(b, 0, ':');
    let hasord = f1 < n && check_canonical_digits(b, 0, f1);
    proof {
        assert(b@.subrange(0, f1 as int) =~= b@.take(f1 as int));
    }
    let mut ordering: Option<u64> = None;
    let mut ro: usize = 0;
    if hasord {
        match parse_ordering(b, 0, f1) {
            Some(o) => {
                ordering = Some(o);
                ro = f1 + 1;
            },
            None => {
                return Err(ordering_error());
            },
        }
    }
    let ghost rest = if hasord {
        b@.skip(f1 + 1)
    } else {
        b@
    };
    proof {
        assert(rest =~= b@.subrange(ro as int, n as int));
        assert(forall|j: int| 0 <= j < rest.len() ==> rest[j] == b@[j + ro]);
    }
    let f2 = find_char_from(b, ro, ':');
    proof {
        assert(find_ch(rest, ':') == f2 - ro);
    }
    let mut var_name: Option<VariableName> = None;
    let mut io: usize = ro;
    if f2 < n && f2 - ro >= 1 && check_plain(b, ro, f2) {
        proof {
            assert(rest.take(f2 - ro) =~= b@.subrange(ro as int, f2 as int));
        }
        var_name = Some(VariableName(b.substring_char(ro, f2).to_owned()));
        io = f2 + 1;
    } else {
        proof {
            if f2 < n {
                assert(rest.take(f2 - ro) =~= b@.subrange(ro as int, f2 as int));
            }
        }
    }
    let it_str = b.substring_char(io, n);
    proof {
        if io == ro {
            assert(it_str@ =~= rest);
        } else {
            assert(it_str@ =~= rest.skip(f2 - ro + 1));
        }
    }
    match parse_iterable_exec(it_str) {
        Ok(it) => {
            let p = Permutation { iterable: it, ordering, var_name, hidden: false };
            proof {
                assert(parse_body(b@) == Some(BodyView::Perm(p@)));
            }
            Ok(ParsedBody::Perm(p))
        },
        Err(m) => Err(m),
    }
}

/// Parse a source string into a statement.  Returns `Ok` exactly on the
/// grammar-valid strings, with the statement the grammar describes; the
/// parsed statement is always well formed.
#[verifier::rlimit(100)]
#[verifier::spinoff_prover]
pub fn parse_prompt(input: &str) -> (r: Result<Statement, ParseError>)
    ensures
        r is Ok <==> parse_stmt(input@) is Some,
        r matches Ok(stmt) ==> Some(stmt@) == parse_stmt(input@),
        r matches Ok(stmt) ==> stmt_wf(stmt@),
{
    proof {
        if parse_stmt(input@) is Some {
            lemma_parse_stmt_wf(input@);
        }
    }
    let n = input.unicode_len();
    let mut exprs: Vec<Expression> = Vec::new();
    let mut i: usize = 0;
    proof {
        assert(input@.skip(0) =~= input@);
    }
    #[verifier::loop_isolation(false)]
    while i < n
        invariant
            i <= n,
            parse_stmt(input@) is Some <==> parse_stmt(input@.skip(i as int)) is Some,
            parse_stmt(input@) is Some ==> parse_stmt(input@) == Some(
                exprs@.map_values(|e: Expression| e@) + parse_stmt(input@.skip(i as int)).unwrap(),
            ),
        decreases n - i,
    {
        let ghost tail = input@.skip(i as int);
        let ghost ev = exprs@.map_values(|e: Expression| e@);
        let c = input.get_char(i);
        proof {
            assert(tail[0] == input@[i as int]);
            assert(tail.len() == n - i);
        }
        if c == '{' {
            let close = find_char_from(input, i, '}');
            let ghost cl: int = close - i;
            proof {
                assert(find_ch(tail, '}') == cl);
            }
            if close == n {
                return Err(ParseError { message: unclosed_error(), at: i });
            }
            let body = input.substring_char(i + 1, close);
            proof {
                assert(body@ =~= tail.subrange(1, cl));
            }
            match parse_body_exec(body) {
                Err(message) => {
                    return Err(ParseError { message, at: i });
                },
                Ok(ParsedBody::UseVar(v)) => {
                    let ghost e = ExpressionView::Variable(v@);
                    let ghost tail2 = tail.skip(cl + 1);
                    proof {
                        assert(input@.skip(close + 1) =~= tail2);
                        assert(parse_stmt(tail) is Some <==> parse_stmt(tail2) is Some);
                        if parse_stmt(tail2) is Some {
                            let rest = parse_stmt(tail2).unwrap();
                            assert(parse_stmt(tail) == Some(seq![e] + rest));
                            assert(ev + (seq![e] + rest) =~= ev.push(e) + rest);
                        }
                    }
                    exprs.push(Expression::Variable(v));
                    i = close + 1;
                    proof {
                        assert(exprs@.map_values(|x: Expression| x@) =~= ev.push(e));
                    }
                },
                Ok(ParsedBody::Perm(mut p)) => {
                    let hidden = close + 1 < n && input.get_char(close + 1) == '!';
                    proof {
                        if close + 1 < n {
                            assert(tail[cl + 1] == input@[close + 1]);
                        }
                        assert(hidden == (cl + 1 < tail.len() && tail[cl + 1] == '!'));
                    }
                    p.hidden = hidden;
                    let ghost e = ExpressionView::Permutation(p@);
                    let ghost consumed: int = if hidden {
                        cl + 2
                    } else {
                        cl + 1
                    };
                    proof {
                        assert(input@.skip(i + consumed) =~= tail.skip(consumed));
                        assert(parse_stmt(tail) is Some <==> parse_stmt(tail.skip(consumed))
                            is Some);
                        if parse_stmt(tail.skip(consumed)) is Some {
                            let rest = parse_stmt(tail.skip(consumed)).unwrap();
                            assert(parse_stmt(tail) == Some(seq![e] + rest));
                            assert(ev + (seq![e] + rest) =~= ev.push(e) + rest);
                        }
                    }
                    exprs.push(Expression::Permutation(p));
                    i = if hidden {
                        close + 2
                    } else {
                        close + 1
                    };
                    proof {
                        assert(exprs@.map_values(|x: Expression| x@) =~= ev.push(e));
                    }
                },
            }
        } else {
            let k = find_char_from(input, i, '{');
            let ghost kl: int = k - i;
            proof {
                assert(find_ch(tail, '{') == kl);
                assert(kl >= 1) by {
                    lemma_find_ch(tail, '{');
                }
            }
            let lit = input.substring_char(i, k).to_owned();
            let ghost e = ExpressionView::Literal(lit@);
            proof {
                assert(lit@ =~= tail.take(kl));
                assert(input@.skip(k as int) =~= tail.skip(kl));
                assert(parse_stmt(tail) is Some <==> parse_stmt(tail.skip(kl)) is Some);
                if parse_stmt(tail.skip(kl)) is Some {
                    let rest = parse_stmt(tail.skip(kl)).unwrap();
                    assert(parse_stmt(tail) == Some(seq![e] + rest));
                    assert(ev + (seq![e] + rest) =~= ev.push(e) + rest);
                }
            }
            exprs.push(Expression::Literal(lit));
            i = k;
            proof {
                assert(exprs@.map_values(|x: Expression| x@) =~= ev.push(e));
            }
        }
    }
    proof {
        assert(input@.skip(n as int) =~= Seq::<char>::empty());
        if parse_stmt(input@) is Some {
            assert(exprs@.map_values(|e: Expression| e@) + Seq::<ExpressionView>::empty()
                =~= exprs@.map_values(|e: Expression| e@));
        }
    }
    let stmt = Statement(exprs);
    Ok(stmt)
}

} // verus!
