//! Input parser: turns raw text into a validated list of contributions.
//!
//! The input is split on `'\n'` into lines. Empty lines contribute
//! nothing. Every other line must consist of exactly two
//! whitespace-separated tokens: a free-form name and an amount. An
//! amount is an optionally signed decimal number with at most two fraction
//! digits, read as a count of minor units; a magnitude beyond
//! [`AMOUNT_LIMIT`](crate::types::AMOUNT_LIMIT) is rejected. The first
//! offending line aborts the whole parse with its line index.

use vstd::prelude::*;

use crate::types::AMOUNT_LIMIT;
use crate::types::Contribution;
use crate::types::ContributionView;
use crate::types::ParseError;
use crate::types::ParseErrorKind;
use crate::types::ParseErrorView;
use crate::types::contribs_view;

verus! {

/// Token-separating whitespace inside a line.
pub open spec fn is_ws(c: char) -> bool {
    c == ' ' || c == '\t' || c == '\r'
}

/// Decimal digit.
pub open spec fn is_digit(c: char) -> bool {
    '0' as u32 <= c as u32 && c as u32 <= '9' as u32
}

/// Numeric value of a decimal digit.
pub open spec fn digit_val(c: char) -> int {
    c as u32 - '0' as u32
}

/// The segments of `s` split on `'\n'`, with `cur` the segment read so far.
pub open spec fn split_lines_acc(s: Seq<char>, cur: Seq<char>) -> Seq<Seq<char>>
    decreases s.len(),
{
    if s.len() == 0 {
        seq![cur]
    } else if s[0] == '\n' {
        seq![cur] + split_lines_acc(s.drop_first(), Seq::empty())
    } else {
        split_lines_acc(s.drop_first(), cur.push(s[0]))
    }
}

/// The lines of the input: its segments split on `'\n'`. There is always at
/// least one (possibly empty) segment.
pub open spec fn spec_lines(s: Seq<char>) -> Seq<Seq<char>> {
    split_lines_acc(s, Seq::empty())
}

/// Length of the maximal non-whitespace prefix of `s`.
pub open spec fn tok_len(s: Seq<char>) -> nat
    decreases s.len(),
{
    if s.len() == 0 || is_ws(s[0]) {
        0
    } else {
        1 + tok_len(s.drop_first())
    }
}

/// The maximal non-whitespace prefix is never longer than the string.
pub proof fn lemma_tok_len_le(s: Seq<char>)
    ensures
        tok_len(s) <= s.len(),
    decreases s.len(),
{
    if s.len() == 0 || is_ws(s[0]) {
    } else {
        lemma_tok_len_le(s.drop_first());
    }
}

/// The whitespace-separated tokens of a line, in order.
pub open spec fn spec_tokens(s: Seq<char>) -> Seq<Seq<char>>
    decreases s.len(),
    via spec_tokens_decreases
{
    if s.len() == 0 {
        Seq::empty()
    } else if is_ws(s[0]) {
        spec_tokens(s.drop_first())
    } else {
        seq![s.take(tok_len(s) as int)] + spec_tokens(s.skip(tok_len(s) as int))
    }
}

#[via_fn]
proof fn spec_tokens_decreases(s: Seq<char>) {
    if s.len() > 0 && !is_ws(s[0]) {
        lemma_tok_len_le(s);
        assert(tok_len(s) >= 1);
    }
}

/// Length of the maximal digit prefix of `s`.
pub open spec fn digit_prefix_len(s: Seq<char>) -> nat
    decreases s.len(),
{
    if s.len() == 0 || !is_digit(s[0]) {
        0
    } else {
        1 + digit_prefix_len(s.drop_first())
    }
}

/// Value of a digit string, most significant digit first.
pub open spec fn digits_val(s: Seq<char>) -> int
    decreases s.len(),
{
    if s.len() == 0 {
        0
    } else {
        10 * digits_val(s.drop_last()) + digit_val(s.last())
    }
}

pub open spec fn all_digits(s: Seq<char>) -> bool {
    forall|i: int| 0 <= i < s.len() ==> is_digit(s[i])
}

/// Signed magnitude, if it is within the accepted range.
pub open spec fn signed_amount(neg: bool, mag: int) -> Option<int> {
    if mag <= AMOUNT_LIMIT as int {
        Some(if neg { -mag } else { mag })
    } else {
        None
    }
}

/// The value, in minor units, of an amount token: an optional sign, a
/// non-empty run of digits, and optionally a dot followed by one or two
/// fraction digits. `None` when the token has any other shape or its
/// magnitude exceeds [`AMOUNT_LIMIT`].
pub open spec fn spec_amount(tok: Seq<char>) -> Option<int> {
    let neg = tok.len() > 0 && tok[0] == '-';
    let body = if tok.len() > 0 && (tok[0] == '-' || tok[0] == '+') {
        tok.drop_first()
    } else {
        tok
    };
    let k = digit_prefix_len(body) as int;
    if k == 0 {
        None
    } else {
        let whole = digits_val(body.take(k));
        if k == body.len() {
            signed_amount(neg, whole * 100)
        } else if body[k] == '.' {
            let frac = body.skip(k + 1);
            if 1 <= frac.len() <= 2 && all_digits(frac) {
                let f = if frac.len() == 1 {
                    10 * digits_val(frac)
                } else {
                    digits_val(frac)
                };
                signed_amount(neg, whole * 100 + f)
            } else {
                None
            }
        } else {
            None
        }
    }
}

/// The parse of the first `k` lines: the contributions of their non-blank
/// lines in order, or the first error.
pub open spec fn spec_parse_upto(ls: Seq<Seq<char>>, k: int) -> Result<
    Seq<ContributionView>,
    ParseErrorView,
>
    decreases k,
{
    if k <= 0 {
        Ok(Seq::empty())
    } else {
        match spec_parse_upto(ls, k - 1) {
            Err(e) => Err(e),
            Ok(acc) => {
                let ts = spec_tokens(ls[k - 1]);
                if ls[k - 1].len() == 0 {
                    Ok(acc)
                } else if ts.len() != 2 {
                    Err(ParseErrorView { kind: ParseErrorKind::IncompleteLine, line_index: k - 1 })
                } else {
                    match spec_amount(ts[1]) {
                        Some(a) => Ok(
                            acc.push(ContributionView { name: ts[0], amount: a }),
                        ),
                        None => Err(
                            ParseErrorView { kind: ParseErrorKind::NotANumber, line_index: k - 1 },
                        ),
                    }
                }
            },
        }
    }
}

/// The parse of a whole input text.
pub open spec fn spec_parse(s: Seq<char>) -> Result<Seq<ContributionView>, ParseErrorView> {
    spec_parse_upto(spec_lines(s), spec_lines(s).len() as int)
}

/// `digit_prefix_len` is the unique cut: all digits before it, none at it.
proof fn lemma_digit_prefix_len_eq(s: Seq<char>, k: int)
    requires
        0 <= k <= s.len(),
        forall|j: int| 0 <= j < k ==> is_digit(s[j]),
        k == s.len() || !is_digit(s[k]),
    ensures
        digit_prefix_len(s) == k,
    decreases k,
{
    if k == 0 {
    } else {
        assert(is_digit(s[0]));
        lemma_digit_prefix_len_eq(s.drop_first(), k - 1);
    }
}

/// `tok_len` is the unique cut: no whitespace before it, whitespace at it.
proof fn lemma_tok_len_eq(s: Seq<char>, k: int)
    requires
        0 <= k <= s.len(),
        forall|j: int| 0 <= j < k ==> !is_ws(s[j]),
        k == s.len() || is_ws(s[k]),
    ensures
        tok_len(s) == k,
    decreases k,
{
    if k == 0 {
    } else {
        assert(!is_ws(s[0]));
        lemma_tok_len_eq(s.drop_first(), k - 1);
    }
}

fn exec_is_ws(c: char) -> (r: bool)
    ensures
        r == is_ws(c),
{
    c == ' ' || c == '\t' || c == '\r'
}

fn exec_is_digit(c: char) -> (r: bool)
    ensures
        r == is_digit(c),
{
    let u = c as u32;
    48 <= u && u <= 57
}

fn exec_digit_val(c: char) -> (r: i64)
    requires
        is_digit(c),
    ensures
        r == digit_val(c),
        0 <= r <= 9,
{
    (c as u32 - 48) as i64
}

/// Largest whole part (in minor units before scaling by 100) that can
/// still yield an accepted amount.
const WHOLE_CAP: i64 = 1_000_000_000_000;

/// Reads an amount token. Returns the value in minor units exactly when
/// the token is an optionally signed decimal number with at most two
/// fraction digits whose magnitude is within [`AMOUNT_LIMIT`].
pub fn parse_amount(tok: &str) -> (r: Option<i64>)
    ensures
        match r {
            Some(v) => spec_amount(tok@) == Some(v as int) && -AMOUNT_LIMIT <= v <= AMOUNT_LIMIT,
            None => spec_amount(tok@) is None,
        },
{
    let n = tok.unicode_len();
    let ghost t = tok@;
    let mut i: usize = 0;
    let mut neg = false;
    if n > 0 {
        let c0 = tok.get_char(0);
        if c0 == '-' {
            neg = true;
            i = 1;
        } else if c0 == '+' {
            i = 1;
        }
    }
    let ghost body = if t.len() > 0 && (t[0] == '-' || t[0] == '+') {
        t.drop_first()
    } else {
        t
    };
    let start = i;
    proof {
        assert(body =~= t.skip(start as int));
    }
    let mut acc: i64 = 0;
    let mut too_big = false;
    loop
        invariant
            start <= i <= n,
            n == t.len(),
            t == tok@,
            forall|j: int| start <= j < i ==> is_digit(t[j]),
            !too_big ==> acc == digits_val(t.subrange(start as int, i as int)) && 0 <= acc
                <= WHOLE_CAP,
            too_big ==> digits_val(t.subrange(start as int, i as int)) > WHOLE_CAP,
        ensures
            start <= i <= n,
            forall|j: int| start <= j < i ==> is_digit(t[j]),
            i == n || !is_digit(t[i as int]),
            !too_big ==> acc == digits_val(t.subrange(start as int, i as int)) && 0 <= acc
                <= WHOLE_CAP,
            too_big ==> digits_val(t.subrange(start as int, i as int)) > WHOLE_CAP,
        decreases n - i,
    {
        if i >= n {
            break ;
        }
        let c = tok.get_char(i);
        if !exec_is_digit(c) {
            break ;
        }
        let d = exec_digit_val(c);
        proof {
            let sc = t.subrange(start as int, i as int);
            let sc1 = t.subrange(start as int, i as int + 1);
            assert(sc1.drop_last() =~= sc);
            assert(digits_val(sc1) == 10 * digits_val(sc) + digit_val(t[i as int]));
        }
        if !too_big {
            acc = acc * 10 + d;
            if acc > WHOLE_CAP {
                too_big = true;
            }
        } else {
            proof {
                let sc = t.subrange(start as int, i as int);
                assert(digits_val(t.subrange(start as int, i as int + 1)) == 10 * digits_val(sc)
                    + digit_val(t[i as int]));
            }
        }
        i = i + 1;
    }
    let k = i - start;
    proof {
        assert(forall|j: int| 0 <= j < k ==> body[j] == t[start + j] && is_digit(body[j]));
        if k < body.len() {
            assert(body[k as int] == t[i as int]);
        }
        lemma_digit_prefix_len_eq(body, k as int);
        assert(body.take(k as int) =~= t.subrange(start as int, i as int));
    }
    if k == 0 {
        return None;
    }
    let ghost whole = digits_val(body.take(k as int));
    proof {
        if too_big {
            assert(whole * 100 > AMOUNT_LIMIT) by (nonlinear_arith)
                requires
                    whole > 1_000_000_000_000,
            ;
        } else {
            assert(0 <= whole * 100 <= AMOUNT_LIMIT) by (nonlinear_arith)
                requires
                    0 <= whole <= 1_000_000_000_000,
            ;
        }
    }
    if i == n {
        // No fraction part: the magnitude is the whole part in hundredths.
        if too_big {
            return None;
        }
        let mag = acc * 100;
        return Some(if neg { -mag } else { mag });
    }
    let c = tok.get_char(i);
    if c != '.' {
        return None;
    }
    // Fraction part: one or two digits that end the token.
    let rem = n - (i + 1);
    let ghost frac = body.skip(k + 1);
    proof {
        assert(frac =~= t.subrange(i as int + 1, n as int));
    }
    if rem == 0 || rem > 2 {
        return None;
    }
    let c1 = tok.get_char(i + 1);
    if !exec_is_digit(c1) {
        proof {
            assert(frac[0] == t[i as int + 1]);
            assert(!all_digits(frac));
        }
        return None;
    }
    let d1 = exec_digit_val(c1);
    let f: i64;
    if rem == 1 {
        proof {
            assert(frac.len() == 1);
            assert(frac.last() == t[i as int + 1]);
            assert(frac.drop_last() =~= Seq::<char>::empty());
            assert(digits_val(frac.drop_last()) == 0);
            assert(digits_val(frac) == digit_val(t[i as int + 1]));
            assert(forall|j: int| 0 <= j < 1 ==> frac[j] == t[i as int + 1 + j]);
            assert(all_digits(frac));
        }
        f = 10 * d1;
    } else {
        let c2 = tok.get_char(i + 2);
        if !exec_is_digit(c2) {
            proof {
                assert(frac[1] == t[i as int + 2]);
                assert(!all_digits(frac));
            }
            return None;
        }
        let d2 = exec_digit_val(c2);
        proof {
            assert(frac.len() == 2);
            assert(frac.drop_last().drop_last() =~= Seq::<char>::empty());
            assert(digits_val(frac.drop_last().drop_last()) == 0);
            assert(frac.drop_last().last() == t[i as int + 1]);
            assert(digits_val(frac.drop_last()) == digit_val(t[i as int + 1]));
            assert(frac.last() == t[i as int + 2]);
            assert(digits_val(frac) == 10 * digit_val(t[i as int + 1]) + digit_val(
                t[i as int + 2],
            ));
            assert(forall|j: int| 0 <= j < 2 ==> frac[j] == t[i as int + 1 + j]);
            assert(all_digits(frac));
        }
        f = 10 * d1 + d2;
    }
    if too_big {
        return None;
    }
    let mag = acc * 100 + f;
    if mag > AMOUNT_LIMIT {
        return None;
    }
    Some(if neg { -mag } else { mag })
}

/// The token texts named by a list of index ranges into `s`.
pub open spec fn token_views(s: Seq<char>, rs: Seq<(usize, usize)>) -> Seq<Seq<char>> {
    rs.map_values(|p: (usize, usize)| s.subrange(p.0 as int, p.1 as int))
}

/// Finds the whitespace-separated tokens of a line, as index ranges.
fn token_ranges(line: &str) -> (r: Vec<(usize, usize)>)
    ensures
        token_views(line@, r@) == spec_tokens(line@),
        forall|p: int| 0 <= p < r@.len() ==> (#[trigger] r@[p]).0 < r@[p].1 <= line@.len(),
{
    let n = line.unicode_len();
    let ghost t = line@;
    let mut r: Vec<(usize, usize)> = Vec::new();
    let mut i: usize = 0;
    proof {
        assert(t.skip(0) =~= t);
        assert(token_views(t, r@) =~= Seq::<Seq<char>>::empty());
    }
    while i < n
        invariant
            i <= n,
            n == t.len(),
            t == line@,
            spec_tokens(t) == token_views(t, r@) + spec_tokens(t.skip(i as int)),
            forall|p: int| 0 <= p < r@.len() ==> (#[trigger] r@[p]).0 < r@[p].1 <= i,
        decreases n - i,
    {
        let c = line.get_char(i);
        if exec_is_ws(c) {
            proof {
                assert(t.skip(i as int).drop_first() =~= t.skip(i as int + 1));
            }
            i = i + 1;
        } else {
            let ts = i;
            let mut e = i;
            loop
                invariant
                    ts <= e <= n,
                    n == t.len(),
                    t == line@,
                    forall|j: int| ts <= j < e ==> !is_ws(t[j]),
                ensures
                    ts <= e <= n,
                    forall|j: int| ts <= j < e ==> !is_ws(t[j]),
                    e == n || is_ws(t[e as int]),
                decreases n - e,
            {
                if e >= n {
                    break ;
                }
                if exec_is_ws(line.get_char(e)) {
                    break ;
                }
                e = e + 1;
            }
            proof {
                let su = t.skip(ts as int);
                assert(forall|j: int| 0 <= j < e - ts ==> su[j] == t[ts + j] && !is_ws(su[j]));
                if e < n {
                    assert(su[e - ts] == t[e as int]);
                }
                lemma_tok_len_eq(su, e - ts);
                assert(su.take(e - ts) =~= t.subrange(ts as int, e as int));
                assert(su.skip(e - ts) =~= t.skip(e as int));
                assert(spec_tokens(su) == seq![t.subrange(ts as int, e as int)] + spec_tokens(
                    t.skip(e as int),
                ));
            }
            let ghost old_r = r@;
            r.push((ts, e));
            proof {
                assert(token_views(t, r@) =~= token_views(t, old_r) + seq![
                    t.subrange(ts as int, e as int),
                ]);
                assert(token_views(t, old_r) + seq![t.subrange(ts as int, e as int)]
                    + spec_tokens(t.skip(e as int)) =~= token_views(t, old_r) + (seq![
                    t.subrange(ts as int, e as int),
                ] + spec_tokens(t.skip(e as int))));
            }
            i = e;
        }
    }
    proof {
        assert(spec_tokens(t.skip(n as int)) =~= Seq::<Seq<char>>::empty());
        assert(token_views(t, r@) + Seq::<Seq<char>>::empty() =~= token_views(t, r@));
    }
    r
}

/// A failed parse of a prefix settles the parse of every extension.
proof fn lemma_parse_error_persists(ls: Seq<Seq<char>>, i: int, j: int)
    requires
        0 <= i <= j,
        spec_parse_upto(ls, i) is Err,
    ensures
        spec_parse_upto(ls, j) == spec_parse_upto(ls, i),
    decreases j - i,
{
    if i < j {
        lemma_parse_error_persists(ls, i, j - 1);
    }
}

/// Splits the input on `'\n'` into its lines.
fn split_input_lines(input: &str) -> (r: Vec<String>)
    ensures
        r@.map_values(|l: String| l@) == spec_lines(input@),
{
    let n = input.unicode_len();
    let ghost t = input@;
    let mut lines: Vec<String> = Vec::new();
    let mut ls: usize = 0;
    let mut i: usize = 0;
    proof {
        assert(t.skip(0) =~= t);
        assert(t.subrange(0, 0) =~= Seq::<char>::empty());
        assert(lines@.map_values(|l: String| l@) =~= Seq::<Seq<char>>::empty());
        assert(lines@.map_values(|l: String| l@) + split_lines_acc(t, Seq::empty())
            =~= split_lines_acc(t, Seq::empty()));
    }
    while i < n
        invariant
            ls <= i <= n,
            n == t.len(),
            t == input@,
            spec_lines(t) == lines@.map_values(|l: String| l@) + split_lines_acc(
                t.skip(i as int),
                t.subrange(ls as int, i as int),
            ),
        decreases n - i,
    {
        let c = input.get_char(i);
        if c == '\n' {
            let ghost old_lines = lines@;
            let line = input.substring_char(ls, i).to_owned();
            lines.push(line);
            proof {
                let cur = t.subrange(ls as int, i as int);
                assert(t.skip(i as int)[0] == '\n');
                assert(t.skip(i as int).drop_first() =~= t.skip(i as int + 1));
                assert(split_lines_acc(t.skip(i as int), cur) == seq![cur] + split_lines_acc(
                    t.skip(i as int + 1),
                    Seq::empty(),
                ));
                assert(lines@.map_values(|l: String| l@) =~= old_lines.map_values(|l: String| l@)
                    + seq![cur]);
                assert(old_lines.map_values(|l: String| l@) + seq![cur] + split_lines_acc(
                    t.skip(i as int + 1),
                    Seq::empty(),
                ) =~= old_lines.map_values(|l: String| l@) + (seq![cur] + split_lines_acc(
                    t.skip(i as int + 1),
                    Seq::empty(),
                )));
                assert(t.subrange(i as int + 1, i as int + 1) =~= Seq::<char>::empty());
            }
            ls = i + 1;
            i = i + 1;
        } else {
            proof {
                let cur = t.subrange(ls as int, i as int);
                assert(t.skip(i as int)[0] == t[i as int]);
                assert(t.skip(i as int).drop_first() =~= t.skip(i as int + 1));
                assert(cur.push(t[i as int]) =~= t.subrange(ls as int, i as int + 1));
            }
            i = i + 1;
        }
    }
    let ghost old_lines = lines@;
    let last = input.substring_char(ls, n).to_owned();
    lines.push(last);
    proof {
        let cur = t.subrange(ls as int, n as int);
        assert(t.skip(n as int) =~= Seq::<char>::empty());
        assert(split_lines_acc(t.skip(n as int), cur) == seq![cur]);
        assert(lines@.map_values(|l: String| l@) =~= old_lines.map_values(|l: String| l@) + seq![
            cur,
        ]);
    }
    lines
}

/// Parses the input text into its list of contributions, or reports the
/// first offending line. Empty lines contribute nothing; any other line
/// must hold exactly a name and an amount. Exactly the inputs accepted by
/// [`spec_parse`] succeed, and every parsed amount is within
/// [`AMOUNT_LIMIT`].
pub fn parse_contributions(input: &str) -> (r: Result<Vec<Contribution>, ParseError>)
    ensures
        match r {
            Ok(cs) => spec_parse(input@) == Ok::<_, ParseErrorView>(contribs_view(cs@)) && forall|
                j: int,
            |
                0 <= j < cs@.len() ==> -AMOUNT_LIMIT <= #[trigger] cs@[j].amount <= AMOUNT_LIMIT,
            Err(e) => spec_parse(input@) == Err::<Seq<ContributionView>, _>(e@),
        },
{
    let lines = split_input_lines(input);
    let ghost lsv = lines@.map_values(|l: String| l@);
    let mut contribs: Vec<Contribution> = Vec::new();
    let mut li: usize = 0;
    let nl = lines.len();
    proof {
        assert(contribs_view(contribs@) =~= Seq::<ContributionView>::empty());
    }
    while li < nl
        invariant
            li <= nl,
            nl == lines@.len(),
            lsv == lines@.map_values(|l: String| l@),
            lsv == spec_lines(input@),
            spec_parse_upto(lsv, li as int) == Ok::<_, ParseErrorView>(contribs_view(contribs@)),
            forall|j: int|
                0 <= j < contribs@.len() ==> -AMOUNT_LIMIT <= #[trigger] contribs@[j].amount
                    <= AMOUNT_LIMIT,
        decreases nl - li,
    {
        let line = &lines[li];
        let ghost lv = line@;
        proof {
            assert(lsv[li as int] == lv);
        }
        let ranges = token_ranges(line.as_str());
        let nt = ranges.len();
        proof {
            assert(spec_tokens(lv).len() == nt);
        }
        if line.as_str().is_empty() {
            // Empty line: nothing to record.
            proof {
                assert(lv.len() == 0);
            }
        } else if nt != 2 {
            let e = ParseError { kind: ParseErrorKind::IncompleteLine, line_index: li };
            proof {
                assert(spec_parse_upto(lsv, li as int + 1) == Err::<Seq<ContributionView>, _>(e@));
                lemma_parse_error_persists(lsv, li as int + 1, lsv.len() as int);
            }
            return Err(e);
        } else {
            let (a0, b0) = (ranges[0].0, ranges[0].1);
            let (a1, b1) = (ranges[1].0, ranges[1].1);
            proof {
                assert(token_views(lv, ranges@)[0] == spec_tokens(lv)[0]);
                assert(token_views(lv, ranges@)[1] == spec_tokens(lv)[1]);
            }
            let name = line.as_str().substring_char(a0, b0).to_owned();
            let tok1 = line.as_str().substring_char(a1, b1);
            match parse_amount(tok1) {
                Some(v) => {
                    let ghost old_cs = contribs@;
                    contribs.push(Contribution { name, amount: v });
                    proof {
                        assert(contribs_view(contribs@) =~= contribs_view(old_cs).push(
                            ContributionView { name: spec_tokens(lv)[0], amount: v as int },
                        ));
                    }
                },
                None => {
                    let e = ParseError { kind: ParseErrorKind::NotANumber, line_index: li };
                    proof {
                        assert(spec_parse_upto(lsv, li as int + 1) == Err::<
                            Seq<ContributionView>,
                            _,
                        >(e@));
                        lemma_parse_error_persists(lsv, li as int + 1, lsv.len() as int);
                    }
                    return Err(e);
                },
            }
        }
        li = li + 1;
    }
    Ok(contribs)
}

} // verus!
