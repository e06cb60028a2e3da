//! Parsing the puzzle text.
//!
//! The input is UTF-8 text in two blocks separated by a blank line: first one
//! rule per line in the form `L|R`, then one update per line as
//! comma-separated page numbers. A missing blank line, a rule line without
//! `|`, a token that is not an unsigned decimal number that fits a `u32`, or
//! an empty block are all parse failures. The grammar is stated over the
//! text's bytes by [`spec_parse`], and [`Input::parse`] returns `Ok` exactly
//! on the texts that the grammar accepts.

use vstd::prelude::*;
use vstd::string::StringSliceAdditionalSpecFns;
use crate::checker::{lemma_pos_of_first, pos_of};
use crate::puzzle::{update_views, Input};

verus! {

pub const NL: u8 = 10;

pub const CR: u8 = 13;

pub const PIPE: u8 = 124;

pub const COMMA: u8 = 44;

pub const D0: u8 = 48;

pub const D9: u8 = 57;

/// The single parse failure the caller sees.
#[derive(Debug, PartialEq, Eq)]
pub struct ParseError;

/// The lines of `s`, split on newline bytes; a trailing newline ends the last
/// line rather than opening an empty one.
pub open spec fn lines(s: Seq<u8>) -> Seq<Seq<u8>>
    decreases s.len(),
{
    if s.len() == 0 {
        Seq::empty()
    } else if s[0] == NL {
        seq![Seq::<u8>::empty()] + lines(s.drop_first())
    } else {
        let r = lines(s.drop_first());
        if r.len() == 0 {
            seq![seq![s[0]]]
        } else {
            seq![seq![s[0]] + r[0]] + r.drop_first()
        }
    }
}

/// The comma-separated tokens of `t`; unlike a line list, an empty text is
/// one empty token.
pub open spec fn csv(t: Seq<u8>) -> Seq<Seq<u8>>
    decreases t.len(),
{
    if t.len() == 0 {
        seq![Seq::<u8>::empty()]
    } else if t[0] == COMMA {
        seq![Seq::<u8>::empty()] + csv(t.drop_first())
    } else {
        let r = csv(t.drop_first());
        seq![seq![t[0]] + r[0]] + r.drop_first()
    }
}

/// A line read from text may carry a carriage return before the newline;
/// it is no part of the content.
pub open spec fn strip_cr(l: Seq<u8>) -> Seq<u8> {
    if l.len() > 0 && l.last() == CR {
        l.drop_last()
    } else {
        l
    }
}

pub open spec fn is_digit(b: u8) -> bool {
    D0 <= b <= D9
}

pub open spec fn all_digits(t: Seq<u8>) -> bool {
    forall|k: int| 0 <= k < t.len() ==> is_digit(#[trigger] t[k])
}

/// The number the decimal digits of `t` denote.
pub open spec fn digits_val(t: Seq<u8>) -> nat
    decreases t.len(),
{
    if t.len() == 0 {
        0
    } else {
        digits_val(t.drop_last()) * 10 + ((t.last() - D0) as nat)
    }
}

/// A token is a page number exactly when it is a non-empty run of decimal
/// digits whose value fits a `u32`.
pub open spec fn parse_number(t: Seq<u8>) -> Option<u32> {
    if t.len() >= 1 && all_digits(t) && digits_val(t) <= u32::MAX {
        Some(digits_val(t) as u32)
    } else {
        None
    }
}

/// A rule line is two page numbers around the first `|`.
pub open spec fn parse_constraint_line(raw: Seq<u8>) -> Option<(u32, u32)> {
    let line = strip_cr(raw);
    if !line.contains(PIPE) {
        None
    } else {
        let i = pos_of(line, PIPE);
        match parse_number(line.take(i)) {
            Option::None => None,
            Option::Some(a) => match parse_number(line.skip(i + 1)) {
                Option::None => None,
                Option::Some(b) => Some((a, b)),
            },
        }
    }
}

/// Page numbers of a token list, all of which must parse.
pub open spec fn token_values(ts: Seq<Seq<u8>>) -> Option<Seq<u32>>
    decreases ts.len(),
{
    if ts.len() == 0 {
        Some(Seq::empty())
    } else {
        match parse_number(ts[0]) {
            Option::None => None,
            Option::Some(v) => match token_values(ts.drop_first()) {
                Option::None => None,
                Option::Some(r) => Some(seq![v] + r),
            },
        }
    }
}

/// An update line is a comma-separated list of page numbers.
pub open spec fn parse_update_line(raw: Seq<u8>) -> Option<Seq<u32>> {
    token_values(csv(strip_cr(raw)))
}

pub open spec fn parse_constraint_lines(ls: Seq<Seq<u8>>) -> Option<Seq<(u32, u32)>>
    decreases ls.len(),
{
    if ls.len() == 0 {
        Some(Seq::empty())
    } else {
        match parse_constraint_line(ls[0]) {
            Option::None => None,
            Option::Some(c) => match parse_constraint_lines(ls.drop_first()) {
                Option::None => None,
                Option::Some(r) => Some(seq![c] + r),
            },
        }
    }
}

pub open spec fn parse_update_lines(ls: Seq<Seq<u8>>) -> Option<Seq<Seq<u32>>>
    decreases ls.len(),
{
    if ls.len() == 0 {
        Some(Seq::empty())
    } else {
        match parse_update_line(ls[0]) {
            Option::None => None,
            Option::Some(u) => match parse_update_lines(ls.drop_first()) {
                Option::None => None,
                Option::Some(r) => Some(seq![u] + r),
            },
        }
    }
}

/// The text before and after the first blank line, or `None` when there is
/// no blank line.
pub open spec fn split_blank(s: Seq<u8>) -> Option<(Seq<u8>, Seq<u8>)>
    decreases s.len(),
{
    if s.len() < 2 {
        None
    } else if s[0] == NL && s[1] == NL {
        Some((Seq::empty(), s.skip(2)))
    } else {
        match split_blank(s.drop_first()) {
            Option::None => None,
            Option::Some(p) => Some((seq![s[0]] + p.0, p.1)),
        }
    }
}

/// The whole grammar: rules, a blank line, updates; both blocks non-empty.
pub open spec fn spec_parse(s: Seq<u8>) -> Option<(Seq<(u32, u32)>, Seq<Seq<u32>>)> {
    match split_blank(s) {
        Option::None => None,
        Option::Some(p) => match parse_constraint_lines(lines(p.0)) {
            Option::None => None,
            Option::Some(cs) => match parse_update_lines(lines(p.1)) {
                Option::None => None,
                Option::Some(us) => if cs.len() >= 1 && us.len() >= 1 {
                    Some((cs, us))
                } else {
                    None
                },
            },
        },
    }
}

pub proof fn lemma_lines_no_nl(s: Seq<u8>)
    requires
        s.len() > 0,
        forall|k: int| 0 <= k < s.len() ==> s[k] != NL,
    ensures
        lines(s) =~~= seq![s],
    decreases s.len(),
{
    assert(s[0] != NL);
    assert(forall|k: int| 0 <= k < s.len() - 1 ==> s.drop_first()[k] == s[k + 1]);
    if s.len() == 1 {
        assert(s.drop_first().len() == 0);
        assert(lines(s.drop_first()).len() == 0);
        assert(seq![s[0]] =~= s);
        assert(lines(s) =~~= seq![s]);
    } else {
        lemma_lines_no_nl(s.drop_first());
        assert(lines(s.drop_first())[0] == s.drop_first());
        assert(seq![s[0]] + s.drop_first() =~= s);
        assert(lines(s.drop_first()).drop_first() =~= Seq::<Seq<u8>>::empty());
        assert(lines(s) =~~= seq![s]);
    }
}

pub proof fn lemma_lines_split(s: Seq<u8>, i: int)
    requires
        0 <= i < s.len(),
        s[i] == NL,
        forall|k: int| 0 <= k < i ==> s[k] != NL,
    ensures
        lines(s) =~~= seq![s.take(i)] + lines(s.skip(i + 1)),
    decreases i,
{
    assert(forall|k: int| 0 <= k < s.len() - 1 ==> s.drop_first()[k] == s[k + 1]);
    if i == 0 {
        assert(s.take(0) =~= Seq::<u8>::empty());
        assert(s.skip(1) =~= s.drop_first());
    } else {
        assert(s[0] != NL);
        lemma_lines_split(s.drop_first(), i - 1);
        let r = lines(s.drop_first());
        assert(r[0] == s.drop_first().take(i - 1));
        assert(r.drop_first() =~= lines(s.drop_first().skip(i)));
        assert(seq![s[0]] + s.drop_first().take(i - 1) =~= s.take(i));
        assert(s.drop_first().skip(i) =~= s.skip(i + 1));
        assert(r.len() > 0);
        assert(lines(s) =~~= seq![s.take(i)] + lines(s.skip(i + 1)));
    }
}

pub proof fn lemma_csv_no_comma(t: Seq<u8>)
    requires
        forall|k: int| 0 <= k < t.len() ==> t[k] != COMMA,
    ensures
        csv(t) =~~= seq![t],
    decreases t.len(),
{
    if t.len() == 0 {
        assert(Seq::<u8>::empty() =~= t);
    } else {
        assert(t[0] != COMMA);
        assert(forall|k: int| 0 <= k < t.len() - 1 ==> t.drop_first()[k] == t[k + 1]);
        lemma_csv_no_comma(t.drop_first());
        assert(csv(t.drop_first())[0] == t.drop_first());
        assert(seq![t[0]] + t.drop_first() =~= t);
        assert(csv(t.drop_first()).drop_first() =~= Seq::<Seq<u8>>::empty());
        assert(csv(t) =~~= seq![t]);
    }
}

pub proof fn lemma_csv_split(t: Seq<u8>, i: int)
    requires
        0 <= i < t.len(),
        t[i] == COMMA,
        forall|k: int| 0 <= k < i ==> t[k] != COMMA,
    ensures
        csv(t) =~~= seq![t.take(i)] + csv(t.skip(i + 1)),
    decreases i,
{
    assert(forall|k: int| 0 <= k < t.len() - 1 ==> t.drop_first()[k] == t[k + 1]);
    if i == 0 {
        assert(t.take(0) =~= Seq::<u8>::empty());
        assert(t.skip(1) =~= t.drop_first());
    } else {
        assert(t[0] != COMMA);
        lemma_csv_split(t.drop_first(), i - 1);
        let r = csv(t.drop_first());
        assert(r[0] == t.drop_first().take(i - 1));
        assert(r.drop_first() =~= csv(t.drop_first().skip(i)));
        assert(seq![t[0]] + t.drop_first().take(i - 1) =~= t.take(i));
        assert(t.drop_first().skip(i) =~= t.skip(i + 1));
        assert(csv(t) =~~= seq![t.take(i)] + csv(t.skip(i + 1)));
    }
}

pub proof fn lemma_split_blank_none(s: Seq<u8>)
    requires
        forall|k: int| 0 <= k < s.len() - 1 ==> !((#[trigger] s[k]) == NL && s[k + 1] == NL),
    ensures
        split_blank(s) is None,
    decreases s.len(),
{
    if s.len() >= 2 {
        assert(!(s[0] == NL && s[1] == NL));
        assert(forall|k: int| 0 <= k < s.len() - 1 ==> s.drop_first()[k] == s[k + 1]);
        lemma_split_blank_none(s.drop_first());
    }
}

pub proof fn lemma_split_blank_at(s: Seq<u8>, i: int)
    requires
        0 <= i < s.len() - 1,
        s[i] == NL,
        s[i + 1] == NL,
        forall|k: int| 0 <= k < i ==> !((#[trigger] s[k]) == NL && s[k + 1] == NL),
    ensures
        split_blank(s) is Some,
        split_blank(s).unwrap().0 =~= s.take(i),
        split_blank(s).unwrap().1 =~= s.skip(i + 2),
    decreases i,
{
    assert(forall|k: int| 0 <= k < s.len() - 1 ==> s.drop_first()[k] == s[k + 1]);
    if i == 0 {
        assert(s.take(0) =~= Seq::<u8>::empty());
    } else {
        assert(!(s[0] == NL && s[1] == NL));
        lemma_split_blank_at(s.drop_first(), i - 1);
        assert(seq![s[0]] + s.drop_first().take(i - 1) =~= s.take(i));
        assert(s.drop_first().skip(i + 1) =~= s.skip(i + 2));
    }
}

/// A longer digit string never denotes a smaller number.
pub proof fn lemma_digits_val_prefix_le(t: Seq<u8>, k: int)
    requires
        0 <= k <= t.len(),
    ensures
        digits_val(t.take(k)) <= digits_val(t),
    decreases t.len(),
{
    if k == t.len() {
        assert(t.take(k) =~= t);
    } else {
        assert(t.drop_last().take(k) =~= t.take(k));
        lemma_digits_val_prefix_le(t.drop_last(), k);
    }
}

/// First occurrence of `b` in `s[lo..hi]`.
#[verifier::loop_isolation(false)]
fn find_byte(s: &[u8], lo: usize, hi: usize, b: u8) -> (r: Option<usize>)
    requires
        lo <= hi <= s@.len(),
    ensures
        match r {
            Some(i) => lo <= i < hi && s@[i as int] == b && forall|k: int|
                lo <= k < i ==> s@[k] != b,
            None => forall|k: int| lo <= k < hi ==> s@[k] != b,
        },
{
    let mut i: usize = lo;
    while i < hi
        invariant
            lo <= i <= hi,
            forall|k: int| lo <= k < i ==> s@[k] != b,
        decreases hi - i,
    {
        if s[i] == b {
            return Some(i);
        }
        i += 1;
    }
    None
}

/// First position of a blank line: a newline followed by a newline.
#[verifier::loop_isolation(false)]
fn find_blank(s: &[u8]) -> (r: Option<usize>)
    ensures
        match r {
            Some(i) => i + 1 < s@.len() && s@[i as int] == NL && s@[i as int + 1] == NL
                && forall|k: int| 0 <= k < i ==> !((#[trigger] s@[k]) == NL && s@[k + 1] == NL),
            None => forall|k: int| 0 <= k < s@.len() - 1 ==> !((#[trigger] s@[k]) == NL && s@[k + 1] == NL),
        },
{
    let n = s.len();
    if n < 2 {
        return None;
    }
    let mut i: usize = 0;
    while i < n - 1
        invariant
            i <= n - 1,
            n == s@.len(),
            2 <= n,
            forall|k: int| 0 <= k < i ==> !((#[trigger] s@[k]) == NL && s@[k + 1] == NL),
        decreases n - i,
    {
        if s[i] == NL && s[i + 1] == NL {
            return Some(i);
        }
        i += 1;
    }
    None
}

/// The number denoted by `s[lo..hi]`, when it is one.
#[verifier::loop_isolation(false)]
fn parse_number_range(s: &[u8], lo: usize, hi: usize) -> (r: Option<u32>)
    requires
        lo <= hi <= s@.len(),
    ensures
        r == parse_number(s@.subrange(lo as int, hi as int)),
{
    let ghost t = s@.subrange(lo as int, hi as int);
    if lo == hi {
        return None;
    }
    let mut acc: u32 = 0;
    let mut j: usize = lo;
    while j < hi
        invariant
            lo <= j <= hi,
            acc as nat == digits_val(t.take(j - lo)),
            all_digits(t.take(j - lo)),
            digits_val(t.take(j - lo)) <= u32::MAX,
        decreases hi - j,
    {
        let b = s[j];
        proof {
            assert(t[j - lo] == s@[j as int]);
            assert(t.take(j - lo + 1).drop_last() =~= t.take(j - lo));
            assert(t.take(j - lo + 1).last() == t[j - lo]);
        }
        if b < D0 || b > D9 {
            proof {
                assert(!is_digit(t[j - lo]));
            }
            return None;
        }
        let d = b - D0;
        let next: u64 = acc as u64 * 10 + d as u64;
        proof {
            assert(digits_val(t.take(j - lo + 1)) == next);
        }
        if next > u32::MAX as u64 {
            proof {
                lemma_digits_val_prefix_le(t, j - lo + 1);
            }
            return None;
        }
        acc = next as u32;
        proof {
            assert forall|k: int| 0 <= k < t.take(j - lo + 1).len() implies is_digit(
                #[trigger] t.take(j - lo + 1)[k],
            ) by {
                if k < j - lo {
                    assert(is_digit(t.take(j - lo)[k]));
                }
            }
        }
        j += 1;
    }
    proof {
        assert(t.take(hi - lo) =~= t);
    }
    Some(acc)
}

/// One rule line `L|R`, read from `s[lo..hi]`.
#[verifier::loop_isolation(false)]
fn parse_constraint_range(s: &[u8], lo: usize, hi: usize) -> (r: Option<(u32, u32)>)
    requires
        lo <= hi <= s@.len(),
    ensures
        r == parse_constraint_line(s@.subrange(lo as int, hi as int)),
{
    let ghost raw = s@.subrange(lo as int, hi as int);
    let hi2: usize = if hi > lo && s[hi - 1] == CR {
        hi - 1
    } else {
        hi
    };
    let ghost line = s@.subrange(lo as int, hi2 as int);
    proof {
        assert(line =~= strip_cr(raw)) by {
            if hi2 < hi {
                assert(raw.drop_last() =~= line);
            }
        }
    }
    match find_byte(s, lo, hi2, PIPE) {
        Option::None => {
            proof {
                if line.contains(PIPE) {
                    let k = choose|k: int| 0 <= k < line.len() && line[k] == PIPE;
                    assert(s@[lo + k] == PIPE);
                }
            }
            None
        },
        Option::Some(i) => {
            proof {
                assert(line[i - lo] == PIPE);
                assert forall|k: int| 0 <= k < i - lo implies line[k] != PIPE by {
                    assert(s@[lo + k] != PIPE);
                }
                lemma_pos_of_first(line, PIPE, i - lo);
                assert(line.take(i - lo) =~= s@.subrange(lo as int, i as int));
                assert(line.skip(i - lo + 1) =~= s@.subrange(i as int + 1, hi2 as int));
            }
            let a = parse_number_range(s, lo, i);
            let b = parse_number_range(s, i + 1, hi2);
            match a {
                Option::None => None,
                Option::Some(x) => match b {
                    Option::None => None,
                    Option::Some(y) => Some((x, y)),
                },
            }
        },
    }
}

/// The page numbers in the comma-separated text `s[lo..hi]`.
#[verifier::loop_isolation(false)]
fn parse_values_range(s: &[u8], lo: usize, hi: usize) -> (r: Option<Vec<u32>>)
    requires
        lo <= hi <= s@.len(),
    ensures
        match r {
            Some(v) => token_values(csv(s@.subrange(lo as int, hi as int))) == Some(v@),
            None => token_values(csv(s@.subrange(lo as int, hi as int))) is None,
        },
    decreases hi - lo,
{
    let ghost t = s@.subrange(lo as int, hi as int);
    match find_byte(s, lo, hi, COMMA) {
        Option::None => {
            proof {
                assert forall|k: int| 0 <= k < t.len() implies t[k] != COMMA by {
                    assert(s@[lo + k] != COMMA);
                }
                lemma_csv_no_comma(t);
            }
            match parse_number_range(s, lo, hi) {
                Option::None => {
                    proof {
                        assert(csv(t)[0] == t);
                    }
                    None
                },
                Option::Some(v) => {
                    let mut out: Vec<u32> = Vec::new();
                    out.push(v);
                    proof {
                        assert(csv(t)[0] == t);
                        assert(csv(t).drop_first() =~= Seq::<Seq<u8>>::empty());
                        assert(token_values(Seq::<Seq<u8>>::empty()) == Some(Seq::<u32>::empty()));
                        assert(seq![v] + Seq::<u32>::empty() =~= out@);
                        assert(token_values(csv(t)) == Some(out@));
                    }
                    Some(out)
                },
            }
        },
        Option::Some(i) => {
            proof {
                assert(t[i - lo] == COMMA);
                assert forall|k: int| 0 <= k < i - lo implies t[k] != COMMA by {
                    assert(s@[lo + k] != COMMA);
                }
                lemma_csv_split(t, i - lo);
                assert(t.take(i - lo) =~= s@.subrange(lo as int, i as int));
                assert(t.skip(i - lo + 1) =~= s@.subrange(i as int + 1, hi as int));
                assert(csv(t)[0] == t.take(i - lo));
                assert(csv(t).drop_first() =~= csv(s@.subrange(i as int + 1, hi as int)));
            }
            match parse_number_range(s, lo, i) {
                Option::None => None,
                Option::Some(v) => match parse_values_range(s, i + 1, hi) {
                    Option::None => None,
                    Option::Some(rest) => {
                        let ghost prev = rest@;
                        let mut rest = rest;
                        rest.insert(0, v);
                        proof {
                            assert(rest@ =~= seq![v] + prev);
                            assert(token_values(csv(t)) == Some(rest@));
                        }
                        Some(rest)
                    },
                },
            }
        },
    }
}

/// The rules block: one rule per line in `s[lo..hi]`.
#[verifier::loop_isolation(false)]
fn parse_constraints_range(s: &[u8], lo: usize, hi: usize) -> (r: Option<Vec<(u32, u32)>>)
    requires
        lo <= hi <= s@.len(),
    ensures
        match r {
            Some(v) => parse_constraint_lines(lines(s@.subrange(lo as int, hi as int))) == Some(
                v@,
            ),
            None => parse_constraint_lines(lines(s@.subrange(lo as int, hi as int))) is None,
        },
    decreases hi - lo,
{
    let ghost t = s@.subrange(lo as int, hi as int);
    if lo == hi {
        let out: Vec<(u32, u32)> = Vec::new();
        proof {
            assert(t.len() == 0);
            assert(lines(t).len() == 0);
            assert(parse_constraint_lines(lines(t)) == Some(Seq::<(u32, u32)>::empty()));
            assert(out@ =~= Seq::<(u32, u32)>::empty());
        }
        return Some(out);
    }
    match find_byte(s, lo, hi, NL) {
        Option::None => {
            proof {
                assert forall|k: int| 0 <= k < t.len() implies t[k] != NL by {
                    assert(s@[lo + k] != NL);
                }
                lemma_lines_no_nl(t);
                assert(lines(t)[0] == t);
                assert(lines(t).drop_first() =~= Seq::<Seq<u8>>::empty());
            }
            match parse_constraint_range(s, lo, hi) {
                Option::None => None,
                Option::Some(c) => {
                    let mut out: Vec<(u32, u32)> = Vec::new();
                    out.push(c);
                    proof {
                        assert(parse_constraint_lines(Seq::<Seq<u8>>::empty()) == Some(
                            Seq::<(u32, u32)>::empty(),
                        ));
                        assert(seq![c] + Seq::<(u32, u32)>::empty() =~= out@);
                        assert(parse_constraint_lines(lines(t)) == Some(out@));
                    }
                    Some(out)
                },
            }
        },
        Option::Some(i) => {
            proof {
                assert(t[i - lo] == NL);
                assert forall|k: int| 0 <= k < i - lo implies t[k] != NL by {
                    assert(s@[lo + k] != NL);
                }
                lemma_lines_split(t, i - lo);
                assert(t.take(i - lo) =~= s@.subrange(lo as int, i as int));
                assert(t.skip(i - lo + 1) =~= s@.subrange(i as int + 1, hi as int));
                assert(lines(t)[0] == t.take(i - lo));
                assert(lines(t).drop_first() =~= lines(s@.subrange(i as int + 1, hi as int)));
            }
            match parse_constraint_range(s, lo, i) {
                Option::None => None,
                Option::Some(c) => match parse_constraints_range(s, i + 1, hi) {
                    Option::None => None,
                    Option::Some(rest) => {
                        let ghost prev = rest@;
                        let mut rest = rest;
                        rest.insert(0, c);
                        proof {
                            assert(rest@ =~= seq![c] + prev);
                            assert(parse_constraint_lines(lines(t)) == Some(rest@));
                        }
                        Some(rest)
                    },
                },
            }
        },
    }
}

/// The updates block: one update per line in `s[lo..hi]`.
#[verifier::loop_isolation(false)]
fn parse_updates_range(s: &[u8], lo: usize, hi: usize) -> (r: Option<Vec<Vec<u32>>>)
    requires
        lo <= hi <= s@.len(),
    ensures
        match r {
            Some(v) => parse_update_lines(lines(s@.subrange(lo as int, hi as int))) == Some(
                update_views(v@),
            ),
            None => parse_update_lines(lines(s@.subrange(lo as int, hi as int))) is None,
        },
    decreases hi - lo,
{
    let ghost t = s@.subrange(lo as int, hi as int);
    if lo == hi {
        let out: Vec<Vec<u32>> = Vec::new();
        proof {
            assert(t.len() == 0);
            assert(lines(t).len() == 0);
            assert(parse_update_lines(lines(t)) == Some(Seq::<Seq<u32>>::empty()));
            assert(update_views(out@) =~= Seq::<Seq<u32>>::empty());
        }
        return Some(out);
    }
    match find_byte(s, lo, hi, NL) {
        Option::None => {
            proof {
                assert forall|k: int| 0 <= k < t.len() implies t[k] != NL by {
                    assert(s@[lo + k] != NL);
                }
                lemma_lines_no_nl(t);
                assert(lines(t)[0] == t);
                assert(lines(t).drop_first() =~= Seq::<Seq<u8>>::empty());
            }
            match parse_update_range(s, lo, hi) {
                Option::None => None,
                Option::Some(u) => {
                    let ghost uv = u@;
                    let mut out: Vec<Vec<u32>> = Vec::new();
                    out.push(u);
                    proof {
                        assert(parse_update_lines(Seq::<Seq<u8>>::empty()) == Some(
                            Seq::<Seq<u32>>::empty(),
                        ));
                        assert(update_views(out@) =~= seq![uv] + Seq::<Seq<u32>>::empty());
                        assert(parse_update_lines(lines(t)) == Some(update_views(out@)));
                    }
                    Some(out)
                },
            }
        },
        Option::Some(i) => {
            proof {
                assert(t[i - lo] == NL);
                assert forall|k: int| 0 <= k < i - lo implies t[k] != NL by {
                    assert(s@[lo + k] != NL);
                }
                lemma_lines_split(t, i - lo);
                assert(t.take(i - lo) =~= s@.subrange(lo as int, i as int));
                assert(t.skip(i - lo + 1) =~= s@.subrange(i as int + 1, hi as int));
                assert(lines(t)[0] == t.take(i - lo));
                assert(lines(t).drop_first() =~= lines(s@.subrange(i as int + 1, hi as int)));
            }
            match parse_update_range(s, lo, i) {
                Option::None => None,
                Option::Some(u) => match parse_updates_range(s, i + 1, hi) {
                    Option::None => None,
                    Option::Some(rest) => {
                        let ghost uv = u@;
                        let ghost prev = rest@;
                        let mut rest = rest;
                        rest.insert(0, u);
                        proof {
                            assert(update_views(rest@) =~= seq![uv] + update_views(prev));
                            assert(parse_update_lines(lines(t)) == Some(update_views(rest@)));
                        }
                        Some(rest)
                    },
                },
            }
        },
    }
}

/// One update line, read from `s[lo..hi]`.
#[verifier::loop_isolation(false)]
fn parse_update_range(s: &[u8], lo: usize, hi: usize) -> (r: Option<Vec<u32>>)
    requires
        lo <= hi <= s@.len(),
    ensures
        match r {
            Some(v) => parse_update_line(s@.subrange(lo as int, hi as int)) == Some(v@),
            None => parse_update_line(s@.subrange(lo as int, hi as int)) is None,
        },
{
    let ghost raw = s@.subrange(lo as int, hi as int);
    let hi2: usize = if hi > lo && s[hi - 1] == CR {
        hi - 1
    } else {
        hi
    };
    proof {
        assert(s@.subrange(lo as int, hi2 as int) =~= strip_cr(raw)) by {
            if hi2 < hi {
                assert(raw.drop_last() =~= s@.subrange(lo as int, hi2 as int));
            }
        }
    }
    parse_values_range(s, lo, hi2)
}

impl Input {
    /// Parse the puzzle text: one rule `L|R` per line, a blank line, then one
    /// update per line as comma-separated page numbers. Fails exactly when
    /// there is no blank line, a rule line has no `|`, a token is not a page
    /// number, or either block is empty.
    pub fn parse(input: &str) -> (r: Result<Input, ParseError>)
        ensures
            match r {
                Ok(inp) => spec_parse(input.spec_bytes()) == Some(
                    (inp.constraints@, update_views(inp.updates@)),
                ),
                Err(_) => spec_parse(input.spec_bytes()) is None,
            },
    {
        let s: &[u8] = input.as_bytes();
        let n = s.len();
        match find_blank(s) {
            Option::None => {
                proof {
                    lemma_split_blank_none(s@);
                }
                Err(ParseError)
            },
            Option::Some(i) => {
                proof {
                    lemma_split_blank_at(s@, i as int);
                    assert(s@.subrange(0, i as int) =~= s@.take(i as int));
                    assert(s@.subrange(i as int + 2, n as int) =~= s@.skip(i as int + 2));
                }
                let cons = parse_constraints_range(s, 0, i);
                let upds = parse_updates_range(s, i + 2, n);
                match cons {
                    Option::None => Err(ParseError),
                    Option::Some(cv) => match upds {
                        Option::None => Err(ParseError),
                        Option::Some(uv) => {
                            if cv.len() == 0 || uv.len() == 0 {
                                Err(ParseError)
                            } else {
                                Ok(Input { constraints: cv, updates: uv })
                            }
                        },
                    },
                }
            },
        }
    }
}

/// The parsed puzzle for a text the grammar accepts.
pub fn input_generator(input: &str) -> (r: Input)
    requires
        spec_parse(input.spec_bytes()) is Some,
    ensures
        spec_parse(input.spec_bytes()) == Some((r.constraints@, update_views(r.updates@))),
{
    match Input::parse(input) {
        Ok(inp) => inp,
        Err(_) => vstd::pervasive::unreached(),
    }
}

} // verus!
