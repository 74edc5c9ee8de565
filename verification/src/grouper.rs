//! Brackets: each matched pair becomes one group that holds what it encloses.
use crate::error::{CalculatorError, CalculatorErrorType, Fault};
use crate::term::{
    bracket_free, bracketed, flat, flattened, fully_grouped, lemma_flattened_concat,
    lemma_flattened_flat, lemma_weight_concat, weight, Term,
};
use crate::token::{terms, BracketItem, Operator};
use vstd::prelude::*;

verus! {

/// What a term adds to the nesting counter.
pub open spec fn nesting_step(term: Term) -> int {
    match term {
        Term::Open => 1,
        Term::Close => -1,
        _ => 0,
    }
}

/// The nesting counter after the first `n` terms: the opening brackets among
/// them less the closing ones. Groups count as nothing.
pub open spec fn depth_after(ts: Seq<Term>, n: int) -> int
    decreases n,
{
    if n <= 0 || n > ts.len() {
        0
    } else {
        depth_after(ts, n - 1) + nesting_step(ts[n - 1])
    }
}

/// The index of the first opening bracket, at or after `from`, that is met
/// while the counter is zero; the length of the sequence where there is none.
pub open spec fn opening(ts: Seq<Term>, from: int) -> int
    decreases ts.len() - from,
{
    if from < 0 || from >= ts.len() {
        ts.len() as int
    } else if ts[from] == Term::Open && depth_after(ts, from) == 0 {
        from
    } else {
        opening(ts, from + 1)
    }
}

/// The index of the first closing bracket, at or after `from`, that brings
/// the counter back to zero; the length of the sequence where there is none.
pub open spec fn closing(ts: Seq<Term>, from: int) -> int
    decreases ts.len() - from,
{
    if from < 0 || from >= ts.len() {
        ts.len() as int
    } else if ts[from] == Term::Close && depth_after(ts, from + 1) == 0 {
        from
    } else {
        closing(ts, from + 1)
    }
}

/// The terms without the groups among them.
pub open spec fn without_groups(ts: Seq<Term>) -> Seq<Term>
    decreases ts.len(),
{
    if ts.len() == 0 {
        Seq::empty()
    } else if ts.last() is Group {
        without_groups(ts.drop_last())
    } else {
        without_groups(ts.drop_last()).push(ts.last())
    }
}

/// What the brackets at `open` and `close` enclose: the terms between them,
/// but for groups, which the scan passes over.
pub open spec fn enclosed(ts: Seq<Term>, open: int, close: int) -> Seq<Term> {
    without_groups(ts.subrange(open + 1, close))
}

/// The sequence with the span from `open` to `close`, both included, replaced
/// by one group.
pub open spec fn collapsed(ts: Seq<Term>, open: int, close: int, inner: Seq<Term>) -> Seq<Term> {
    ts.take(open).push(Term::Group(inner)) + ts.skip(close + 1)
}

/// The failure for brackets that do not match.
pub open spec fn unmatched(at: int, ts: Seq<Term>) -> Fault {
    Fault { kind: CalculatorErrorType::SyntaxError, index: at, input: ts }
}

/// Grouping by repeated scans, where `remembered` is the position of the
/// opening bracket that the scan before this one began with.
///
/// A scan looks for the first opening bracket met while the counter is zero
/// and for the closing bracket that brings the counter back to zero. What
/// they enclose is grouped in its turn, the span becomes one group, and the
/// scan starts again. A scan that finds the opening bracket and not the
/// closing one fails at the opening bracket. A scan that finds no such opening
/// bracket ends the grouping: with the sequence as it is where the counter
/// ends at zero, and else with a failure at the remembered position.
pub open spec fn rounds(ts: Seq<Term>, remembered: int) -> Result<Seq<Term>, Fault>
    decreases ts.len(),
{
    let open = opening(ts, 0);
    if open >= ts.len() {
        if depth_after(ts, ts.len() as int) != 0 {
            Err(unmatched(remembered, ts))
        } else {
            Ok(ts)
        }
    } else {
        let close = closing(ts, open + 1);
        proof {
            lemma_opening_bounds(ts, 0);
            lemma_closing_bounds(ts, open + 1);
            lemma_without_groups_len(ts.subrange(open + 1, close));
        }
        if close >= ts.len() {
            Err(unmatched(open, ts))
        } else {
            match rounds(enclosed(ts, open, close), 0) {
                Err(fault) => Err(fault),
                Ok(inner) => rounds(collapsed(ts, open, close, inner), open),
            }
        }
    }
}

/// The grouped form of a sequence, or the failure of its brackets.
pub open spec fn grouped(ts: Seq<Term>) -> Result<Seq<Term>, Fault> {
    rounds(ts, 0)
}

/// Whether the brackets of a sequence match: the counter never falls below
/// zero and ends at zero.
pub open spec fn well_nested(ts: Seq<Term>) -> bool {
    &&& forall|n: int| 0 <= n <= ts.len() ==> #[trigger] depth_after(ts, n) >= 0
    &&& depth_after(ts, ts.len() as int) == 0
}

/// Where the opening bracket of a scan is found: at or after `from`, and an
/// opening bracket stands there, met while the counter is zero.
pub proof fn lemma_opening_bounds(ts: Seq<Term>, from: int)
    requires
        0 <= from,
    ensures
        from <= opening(ts, from) || opening(ts, from) == ts.len(),
        opening(ts, from) <= ts.len(),
        opening(ts, from) < ts.len() ==> ts[opening(ts, from)] == Term::Open && depth_after(
            ts,
            opening(ts, from),
        ) == 0,
    decreases ts.len() - from,
{
    if from < ts.len() && !(ts[from] == Term::Open && depth_after(ts, from) == 0) {
        lemma_opening_bounds(ts, from + 1);
    }
}

/// Where the closing bracket of a scan is found: at or after `from`.
pub proof fn lemma_closing_bounds(ts: Seq<Term>, from: int)
    requires
        0 <= from,
    ensures
        from <= closing(ts, from) || closing(ts, from) == ts.len(),
        closing(ts, from) <= ts.len(),
    decreases ts.len() - from,
{
    if from < ts.len() && !(ts[from] == Term::Close && depth_after(ts, from + 1) == 0) {
        lemma_closing_bounds(ts, from + 1);
    }
}

/// Leaving the groups out makes a sequence no longer.
pub proof fn lemma_without_groups_len(ts: Seq<Term>)
    ensures
        without_groups(ts).len() <= ts.len(),
    decreases ts.len(),
{
    if ts.len() > 0 {
        lemma_without_groups_len(ts.drop_last());
    }
}

/// Whether a raw bracket stands among the tokens.
fn has_bracket(tokens: &Vec<Operator>) -> (found: bool)
    ensures
        found == !bracket_free(terms(tokens@)),
{
    let mut at: usize = 0;
    while at < tokens.len()
        invariant
            at <= tokens.len(),
            forall|i: int|
                0 <= i < at ==> #[trigger] terms(tokens@)[i] != Term::Open && terms(tokens@)[i]
                    != Term::Close,
        decreases tokens.len() - at,
    {
        match &tokens[at] {
            Operator::LBracket | Operator::RBracket => {
                assert(terms(tokens@)[at as int] == Term::Open || terms(tokens@)[at as int]
                    == Term::Close);
                return true;
            },
            _ => {},
        }
        at += 1;
    }
    false
}

/// One scan for the opening bracket: its index, or the length of the
/// sequence together with how far the counter ended below zero.
fn find_opening(tokens: &Vec<Operator>) -> (found: (usize, usize))
    ensures
        found.0 == opening(terms(tokens@), 0),
        found.0 == tokens.len() ==> found.1 + depth_after(terms(tokens@), tokens.len() as int)
            == 0,
{
    let ghost ts = terms(tokens@);
    let mut at: usize = 0;
    let mut below: usize = 0;
    while at < tokens.len()
        invariant
            ts == terms(tokens@),
            at <= tokens.len(),
            below <= at,
            below + depth_after(ts, at as int) == 0,
            opening(ts, 0) == opening(ts, at as int),
        decreases tokens.len() - at,
    {
        assert(ts[at as int] == tokens@[at as int]@);
        match &tokens[at] {
            Operator::LBracket => {
                if below == 0 {
                    return (at, below);
                }
                below -= 1;
            },
            Operator::RBracket => {
                below += 1;
            },
            _ => {},
        }
        at += 1;
    }
    (at, below)
}

/// The rest of the scan, from the opening bracket at `open`: the index of
/// the closing bracket that matches it, or the length of the sequence, and
/// what the two enclose.
fn find_closing(tokens: &Vec<Operator>, open: usize) -> (found: (usize, Vec<Operator>))
    requires
        open < tokens.len(),
        terms(tokens@)[open as int] == Term::Open,
        depth_after(terms(tokens@), open as int) == 0,
    ensures
        found.0 == closing(terms(tokens@), open + 1),
        open < found.0 <= tokens.len(),
        found.0 < tokens.len() ==> terms(found.1@) == enclosed(
            terms(tokens@),
            open as int,
            found.0 as int,
        ),
        found.1.len() < tokens.len(),
{
    let ghost ts = terms(tokens@);
    let mut inner: Vec<Operator> = Vec::new();
    let mut at: usize = open + 1;
    let mut depth: usize = 1;
    assert(ts.subrange(open + 1, at as int) =~= Seq::<Term>::empty());
    assert(terms(inner@) =~= Seq::<Term>::empty());
    while at < tokens.len()
        invariant
            ts == terms(tokens@),
            open < at <= tokens.len(),
            1 <= depth <= at - open,
            depth == depth_after(ts, at as int),
            closing(ts, open + 1) == closing(ts, at as int),
            terms(inner@) == without_groups(ts.subrange(open + 1, at as int)),
            inner.len() <= at - open - 1,
        decreases tokens.len() - at,
    {
        assert(ts[at as int] == tokens@[at as int]@);
        let ghost before = ts.subrange(open + 1, at as int);
        let ghost next = ts.subrange(open + 1, at + 1);
        assert(next.drop_last() =~= before);
        assert(next.last() == ts[at as int]);
        match &tokens[at] {
            Operator::LBracket => {
                depth += 1;
            },
            Operator::RBracket => {
                if depth == 1 {
                    return (at, inner);
                }
                depth -= 1;
            },
            _ => {},
        }
        match &tokens[at] {
            Operator::BracketItem(_) => {},
            token => {
                let copy = token.clone();
                assert(terms(inner@.push(copy)) =~= terms(inner@).push(copy@));
                inner.push(copy);
            },
        }
        at += 1;
    }
    (at, inner)
}

/// Replaces every matched pair of brackets, with what it encloses, by one
/// group; what a pair encloses is grouped in the same way.
///
/// The result is `grouped` of the tokens: see `rounds` for the scans. Tokens
/// without a raw bracket come back as they are. Plain tokens whose brackets
/// match are grouped with success, no raw bracket is left at any depth, and
/// the groups written out again are the tokens given.
pub fn group(tokens: Vec<Operator>) -> (result: Result<Vec<Operator>, CalculatorError>)
    ensures
        match result {
            Ok(groups) => grouped(terms(tokens@)) == Ok::<Seq<Term>, Fault>(terms(groups@)),
            Err(error) => grouped(terms(tokens@)) == Err::<Seq<Term>, Fault>(error@),
        },
        bracket_free(terms(tokens@)) ==> result is Ok && terms(result->Ok_0@) == terms(tokens@),
        flat(terms(tokens@)) && well_nested(terms(tokens@)) ==> result is Ok && fully_grouped(
            terms(result->Ok_0@),
        ) && flattened(terms(result->Ok_0@)) == terms(tokens@),
    decreases tokens.len(),
{
    let ghost given = terms(tokens@);
    proof {
        if flat(given) && well_nested(given) {
            lemma_well_nested_grouped(given);
        }
    }
    if !has_bracket(&tokens) {
        proof {
            lemma_bracket_free_grouped(given, 0);
        }
        return Ok(tokens);
    }
    let ghost limit = tokens.len();
    let mut current = tokens;
    let mut remembered: usize = 0;
    loop
        invariant
            given == terms(tokens@),
            limit == tokens.len(),
            current.len() <= limit,
            rounds(terms(current@), remembered as int) == grouped(given),
            !bracket_free(given),
            flat(given) && well_nested(given) ==> grouped(given) is Ok && fully_grouped(
                grouped(given)->Ok_0,
            ) && flattened(grouped(given)->Ok_0) == given,
        decreases current.len(),
    {
        let ghost ts = terms(current@);
        let (open, below) = find_opening(&current);
        proof {
            lemma_opening_bounds(ts, 0);
        }
        if open >= current.len() {
            if below != 0 {
                return Err(CalculatorError::new(CalculatorErrorType::SyntaxError, remembered, current));
            }
            return Ok(current);
        }
        let (close, inner) = find_closing(&current, open);
        if close >= current.len() {
            return Err(CalculatorError::new(CalculatorErrorType::SyntaxError, open, current));
        }
        let grouped_inner = match group(inner) {
            Ok(groups) => groups,
            Err(error) => {
                return Err(error);
            },
        };
        let ghost inner_terms = terms(grouped_inner@);
        let mut rest = current.split_off(close + 1);
        current.truncate(open);
        current.push(Operator::BracketItem(BracketItem { inner_equation: grouped_inner }));
        current.append(&mut rest);
        remembered = open;
        assert(terms(current@) =~= collapsed(ts, open as int, close as int, inner_terms));
    }
}

/// A sequence without raw brackets is grouped already: grouping returns it
/// unchanged.
pub proof fn lemma_bracket_free_grouped(ts: Seq<Term>, remembered: int)
    requires
        bracket_free(ts),
    ensures
        rounds(ts, remembered) == Ok::<Seq<Term>, Fault>(ts),
{
    lemma_bracket_free_scan(ts, ts.len() as int);
    lemma_bracket_free_opening(ts, 0);
}

proof fn lemma_bracket_free_scan(ts: Seq<Term>, n: int)
    requires
        bracket_free(ts),
        0 <= n <= ts.len(),
    ensures
        depth_after(ts, n) == 0,
    decreases n,
{
    if n > 0 {
        lemma_bracket_free_scan(ts, n - 1);
    }
}

proof fn lemma_bracket_free_opening(ts: Seq<Term>, from: int)
    requires
        bracket_free(ts),
        0 <= from,
    ensures
        opening(ts, from) == ts.len(),
    decreases ts.len() - from,
{
    if from < ts.len() {
        lemma_bracket_free_opening(ts, from + 1);
    }
}

/// Grouping is idempotent: what grouping returns, grouping returns
/// unchanged.
pub proof fn lemma_grouped_is_stable(ts: Seq<Term>)
    requires
        grouped(ts) is Ok,
    ensures
        grouped(grouped(ts)->Ok_0) == grouped(ts),
{
    lemma_rounds_stable(ts, 0, 0);
}

proof fn lemma_rounds_stable(ts: Seq<Term>, remembered: int, again: int)
    requires
        rounds(ts, remembered) is Ok,
    ensures
        rounds(rounds(ts, remembered)->Ok_0, again) == rounds(ts, remembered),
    decreases ts.len(),
{
    let open = opening(ts, 0);
    if open < ts.len() {
        let close = closing(ts, open + 1);
        lemma_opening_bounds(ts, 0);
        lemma_closing_bounds(ts, open + 1);
        lemma_without_groups_len(ts.subrange(open + 1, close));
        let inner = rounds(enclosed(ts, open, close), 0)->Ok_0;
        lemma_rounds_stable(collapsed(ts, open, close, inner), open, again);
    }
}

/// Grouping adds no term: what it returns weighs no more than what it was
/// given.
pub proof fn lemma_grouped_weight(ts: Seq<Term>, remembered: int)
    requires
        rounds(ts, remembered) is Ok,
    ensures
        weight(rounds(ts, remembered)->Ok_0) <= weight(ts),
    decreases ts.len(),
{
    let open = opening(ts, 0);
    if open < ts.len() {
        let close = closing(ts, open + 1);
        lemma_opening_bounds(ts, 0);
        lemma_closing_bounds(ts, open + 1);
        let span = ts.subrange(open + 1, close);
        lemma_without_groups_len(span);
        lemma_without_groups_weight(span);
        lemma_grouped_weight(enclosed(ts, open, close), 0);
        let inner = rounds(enclosed(ts, open, close), 0)->Ok_0;
        let next = collapsed(ts, open, close, inner);
        lemma_grouped_weight(next, open);
        let front = ts.take(open);
        let back = ts.skip(close + 1);
        let group = seq![Term::Group(inner)];
        let written = seq![ts[open]] + span + seq![ts[close]];
        assert(next =~= front + group + back);
        assert(ts =~= front + written + back);
        lemma_weight_concat(front + group, back);
        lemma_weight_concat(front, group);
        lemma_weight_concat(front + written, back);
        lemma_weight_concat(front, written);
        lemma_weight_concat(seq![ts[open]] + span, seq![ts[close]]);
        lemma_weight_concat(seq![ts[open]], span);
        assert(group.drop_last() =~= Seq::<Term>::empty());
        assert(weight(group) == 1 + weight(inner)) by {
            reveal_with_fuel(weight, 2);
        }
    }
}

proof fn lemma_without_groups_weight(ts: Seq<Term>)
    ensures
        weight(without_groups(ts)) <= weight(ts),
    decreases ts.len(),
{
    if ts.len() > 0 {
        lemma_without_groups_weight(ts.drop_last());
        if !(ts.last() is Group) {
            let kept = without_groups(ts.drop_last()).push(ts.last());
            assert(kept.drop_last() =~= without_groups(ts.drop_last()));
        }
    }
}

/// Grouping succeeds on every sequence of plain tokens whose brackets match.
/// It leaves no raw bracket at any depth, and it loses nothing: the groups
/// written out with their brackets are the tokens that were given.
pub proof fn lemma_well_nested_grouped(ts: Seq<Term>)
    requires
        flat(ts),
        well_nested(ts),
    ensures
        grouped(ts) is Ok,
        fully_grouped(grouped(ts)->Ok_0),
        flattened(grouped(ts)->Ok_0) == ts,
{
    lemma_rounds_well_nested(ts, 0, 0);
    lemma_flattened_flat(ts);
}

/// Grouping a sequence whose brackets match, where the groups already there
/// stand before index `settled`, hold no raw bracket and have no raw bracket
/// before them.
proof fn lemma_rounds_well_nested(ts: Seq<Term>, remembered: int, settled: int)
    requires
        well_nested(ts),
        0 <= settled <= ts.len(),
        forall|i: int|
            0 <= i < settled ==> {
                &&& #[trigger] ts[i] != Term::Open
                &&& ts[i] != Term::Close
                &&& ts[i] is Group ==> fully_grouped(ts[i]->Group_0)
            },
        forall|i: int| settled <= i < ts.len() ==> !(#[trigger] ts[i] is Group),
    ensures
        rounds(ts, remembered) is Ok,
        fully_grouped(rounds(ts, remembered)->Ok_0),
        flattened(rounds(ts, remembered)->Ok_0) == flattened(ts),
    decreases ts.len(),
{
    let open = opening(ts, 0);
    lemma_opening_bounds(ts, 0);
    lemma_before_opening(ts, open);
    if open < ts.len() {
        assert(settled <= open);
        assert(depth_after(ts, open + 1) == 1);
        lemma_closing_found(ts, open + 1);
        let close = closing(ts, open + 1);
        let span = ts.subrange(open + 1, close);
        assert(flat(span)) by {
            assert forall|i: int| 0 <= i < span.len() implies !(#[trigger] span[i] is Group) by {
                assert(span[i] == ts[open + 1 + i]);
            }
        }
        lemma_flat_without_groups(span);
        assert(well_nested(span)) by {
            assert forall|n: int| 0 <= n <= span.len() implies #[trigger] depth_after(span, n)
                >= 0 by {
                lemma_depth_span(ts, open + 1, close, n);
                assert(depth_after(ts, open + 1 + n) >= 1);
            }
            lemma_depth_span(ts, open + 1, close, span.len() as int);
            assert(depth_after(ts, close) >= 1);
        }
        lemma_rounds_well_nested(span, 0, 0);
        let inner = rounds(span, 0)->Ok_0;
        let next = collapsed(ts, open, close, inner);
        let front = ts.take(open).push(Term::Group(inner));
        let back = ts.skip(close + 1);
        assert(next == front + back);
        assert(well_nested(next)) by {
            assert(ts =~= ts.take(close + 1) + back);
            lemma_depth_prefix(ts.take(open), seq![Term::Group(inner)] + back, open);
            assert(next =~= ts.take(open) + (seq![Term::Group(inner)] + back));
            assert(ts =~= ts.take(open) + ts.skip(open));
            lemma_depth_prefix(ts.take(open), ts.skip(open), open);
            assert(depth_after(next, open) == 0);
            assert(next[open] == Term::Group(inner));
            assert(depth_after(next, open + 1) == 0);
            lemma_depth_prefix(front, back, open + 1);
            lemma_depth_prefix(ts.take(close + 1), back, close + 1);
            assert forall|n: int| 0 <= n <= next.len() implies #[trigger] depth_after(next, n)
                >= 0 by {
                if n <= open {
                    lemma_depth_prefix(ts.take(open), seq![Term::Group(inner)] + back, n);
                    lemma_depth_prefix(ts.take(open), ts.skip(open), n);
                    assert(depth_after(ts, n) >= 0);
                } else {
                    let m = n - (open + 1);
                    lemma_depth_concat(front, back, m);
                    lemma_depth_concat(ts.take(close + 1), back, m);
                    assert(depth_after(ts, close + 1 + m) >= 0);
                }
            }
            lemma_depth_concat(front, back, back.len() as int);
            lemma_depth_concat(ts.take(close + 1), back, back.len() as int);
        }
        assert forall|i: int| 0 <= i < open + 1 implies {
            &&& #[trigger] next[i] != Term::Open
            &&& next[i] != Term::Close
            &&& next[i] is Group ==> fully_grouped(next[i]->Group_0)
        } by {
            if i < open {
                assert(next[i] == ts[i]);
                if i >= settled {
                    assert(!(ts[i] is Group));
                }
            }
        }
        assert forall|i: int| open + 1 <= i < next.len() implies !(#[trigger] next[i] is Group) by {
            assert(next[i] == ts[i + (close - open)]);
        }
        lemma_rounds_well_nested(next, open, open + 1);
        assert(flattened(next) == flattened(ts)) by {
            let before = ts.take(open);
            let group = seq![Term::Group(inner)];
            let written = seq![Term::Open] + span + seq![Term::Close];
            assert(next =~= before + group + back);
            assert(ts =~= before + written + back);
            lemma_flattened_concat(before + group, back);
            lemma_flattened_concat(before, group);
            lemma_flattened_concat(before + written, back);
            lemma_flattened_concat(before, written);
            lemma_flattened_flat(span);
            assert(flat(written)) by {
                assert forall|i: int| 0 <= i < written.len() implies !(#[trigger] written[i] is Group) by {
                    if 0 < i < written.len() - 1 {
                        assert(written[i] == span[i - 1]);
                    }
                }
            }
            lemma_flattened_flat(written);
            assert(group.drop_last() =~= Seq::<Term>::empty());
            assert(flattened(group) =~= bracketed(flattened(inner))) by {
                reveal_with_fuel(flattened, 2);
            }
            assert(bracketed(span) =~= written);
        }
    } else {
        assert(fully_grouped(ts)) by {
            assert forall|i: int| 0 <= i < ts.len() implies {
                &&& #[trigger] ts[i] != Term::Open
                &&& ts[i] != Term::Close
                &&& ts[i] is Group ==> fully_grouped(ts[i]->Group_0)
            } by {
                if i >= settled {
                    assert(!(ts[i] is Group));
                }
            }
        }
    }
}

/// The counter after `n` terms depends on those terms alone.
pub proof fn lemma_depth_prefix(front: Seq<Term>, back: Seq<Term>, n: int)
    requires
        0 <= n <= front.len(),
    ensures
        depth_after(front + back, n) == depth_after(front, n),
    decreases n,
{
    if n > 0 {
        lemma_depth_prefix(front, back, n - 1);
        assert((front + back)[n - 1] == front[n - 1]);
    }
}

/// The counter runs on from one sequence into the next.
pub proof fn lemma_depth_concat(front: Seq<Term>, back: Seq<Term>, m: int)
    requires
        0 <= m <= back.len(),
    ensures
        depth_after(front + back, front.len() + m) == depth_after(front, front.len() as int)
            + depth_after(back, m),
    decreases m,
{
    if m > 0 {
        lemma_depth_concat(front, back, m - 1);
        assert((front + back)[front.len() + m - 1] == back[m - 1]);
    } else {
        lemma_depth_prefix(front, back, front.len() as int);
    }
}

/// The counter within a span is the counter of the whole, less what it was
/// where the span begins.
proof fn lemma_depth_span(ts: Seq<Term>, from: int, to: int, n: int)
    requires
        0 <= from <= to <= ts.len(),
        0 <= n <= to - from,
    ensures
        depth_after(ts.subrange(from, to), n) == depth_after(ts, from + n) - depth_after(ts, from),
{
    let front = ts.take(from);
    let span = ts.subrange(from, to);
    let rest = ts.skip(to);
    assert(ts =~= front + (span + rest));
    lemma_depth_concat(front, span + rest, n);
    lemma_depth_prefix(front, span + rest, from);
    lemma_depth_prefix(span, rest, n);
}

proof fn lemma_opening_least(ts: Seq<Term>, from: int, at: int)
    requires
        0 <= from <= at < ts.len(),
        ts[at] == Term::Open,
        depth_after(ts, at) == 0,
    ensures
        opening(ts, from) <= at,
    decreases at - from,
{
    if from < at && !(ts[from] == Term::Open && depth_after(ts, from) == 0) {
        lemma_opening_least(ts, from + 1, at);
    }
}

/// Before the opening bracket of a scan, where the counter never falls
/// below zero, stands no bracket at all.
proof fn lemma_before_opening(ts: Seq<Term>, n: int)
    requires
        forall|k: int| 0 <= k <= ts.len() ==> #[trigger] depth_after(ts, k) >= 0,
        0 <= n <= opening(ts, 0),
        n <= ts.len(),
    ensures
        depth_after(ts, n) == 0,
        forall|i: int| 0 <= i < n ==> #[trigger] ts[i] != Term::Open && ts[i] != Term::Close,
    decreases n,
{
    if n > 0 {
        lemma_before_opening(ts, n - 1);
        assert(depth_after(ts, n) >= 0);
        if ts[n - 1] == Term::Open {
            lemma_opening_least(ts, 0, n - 1);
        }
    }
}

/// Where the counter stands above zero and ends at zero, a closing bracket
/// brings it back to zero, and until then it stays above zero.
proof fn lemma_closing_found(ts: Seq<Term>, from: int)
    requires
        0 <= from <= ts.len(),
        depth_after(ts, from) >= 1,
        depth_after(ts, ts.len() as int) == 0,
    ensures
        from <= closing(ts, from) < ts.len(),
        ts[closing(ts, from)] == Term::Close,
        depth_after(ts, closing(ts, from) + 1) == 0,
        forall|k: int| from <= k <= closing(ts, from) ==> #[trigger] depth_after(ts, k) >= 1,
    decreases ts.len() - from,
{
    if !(ts[from] == Term::Close && depth_after(ts, from + 1) == 0) {
        lemma_closing_found(ts, from + 1);
    }
}

proof fn lemma_flat_without_groups(ts: Seq<Term>)
    requires
        flat(ts),
    ensures
        without_groups(ts) == ts,
    decreases ts.len(),
{
    if ts.len() > 0 {
        let front = ts.drop_last();
        assert(flat(front)) by {
            assert forall|i: int| 0 <= i < front.len() implies !(#[trigger] front[i] is Group) by {
                assert(front[i] == ts[i]);
            }
        }
        lemma_flat_without_groups(front);
        assert(!(ts[ts.len() - 1] is Group));
        assert(without_groups(ts) =~= ts);
    } else {
        assert(without_groups(ts) =~= ts);
    }
}

} // verus!
