//! What the combinators compute, stated over the behaviour of the parsers
//! they are given. Each combinator of `multi` is proved to return what its
//! function here describes.

use vstd::prelude::*;
use crate::input::Input;
use crate::error::{ErrMode, Error, ErrorKind, PResult};
use crate::parser::{Accumulate, Parser, ToUsize};
use crate::primitives::Take;

verus! {

/// How a run of repeated parses ended.
pub enum Outcome<'a, O> {
    /// The parser succeeded `items.len()` times, each time consuming bytes, and
    /// then either reached the limit on the number of parses (`stop` is `None`)
    /// or failed recoverably at `rest` with `stop`.
    Done { items: Seq<O>, rest: Input<'a>, stop: Option<Error<'a>> },
    /// The parser succeeded at `at` without consuming any byte.
    Stuck { at: Input<'a> },
    /// The parser failed with a committed failure or asked for more input.
    Failed { err: ErrMode<Error<'a>> },
}

/// One less parse allowed; `None` allows any number.
pub open spec fn limit_dec(limit: Option<nat>) -> Option<nat> {
    match limit {
        Some(n) => Some((n - 1) as nat),
        None => None,
    }
}

/// Puts `items` in front of what a run accumulated.
pub open spec fn prepend_all<'a, O>(items: Seq<O>, out: Outcome<'a, O>) -> Outcome<'a, O> {
    match out {
        Outcome::Done { items: later, rest, stop } => Outcome::Done { items: items + later, rest, stop },
        _ => out,
    }
}

/// Parses with `f` from `input` again and again, at most `limit` times, until
/// it fails, succeeds without consuming, or the limit is reached.
pub open spec fn repeat<'a, O, P: Parser<'a, O>>(f: P, input: Input<'a>, limit: Option<nat>) -> Outcome<'a, O>
    decreases input.spec_len(),
{
    if limit == Some(0nat) {
        Outcome::Done { items: Seq::empty(), rest: input, stop: None }
    } else {
        match f.spec_parse(input) {
            Err(ErrMode::Backtrack(e)) => Outcome::Done { items: Seq::empty(), rest: input, stop: Some(e) },
            Err(err) => Outcome::Failed { err },
            Ok((rest, o)) => if rest.spec_len() < input.spec_len() {
                prepend_all(seq![o], repeat(f, rest, limit_dec(limit)))
            } else {
                Outcome::Stuck { at: input }
            },
        }
    }
}

/// The result of a repetition with no minimum: what the run accumulated, or
/// `kind` where the parser stopped consuming.
pub open spec fn star_result<'a, O>(out: Outcome<'a, O>, kind: ErrorKind) -> PResult<'a, Seq<O>> {
    match out {
        Outcome::Done { items, rest, .. } => Ok((rest, items)),
        Outcome::Stuck { at } => Err(ErrMode::Backtrack(Error { input: at, kind })),
        Outcome::Failed { err } => Err(err),
    }
}

/// Zero or more parses with `f`.
pub open spec fn many0_spec<'a, O, P: Parser<'a, O>>(f: P, input: Input<'a>) -> PResult<'a, Seq<O>> {
    star_result(repeat(f, input, None), ErrorKind::Many0)
}

/// The limit left after `count` parses out of `limit`.
pub open spec fn limit_after(limit: Option<nat>, count: nat) -> Option<nat> {
    match limit {
        Some(n) => Some((n - count) as nat),
        None => None,
    }
}

/// At least one parse with `f`: a recoverable failure of the first parse is
/// handed on.
pub open spec fn many1_spec<'a, O, P: Parser<'a, O>>(f: P, input: Input<'a>) -> PResult<'a, Seq<O>> {
    match repeat(f, input, None) {
        Outcome::Done { items, rest, stop: Some(e) } => if items.len() == 0 {
            Err(ErrMode::Backtrack(e))
        } else {
            Ok((rest, items))
        },
        out => star_result(out, ErrorKind::Many1),
    }
}

/// Between `min` and `max` parses with `f`.
pub open spec fn many_m_n_spec<'a, O, P: Parser<'a, O>>(min: nat, max: nat, f: P, input: Input<'a>) -> PResult<'a, Seq<O>> {
    if min > max {
        Err(ErrMode::Cut(Error { input, kind: ErrorKind::ManyMN }))
    } else {
        match repeat(f, input, Some(max)) {
            Outcome::Done { items, rest, stop: Some(e) } => if items.len() < min {
                Err(ErrMode::Backtrack(e))
            } else {
                Ok((rest, items))
            },
            out => star_result(out, ErrorKind::ManyMN),
        }
    }
}

/// Zero or more parses with `f`, of which only the number is kept.
pub open spec fn many0_count_spec<'a, O, P: Parser<'a, O>>(f: P, input: Input<'a>) -> PResult<'a, Seq<O>> {
    star_result(repeat(f, input, None), ErrorKind::Many0Count)
}

/// One or more parses with `f`, of which only the number is kept; a
/// recoverable failure of the first parse becomes an error of kind
/// `Many1Count` at `input`.
pub open spec fn many1_count_spec<'a, O, P: Parser<'a, O>>(f: P, input: Input<'a>) -> PResult<'a, Seq<O>> {
    match repeat(f, input, None) {
        Outcome::Done { items, rest, stop: Some(e) } => if items.len() == 0 {
            Err(ErrMode::Backtrack(Error { input, kind: ErrorKind::Many1Count }))
        } else {
            Ok((rest, items))
        },
        out => star_result(out, ErrorKind::Many1Count),
    }
}

/// An executable result `r` agrees with the modelled result `s`: the same
/// failure, or the same remaining view and an accumulation of the same items.
pub open spec fn accumulated<'a, O, C: Accumulate<O>>(r: PResult<'a, C>, s: PResult<'a, Seq<O>>) -> bool {
    match (r, s) {
        (Ok((a, c)), Ok((b, items))) => a == b && c.holds(items),
        (Err(e1), Err(e2)) => e1 == e2,
        _ => false,
    }
}

pub proof fn lemma_prepend_all_assoc<'a, O>(items: Seq<O>, o: O, out: Outcome<'a, O>)
    ensures
        prepend_all(items, prepend_all(seq![o], out)) == prepend_all(items.push(o), out),
{
    if let Outcome::Done { items: later, rest, stop } = out {
        assert(items + (seq![o] + later) =~= items.push(o) + later);
    }
}

pub proof fn lemma_prepend_all_empty<'a, O>(out: Outcome<'a, O>)
    ensures
        prepend_all(Seq::empty(), out) == out,
{
    if let Outcome::Done { items: later, rest, stop } = out {
        assert(Seq::<O>::empty() + later =~= later);
    }
}

/// Puts `items` in front of the outputs of a successful result.
pub open spec fn prepend_ok<'a, O>(items: Seq<O>, r: PResult<'a, Seq<O>>) -> PResult<'a, Seq<O>> {
    match r {
        Ok((rest, later)) => Ok((rest, items + later)),
        Err(e) => Err(e),
    }
}

/// Exactly `n` parses with `f`; the first failure, of whatever kind, is the
/// result.
pub open spec fn count_spec<'a, O, P: Parser<'a, O>>(f: P, input: Input<'a>, n: nat) -> PResult<'a, Seq<O>>
    decreases n,
{
    if n == 0 {
        Ok((input, Seq::empty()))
    } else {
        match f.spec_parse(input) {
            Err(e) => Err(e),
            Ok((rest, o)) => prepend_ok(seq![o], count_spec(f, rest, (n - 1) as nat)),
        }
    }
}

/// A count parsed with `f`, then that many parses with `g`.
pub open spec fn length_count_spec<'a, N: ToUsize, O, F: Parser<'a, N>, G: Parser<'a, O>>(
    f: F,
    g: G,
    input: Input<'a>,
) -> PResult<'a, Seq<O>> {
    match f.spec_parse(input) {
        Err(e) => Err(e),
        Ok((rest, n)) => count_spec(g, rest, n.spec_to_usize() as nat),
    }
}

/// A length parsed with `f`, then that many bytes carved off as a view.
pub open spec fn length_data_spec<'a, N: ToUsize, F: Parser<'a, N>>(f: F, input: Input<'a>) -> PResult<'a, Input<'a>> {
    match f.spec_parse(input) {
        Err(e) => Err(e),
        Ok((rest, n)) => Take { count: n.spec_to_usize() }.spec_parse(rest),
    }
}

/// A length parsed with `f`, then `g` on exactly that many bytes.
///
/// The carved view is all there is: `g` asking for more fails recoverably with
/// kind `Complete` at the carved view, and `g` leaving bytes of it unread fails
/// recoverably with kind `Eof` where it stopped.
pub open spec fn length_value_spec<'a, N: ToUsize, O, F: Parser<'a, N>, G: Parser<'a, O>>(
    f: F,
    g: G,
    input: Input<'a>,
) -> PResult<'a, O> {
    match length_data_spec(f, input) {
        Err(e) => Err(e),
        Ok((rest, data)) => match g.spec_parse(data) {
            Ok((left, o)) => if left.spec_len() == 0 {
                Ok((rest, o))
            } else {
                Err(ErrMode::Backtrack(Error { input: left, kind: ErrorKind::Eof }))
            },
            Err(ErrMode::Incomplete(_)) => Err(ErrMode::Backtrack(Error { input: data, kind: ErrorKind::Complete })),
            Err(e) => Err(e),
        },
    }
}

/// Puts `o` in front of the outputs of `f` in a successful result of
/// [`till_spec`].
pub open spec fn prepend_till<'a, O, Q>(o: O, r: PResult<'a, (Seq<O>, Q)>) -> PResult<'a, (Seq<O>, Q)> {
    match r {
        Ok((rest, (later, q))) => Ok((rest, (seq![o] + later, q))),
        Err(e) => Err(e),
    }
}

/// Parses with `f` until `g` succeeds, keeping the outputs of both.
///
/// `g` is tried first at every step; when it fails recoverably `f` must
/// succeed, and consume, or its failure is the result.
pub open spec fn till_spec<'a, O, Q, F: Parser<'a, O>, G: Parser<'a, Q>>(
    f: F,
    g: G,
    input: Input<'a>,
) -> PResult<'a, (Seq<O>, Q)>
    decreases input.spec_len(),
{
    match g.spec_parse(input) {
        Ok((rest, q)) => Ok((rest, (Seq::empty(), q))),
        Err(ErrMode::Backtrack(_)) => match f.spec_parse(input) {
            Err(e) => Err(e),
            Ok((rest, o)) => if rest.spec_len() < input.spec_len() {
                prepend_till(o, till_spec(f, g, rest))
            } else {
                Err(ErrMode::Backtrack(Error { input: rest, kind: ErrorKind::ManyTill }))
            },
        },
        Err(e) => Err(e),
    }
}

/// After a first element: separator and element, again and again.
///
/// A recoverable failure of either stops the list before that separator. A
/// separator that consumes nothing is an error of kind `SeparatedList`. (The
/// last branch is never taken: a parser only consumes, see
/// [`Parser::lemma_parse_rest`].)
pub open spec fn sep_tail<'a, O, O2, S: Parser<'a, O2>, P: Parser<'a, O>>(
    sep: S,
    f: P,
    input: Input<'a>,
) -> PResult<'a, Seq<O>>
    decreases input.spec_len(),
{
    match sep.spec_parse(input) {
        Err(ErrMode::Backtrack(_)) => Ok((input, Seq::empty())),
        Err(e) => Err(e),
        Ok((after_sep, _)) => if after_sep.spec_len() < input.spec_len() {
            match f.spec_parse(after_sep) {
                Err(ErrMode::Backtrack(_)) => Ok((input, Seq::empty())),
                Err(e) => Err(e),
                Ok((rest, o)) => if rest.spec_len() < input.spec_len() {
                    prepend_ok(seq![o], sep_tail(sep, f, rest))
                } else {
                    Ok((input, Seq::empty()))
                },
            }
        } else {
            Err(ErrMode::Backtrack(Error { input: after_sep, kind: ErrorKind::SeparatedList }))
        },
    }
}

/// Zero or more elements parsed with `f`, separated by `sep`.
pub open spec fn separated_list0_spec<'a, O, O2, S: Parser<'a, O2>, P: Parser<'a, O>>(
    sep: S,
    f: P,
    input: Input<'a>,
) -> PResult<'a, Seq<O>> {
    match f.spec_parse(input) {
        Err(ErrMode::Backtrack(_)) => Ok((input, Seq::empty())),
        Err(e) => Err(e),
        Ok((rest, o)) => prepend_ok(seq![o], sep_tail(sep, f, rest)),
    }
}

/// One or more elements parsed with `f`, separated by `sep`.
pub open spec fn separated_list1_spec<'a, O, O2, S: Parser<'a, O2>, P: Parser<'a, O>>(
    sep: S,
    f: P,
    input: Input<'a>,
) -> PResult<'a, Seq<O>> {
    match f.spec_parse(input) {
        Err(e) => Err(e),
        Ok((rest, o)) => prepend_ok(seq![o], sep_tail(sep, f, rest)),
    }
}

/// One or more parses with `f`, to be folded: a recoverable failure of the
/// first parse becomes an error of kind `Many1` at `input`, and a parse that
/// does not consume is a committed error of the same kind.
pub open spec fn fold_many1_spec<'a, O, P: Parser<'a, O>>(f: P, input: Input<'a>) -> PResult<'a, Seq<O>> {
    match repeat(f, input, None) {
        Outcome::Done { items, rest, stop: Some(e) } => if items.len() == 0 {
            Err(ErrMode::Backtrack(Error { input, kind: ErrorKind::Many1 }))
        } else {
            Ok((rest, items))
        },
        Outcome::Stuck { at } => Err(ErrMode::Cut(Error { input: at, kind: ErrorKind::Many1 })),
        out => star_result(out, ErrorKind::Many1),
    }
}

/// Between `min` and `max` parses with `f`, to be folded: as
/// [`many_m_n_spec`], except that a parse that does not consume is a committed
/// error.
pub open spec fn fold_many_m_n_spec<'a, O, P: Parser<'a, O>>(min: nat, max: nat, f: P, input: Input<'a>) -> PResult<'a, Seq<O>> {
    if min > max {
        Err(ErrMode::Cut(Error { input, kind: ErrorKind::ManyMN }))
    } else {
        match repeat(f, input, Some(max)) {
            Outcome::Done { items, rest, stop: Some(e) } => if items.len() < min {
                Err(ErrMode::Backtrack(e))
            } else {
                Ok((rest, items))
            },
            Outcome::Stuck { at } => Err(ErrMode::Cut(Error { input: at, kind: ErrorKind::ManyMN })),
            out => star_result(out, ErrorKind::ManyMN),
        }
    }
}

/// Folding `items` into `seed` with `g`, first to last, can give `out`.
pub open spec fn folds_to<R, O, G: Fn(R, O) -> R>(g: G, seed: R, items: Seq<O>, out: R) -> bool
    decreases items.len(),
{
    if items.len() == 0 {
        out == seed
    } else {
        exists|mid: R|
            #![trigger g.ensures((mid, items.last()), out)]
            folds_to(g, seed, items.drop_last(), mid) && g.ensures((mid, items.last()), out)
    }
}

/// A folded result `r` agrees with the modelled result `s`: the same failure,
/// or the same remaining view and the fold of the same items into a value that
/// `init` can return.
pub open spec fn folded<'a, O, R, H: Fn() -> R, G: Fn(R, O) -> R>(
    init: H,
    g: G,
    r: PResult<'a, R>,
    s: PResult<'a, Seq<O>>,
) -> bool {
    match (r, s) {
        (Ok((a, acc)), Ok((b, items))) => a == b && exists|seed: R|
            #![trigger init.ensures((), seed)]
            init.ensures((), seed) && folds_to(g, seed, items, acc),
        (Err(e1), Err(e2)) => e1 == e2,
        _ => false,
    }
}

/// An executable result of [`crate::multi::many_till0`] agrees with the
/// modelled one.
pub open spec fn accumulated_till<'a, O, Q, C: Accumulate<O>>(
    r: PResult<'a, (C, Q)>,
    s: PResult<'a, (Seq<O>, Q)>,
) -> bool {
    match (r, s) {
        (Ok((a, (c, q))), Ok((b, (items, q2)))) => a == b && c.holds(items) && q == q2,
        (Err(e1), Err(e2)) => e1 == e2,
        _ => false,
    }
}

pub proof fn lemma_prepend_ok_assoc<'a, O>(items: Seq<O>, o: O, r: PResult<'a, Seq<O>>)
    ensures
        prepend_ok(items, prepend_ok(seq![o], r)) == prepend_ok(items.push(o), r),
{
    if let Ok((rest, later)) = r {
        assert(items + (seq![o] + later) =~= items.push(o) + later);
    }
}

pub proof fn lemma_prepend_ok_empty<'a, O>(r: PResult<'a, Seq<O>>)
    ensures
        prepend_ok(Seq::empty(), r) == r,
{
    if let Ok((rest, later)) = r {
        assert(Seq::<O>::empty() + later =~= later);
    }
}

} // verus!
