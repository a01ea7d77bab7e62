//! Combinators that apply a parser several times.

use vstd::prelude::*;
use crate::input::Input;
use crate::error::{ErrMode, Error, ErrorKind, PResult};
use crate::parser::{Accumulate, Parser};
use crate::parser::ToUsize;
use crate::primitives::Take;
use crate::model::{
    accumulated, accumulated_till, count_spec, fold_many1_spec, fold_many_m_n_spec, folded, folds_to, length_count_spec, length_data_spec,
    length_value_spec, lemma_prepend_all_assoc, lemma_prepend_all_empty, lemma_prepend_ok_assoc,
    lemma_prepend_ok_empty, limit_after, limit_dec, many0_count_spec, many0_spec,
    many1_count_spec, many1_spec, many_m_n_spec, prepend_all, prepend_ok, prepend_till, repeat,
    sep_tail, separated_list0_spec, separated_list1_spec, till_spec, Outcome,
};

verus! {

/// How a run of repeated parses ended, with the outputs accumulated in `acc`.
enum Run<'a, C> {
    Done { acc: C, count: usize, rest: Input<'a>, stop: Option<Error<'a>> },
    Stuck { at: Input<'a> },
    Failed { err: ErrMode<Error<'a>> },
}

/// The run `r` is the modelled run `out`.
spec fn run_agrees<'a, O, C: Accumulate<O>>(r: Run<'a, C>, out: Outcome<'a, O>) -> bool {
    match (r, out) {
        (Run::Done { acc, count, rest, stop }, Outcome::Done { items, rest: rest2, stop: stop2 }) => {
            &&& acc.holds(items)
            &&& count == items.len()
            &&& rest == rest2
            &&& stop == stop2
        },
        (Run::Stuck { at }, Outcome::Stuck { at: at2 }) => at == at2,
        (Run::Failed { err }, Outcome::Failed { err: err2 }) => err == err2,
        _ => false,
    }
}

spec fn nat_limit(limit: Option<usize>) -> Option<nat> {
    match limit {
        Some(n) => Some(n as nat),
        None => None,
    }
}

/// Parses with `f` from `input`, at most `limit` times, until it fails or stops
/// consuming; the engine under every repetition with a guard.
fn run_repeat<'a, O, C: Accumulate<O>, P: Parser<'a, O>>(
    f: &P,
    input: Input<'a>,
    limit: Option<usize>,
    capacity: Option<usize>,
) -> (r: Run<'a, C>)
    requires
        input.wf(),
    ensures
        run_agrees(r, repeat(*f, input, nat_limit(limit))),
        r matches Run::Done { rest, .. } ==> rest.is_rest_of(input),
{
    let mut acc = C::initial(capacity);
    let mut i = input;
    let mut count: usize = 0;
    let ghost items: Seq<O> = Seq::empty();
    proof {
        lemma_prepend_all_empty(repeat(*f, input, nat_limit(limit)));
    }
    loop
        invariant
            input.wf(),
            i.wf(),
            i.is_rest_of(input),
            acc.holds(items),
            count == items.len(),
            count <= i.start - input.start,
            limit matches Some(n) ==> count <= n,
            repeat(*f, input, nat_limit(limit)) == prepend_all(
                items,
                repeat(*f, i, limit_after(nat_limit(limit), count as nat)),
            ),
        decreases i.spec_len(),
    {
        if let Some(max) = limit {
            if count == max {
                return Run::Done { acc, count, rest: i, stop: None };
            }
        }
        let len = i.len();
        match f.parse_next(i) {
            Err(ErrMode::Backtrack(e)) => return Run::Done { acc, count, rest: i, stop: Some(e) },
            Err(err) => return Run::Failed { err },
            Ok((rest, o)) => {
                proof {
                    f.lemma_parse_rest(i);
                }
                if rest.len() == len {
                    return Run::Stuck { at: i };
                }
                let ghost go = o;
                acc.accumulate(o, Ghost(items));
                proof {
                    assert(limit_dec(limit_after(nat_limit(limit), count as nat)) == limit_after(
                        nat_limit(limit),
                        (count + 1) as nat,
                    ));
                    lemma_prepend_all_assoc(
                        items,
                        go,
                        repeat(*f, rest, limit_after(nat_limit(limit), (count + 1) as nat)),
                    );
                    items = items.push(go);
                }
                count = count + 1;
                i = rest;
            }
        }
    }
}

/// Applies `f` as many times as it succeeds, gathering its outputs.
///
/// Stops at the first recoverable failure and returns what was gathered with
/// the view at which that parse started; committed failures and requests for
/// more input are handed on. A parse that succeeds without consuming input is
/// an error of kind `Many0`, which would otherwise loop forever.
pub fn many0<'a, O, C: Accumulate<O>, P: Parser<'a, O>>(f: &P, input: Input<'a>) -> (r: PResult<'a, C>)
    requires
        input.wf(),
    ensures
        accumulated(r, many0_spec(*f, input)),
{
    match run_repeat(f, input, None, None) {
        Run::Done { acc, rest, .. } => Ok((rest, acc)),
        Run::Stuck { at } => Err(ErrMode::Backtrack(Error::new(at, ErrorKind::Many0))),
        Run::Failed { err } => Err(err),
    }
}

/// Applies `f` one or more times, gathering its outputs.
///
/// As [`many0`], except that a recoverable failure of the first parse is the
/// result; the error where a parse stops consuming is of kind `Many1`.
pub fn many1<'a, O, C: Accumulate<O>, P: Parser<'a, O>>(f: &P, input: Input<'a>) -> (r: PResult<'a, C>)
    requires
        input.wf(),
    ensures
        accumulated(r, many1_spec(*f, input)),
{
    match run_repeat(f, input, None, None) {
        Run::Done { acc, count, rest, stop } => {
            if count == 0 {
                if let Some(e) = stop {
                    return Err(ErrMode::Backtrack(e));
                }
            }
            Ok((rest, acc))
        },
        Run::Stuck { at } => Err(ErrMode::Backtrack(Error::new(at, ErrorKind::Many1))),
        Run::Failed { err } => Err(err),
    }
}

/// Applies `f` at least `min` and at most `max` times, gathering its outputs.
///
/// `min > max` is a misuse and fails at once with a committed error of kind
/// `ManyMN`. Otherwise parsing stops after `max` successes or at the first
/// recoverable failure, which is the result if it came before `min` successes.
/// A parse that succeeds without consuming input is an error of kind `ManyMN`.
pub fn many_m_n<'a, O, C: Accumulate<O>, P: Parser<'a, O>>(
    min: usize,
    max: usize,
    f: &P,
    input: Input<'a>,
) -> (r: PResult<'a, C>)
    requires
        input.wf(),
    ensures
        accumulated(r, many_m_n_spec(min as nat, max as nat, *f, input)),
{
    if min > max {
        return Err(ErrMode::Cut(Error::new(input, ErrorKind::ManyMN)));
    }
    match run_repeat(f, input, Some(max), Some(min)) {
        Run::Done { acc, count, rest, stop } => {
            if count < min {
                if let Some(e) = stop {
                    return Err(ErrMode::Backtrack(e));
                }
            }
            Ok((rest, acc))
        },
        Run::Stuck { at } => Err(ErrMode::Backtrack(Error::new(at, ErrorKind::ManyMN))),
        Run::Failed { err } => Err(err),
    }
}

/// Applies `f` as many times as it succeeds and returns how many times it did.
///
/// Stops as [`many0`] does; the error where a parse stops consuming is of kind
/// `Many0Count`.
pub fn many0_count<'a, O, P: Parser<'a, O>>(f: &P, input: Input<'a>) -> (r: PResult<'a, usize>)
    requires
        input.wf(),
    ensures
        accumulated::<O, usize>(r, many0_count_spec(*f, input)),
{
    match run_repeat::<O, usize, P>(f, input, None, None) {
        Run::Done { acc, rest, .. } => Ok((rest, acc)),
        Run::Stuck { at } => Err(ErrMode::Backtrack(Error::new(at, ErrorKind::Many0Count))),
        Run::Failed { err } => Err(err),
    }
}

/// Applies `f` one or more times and returns how many times it succeeded.
///
/// A recoverable failure of the first parse becomes an error of kind
/// `Many1Count` at `input`; the error where a parse stops consuming is of the
/// same kind.
pub fn many1_count<'a, O, P: Parser<'a, O>>(f: &P, input: Input<'a>) -> (r: PResult<'a, usize>)
    requires
        input.wf(),
    ensures
        accumulated::<O, usize>(r, many1_count_spec(*f, input)),
{
    match run_repeat::<O, usize, P>(f, input, None, None) {
        Run::Done { acc, count, rest, stop } => {
            if count == 0 && stop.is_some() {
                return Err(ErrMode::Backtrack(Error::new(input, ErrorKind::Many1Count)));
            }
            Ok((rest, acc))
        },
        Run::Stuck { at } => Err(ErrMode::Backtrack(Error::new(at, ErrorKind::Many1Count))),
        Run::Failed { err } => Err(err),
    }
}

/// Applies `f` exactly `times` times, gathering its outputs.
///
/// The first failure, recoverable or not, is the result: a fixed count is
/// never cut short. A parse that consumes nothing is accepted, as the count
/// bounds the work.
pub fn count<'a, O, C: Accumulate<O>, P: Parser<'a, O>>(f: &P, times: usize, input: Input<'a>) -> (r: PResult<'a, C>)
    requires
        input.wf(),
    ensures
        accumulated(r, count_spec(*f, input, times as nat)),
        r matches Ok((rest, _)) ==> rest.is_rest_of(input),
{
    let mut acc = C::initial(Some(times));
    let mut i = input;
    let mut k: usize = 0;
    let ghost items: Seq<O> = Seq::empty();
    proof {
        lemma_prepend_ok_empty(count_spec(*f, input, times as nat));
    }
    while k < times
        invariant
            input.wf(),
            i.wf(),
            i.is_rest_of(input),
            k <= times,
            acc.holds(items),
            items.len() == k,
            count_spec(*f, input, times as nat) == prepend_ok(items, count_spec(*f, i, (times - k) as nat)),
        decreases times - k,
    {
        match f.parse_next(i) {
            Ok((rest, o)) => {
                proof {
                    f.lemma_parse_rest(i);
                }
                let ghost go = o;
                acc.accumulate(o, Ghost(items));
                proof {
                    lemma_prepend_ok_assoc(items, go, count_spec(*f, rest, (times - k - 1) as nat));
                    items = items.push(go);
                }
                i = rest;
                k = k + 1;
            },
            Err(e) => return Err(e),
        }
    }
    Ok((i, acc))
}

/// Fills `buf` with the outputs of `buf.len()` parses with `f`, first to last.
///
/// Fails as [`count`] does; on success every slot of `buf` holds an output.
pub fn fill<'a, O, P: Parser<'a, O>>(f: &P, buf: &mut [O], input: Input<'a>) -> (r: PResult<'a, ()>)
    requires
        input.wf(),
    ensures
        final(buf)@.len() == old(buf)@.len(),
        match count_spec(*f, input, old(buf)@.len()) {
            Ok((rest, items)) => r == Ok::<(Input<'a>, ()), ErrMode<Error<'a>>>((rest, ())) && final(buf)@ == items,
            Err(e) => r == Err::<(Input<'a>, ()), ErrMode<Error<'a>>>(e),
        },
{
    let n = buf.len();
    let mut i = input;
    let mut k: usize = 0;
    let ghost items: Seq<O> = Seq::empty();
    proof {
        lemma_prepend_ok_empty(count_spec(*f, input, n as nat));
    }
    while k < n
        invariant
            input.wf(),
            i.wf(),
            i.is_rest_of(input),
            k <= n,
            n == old(buf)@.len(),
            buf@.len() == n,
            items.len() == k,
            buf@.take(k as int) == items,
            count_spec(*f, input, n as nat) == prepend_ok(items, count_spec(*f, i, (n - k) as nat)),
        decreases n - k,
    {
        match f.parse_next(i) {
            Ok((rest, o)) => {
                proof {
                    f.lemma_parse_rest(i);
                }
                let ghost go = o;
                buf[k] = o;
                proof {
                    lemma_prepend_ok_assoc(items, go, count_spec(*f, rest, (n - k - 1) as nat));
                    items = items.push(go);
                    assert(buf@.take(k + 1) =~= items);
                }
                i = rest;
                k = k + 1;
            },
            Err(e) => return Err(e),
        }
    }
    assert(buf@ =~= buf@.take(n as int));
    Ok((i, ()))
}

/// Parses a count with `f`, then applies `g` exactly that many times,
/// gathering its outputs.
pub fn length_count<'a, N: ToUsize, O, C: Accumulate<O>, F: Parser<'a, N>, G: Parser<'a, O>>(
    f: &F,
    g: &G,
    input: Input<'a>,
) -> (r: PResult<'a, C>)
    requires
        input.wf(),
    ensures
        accumulated(r, length_count_spec(*f, *g, input)),
{
    match f.parse_next(input) {
        Err(e) => Err(e),
        Ok((rest, n)) => {
            proof {
                f.lemma_parse_rest(input);
            }
            count(g, n.to_usize(), rest)
        },
    }
}

/// Parses a length with `f`, then carves that many bytes off the input and
/// returns them as a view.
///
/// When fewer bytes remain it asks for the missing ones in streaming mode, and
/// fails recoverably with kind `Eof` in complete mode.
pub fn length_data<'a, N: ToUsize, F: Parser<'a, N>>(f: &F, input: Input<'a>) -> (r: PResult<'a, Input<'a>>)
    requires
        input.wf(),
    ensures
        r == length_data_spec(*f, input),
{
    match f.parse_next(input) {
        Err(e) => Err(e),
        Ok((rest, n)) => {
            proof {
                f.lemma_parse_rest(input);
            }
            Take::new(n.to_usize()).parse_next(rest)
        },
    }
}

/// Parses a length with `f`, carves that many bytes off the input, and parses
/// them with `g`, which must read them all.
///
/// The carved view is complete: `g` asking for more fails recoverably with kind
/// `Complete`, and `g` leaving some of it unread fails recoverably with kind
/// `Eof`.
pub fn length_value<'a, N: ToUsize, O, F: Parser<'a, N>, G: Parser<'a, O>>(
    f: &F,
    g: &G,
    input: Input<'a>,
) -> (r: PResult<'a, O>)
    requires
        input.wf(),
    ensures
        r == length_value_spec(*f, *g, input),
{
    match length_data(f, input) {
        Err(e) => Err(e),
        Ok((rest, data)) => {
            proof {
                f.lemma_parse_rest(input);
            }
            match g.parse_next(data) {
                Ok((left, o)) => {
                    proof {
                        g.lemma_parse_rest(data);
                    }
                    if left.is_empty() {
                        Ok((rest, o))
                    } else {
                        Err(ErrMode::Backtrack(Error::new(left, ErrorKind::Eof)))
                    }
                },
                Err(ErrMode::Incomplete(_)) => Err(ErrMode::Backtrack(Error::new(data, ErrorKind::Complete))),
                Err(e) => Err(e),
            }
        },
    }
}

/// Applies `f` until `g` succeeds, gathering the outputs of `f` and returning
/// the output of `g` beside them.
///
/// `g` is tried first at every step. When it fails recoverably `f` must
/// succeed, or its failure is the result; a success of `f` that consumes
/// nothing is an error of kind `ManyTill`. Other failures of `g` are handed on.
pub fn many_till0<'a, O, Q, C: Accumulate<O>, F: Parser<'a, O>, G: Parser<'a, Q>>(
    f: &F,
    g: &G,
    input: Input<'a>,
) -> (r: PResult<'a, (C, Q)>)
    requires
        input.wf(),
    ensures
        accumulated_till(r, till_spec(*f, *g, input)),
{
    let mut acc = C::initial(None);
    let mut i = input;
    let ghost items: Seq<O> = Seq::empty();
    loop
        invariant
            input.wf(),
            i.wf(),
            i.is_rest_of(input),
            acc.holds(items),
            items.len() <= i.start - input.start,
            till_spec(*f, *g, input) == prepend_till_all(items, till_spec(*f, *g, i)),
        decreases i.spec_len(),
    {
        let len = i.len();
        match g.parse_next(i) {
            Ok((rest, q)) => return Ok((rest, (acc, q))),
            Err(ErrMode::Backtrack(_)) => {
                match f.parse_next(i) {
                    Err(e) => return Err(e),
                    Ok((rest, o)) => {
                        proof {
                            f.lemma_parse_rest(i);
                        }
                        if rest.len() == len {
                            return Err(ErrMode::Backtrack(Error::new(rest, ErrorKind::ManyTill)));
                        }
                        let ghost go = o;
                        acc.accumulate(o, Ghost(items));
                        proof {
                            lemma_prepend_till_all_push(items, go, till_spec(*f, *g, rest));
                            items = items.push(go);
                        }
                        i = rest;
                    },
                }
            },
            Err(e) => return Err(e),
        }
    }
}

/// The same as [`many_till0`].
pub fn many_till<'a, O, Q, C: Accumulate<O>, F: Parser<'a, O>, G: Parser<'a, Q>>(
    f: &F,
    g: &G,
    input: Input<'a>,
) -> (r: PResult<'a, (C, Q)>)
    requires
        input.wf(),
    ensures
        accumulated_till(r, till_spec(*f, *g, input)),
{
    many_till0(f, g, input)
}

/// Puts `items` in front of the outputs of `f` in a result of [`till_spec`].
spec fn prepend_till_all<'a, O, Q>(items: Seq<O>, r: PResult<'a, (Seq<O>, Q)>) -> PResult<'a, (Seq<O>, Q)> {
    match r {
        Ok((rest, (later, q))) => Ok((rest, (items + later, q))),
        Err(e) => Err(e),
    }
}

proof fn lemma_prepend_till_all_push<'a, O, Q>(items: Seq<O>, o: O, r: PResult<'a, (Seq<O>, Q)>)
    ensures
        prepend_till_all(items, prepend_till(o, r)) == prepend_till_all(items.push(o), r),
{
    if let Ok((rest, (later, q))) = r {
        assert(items + (seq![o] + later) =~= items.push(o) + later);
    }
}

/// The elements after the first one of a separated list: separator and
/// element, again and again, from `input`.
fn separated_tail<'a, O, O2, C: Accumulate<O>, S: Parser<'a, O2>, P: Parser<'a, O>>(
    sep: &S,
    f: &P,
    acc: C,
    first: Ghost<Seq<O>>,
    input: Input<'a>,
) -> (r: PResult<'a, C>)
    requires
        input.wf(),
        acc.holds(first@),
        first@.len() == 1,
        input.spec_len() < usize::MAX,
    ensures
        accumulated(r, prepend_ok(first@, sep_tail(*sep, *f, input))),
{
    let mut acc = acc;
    let mut i = input;
    let ghost items: Seq<O> = first@;
    loop
        invariant
            input.wf(),
            input.spec_len() < usize::MAX,
            i.wf(),
            i.is_rest_of(input),
            acc.holds(items),
            1 <= items.len() <= 1 + (i.start - input.start),
            prepend_ok(first@, sep_tail(*sep, *f, input)) == prepend_ok(items, sep_tail(*sep, *f, i)),
        decreases i.spec_len(),
    {
        let len = i.len();
        match sep.parse_next(i) {
            Err(ErrMode::Backtrack(_)) => return Ok((i, acc)),
            Err(e) => return Err(e),
            Ok((after_sep, _)) => {
                proof {
                    sep.lemma_parse_rest(i);
                }
                if after_sep.len() == len {
                    return Err(ErrMode::Backtrack(Error::new(after_sep, ErrorKind::SeparatedList)));
                }
                match f.parse_next(after_sep) {
                    Err(ErrMode::Backtrack(_)) => return Ok((i, acc)),
                    Err(e) => return Err(e),
                    Ok((rest, o)) => {
                        proof {
                            f.lemma_parse_rest(after_sep);
                        }
                        let ghost go = o;
                        acc.accumulate(o, Ghost(items));
                        proof {
                            lemma_prepend_ok_assoc(items, go, sep_tail(*sep, *f, rest));
                            items = items.push(go);
                        }
                        i = rest;
                    },
                }
            },
        }
    }
}

/// Parses zero or more elements with `f`, separated by `sep`, gathering the
/// elements.
///
/// A recoverable failure of the first element gives an empty list at `input`.
/// After that, the list ends before the first separator that fails
/// recoverably or is not followed by an element, so a trailing separator stays
/// unread. A separator that consumes nothing is an error of kind
/// `SeparatedList`. Other failures are handed on. (A view of `usize::MAX`
/// bytes is not accepted: its elements could not be counted.)
pub fn separated_list0<'a, O, O2, C: Accumulate<O>, S: Parser<'a, O2>, P: Parser<'a, O>>(
    sep: &S,
    f: &P,
    input: Input<'a>,
) -> (r: PResult<'a, C>)
    requires
        input.wf(),
        input.spec_len() < usize::MAX,
    ensures
        accumulated(r, separated_list0_spec(*sep, *f, input)),
{
    let mut acc = C::initial(None);
    match f.parse_next(input) {
        Err(ErrMode::Backtrack(_)) => Ok((input, acc)),
        Err(e) => Err(e),
        Ok((rest, o)) => {
            proof {
                f.lemma_parse_rest(input);
            }
            let ghost go = o;
            acc.accumulate(o, Ghost(Seq::empty()));
            let ghost first = seq![go];
            proof {
                assert(Seq::<O>::empty().push(go) =~= first);
            }
            separated_tail(sep, f, acc, Ghost(first), rest)
        },
    }
}

/// Parses one or more elements with `f`, separated by `sep`, gathering the
/// elements.
///
/// As [`separated_list0`], except that any failure of the first element is the
/// result.
pub fn separated_list1<'a, O, O2, C: Accumulate<O>, S: Parser<'a, O2>, P: Parser<'a, O>>(
    sep: &S,
    f: &P,
    input: Input<'a>,
) -> (r: PResult<'a, C>)
    requires
        input.wf(),
        input.spec_len() < usize::MAX,
    ensures
        accumulated(r, separated_list1_spec(*sep, *f, input)),
{
    let mut acc = C::initial(None);
    match f.parse_next(input) {
        Err(e) => Err(e),
        Ok((rest, o)) => {
            proof {
                f.lemma_parse_rest(input);
            }
            let ghost go = o;
            acc.accumulate(o, Ghost(Seq::empty()));
            let ghost first = seq![go];
            proof {
                assert(Seq::<O>::empty().push(go) =~= first);
            }
            separated_tail(sep, f, acc, Ghost(first), rest)
        },
    }
}

/// How a run of repeated parses ended, with the outputs folded into `acc`.
enum FoldRun<'a, R> {
    Done { acc: R, count: usize, rest: Input<'a>, stop: Option<Error<'a>> },
    Stuck { at: Input<'a> },
    Failed { err: ErrMode<Error<'a>> },
}

/// The run `r` is the modelled run `out`, its items folded into `seed` with `g`.
spec fn fold_agrees<'a, O, R, G: Fn(R, O) -> R>(g: G, seed: R, r: FoldRun<'a, R>, out: Outcome<'a, O>) -> bool {
    match (r, out) {
        (FoldRun::Done { acc, count, rest, stop }, Outcome::Done { items, rest: rest2, stop: stop2 }) => {
            &&& folds_to(g, seed, items, acc)
            &&& count == items.len()
            &&& rest == rest2
            &&& stop == stop2
        },
        (FoldRun::Stuck { at }, Outcome::Stuck { at: at2 }) => at == at2,
        (FoldRun::Failed { err }, Outcome::Failed { err: err2 }) => err == err2,
        _ => false,
    }
}

/// As [`run_repeat`], folding each output into `seed` with `g`.
fn run_fold<'a, O, R, P: Parser<'a, O>, G: Fn(R, O) -> R>(
    f: &P,
    input: Input<'a>,
    limit: Option<usize>,
    seed: R,
    g: &G,
) -> (r: FoldRun<'a, R>)
    requires
        input.wf(),
        forall|acc: R, o: O| g.requires((acc, o)),
    ensures
        fold_agrees(*g, seed, r, repeat(*f, input, nat_limit(limit))),
{
    let mut acc = seed;
    let mut i = input;
    let mut count: usize = 0;
    let ghost items: Seq<O> = Seq::empty();
    proof {
        lemma_prepend_all_empty(repeat(*f, input, nat_limit(limit)));
    }
    loop
        invariant
            input.wf(),
            i.wf(),
            i.is_rest_of(input),
            forall|acc: R, o: O| g.requires((acc, o)),
            folds_to(*g, seed, items, acc),
            count == items.len(),
            count <= i.start - input.start,
            limit matches Some(n) ==> count <= n,
            repeat(*f, input, nat_limit(limit)) == prepend_all(
                items,
                repeat(*f, i, limit_after(nat_limit(limit), count as nat)),
            ),
        decreases i.spec_len(),
    {
        if let Some(max) = limit {
            if count == max {
                return FoldRun::Done { acc, count, rest: i, stop: None };
            }
        }
        let len = i.len();
        match f.parse_next(i) {
            Err(ErrMode::Backtrack(e)) => return FoldRun::Done { acc, count, rest: i, stop: Some(e) },
            Err(err) => return FoldRun::Failed { err },
            Ok((rest, o)) => {
                proof {
                    f.lemma_parse_rest(i);
                }
                if rest.len() == len {
                    return FoldRun::Stuck { at: i };
                }
                let ghost go = o;
                let ghost prev = acc;
                acc = g(acc, o);
                proof {
                    assert(items.push(go).drop_last() =~= items);
                    assert(items.push(go).last() == go);
                    assert(g.ensures((prev, go), acc));
                    assert(folds_to(*g, seed, items.push(go), acc));
                    assert(limit_dec(limit_after(nat_limit(limit), count as nat)) == limit_after(
                        nat_limit(limit),
                        (count + 1) as nat,
                    ));
                    lemma_prepend_all_assoc(
                        items,
                        go,
                        repeat(*f, rest, limit_after(nat_limit(limit), (count + 1) as nat)),
                    );
                    items = items.push(go);
                }
                count = count + 1;
                i = rest;
            }
        }
    }
}

/// Applies `f` as many times as it succeeds, folding each output into a value
/// that starts as `init()`, with `g`.
///
/// Stops as [`many0`] does, with the same errors.
pub fn fold_many0<'a, O, R, P: Parser<'a, O>, H: Fn() -> R, G: Fn(R, O) -> R>(
    f: &P,
    init: H,
    g: G,
    input: Input<'a>,
) -> (r: PResult<'a, R>)
    requires
        input.wf(),
        init.requires(()),
        forall|acc: R, o: O| g.requires((acc, o)),
    ensures
        folded(init, g, r, many0_spec(*f, input)),
{
    let seed = init();
    match run_fold(f, input, None, seed, &g) {
        FoldRun::Done { acc, rest, .. } => Ok((rest, acc)),
        FoldRun::Stuck { at } => Err(ErrMode::Backtrack(Error::new(at, ErrorKind::Many0))),
        FoldRun::Failed { err } => Err(err),
    }
}

/// Applies `f` one or more times, folding each output into a value that starts
/// as `init()`, with `g`.
///
/// A recoverable failure of the first parse becomes an error of kind `Many1`
/// at `input`; a parse that consumes nothing is a committed error of kind
/// `Many1`.
pub fn fold_many1<'a, O, R, P: Parser<'a, O>, H: Fn() -> R, G: Fn(R, O) -> R>(
    f: &P,
    init: H,
    g: G,
    input: Input<'a>,
) -> (r: PResult<'a, R>)
    requires
        input.wf(),
        init.requires(()),
        forall|acc: R, o: O| g.requires((acc, o)),
    ensures
        folded(init, g, r, fold_many1_spec(*f, input)),
{
    let seed = init();
    match run_fold(f, input, None, seed, &g) {
        FoldRun::Done { acc, count, rest, stop } => {
            if count == 0 && stop.is_some() {
                return Err(ErrMode::Backtrack(Error::new(input, ErrorKind::Many1)));
            }
            Ok((rest, acc))
        },
        FoldRun::Stuck { at } => Err(ErrMode::Cut(Error::new(at, ErrorKind::Many1))),
        FoldRun::Failed { err } => Err(err),
    }
}

/// Applies `f` at least `min` and at most `max` times, folding each output
/// into a value that starts as `init()`, with `g`.
///
/// Stops and fails as [`many_m_n`] does, except that a parse that consumes
/// nothing is a committed error of kind `ManyMN`: the fold cannot be resumed
/// with a true count of parses.
pub fn fold_many_m_n<'a, O, R, P: Parser<'a, O>, H: Fn() -> R, G: Fn(R, O) -> R>(
    min: usize,
    max: usize,
    f: &P,
    init: H,
    g: G,
    input: Input<'a>,
) -> (r: PResult<'a, R>)
    requires
        input.wf(),
        init.requires(()),
        forall|acc: R, o: O| g.requires((acc, o)),
    ensures
        folded(init, g, r, fold_many_m_n_spec(min as nat, max as nat, *f, input)),
{
    if min > max {
        return Err(ErrMode::Cut(Error::new(input, ErrorKind::ManyMN)));
    }
    let seed = init();
    match run_fold(f, input, Some(max), seed, &g) {
        FoldRun::Done { acc, count, rest, stop } => {
            if count < min {
                if let Some(e) = stop {
                    return Err(ErrMode::Backtrack(e));
                }
            }
            Ok((rest, acc))
        },
        FoldRun::Stuck { at } => Err(ErrMode::Cut(Error::new(at, ErrorKind::ManyMN))),
        FoldRun::Failed { err } => Err(err),
    }
}

} // verus!
