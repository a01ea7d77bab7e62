//! Laws that hold of every parser the combinators are given.

use vstd::prelude::*;
use crate::input::Input;
use crate::error::{ErrMode, Error, Needed};
use crate::parser::{Parser, ToUsize};
use crate::model::{
    fold_many_m_n_spec, length_data_spec, length_value_spec, limit_dec, many0_spec,
    many_m_n_spec, repeat, count_spec, sep_tail, till_spec, separated_list0_spec, separated_list1_spec, Outcome,
};

verus! {

/// How many times a run of [`repeat`] calls the parser, the last call
/// included.
pub open spec fn attempts<'a, O, P: Parser<'a, O>>(f: P, input: Input<'a>, limit: Option<nat>) -> nat
    decreases input.spec_len(),
{
    if limit == Some(0nat) {
        0
    } else {
        match f.spec_parse(input) {
            Ok((rest, _)) => if rest.spec_len() < input.spec_len() {
                1 + attempts(f, rest, limit_dec(limit))
            } else {
                1
            },
            Err(_) => 1,
        }
    }
}

/// How many bytes each successful parse of a run of [`repeat`] consumed.
pub open spec fn consumed<'a, O, P: Parser<'a, O>>(f: P, input: Input<'a>, limit: Option<nat>) -> Seq<nat>
    decreases input.spec_len(),
{
    if limit == Some(0nat) {
        Seq::empty()
    } else {
        match f.spec_parse(input) {
            Ok((rest, _)) => if rest.spec_len() < input.spec_len() {
                seq![(input.spec_len() - rest.spec_len()) as nat] + consumed(f, rest, limit_dec(limit))
            } else {
                Seq::empty()
            },
            Err(_) => Seq::empty(),
        }
    }
}

/// The sum of `s`.
pub open spec fn total(s: Seq<nat>) -> nat
    decreases s.len(),
{
    if s.len() == 0 {
        0
    } else {
        s[0] + total(s.drop_first())
    }
}

/// Every repetition stops: an unbounded one calls the parser at most once
/// more than there are bytes, and a bounded one at most as often as its bound.
pub proof fn lemma_repeat_terminates<'a, O, P: Parser<'a, O>>(f: P, input: Input<'a>, limit: Option<nat>)
    ensures
        attempts(f, input, limit) <= input.spec_len() + 1,
        limit matches Some(max) ==> attempts(f, input, limit) <= max,
    decreases input.spec_len(),
{
    if limit != Some(0nat) {
        if let Ok((rest, _)) = f.spec_parse(input) {
            if rest.spec_len() < input.spec_len() {
                lemma_repeat_terminates(f, rest, limit_dec(limit));
            }
        }
    }
}

/// How many separators a separated list tries after its first element.
pub open spec fn sep_rounds<'a, O, O2, S: Parser<'a, O2>, P: Parser<'a, O>>(sep: S, f: P, input: Input<'a>) -> nat
    decreases input.spec_len(),
{
    match sep.spec_parse(input) {
        Ok((after_sep, _)) => if after_sep.spec_len() < input.spec_len() {
            match f.spec_parse(after_sep) {
                Ok((rest, _)) => if rest.spec_len() < input.spec_len() {
                    1 + sep_rounds(sep, f, rest)
                } else {
                    1
                },
                Err(_) => 1,
            }
        } else {
            1
        },
        Err(_) => 1,
    }
}

/// How many times a repetition until a terminator tries the terminator.
pub open spec fn till_rounds<'a, O, Q, F: Parser<'a, O>, G: Parser<'a, Q>>(f: F, g: G, input: Input<'a>) -> nat
    decreases input.spec_len(),
{
    match g.spec_parse(input) {
        Err(ErrMode::Backtrack(_)) => match f.spec_parse(input) {
            Ok((rest, _)) => if rest.spec_len() < input.spec_len() {
                1 + till_rounds(f, g, rest)
            } else {
                1
            },
            Err(_) => 1,
        },
        _ => 1,
    }
}

/// Separated lists and repetitions until a terminator stop too: each round
/// consumes at least one byte or is the last.
pub proof fn lemma_rounds_bounded<'a, O, O2, Q, S: Parser<'a, O2>, P: Parser<'a, O>, G: Parser<'a, Q>>(
    sep: S,
    f: P,
    g: G,
    input: Input<'a>,
)
    ensures
        sep_rounds(sep, f, input) <= input.spec_len() + 1,
        till_rounds(f, g, input) <= input.spec_len() + 1,
    decreases input.spec_len(),
{
    if let Ok((after_sep, _)) = sep.spec_parse(input) {
        if after_sep.spec_len() < input.spec_len() {
            if let Ok((rest, _)) = f.spec_parse(after_sep) {
                if rest.spec_len() < input.spec_len() {
                    lemma_rounds_bounded(sep, f, g, rest);
                }
            }
        }
    }
    if let Ok((rest, _)) = f.spec_parse(input) {
        if rest.spec_len() < input.spec_len() {
            lemma_rounds_bounded(sep, f, g, rest);
        }
    }
}

/// A repetition that succeeds leaves a suffix of its input, shorter by the sum
/// of what each parse consumed, and each parse consumed at least one byte.
pub proof fn lemma_repeat_consumption<'a, O, P: Parser<'a, O>>(f: P, input: Input<'a>, limit: Option<nat>)
    requires
        input.wf(),
    ensures
        repeat(f, input, limit) matches Outcome::Done { items, rest, .. } ==> {
            &&& rest.is_rest_of(input)
            &&& rest.spec_len() <= input.spec_len()
            &&& consumed(f, input, limit).len() == items.len()
            &&& forall|j: int| 0 <= j < items.len() ==> #[trigger] consumed(f, input, limit)[j] > 0
            &&& rest.spec_len() == input.spec_len() - total(consumed(f, input, limit))
        },
    decreases input.spec_len(),
{
    if limit != Some(0nat) {
        f.lemma_parse_rest(input);
        if let Ok((rest, o)) = f.spec_parse(input) {
            if rest.spec_len() < input.spec_len() {
                lemma_repeat_consumption(f, rest, limit_dec(limit));
                let tail = consumed(f, rest, limit_dec(limit));
                let head = (input.spec_len() - rest.spec_len()) as nat;
                assert((seq![head] + tail).drop_first() =~= tail);
                if let Outcome::Done { items, .. } = repeat(f, rest, limit_dec(limit)) {
                    assert forall|j: int| 0 <= j < (seq![head] + tail).len() implies #[trigger] (seq![head] + tail)[j] > 0 by {
                        if j > 0 {
                            assert((seq![head] + tail)[j] == tail[j - 1]);
                        }
                    }
                }
            }
        }
    }
}

/// A successful [`many0_spec`] leaves a suffix of its input.
pub proof fn lemma_many0_consumes<'a, O, P: Parser<'a, O>>(f: P, input: Input<'a>)
    requires
        input.wf(),
    ensures
        many0_spec(f, input) matches Ok((rest, _)) ==> rest.is_rest_of(input) && rest.spec_len() <= input.spec_len(),
{
    lemma_repeat_consumption(f, input, None);
}

/// A successful exact count leaves a suffix of its input.
pub proof fn lemma_count_consumes<'a, O, P: Parser<'a, O>>(f: P, input: Input<'a>, n: nat)
    requires
        input.wf(),
    ensures
        count_spec(f, input, n) matches Ok((rest, items)) ==> rest.is_rest_of(input) && items.len() == n,
    decreases n,
{
    if n > 0 {
        f.lemma_parse_rest(input);
        if let Ok((rest, o)) = f.spec_parse(input) {
            lemma_count_consumes(f, rest, (n - 1) as nat);
        }
    }
}

/// A successful separated list leaves a suffix of its input.
pub proof fn lemma_separated_consumes<'a, O, O2, S: Parser<'a, O2>, P: Parser<'a, O>>(
    sep: S,
    f: P,
    input: Input<'a>,
)
    requires
        input.wf(),
    ensures
        separated_list0_spec(sep, f, input) matches Ok((rest, _)) ==> rest.is_rest_of(input),
        separated_list1_spec(sep, f, input) matches Ok((rest, _)) ==> rest.is_rest_of(input),
{
    f.lemma_parse_rest(input);
    if let Ok((rest, o)) = f.spec_parse(input) {
        lemma_sep_tail_consumes(sep, f, rest);
    }
}

proof fn lemma_sep_tail_consumes<'a, O, O2, S: Parser<'a, O2>, P: Parser<'a, O>>(
    sep: S,
    f: P,
    input: Input<'a>,
)
    requires
        input.wf(),
    ensures
        sep_tail(sep, f, input) matches Ok((rest, _)) ==> rest.is_rest_of(input),
    decreases input.spec_len(),
{
    sep.lemma_parse_rest(input);
    if let Ok((after_sep, _)) = sep.spec_parse(input) {
        if after_sep.spec_len() < input.spec_len() {
            f.lemma_parse_rest(after_sep);
            if let Ok((rest, o)) = f.spec_parse(after_sep) {
                if rest.spec_len() < input.spec_len() {
                    lemma_sep_tail_consumes(sep, f, rest);
                }
            }
        }
    }
}

/// A successful repetition until a terminator leaves a suffix of its input.
pub proof fn lemma_till_consumes<'a, O, Q, F: Parser<'a, O>, G: Parser<'a, Q>>(f: F, g: G, input: Input<'a>)
    requires
        input.wf(),
    ensures
        till_spec(f, g, input) matches Ok((rest, _)) ==> rest.is_rest_of(input),
    decreases input.spec_len(),
{
    g.lemma_parse_rest(input);
    f.lemma_parse_rest(input);
    if let Ok((rest, o)) = f.spec_parse(input) {
        if rest.spec_len() < input.spec_len() {
            lemma_till_consumes(f, g, rest);
        }
    }
}

/// A run bounded by `m` is the unbounded run cut after `m` parses.
pub proof fn lemma_repeat_bounded<'a, O, P: Parser<'a, O>>(f: P, input: Input<'a>, m: nat)
    requires
        repeat(f, input, None) is Done,
        repeat(f, input, None)->Done_stop is Some,
    ensures
        ({
            let items = repeat(f, input, None)->Done_items;
            let bounded = repeat(f, input, Some(m));
            &&& bounded is Done
            &&& items.len() < m ==> bounded == repeat(f, input, None)
            &&& items.len() >= m ==> bounded->Done_items == items.take(m as int)
                && bounded->Done_stop is None
        }),
    decreases input.spec_len(),
{
    if m > 0 {
        if let Ok((rest, o)) = f.spec_parse(input) {
            if rest.spec_len() < input.spec_len() {
                lemma_repeat_bounded(f, rest, (m - 1) as nat);
                let later = repeat(f, rest, None)->Done_items;
                if later.len() + 1 >= m {
                    assert((seq![o] + later).take(m as int) =~= seq![o] + later.take(m - 1));
                }
            }
        }
    } else {
        assert(repeat(f, input, None)->Done_items.take(0) =~= Seq::<O>::empty());
    }
}

/// When `f` succeeds `k` times, consuming each time, and then fails
/// recoverably, a repetition of between `min` and `max` parses fails if
/// `k < min`, and otherwise succeeds with `min(k, max)` outputs; a fold of
/// between `min` and `max` parses does the same.
pub proof fn lemma_min_count<'a, O, P: Parser<'a, O>>(min: nat, max: nat, f: P, input: Input<'a>)
    requires
        min <= max,
        repeat(f, input, None) is Done,
        repeat(f, input, None)->Done_stop is Some,
    ensures
        ({
            let k = repeat(f, input, None)->Done_items.len();
            let expected = if k < max { k } else { max };
            &&& k < min ==> many_m_n_spec(min, max, f, input) is Err
            &&& k < min ==> fold_many_m_n_spec(min, max, f, input) is Err
            &&& k >= min ==> many_m_n_spec(min, max, f, input) is Ok
                && many_m_n_spec(min, max, f, input)->Ok_0.1.len() == expected
            &&& k >= min ==> fold_many_m_n_spec(min, max, f, input) is Ok
                && fold_many_m_n_spec(min, max, f, input)->Ok_0.1.len() == expected
        }),
{
    lemma_repeat_bounded(f, input, max);
}

/// When the first element fails recoverably, a list of zero or more elements is
/// empty and leaves the input as it was, and a list of one or more elements
/// fails with the element's error.
pub proof fn lemma_separated_first_fails<'a, O, O2, S: Parser<'a, O2>, P: Parser<'a, O>>(
    sep: S,
    f: P,
    input: Input<'a>,
    e: Error<'a>,
)
    requires
        f.spec_parse(input) == Err::<(Input<'a>, O), ErrMode<Error<'a>>>(ErrMode::Backtrack(e)),
    ensures
        separated_list0_spec(sep, f, input) == Ok::<(Input<'a>, Seq<O>), ErrMode<Error<'a>>>((input, Seq::empty())),
        separated_list1_spec(sep, f, input) == Err::<(Input<'a>, Seq<O>), ErrMode<Error<'a>>>(ErrMode::Backtrack(e)),
{
}

/// A length prefix of `N` bytes carves exactly the next `N` bytes when they are
/// there; when fewer remain it asks for the missing ones in streaming mode and
/// fails recoverably in complete mode.
pub proof fn lemma_length_data<'a, N: ToUsize, F: Parser<'a, N>>(f: F, input: Input<'a>)
    requires
        input.wf(),
        f.spec_parse(input) is Ok,
    ensures
        ({
            let (rest, n) = f.spec_parse(input)->Ok_0;
            let len = n.spec_to_usize() as nat;
            &&& len <= rest.spec_len() ==> length_data_spec(f, input) is Ok
                && length_data_spec(f, input)->Ok_0.1.bytes() == rest.bytes().take(len as int)
                && length_data_spec(f, input)->Ok_0.0.bytes() == rest.bytes().skip(len as int)
            &&& len > rest.spec_len() && input.streaming ==> length_data_spec(f, input)
                == Err::<(Input<'a>, Input<'a>), ErrMode<Error<'a>>>(ErrMode::Incomplete(Needed::Size((len - rest.spec_len()) as usize)))
            &&& len > rest.spec_len() && !input.streaming ==> length_data_spec(f, input) matches Err(ErrMode::Backtrack(_))
        }),
{
    f.lemma_parse_rest(input);
    let (rest, n) = f.spec_parse(input)->Ok_0;
    let len = n.spec_to_usize() as nat;
    if len <= rest.spec_len() {
        let (r2, data) = length_data_spec(f, input)->Ok_0;
        assert(data.bytes() =~= rest.bytes().take(len as int));
        assert(r2.bytes() =~= rest.bytes().skip(len as int));
    }
}

/// A value parsed from a carved view must read all of it: an inner parse that
/// leaves bytes of the view unread makes the whole parse fail.
pub proof fn lemma_length_value_reads_all<'a, N: ToUsize, O, F: Parser<'a, N>, G: Parser<'a, O>>(
    f: F,
    g: G,
    input: Input<'a>,
)
    requires
        length_data_spec(f, input) is Ok,
    ensures
        ({
            let data = length_data_spec(f, input)->Ok_0.1;
            &&& g.spec_parse(data) matches Ok((left, _)) ==> (left.spec_len() > 0 ==> length_value_spec(f, g, input) is Err)
            &&& g.spec_parse(data) matches Ok((left, o)) ==> (left.spec_len() == 0 ==> length_value_spec(f, g, input)
                == Ok::<(Input<'a>, O), ErrMode<Error<'a>>>((length_data_spec(f, input)->Ok_0.0, o)))
        }),
{
}

} // verus!
