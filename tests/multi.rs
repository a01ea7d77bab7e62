use parse_repeat::error::{ErrMode, Error, ErrorKind, Needed, PResult};
use parse_repeat::input::Input;
use parse_repeat::multi::{
    count, fold_many0, fold_many1, fold_many_m_n, length_count, length_data, length_value, many0,
    many1, many_m_n, many_till0, separated_list0, separated_list1,
};
use parse_repeat::primitives::{BeU16, BeU8, Decimal, Digits, Pair, Tag};

type Items = Vec<&'static [u8]>;

fn backtrack(input: Input<'_>, kind: ErrorKind) -> ErrMode<Error<'_>> {
    ErrMode::Backtrack(Error::new(input, kind))
}

fn fold_into_vec<T>(mut acc: Vec<T>, item: T) -> Vec<T> {
    acc.push(item);
    acc
}

fn sep_list0_abcd(i: Input<'_>) -> PResult<'_, Items> {
    separated_list0(&Tag::new(b","), &Tag::new(b"abcd"), i)
}

fn sep_list0_empty_elem(i: Input<'_>) -> PResult<'_, Items> {
    separated_list0(&Tag::new(b","), &Tag::new(b""), i)
}

fn sep_list0_empty_sep(i: Input<'_>) -> PResult<'_, Items> {
    separated_list0(&Tag::new(b""), &Tag::new(b"abc"), i)
}

fn sep_list0_longsep(i: Input<'_>) -> PResult<'_, Items> {
    separated_list0(&Tag::new(b".."), &Tag::new(b"abcd"), i)
}

#[test]
fn separated_list0_test() {
    let a = &b"abcdef"[..];
    let b = &b"abcd,abcdef"[..];
    let c = &b"azerty"[..];
    let d = &b",,abc"[..];
    let e = &b"abcd,abcd,ef"[..];
    let f = &b"abc"[..];
    let g = &b"abcd."[..];
    let h = &b"abcd,abc"[..];
    let i = &b"abcabc"[..];

    let res1 = vec![&b"abcd"[..]];
    assert_eq!(sep_list0_abcd(Input::streaming(a)), Ok((Input::streaming(&b"ef"[..]), res1)));
    let res2 = vec![&b"abcd"[..], &b"abcd"[..]];
    assert_eq!(sep_list0_abcd(Input::streaming(b)), Ok((Input::streaming(&b"ef"[..]), res2)));
    assert_eq!(
        sep_list0_abcd(Input::streaming(c)),
        Ok((Input::streaming(&b"azerty"[..]), Vec::new()))
    );
    let res3 = vec![&b""[..], &b""[..], &b""[..]];
    assert_eq!(
        sep_list0_empty_elem(Input::streaming(d)),
        Ok((Input::streaming(&b"abc"[..]), res3))
    );
    let i_err_pos = &i[3..];
    assert_eq!(
        sep_list0_empty_sep(Input::streaming(i)),
        Err(backtrack(Input::streaming(i_err_pos), ErrorKind::SeparatedList))
    );
    let res4 = vec![&b"abcd"[..], &b"abcd"[..]];
    assert_eq!(sep_list0_abcd(Input::streaming(e)), Ok((Input::streaming(&b",ef"[..]), res4)));

    assert_eq!(sep_list0_abcd(Input::streaming(f)), Err(ErrMode::Incomplete(Needed::new(1))));
    assert_eq!(sep_list0_longsep(Input::streaming(g)), Err(ErrMode::Incomplete(Needed::new(1))));
    assert_eq!(sep_list0_abcd(Input::streaming(h)), Err(ErrMode::Incomplete(Needed::new(1))));
}

fn sep_list1_abcd(i: Input<'_>) -> PResult<'_, Items> {
    separated_list1(&Tag::new(b","), &Tag::new(b"abcd"), i)
}

fn sep_list1_longsep(i: Input<'_>) -> PResult<'_, Items> {
    separated_list1(&Tag::new(b".."), &Tag::new(b"abcd"), i)
}

#[test]
fn separated_list1_test() {
    let a = &b"abcdef"[..];
    let b = &b"abcd,abcdef"[..];
    let c = &b"azerty"[..];
    let d = &b"abcd,abcd,ef"[..];

    let f = &b"abc"[..];
    let g = &b"abcd."[..];
    let h = &b"abcd,abc"[..];

    let res1 = vec![&b"abcd"[..]];
    assert_eq!(sep_list1_abcd(Input::streaming(a)), Ok((Input::streaming(&b"ef"[..]), res1)));
    let res2 = vec![&b"abcd"[..], &b"abcd"[..]];
    assert_eq!(sep_list1_abcd(Input::streaming(b)), Ok((Input::streaming(&b"ef"[..]), res2)));
    assert_eq!(
        sep_list1_abcd(Input::streaming(c)),
        Err(backtrack(Input::streaming(c), ErrorKind::Tag))
    );
    let res3 = vec![&b"abcd"[..], &b"abcd"[..]];
    assert_eq!(sep_list1_abcd(Input::streaming(d)), Ok((Input::streaming(&b",ef"[..]), res3)));

    assert_eq!(sep_list1_abcd(Input::streaming(f)), Err(ErrMode::Incomplete(Needed::new(1))));
    assert_eq!(sep_list1_longsep(Input::streaming(g)), Err(ErrMode::Incomplete(Needed::new(1))));
    assert_eq!(sep_list1_abcd(Input::streaming(h)), Err(ErrMode::Incomplete(Needed::new(1))));
}

fn many0_abcd(i: Input<'_>) -> PResult<'_, Items> {
    many0(&Tag::new(b"abcd"), i)
}

fn many0_empty(i: Input<'_>) -> PResult<'_, Items> {
    many0(&Tag::new(b""), i)
}

#[test]
fn many0_test() {
    assert_eq!(
        many0_abcd(Input::streaming(&b"abcdef"[..])),
        Ok((Input::streaming(&b"ef"[..]), vec![&b"abcd"[..]]))
    );
    assert_eq!(
        many0_abcd(Input::streaming(&b"abcdabcdefgh"[..])),
        Ok((Input::streaming(&b"efgh"[..]), vec![&b"abcd"[..], &b"abcd"[..]]))
    );
    assert_eq!(
        many0_abcd(Input::streaming(&b"azerty"[..])),
        Ok((Input::streaming(&b"azerty"[..]), Vec::new()))
    );
    assert_eq!(
        many0_abcd(Input::streaming(&b"abcdab"[..])),
        Err(ErrMode::Incomplete(Needed::new(2)))
    );
    assert_eq!(
        many0_abcd(Input::streaming(&b"abcd"[..])),
        Err(ErrMode::Incomplete(Needed::new(4)))
    );
    assert_eq!(
        many0_abcd(Input::streaming(&b""[..])),
        Err(ErrMode::Incomplete(Needed::new(4)))
    );
    assert_eq!(
        many0_empty(Input::streaming(&b"abcdef"[..])),
        Err(backtrack(Input::streaming(&b"abcdef"[..]), ErrorKind::Many0))
    );
}

fn many1_abcd(i: Input<'_>) -> PResult<'_, Items> {
    many1(&Tag::new(b"abcd"), i)
}

#[test]
fn many1_test() {
    let a = &b"abcdef"[..];
    let b = &b"abcdabcdefgh"[..];
    let c = &b"azerty"[..];
    let d = &b"abcdab"[..];

    let res1 = vec![&b"abcd"[..]];
    assert_eq!(many1_abcd(Input::streaming(a)), Ok((Input::streaming(&b"ef"[..]), res1)));
    let res2 = vec![&b"abcd"[..], &b"abcd"[..]];
    assert_eq!(many1_abcd(Input::streaming(b)), Ok((Input::streaming(&b"efgh"[..]), res2)));
    assert_eq!(
        many1_abcd(Input::streaming(c)),
        Err(backtrack(Input::streaming(c), ErrorKind::Tag))
    );
    assert_eq!(many1_abcd(Input::streaming(d)), Err(ErrMode::Incomplete(Needed::new(2))));
}

fn till_efgh(i: Input<'_>) -> PResult<'_, (Items, &'static [u8])> {
    many_till0(&Tag::new(b"abcd"), &Tag::new(b"efgh"), i)
}

#[test]
fn many_till_test() {
    let a = b"abcdabcdefghabcd";
    let b = b"efghabcd";
    let c = b"azerty";

    let res_a = (vec![&b"abcd"[..], &b"abcd"[..]], &b"efgh"[..]);
    let res_b: (Items, &[u8]) = (Vec::new(), &b"efgh"[..]);
    assert_eq!(till_efgh(Input::new(&a[..])), Ok((Input::new(&b"abcd"[..]), res_a)));
    assert_eq!(till_efgh(Input::new(&b[..])), Ok((Input::new(&b"abcd"[..]), res_b)));
    assert_eq!(
        till_efgh(Input::new(&c[..])),
        Err(backtrack(Input::new(&c[..]), ErrorKind::Tag))
    );
}

// A tag that cannot match "abcdef" fails recoverably at once, with kind `Tag`.
fn never(i: Input<'_>) -> PResult<'_, Items> {
    many0(&Tag::new(b"zzz"), i)
}

fn never1(i: Input<'_>) -> PResult<'_, Items> {
    many1(&Tag::new(b"zzz"), i)
}

#[test]
fn infinite_many() {
    let a = &b"abcdef"[..];
    assert_eq!(never(Input::new(a)), Ok((Input::new(a), Vec::new())));

    let a = &b"abcdef"[..];
    assert_eq!(never1(Input::new(a)), Err(backtrack(Input::new(a), ErrorKind::Tag)));
}

fn many_2_4(i: Input<'_>) -> PResult<'_, Items> {
    many_m_n(2, 4, &Tag::new(b"Abcd"), i)
}

#[test]
fn many_m_n_test() {
    let a = &b"Abcdef"[..];
    let b = &b"AbcdAbcdefgh"[..];
    let c = &b"AbcdAbcdAbcdAbcdefgh"[..];
    let d = &b"AbcdAbcdAbcdAbcdAbcdefgh"[..];
    let e = &b"AbcdAb"[..];

    assert_eq!(
        many_2_4(Input::streaming(a)),
        Err(backtrack(Input::streaming(&b"ef"[..]), ErrorKind::Tag))
    );
    let res1 = vec![&b"Abcd"[..], &b"Abcd"[..]];
    assert_eq!(many_2_4(Input::streaming(b)), Ok((Input::streaming(&b"efgh"[..]), res1)));
    let res2 = vec![&b"Abcd"[..], &b"Abcd"[..], &b"Abcd"[..], &b"Abcd"[..]];
    assert_eq!(many_2_4(Input::streaming(c)), Ok((Input::streaming(&b"efgh"[..]), res2)));
    let res3 = vec![&b"Abcd"[..], &b"Abcd"[..], &b"Abcd"[..], &b"Abcd"[..]];
    assert_eq!(many_2_4(Input::streaming(d)), Ok((Input::streaming(&b"Abcdefgh"[..]), res3)));
    assert_eq!(many_2_4(Input::streaming(e)), Err(ErrMode::Incomplete(Needed::new(2))));
}

const TIMES: usize = 2;

fn cnt_2(i: Input<'_>) -> PResult<'_, Items> {
    count(&Tag::new(b"abc"), TIMES, i)
}

#[test]
fn count_test() {
    assert_eq!(
        cnt_2(Input::streaming(&b"abcabcabcdef"[..])),
        Ok((Input::streaming(&b"abcdef"[..]), vec![&b"abc"[..], &b"abc"[..]]))
    );
    assert_eq!(cnt_2(Input::streaming(&b"ab"[..])), Err(ErrMode::Incomplete(Needed::new(1))));
    assert_eq!(cnt_2(Input::streaming(&b"abcab"[..])), Err(ErrMode::Incomplete(Needed::new(1))));
    assert_eq!(
        cnt_2(Input::streaming(&b"xxx"[..])),
        Err(backtrack(Input::streaming(&b"xxx"[..]), ErrorKind::Tag))
    );
    assert_eq!(
        cnt_2(Input::streaming(&b"xxxabcabcdef"[..])),
        Err(backtrack(Input::streaming(&b"xxxabcabcdef"[..]), ErrorKind::Tag))
    );
    assert_eq!(
        cnt_2(Input::streaming(&b"abcxxxabcdef"[..])),
        Err(backtrack(Input::streaming(&b"xxxabcdef"[..]), ErrorKind::Tag))
    );
}

fn counter_0(i: Input<'_>) -> PResult<'_, Items> {
    count(&Tag::new(b"abc"), 0, i)
}

#[test]
fn count_zero() {
    let done = &b"abcabcabcdef"[..];
    let parsed_done: Items = Vec::new();
    let rest = done;
    let incomplete_1 = &b"ab"[..];
    let parsed_incompl_1: Items = Vec::new();
    let incomplete_2 = &b"abcab"[..];
    let parsed_incompl_2: Items = Vec::new();
    let error = &b"xxx"[..];
    let error_remain = &b"xxx"[..];
    let parsed_err: Items = Vec::new();
    let error_1 = &b"xxxabcabcdef"[..];
    let parsed_err_1: Items = Vec::new();
    let error_1_remain = &b"xxxabcabcdef"[..];
    let error_2 = &b"abcxxxabcdef"[..];
    let parsed_err_2: Items = Vec::new();
    let error_2_remain = &b"abcxxxabcdef"[..];

    assert_eq!(counter_0(Input::new(done)), Ok((Input::new(rest), parsed_done)));
    assert_eq!(
        counter_0(Input::new(incomplete_1)),
        Ok((Input::new(incomplete_1), parsed_incompl_1))
    );
    assert_eq!(
        counter_0(Input::new(incomplete_2)),
        Ok((Input::new(incomplete_2), parsed_incompl_2))
    );
    assert_eq!(counter_0(Input::new(error)), Ok((Input::new(error_remain), parsed_err)));
    assert_eq!(counter_0(Input::new(error_1)), Ok((Input::new(error_1_remain), parsed_err_1)));
    assert_eq!(counter_0(Input::new(error_2)), Ok((Input::new(error_2_remain), parsed_err_2)));
}

fn cnt_prefixed(i: Input<'_>) -> PResult<'_, Items> {
    length_count(&Decimal, &Tag::new(b"abc"), i)
}

#[test]
fn length_count_test() {
    assert_eq!(
        cnt_prefixed(Input::streaming(&b"2abcabcabcdef"[..])),
        Ok((Input::streaming(&b"abcdef"[..]), vec![&b"abc"[..], &b"abc"[..]]))
    );
    assert_eq!(
        cnt_prefixed(Input::streaming(&b"2ab"[..])),
        Err(ErrMode::Incomplete(Needed::new(1)))
    );
    assert_eq!(
        cnt_prefixed(Input::streaming(&b"3abcab"[..])),
        Err(ErrMode::Incomplete(Needed::new(1)))
    );
    assert_eq!(
        cnt_prefixed(Input::streaming(&b"xxx"[..])),
        Err(backtrack(Input::streaming(&b"xxx"[..]), ErrorKind::Digit))
    );
    assert_eq!(
        cnt_prefixed(Input::streaming(&b"2abcxxx"[..])),
        Err(backtrack(Input::streaming(&b"xxx"[..]), ErrorKind::Tag))
    );
}

#[test]
fn length_data_test() {
    assert_eq!(
        length_data(&Decimal, Input::streaming(&b"6abcabcabcdef"[..])),
        Ok((Input::streaming(&b"abcdef"[..]), Input::streaming(&b"abcabc"[..])))
    );
    assert_eq!(
        length_data(&Decimal, Input::streaming(&b"3ab"[..])),
        Err(ErrMode::Incomplete(Needed::new(1)))
    );
    assert_eq!(
        length_data(&Decimal, Input::streaming(&b"xxx"[..])),
        Err(backtrack(Input::streaming(&b"xxx"[..]), ErrorKind::Digit))
    );
    assert_eq!(
        length_data(&Decimal, Input::streaming(&b"2abcxxx"[..])),
        Ok((Input::streaming(&b"cxxx"[..]), Input::streaming(&b"ab"[..])))
    );
}

fn length_value_1(i: Input<'_>) -> PResult<'_, u16> {
    length_value(&BeU8, &BeU16, i)
}

fn length_value_2(i: Input<'_>) -> PResult<'_, (u8, u8)> {
    length_value(&BeU8, &Pair::new(BeU8, BeU8), i)
}

#[test]
fn length_value_test() {
    let i1 = [0, 5, 6];
    assert_eq!(
        length_value_1(Input::streaming(&i1)),
        Err(backtrack(Input::streaming(&b""[..]), ErrorKind::Complete))
    );
    assert_eq!(
        length_value_2(Input::streaming(&i1)),
        Err(backtrack(Input::streaming(&b""[..]), ErrorKind::Complete))
    );

    let i2 = [1, 5, 6, 3];
    assert_eq!(
        length_value_1(Input::streaming(&i2)),
        Err(backtrack(Input::streaming(&i2[1..2]), ErrorKind::Complete))
    );
    assert_eq!(
        length_value_2(Input::streaming(&i2)),
        Err(backtrack(Input::streaming(&i2[1..2]), ErrorKind::Complete))
    );

    let i3 = [2, 5, 6, 3, 4, 5, 7];
    assert_eq!(length_value_1(Input::streaming(&i3)), Ok((Input::streaming(&i3[3..]), 1286)));
    assert_eq!(length_value_2(Input::streaming(&i3)), Ok((Input::streaming(&i3[3..]), (5, 6))));

    // The carved view holds three bytes and the inner parsers read two: the
    // byte left unread makes the parse fail.
    let i4 = [3, 5, 6, 3, 4, 5];
    assert_eq!(
        length_value_1(Input::streaming(&i4)),
        Err(backtrack(Input::streaming(&i4[3..4]), ErrorKind::Eof))
    );
    assert_eq!(
        length_value_2(Input::streaming(&i4)),
        Err(backtrack(Input::streaming(&i4[3..4]), ErrorKind::Eof))
    );
}

fn fold0_abcd(i: Input<'_>) -> PResult<'_, Items> {
    fold_many0(&Tag::new(b"abcd"), Vec::new, fold_into_vec, i)
}

fn fold0_empty(i: Input<'_>) -> PResult<'_, Items> {
    fold_many0(&Tag::new(b""), Vec::new, fold_into_vec, i)
}

#[test]
fn fold_many0_test() {
    assert_eq!(
        fold0_abcd(Input::streaming(&b"abcdef"[..])),
        Ok((Input::streaming(&b"ef"[..]), vec![&b"abcd"[..]]))
    );
    assert_eq!(
        fold0_abcd(Input::streaming(&b"abcdabcdefgh"[..])),
        Ok((Input::streaming(&b"efgh"[..]), vec![&b"abcd"[..], &b"abcd"[..]]))
    );
    assert_eq!(
        fold0_abcd(Input::streaming(&b"azerty"[..])),
        Ok((Input::streaming(&b"azerty"[..]), Vec::new()))
    );
    assert_eq!(
        fold0_abcd(Input::streaming(&b"abcdab"[..])),
        Err(ErrMode::Incomplete(Needed::new(2)))
    );
    assert_eq!(
        fold0_abcd(Input::streaming(&b"abcd"[..])),
        Err(ErrMode::Incomplete(Needed::new(4)))
    );
    assert_eq!(
        fold0_abcd(Input::streaming(&b""[..])),
        Err(ErrMode::Incomplete(Needed::new(4)))
    );
    assert_eq!(
        fold0_empty(Input::streaming(&b"abcdef"[..])),
        Err(backtrack(Input::streaming(&b"abcdef"[..]), ErrorKind::Many0))
    );
}

fn fold1_abcd(i: Input<'_>) -> PResult<'_, Items> {
    fold_many1(&Tag::new(b"abcd"), Vec::new, fold_into_vec, i)
}

#[test]
fn fold_many1_test() {
    let a = &b"abcdef"[..];
    let b = &b"abcdabcdefgh"[..];
    let c = &b"azerty"[..];
    let d = &b"abcdab"[..];

    let res1 = vec![&b"abcd"[..]];
    assert_eq!(fold1_abcd(Input::streaming(a)), Ok((Input::streaming(&b"ef"[..]), res1)));
    let res2 = vec![&b"abcd"[..], &b"abcd"[..]];
    assert_eq!(fold1_abcd(Input::streaming(b)), Ok((Input::streaming(&b"efgh"[..]), res2)));
    assert_eq!(
        fold1_abcd(Input::streaming(c)),
        Err(backtrack(Input::streaming(c), ErrorKind::Many1))
    );
    assert_eq!(fold1_abcd(Input::streaming(d)), Err(ErrMode::Incomplete(Needed::new(2))));
}

fn fold_2_4(i: Input<'_>) -> PResult<'_, Items> {
    fold_many_m_n(2, 4, &Tag::new(b"Abcd"), Vec::new, fold_into_vec, i)
}

#[test]
fn fold_many_m_n_test() {
    let a = &b"Abcdef"[..];
    let b = &b"AbcdAbcdefgh"[..];
    let c = &b"AbcdAbcdAbcdAbcdefgh"[..];
    let d = &b"AbcdAbcdAbcdAbcdAbcdefgh"[..];
    let e = &b"AbcdAb"[..];

    assert_eq!(
        fold_2_4(Input::streaming(a)),
        Err(backtrack(Input::streaming(&b"ef"[..]), ErrorKind::Tag))
    );
    let res1 = vec![&b"Abcd"[..], &b"Abcd"[..]];
    assert_eq!(fold_2_4(Input::streaming(b)), Ok((Input::streaming(&b"efgh"[..]), res1)));
    let res2 = vec![&b"Abcd"[..], &b"Abcd"[..], &b"Abcd"[..], &b"Abcd"[..]];
    assert_eq!(fold_2_4(Input::streaming(c)), Ok((Input::streaming(&b"efgh"[..]), res2)));
    let res3 = vec![&b"Abcd"[..], &b"Abcd"[..], &b"Abcd"[..], &b"Abcd"[..]];
    assert_eq!(fold_2_4(Input::streaming(d)), Ok((Input::streaming(&b"Abcdefgh"[..]), res3)));
    assert_eq!(fold_2_4(Input::streaming(e)), Err(ErrMode::Incomplete(Needed::new(2))));
}

fn count0_nums(i: Input<'_>) -> PResult<'_, usize> {
    many0(&Pair::new(Digits, Tag::new(b",")), i)
}

#[test]
fn many0_count_test() {
    assert_eq!(count0_nums(Input::new(&b"123,junk"[..])), Ok((Input::new(&b"junk"[..]), 1)));

    assert_eq!(count0_nums(Input::new(&b"123,45,junk"[..])), Ok((Input::new(&b"junk"[..]), 2)));

    assert_eq!(
        count0_nums(Input::new(&b"1,2,3,4,5,6,7,8,9,0,junk"[..])),
        Ok((Input::new(&b"junk"[..]), 10))
    );

    assert_eq!(count0_nums(Input::new(&b"hello"[..])), Ok((Input::new(&b"hello"[..]), 0)));
}

fn count1_nums(i: Input<'_>) -> PResult<'_, usize> {
    many1(&Pair::new(Digits, Tag::new(b",")), i)
}

#[test]
fn many1_count_test() {
    assert_eq!(count1_nums(Input::new(&b"123,45,junk"[..])), Ok((Input::new(&b"junk"[..]), 2)));

    assert_eq!(
        count1_nums(Input::new(&b"1,2,3,4,5,6,7,8,9,0,junk"[..])),
        Ok((Input::new(&b"junk"[..]), 10))
    );

    assert_eq!(
        count1_nums(Input::new(&b"hello"[..])),
        Err(backtrack(Input::new(&b"hello"[..]), ErrorKind::Digit))
    );
}
