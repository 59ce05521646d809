//! Sampling rates of a family of sensors, as written in the configuration.
use vstd::prelude::*;
use crate::text::{char_views, chars_of, parse_number, read_number, tokens, tokens_of};

verus! {

/// The rate that a token gives: a number from 1 to `u32::MAX`.
pub open spec fn token_rate(token: Seq<char>) -> Option<u32> {
    match read_number(token, u32::MAX as nat) {
        Ok(v) => if v > 0 {
            Some(v as u32)
        } else {
            None
        },
        Err(_) => None,
    }
}

/// The rates that a list of tokens gives, in order; other tokens are skipped.
pub open spec fn token_rates(list: Seq<Seq<char>>) -> Seq<u32>
    decreases list.len(),
{
    if list.len() == 0 {
        Seq::empty()
    } else {
        match token_rate(list.last()) {
            Some(rate) => token_rates(list.drop_last()).push(rate),
            None => token_rates(list.drop_last()),
        }
    }
}

/// The rates in a specification, or the default rate where it names none.
pub open spec fn rates_in(spec_text: Seq<char>, default_rate: u32) -> Seq<u32> {
    if token_rates(tokens(spec_text)).len() == 0 {
        seq![default_rate]
    } else {
        token_rates(tokens(spec_text))
    }
}

/// Parses a list of rates separated by white space, such as `50 30`. Tokens that are no positive
/// number are skipped; where none is left the list holds the default rate.
pub fn parse_rates(spec_text: &str, default_rate: u32) -> (r: Vec<u32>)
    ensures
        r@ == rates_in(spec_text@, default_rate),
        r@.len() > 0,
{
    let chars = chars_of(spec_text);
    let list = tokens_of(&chars);
    let ghost all = tokens(spec_text@);
    let mut parsed: Vec<u32> = Vec::new();
    let mut i: usize = 0;
    while i < list.len()
        invariant
            i <= list.len(),
            char_views(list@) == all,
            parsed@ == token_rates(all.take(i as int)),
        decreases list.len() - i,
    {
        proof {
            assert(all.take(i + 1).drop_last() =~= all.take(i as int));
            assert(all.take(i + 1).last() == char_views(list@)[i as int]);
            assert(all[i as int] == list@[i as int]@);
        }
        match parse_number(&list[i], u32::MAX as u64) {
            Ok(v) => {
                if v > 0 {
                    parsed.push(v as u32);
                }
            },
            Err(_) => {},
        }
        i = i + 1;
    }
    proof {
        assert(all.take(i as int) =~= all);
    }
    if parsed.len() == 0 {
        vec![default_rate]
    } else {
        parsed
    }
}

/// The rate of sensor `idx`: the last one in the list serves all further sensors.
pub open spec fn rate_at(rates: Seq<u32>, idx: int) -> u32 {
    if idx < rates.len() {
        rates[idx]
    } else if rates.len() > 0 {
        rates.last()
    } else {
        1
    }
}

/// The rate of the sensor with index `idx` in its family.
pub fn rate_for_index(rates: &[u32], idx: usize) -> (r: u32)
    ensures
        r == rate_at(rates@, idx as int),
{
    if idx < rates.len() {
        rates[idx]
    } else if rates.len() > 0 {
        rates[rates.len() - 1]
    } else {
        1
    }
}

proof fn lemma_token_rates_positive(list: Seq<Seq<char>>)
    ensures
        forall|i: int| 0 <= i < token_rates(list).len() ==> #[trigger] token_rates(list)[i] > 0,
    decreases list.len(),
{
    if list.len() > 0 {
        lemma_token_rates_positive(list.drop_last());
        let init = token_rates(list.drop_last());
        assert forall|i: int| 0 <= i < token_rates(list).len() implies #[trigger] token_rates(
            list,
        )[i] > 0 by {
            if i < init.len() {
                assert(token_rates(list)[i] == init[i]);
            }
        }
    }
}

/// With a positive default, every sensor of a family gets a positive rate.
pub proof fn lemma_rates_positive(spec_text: Seq<char>, default_rate: u32, idx: int)
    requires
        default_rate > 0,
        0 <= idx,
    ensures
        rates_in(spec_text, default_rate).len() > 0,
        rate_at(rates_in(spec_text, default_rate), idx) > 0,
{
    lemma_token_rates_positive(tokens(spec_text));
}

/// A token gives a rate exactly where it is a number from 1 to the largest of 32 bits; the rate is
/// that number.
pub proof fn lemma_token_rate(token: Seq<char>)
    ensures
        token_rate(token) matches Some(rate) ==> rate > 0 && read_number(token, 0xffff_ffff) == Ok::<
            nat,
            crate::text::NumberError,
        >(rate as nat),
        token_rate(token) is None <==> read_number(token, 0xffff_ffff) is Err || read_number(
            token,
            0xffff_ffff,
        ) == Ok::<nat, crate::text::NumberError>(0),
{
    crate::text::lemma_read_number_is_decimal_value(token, 0xffff_ffff);
}

/// The rates of two lists of tokens are those of the first, then those of the second; the rate of
/// one token is the one it gives, if any.
pub proof fn lemma_rates_of_two_lists(a: Seq<Seq<char>>, b: Seq<Seq<char>>, token: Seq<char>)
    ensures
        token_rates(Seq::empty()) == Seq::<u32>::empty(),
        token_rates(a + b) == token_rates(a) + token_rates(b),
        token_rate(token) matches Some(rate) ==> token_rates(seq![token]) == seq![rate],
        token_rate(token) is None ==> token_rates(seq![token]) == Seq::<u32>::empty(),
    decreases b.len(),
{
    assert(seq![token].drop_last() =~= Seq::empty());
    assert(token_rates(seq![token].drop_last()) =~= Seq::empty());
    if let Some(rate) = token_rate(token) {
        assert(token_rates(seq![token]) =~= seq![rate]);
    }
    if b.len() == 0 {
        assert(a + b =~= a);
        assert(token_rates(a) + Seq::<u32>::empty() =~= token_rates(a));
    } else {
        lemma_rates_of_two_lists(a, b.drop_last(), token);
        assert((a + b).drop_last() =~= a + b.drop_last());
        let x = token_rates(a);
        let y = token_rates(b.drop_last());
        if let Some(rate) = token_rate(b.last()) {
            assert(x + y.push(rate) =~= (x + y).push(rate));
        }
    }
}

/// Rates that are written with a space between them are read back in order; where nothing is
/// written the default rate serves.
pub proof fn lemma_written_rates_are_read_back(a: u32, b: u32, default_rate: u32)
    requires
        a > 0,
        b > 0,
    ensures
        rates_in(crate::text::decimal(a as nat), default_rate) == seq![a],
        rates_in(
            crate::text::decimal(a as nat) + seq![' '] + crate::text::decimal(b as nat),
            default_rate,
        ) == seq![a, b],
        rates_in(Seq::empty(), default_rate) == seq![default_rate],
{
    let x = crate::text::decimal(a as nat);
    let y = crate::text::decimal(b as nat);
    crate::text::lemma_decimal_round_trip(a as nat);
    crate::text::lemma_decimal_round_trip(b as nat);
    assert forall|i: int| 0 <= i < x.len() implies !crate::text::is_white_space(
        #[trigger] x[i],
    ) by {
        assert(crate::text::is_digit(x[i]));
    }
    assert forall|i: int| 0 <= i < y.len() implies !crate::text::is_white_space(
        #[trigger] y[i],
    ) by {
        assert(crate::text::is_digit(y[i]));
    }
    crate::text::lemma_solid_text_is_one_token(x);
    crate::text::lemma_solid_text_is_one_token(y);
    crate::text::lemma_white_space_separates_tokens(x, ' ', y);
    crate::text::lemma_read_decimal(a as nat, 0xffff_ffff);
    crate::text::lemma_read_decimal(b as nat, 0xffff_ffff);
    lemma_rates_of_two_lists(seq![x], seq![y], x);
    lemma_rates_of_two_lists(seq![x], seq![y], y);
    assert(seq![a] + seq![b] =~= seq![a, b]);
}

/// The rates of a specification are those that its tokens give, or the default alone where they
/// give none.
pub proof fn lemma_rates_in(spec_text: Seq<char>, default_rate: u32)
    ensures
        token_rates(tokens(spec_text)).len() > 0 ==> rates_in(spec_text, default_rate)
            == token_rates(tokens(spec_text)),
        token_rates(tokens(spec_text)).len() == 0 ==> rates_in(spec_text, default_rate) == seq![
            default_rate,
        ],
{
}

/// Each sensor has its own rate; those past the last rate have the last.
pub proof fn lemma_rate_at(rates: Seq<u32>, idx: int)
    requires
        0 <= idx,
    ensures
        idx < rates.len() ==> rate_at(rates, idx) == rates[idx],
        0 < rates.len() <= idx ==> rate_at(rates, idx) == rates[rates.len() - 1],
        rates.len() == 0 ==> rate_at(rates, idx) == 1,
{
}

} // verus!
