//! Text primitives: white space, tokens and decimal numbers.
use vstd::prelude::*;
use vstd::string::StringExecFns;

verus! {

/// The Unicode `White_Space` property.
pub open spec fn is_white_space(c: char) -> bool {
    let n = c as u32;
    ||| 0x09 <= n <= 0x0d
    ||| n == 0x20
    ||| n == 0x85
    ||| n == 0xa0
    ||| n == 0x1680
    ||| 0x2000 <= n <= 0x200a
    ||| n == 0x2028
    ||| n == 0x2029
    ||| n == 0x202f
    ||| n == 0x205f
    ||| n == 0x3000
}

/// Whether `c` separates tokens.
pub fn white_space(c: char) -> (b: bool)
    ensures
        b == is_white_space(c),
{
    let n: u32 = c as u32;
    (0x09 <= n && n <= 0x0d) || n == 0x20 || n == 0x85 || n == 0xa0 || n == 0x1680 || (0x2000 <= n
        && n <= 0x200a) || n == 0x2028 || n == 0x2029 || n == 0x202f || n == 0x205f || n == 0x3000
}

/// The characters of `s`, in order.
pub fn chars_of(s: &str) -> (v: Vec<char>)
    ensures
        v@ == s@,
{
    let mut v: Vec<char> = Vec::new();
    for c in it: s.chars()
        invariant
            v@ == it.seq().take(it.index() as int),
            it.seq() == s@,
    {
        v.push(c);
    }
    v
}

/// Length of the leading run of characters that are not white space.
pub open spec fn token_len(s: Seq<char>) -> nat
    decreases s.len(),
{
    if s.len() == 0 || is_white_space(s[0]) {
        0
    } else {
        1 + token_len(s.skip(1))
    }
}

/// The maximal runs of characters that are not white space, in order.
pub open spec fn tokens(s: Seq<char>) -> Seq<Seq<char>>
    decreases s.len(),
{
    if s.len() == 0 {
        Seq::empty()
    } else if is_white_space(s[0]) {
        tokens(s.skip(1))
    } else if token_len(s) >= s.len() {
        seq![s]
    } else {
        seq![s.take(token_len(s) as int)] + tokens(s.skip(token_len(s) as int))
    }
}

/// `s` without its white space.
pub open spec fn without_white_space(s: Seq<char>) -> Seq<char>
    decreases s.len(),
{
    if s.len() == 0 {
        Seq::empty()
    } else if is_white_space(s[0]) {
        without_white_space(s.skip(1))
    } else {
        seq![s[0]] + without_white_space(s.skip(1))
    }
}

/// The concatenation of `parts`.
pub open spec fn joined(parts: Seq<Seq<char>>) -> Seq<char>
    decreases parts.len(),
{
    if parts.len() == 0 {
        Seq::empty()
    } else {
        parts[0] + joined(parts.skip(1))
    }
}

proof fn lemma_token_len(s: Seq<char>)
    ensures
        token_len(s) <= s.len(),
        forall|i: int| 0 <= i < token_len(s) ==> !is_white_space(#[trigger] s[i]),
        token_len(s) < s.len() ==> is_white_space(s[token_len(s) as int]),
    decreases s.len(),
{
    if s.len() > 0 && !is_white_space(s[0]) {
        let t = s.skip(1);
        lemma_token_len(t);
        assert forall|i: int| 0 <= i < token_len(s) implies !is_white_space(#[trigger] s[i]) by {
            if i > 0 {
                assert(s[i] == t[i - 1]);
            }
        }
    }
}

proof fn lemma_token_len_at(s: Seq<char>, n: nat)
    requires
        n <= s.len(),
        forall|i: int| 0 <= i < n ==> !is_white_space(#[trigger] s[i]),
        n < s.len() ==> is_white_space(s[n as int]),
    ensures
        token_len(s) == n,
    decreases n,
{
    if n > 0 {
        let t = s.skip(1);
        assert forall|i: int| 0 <= i < n - 1 implies !is_white_space(#[trigger] t[i]) by {
            assert(t[i] == s[i + 1]);
        }
        assert(!is_white_space(s[0]));
        lemma_token_len_at(t, (n - 1) as nat);
    }
}

/// Whether `t` is non-empty and holds no white space.
pub open spec fn is_solid(t: Seq<char>) -> bool {
    &&& t.len() > 0
    &&& forall|i: int| 0 <= i < t.len() ==> !is_white_space(#[trigger] t[i])
}

/// Every token is non-empty and holds no white space.
pub proof fn lemma_tokens_are_solid(s: Seq<char>)
    ensures
        forall|k: int| 0 <= k < tokens(s).len() ==> is_solid(#[trigger] tokens(s)[k]),
    decreases s.len(),
{
    if s.len() > 0 {
        lemma_token_len(s);
        if is_white_space(s[0]) {
            lemma_tokens_are_solid(s.skip(1));
            assert(tokens(s) == tokens(s.skip(1)));
        } else if token_len(s) < s.len() {
            let rest = s.skip(token_len(s) as int);
            let head = s.take(token_len(s) as int);
            lemma_tokens_are_solid(rest);
            assert(tokens(s) == seq![head] + tokens(rest));
            assert(is_solid(head));
            assert forall|k: int| 0 <= k < tokens(s).len() implies is_solid(
                #[trigger] tokens(s)[k],
            ) by {
                if k > 0 {
                    assert(tokens(s)[k] == tokens(rest)[k - 1]);
                }
            }
        } else {
            assert(is_solid(s));
            assert(tokens(s) == seq![s]);
        }
    }
}

proof fn lemma_joined_push_front(head: Seq<char>, rest: Seq<Seq<char>>)
    ensures
        joined(seq![head] + rest) == head + joined(rest),
{
    assert((seq![head] + rest).skip(1) =~= rest);
}

proof fn lemma_without_white_space_prefix(s: Seq<char>, n: nat)
    requires
        n <= s.len(),
        forall|i: int| 0 <= i < n ==> !is_white_space(#[trigger] s[i]),
    ensures
        without_white_space(s) == s.take(n as int) + without_white_space(s.skip(n as int)),
    decreases n,
{
    if n == 0 {
        assert(s.skip(0) =~= s);
        assert(s.take(0) =~= Seq::empty());
    } else {
        let t = s.skip(1);
        assert forall|i: int| 0 <= i < n - 1 implies !is_white_space(#[trigger] t[i]) by {
            assert(t[i] == s[i + 1]);
        }
        assert(!is_white_space(s[0]));
        lemma_without_white_space_prefix(t, (n - 1) as nat);
        assert(t.skip(n - 1) =~= s.skip(n as int));
        assert(seq![s[0]] + t.take(n - 1) =~= s.take(n as int));
        assert(seq![s[0]] + (t.take(n - 1) + without_white_space(s.skip(n as int))) =~= s.take(
            n as int,
        ) + without_white_space(s.skip(n as int)));
    }
}

/// The tokens hold every character that is not white space, in order and nothing else.
pub proof fn lemma_tokens_keep_all_characters(s: Seq<char>)
    ensures
        joined(tokens(s)) == without_white_space(s),
    decreases s.len(),
{
    if s.len() > 0 {
        lemma_token_len(s);
        let n = token_len(s);
        if is_white_space(s[0]) {
            lemma_tokens_keep_all_characters(s.skip(1));
        } else if n >= s.len() {
            lemma_without_white_space_prefix(s, s.len());
            assert(s.take(s.len() as int) =~= s);
            assert(s.skip(s.len() as int) =~= Seq::<char>::empty());
            lemma_joined_push_front(s, Seq::empty());
            assert(seq![s] + Seq::<Seq<char>>::empty() =~= seq![s]);
        } else {
            lemma_tokens_keep_all_characters(s.skip(n as int));
            lemma_without_white_space_prefix(s, n);
            lemma_joined_push_front(s.take(n as int), tokens(s.skip(n as int)));
        }
    }
}

/// The views of a list of character vectors.
pub open spec fn char_views(v: Seq<Vec<char>>) -> Seq<Seq<char>> {
    v.map_values(|t: Vec<char>| t@)
}

/// Splits `s` at white space.
pub fn tokens_of(s: &Vec<char>) -> (r: Vec<Vec<char>>)
    ensures
        char_views(r@) == tokens(s@),
{
    let mut r: Vec<Vec<char>> = Vec::new();
    let mut i: usize = 0;
    proof {
        assert(s@.skip(0) =~= s@);
        assert(char_views(r@) + tokens(s@) =~= tokens(s@));
    }
    while i < s.len()
        invariant
            i <= s.len(),
            char_views(r@) + tokens(s@.skip(i as int)) == tokens(s@),
        decreases s.len() - i,
    {
        let ghost rest = s@.skip(i as int);
        if white_space(s[i]) {
            i = i + 1;
            assert(rest.skip(1) =~= s@.skip(i as int));
        } else {
            let start = i;
            let mut token: Vec<char> = Vec::new();
            while i < s.len() && !white_space(s[i])
                invariant
                    start <= i <= s.len(),
                    token@ == s@.subrange(start as int, i as int),
                    forall|k: int| start <= k < i ==> !is_white_space(#[trigger] s@[k]),
                ensures
                    i < s.len() ==> is_white_space(s@[i as int]),
                decreases s.len() - i,
            {
                token.push(s[i]);
                i = i + 1;
            }
            proof {
                let n = (i - start) as nat;
                assert forall|k: int| 0 <= k < n implies !is_white_space(#[trigger] rest[k]) by {
                    assert(rest[k] == s@[start + k]);
                }
                lemma_token_len_at(rest, n);
                assert(rest.take(n as int) =~= token@);
                assert(rest.skip(n as int) =~= s@.skip(i as int));
                if n >= rest.len() {
                    assert(rest =~= token@);
                    assert(tokens(s@.skip(i as int)) =~= Seq::empty());
                }
                assert(tokens(rest) =~= seq![token@] + tokens(s@.skip(i as int)));
            }
            let ghost before = r@;
            r.push(token);
            proof {
                assert(char_views(r@) =~= char_views(before).push(token@));
                assert(char_views(r@) + tokens(s@.skip(i as int)) =~= char_views(before) + (
                seq![token@] + tokens(s@.skip(i as int))));
            }
        }
    }
    proof {
        assert(tokens(s@.skip(i as int)) =~= Seq::empty());
        assert(char_views(r@) + Seq::<Seq<char>>::empty() =~= char_views(r@));
    }
    r
}

/// Why a token is not a number.
#[derive(Clone, Copy, Debug, PartialEq, Eq, Structural)]
pub enum NumberError {
    /// Nothing to read.
    Empty,
    /// A character that is no decimal digit.
    InvalidDigit,
    /// The value is above the largest allowed.
    TooLarge,
}

impl NumberError {
    /// The text for this error.
    pub open spec fn text(self) -> Seq<char> {
        match self {
            NumberError::Empty => "cannot parse integer from empty string"@,
            NumberError::InvalidDigit => "invalid digit found in string"@,
            NumberError::TooLarge => "number too large to fit in target type"@,
        }
    }

    /// Describes the error.
    pub fn message(&self) -> (r: String)
        ensures
            r@ == self.text(),
    {
        match self {
            NumberError::Empty => "cannot parse integer from empty string".to_string(),
            NumberError::InvalidDigit => "invalid digit found in string".to_string(),
            NumberError::TooLarge => "number too large to fit in target type".to_string(),
        }
    }
}

/// Whether `c` is an ASCII decimal digit.
pub open spec fn is_digit(c: char) -> bool {
    '0' <= c <= '9'
}

/// The value of the digit `c`.
pub open spec fn digit_value(c: char) -> nat
    recommends
        is_digit(c),
{
    (c as int - '0' as int) as nat
}

/// The number that the digits of `s` write in base ten.
pub open spec fn decimal_value(s: Seq<char>) -> nat
    decreases s.len(),
{
    if s.len() == 0 {
        0
    } else {
        decimal_value(s.drop_last()) * 10 + digit_value(s.last())
    }
}

/// Reads digits from the left and stops at the first that cannot be taken.
pub open spec fn read_digits(s: Seq<char>, max: nat) -> Result<nat, NumberError>
    decreases s.len(),
{
    if s.len() == 0 {
        Ok(0)
    } else {
        match read_digits(s.drop_last(), max) {
            Err(e) => Err(e),
            Ok(v) => if !is_digit(s.last()) {
                Err(NumberError::InvalidDigit)
            } else if v * 10 + digit_value(s.last()) > max {
                Err(NumberError::TooLarge)
            } else {
                Ok(v * 10 + digit_value(s.last()))
            },
        }
    }
}

/// Reads an unsigned number of at most `max`: an optional plus sign, then digits.
pub open spec fn read_number(s: Seq<char>, max: nat) -> Result<nat, NumberError> {
    if s.len() == 0 {
        Err(NumberError::Empty)
    } else if s == seq!['+'] {
        Err(NumberError::InvalidDigit)
    } else if s[0] == '+' {
        read_digits(s.skip(1), max)
    } else {
        read_digits(s, max)
    }
}

/// The digits of a number: what follows its optional plus sign.
pub open spec fn unsigned_part(s: Seq<char>) -> Seq<char> {
    if s.len() > 0 && s[0] == '+' {
        s.skip(1)
    } else {
        s
    }
}

/// Whether every character of `s` is a digit.
pub open spec fn all_digits(s: Seq<char>) -> bool {
    forall|i: int| 0 <= i < s.len() ==> is_digit(#[trigger] s[i])
}

proof fn lemma_read_digits(s: Seq<char>, max: nat)
    ensures
        read_digits(s, max) is Ok <==> all_digits(s) && decimal_value(s) <= max,
        read_digits(s, max) matches Ok(v) ==> v == decimal_value(s),
    decreases s.len(),
{
    if s.len() > 0 {
        let t = s.drop_last();
        lemma_read_digits(t, max);
        if all_digits(s) {
            assert forall|i: int| 0 <= i < t.len() implies is_digit(#[trigger] t[i]) by {
                assert(t[i] == s[i]);
            }
            assert(is_digit(s[s.len() - 1]));
        }
        if all_digits(t) && is_digit(s.last()) {
            assert forall|i: int| 0 <= i < s.len() implies is_digit(#[trigger] s[i]) by {
                if i < t.len() {
                    assert(t[i] == s[i]);
                }
            }
        }
    }
}

/// A text is a number exactly when it is one or more digits, after an optional plus sign,
/// whose value is at most `max`; the number is that value.
pub proof fn lemma_read_number_is_decimal_value(s: Seq<char>, max: nat)
    ensures
        read_number(s, max) is Ok <==> unsigned_part(s).len() > 0 && all_digits(unsigned_part(s))
            && decimal_value(unsigned_part(s)) <= max,
        read_number(s, max) matches Ok(v) ==> v == decimal_value(unsigned_part(s)),
{
    lemma_read_digits(unsigned_part(s), max);
    if s.len() == 1 && s[0] == '+' {
        assert(s =~= seq!['+']);
    }
}

/// Reads the digits of `s` from index `from` on.
fn parse_digits(s: &Vec<char>, from: usize, max: u64) -> (r: Result<u64, NumberError>)
    requires
        from <= s.len(),
    ensures
        match r {
            Ok(v) => read_digits(s@.skip(from as int), max as nat) == Ok::<nat, NumberError>(
                v as nat,
            ),
            Err(e) => read_digits(s@.skip(from as int), max as nat) == Err::<nat, NumberError>(e),
        },
{
    let mut value: u64 = 0;
    let mut i: usize = from;
    let ghost all = s@.skip(from as int);
    while i < s.len()
        invariant
            from <= i <= s.len(),
            all == s@.skip(from as int),
            read_digits(all.take(i - from), max as nat) == Ok::<nat, NumberError>(value as nat),
            value <= max,
        decreases s.len() - i,
    {
        let c = s[i];
        let ghost prefix = all.take(i - from + 1);
        proof {
            assert(prefix.drop_last() =~= all.take(i - from));
            assert(prefix.last() == c);
        }
        if !('0' <= c && c <= '9') {
            proof {
                lemma_read_digits_error(all, prefix.len() as int, max as nat);
            }
            return Err(NumberError::InvalidDigit);
        }
        let digit: u64 = (c as u32 - '0' as u32) as u64;
        if digit > max || value > max / 10 || value * 10 > max - digit {
            proof {
                lemma_read_digits_error(all, prefix.len() as int, max as nat);
            }
            return Err(NumberError::TooLarge);
        }
        value = value * 10 + digit;
        i = i + 1;
    }
    proof {
        assert(all.take(i - from) =~= all);
    }
    Ok(value)
}

proof fn lemma_read_digits_error(s: Seq<char>, n: int, max: nat)
    requires
        0 <= n <= s.len(),
        read_digits(s.take(n), max) is Err,
    ensures
        read_digits(s, max) == read_digits(s.take(n), max),
    decreases s.len() - n,
{
    if n == s.len() {
        assert(s.take(n) =~= s);
    } else {
        assert(s.take(n + 1).drop_last() =~= s.take(n));
        lemma_read_digits_error(s, n + 1, max);
    }
}

/// Parses `s` as an unsigned number of at most `max`.
pub fn parse_number(s: &Vec<char>, max: u64) -> (r: Result<u64, NumberError>)
    ensures
        match r {
            Ok(v) => read_number(s@, max as nat) == Ok::<nat, NumberError>(v as nat),
            Err(e) => read_number(s@, max as nat) == Err::<nat, NumberError>(e),
        },
{
    if s.len() == 0 {
        return Err(NumberError::Empty);
    }
    if s[0] == '+' {
        if s.len() == 1 {
            assert(s@ =~= seq!['+']);
            return Err(NumberError::InvalidDigit);
        }
        parse_digits(s, 1, max)
    } else {
        assert(s@.skip(0) =~= s@);
        parse_digits(s, 0, max)
    }
}

/// The character that writes the digit `d`.
pub open spec fn digit_char(d: nat) -> char
    recommends
        d < 10,
{
    ('0' as nat + d) as char
}

/// `n` in base ten, without leading zeros.
pub open spec fn decimal(n: nat) -> Seq<char>
    decreases n,
{
    if n < 10 {
        seq![digit_char(n)]
    } else {
        decimal(n / 10).push(digit_char(n % 10))
    }
}

/// A decimal text is one or more digits, and its value is the number it was written from.
pub proof fn lemma_decimal_round_trip(n: nat)
    ensures
        decimal(n).len() > 0,
        all_digits(decimal(n)),
        decimal_value(decimal(n)) == n,
    decreases n,
{
    if n < 10 {
        assert(decimal(n).drop_last() =~= Seq::empty());
        assert(decimal_value(decimal(n).drop_last()) == 0);
    } else {
        lemma_decimal_round_trip(n / 10);
        assert(decimal(n).drop_last() =~= decimal(n / 10));
        assert forall|i: int| 0 <= i < decimal(n).len() implies is_digit(
            #[trigger] decimal(n)[i],
        ) by {
            if i < decimal(n / 10).len() {
                assert(decimal(n)[i] == decimal(n / 10)[i]);
            }
        }
    }
}

/// Reading a decimal text gives back the number it was written from.
pub proof fn lemma_read_decimal(n: nat, max: nat)
    requires
        n <= max,
    ensures
        read_number(decimal(n), max) == Ok::<nat, NumberError>(n),
{
    lemma_decimal_round_trip(n);
    assert(is_digit(decimal(n)[0]));
    lemma_read_number_is_decimal_value(decimal(n), max);
}

/// Two numbers with the same decimal text are equal.
pub proof fn lemma_decimal_injective(a: nat, b: nat)
    ensures
        decimal(a) == decimal(b) <==> a == b,
{
    lemma_decimal_round_trip(a);
    lemma_decimal_round_trip(b);
}

/// The one-character text of a digit.
fn digit_text(d: u64) -> (r: &'static str)
    requires
        d < 10,
    ensures
        r@ == seq![digit_char(d as nat)],
{
    proof {
        reveal_strlit("0");
        reveal_strlit("1");
        reveal_strlit("2");
        reveal_strlit("3");
        reveal_strlit("4");
        reveal_strlit("5");
        reveal_strlit("6");
        reveal_strlit("7");
        reveal_strlit("8");
        reveal_strlit("9");
    }
    let r = match d {
        0 => "0",
        1 => "1",
        2 => "2",
        3 => "3",
        4 => "4",
        5 => "5",
        6 => "6",
        7 => "7",
        8 => "8",
        _ => "9",
    };
    assert(r@ =~= seq![digit_char(d as nat)]);
    r
}

/// Appends `n` in base ten.
pub fn push_decimal(out: &mut String, n: u64)
    ensures
        final(out)@ == old(out)@ + decimal(n as nat),
    decreases n,
{
    if n < 10 {
        out.append(digit_text(n));
    } else {
        let ghost start = out@;
        push_decimal(out, n / 10);
        out.append(digit_text(n % 10));
        assert(out@ =~= start + decimal(n as nat));
    }
}

/// `n` in base ten.
pub fn decimal_text(n: u64) -> (r: String)
    ensures
        r@ == decimal(n as nat),
{
    let mut r = String::new();
    push_decimal(&mut r, n);
    assert(r@ =~= decimal(n as nat));
    r
}

/// Of the ASCII characters exactly tab, line feed, vertical tab, form feed, carriage return and
/// space are white space; of the others exactly those with the property in Unicode.
pub proof fn lemma_which_characters_are_white_space(c: char)
    ensures
        (c as int) < 0x80 ==> (is_white_space(c) <==> c as int == 9 || c as int == 10 || c as int
            == 11 || c as int == 12 || c as int == 13 || c as int == 32),
        (c as int) >= 0x80 ==> (is_white_space(c) <==> c as int == 0x85 || c as int == 0xa0
            || c as int == 0x1680 || (0x2000 <= c as int && c as int <= 0x200a) || c as int == 0x2028
            || c as int == 0x2029 || c as int == 0x202f || c as int == 0x205f || c as int == 0x3000),
{
}

/// A text without white space is one token; a text of nothing has none.
pub proof fn lemma_solid_text_is_one_token(t: Seq<char>)
    ensures
        tokens(Seq::empty()) == Seq::<Seq<char>>::empty(),
        t.len() > 0 && (forall|i: int| 0 <= i < t.len() ==> !is_white_space(#[trigger] t[i]))
            ==> tokens(t) == seq![t],
{
    if t.len() > 0 && (forall|i: int| 0 <= i < t.len() ==> !is_white_space(#[trigger] t[i])) {
        assert(!is_white_space(t[0]));
        lemma_token_len_at(t, t.len());
    }
}

/// White space, and nothing else, separates tokens: the tokens of two texts with white space
/// between them are those of the first, then those of the second.
pub proof fn lemma_white_space_separates_tokens(a: Seq<char>, c: char, b: Seq<char>)
    requires
        is_white_space(c),
    ensures
        tokens(a + seq![c] + b) == tokens(a) + tokens(b),
    decreases a.len(),
{
    let s = a + seq![c] + b;
    if a.len() == 0 {
        assert(s[0] == c);
        assert(s.skip(1) =~= b);
        assert(tokens(a) + tokens(b) =~= tokens(b));
    } else if is_white_space(a[0]) {
        lemma_white_space_separates_tokens(a.skip(1), c, b);
        assert(s[0] == a[0]);
        assert(s.skip(1) =~= a.skip(1) + seq![c] + b);
    } else {
        lemma_token_len(a);
        let n = token_len(a);
        assert(s[0] == a[0]);
        assert forall|i: int| 0 <= i < n implies !is_white_space(#[trigger] s[i]) by {
            assert(s[i] == a[i]);
        }
        if n < a.len() {
            assert(s[n as int] == a[n as int]);
        } else {
            assert(s[n as int] == c);
        }
        lemma_token_len_at(s, n);
        let rest = a.skip(n as int);
        lemma_white_space_separates_tokens(rest, c, b);
        assert(s.take(n as int) =~= a.take(n as int));
        assert(s.skip(n as int) =~= rest + seq![c] + b);
        if n >= a.len() {
            assert(a.take(n as int) =~= a);
            assert(rest =~= Seq::empty());
            assert(seq![a] + (tokens(rest) + tokens(b)) =~= seq![a] + tokens(b));
        } else {
            assert(seq![a.take(n as int)] + (tokens(rest) + tokens(b)) =~= (seq![a.take(n as int)]
                + tokens(rest)) + tokens(b));
        }
    }
}

/// A digit more makes a number ten times as large, and adds the digit.
pub proof fn lemma_value_of_digits(s: Seq<char>, c: char)
    ensures
        decimal_value(Seq::empty()) == 0,
        '0' <= c <= '9' ==> decimal_value(s.push(c)) == 10 * decimal_value(s) + (c as int
            - '0' as int),
        all_digits(s) <==> forall|i: int| 0 <= i < s.len() ==> '0' <= (#[trigger] s[i]) <= '9',
        unsigned_part(seq!['+'] + s) == s,
        s.len() > 0 && s[0] != '+' ==> unsigned_part(s) == s,
{
    assert(s.push(c).drop_last() =~= s);
    assert((seq!['+'] + s).skip(1) =~= s);
}

proof fn lemma_too_large(s: Seq<char>, max: nat)
    ensures
        read_digits(s, max) == Err::<nat, NumberError>(NumberError::TooLarge) <==> exists|n: int|
            0 < n <= s.len() && all_digits(#[trigger] s.take(n)) && decimal_value(s.take(n)) > max,
        read_digits(s, max) != Err::<nat, NumberError>(NumberError::Empty),
    decreases s.len(),
{
    lemma_read_digits(s, max);
    if s.len() > 0 {
        let t = s.drop_last();
        lemma_too_large(t, max);
        lemma_read_digits(t, max);
        assert forall|n: int| 0 < n <= t.len() implies #[trigger] t.take(n) == s.take(n) by {
            assert(t.take(n) =~= s.take(n));
        }
        assert(s.take(s.len() as int) =~= s);
        assert(t.take(t.len() as int) =~= t);
        if read_digits(t, max) == Err::<nat, NumberError>(NumberError::TooLarge) {
            let n = choose|n: int|
                0 < n <= t.len() && all_digits(#[trigger] t.take(n)) && decimal_value(t.take(n))
                    > max;
            assert(s.take(n) == t.take(n));
        } else {
            assert forall|n: int| 0 < n < s.len() implies !(all_digits(#[trigger] s.take(n))
                && decimal_value(s.take(n)) > max) by {
                assert(t.take(n) == s.take(n));
            }
            if all_digits(s) {
                assert forall|i: int| 0 <= i < t.len() implies is_digit(#[trigger] t[i]) by {
                    assert(t[i] == s[i]);
                }
                assert(is_digit(s[s.len() - 1]));
                if read_digits(t, max) is Err {
                    if t.len() > 0 {
                        assert(t.take(t.len() as int) == t);
                        assert(false);
                    }
                }
            }
        }
    }
}

/// Why a text is no number: it is empty; or its digits, read from the left, are too large before
/// anything else stands in the way; or it holds something that is no digit.
pub proof fn lemma_why_a_text_is_no_number(s: Seq<char>, max: nat)
    ensures
        read_number(s, max) == Err::<nat, NumberError>(NumberError::Empty) <==> s.len() == 0,
        read_number(s, max) == Err::<nat, NumberError>(NumberError::TooLarge) <==> exists|n: int|
            0 < n <= unsigned_part(s).len() && all_digits(#[trigger] unsigned_part(s).take(n))
                && decimal_value(unsigned_part(s).take(n)) > max,
{
    lemma_too_large(unsigned_part(s), max);
    if s.len() == 1 && s[0] == '+' {
        assert(s =~= seq!['+']);
    }
}

/// No decimal text but that of zero starts with a zero.
pub proof fn lemma_decimal_has_no_leading_zero(n: nat)
    ensures
        decimal(0) == seq!['0'],
        n > 0 ==> decimal(n)[0] != '0',
    decreases n,
{
    if n >= 10 {
        lemma_decimal_has_no_leading_zero(n / 10);
        lemma_decimal_round_trip(n / 10);
        assert(decimal(n)[0] == decimal(n / 10)[0]);
    }
}

/// What each error says; and lists of characters are said one by one.
pub proof fn lemma_what_number_errors_say(v: Seq<Vec<char>>)
    ensures
        NumberError::Empty.text() == "cannot parse integer from empty string"@,
        NumberError::InvalidDigit.text() == "invalid digit found in string"@,
        NumberError::TooLarge.text() == "number too large to fit in target type"@,
        char_views(v).len() == v.len(),
        forall|k: int| 0 <= k < v.len() ==> #[trigger] char_views(v)[k] == v[k]@,
{
}

} // verus!
