//! Command line arguments: flags that are followed by their values.
use vstd::arithmetic::power::{lemma_pow0, lemma_pow1, lemma_pow_adds, pow};
use vstd::prelude::*;
use vstd::string::StrSliceExecFns;

verus! {

/// The texts of a list of arguments.
pub open spec fn texts(args: Seq<String>) -> Seq<Seq<char>> {
    Seq::new(args.len(), |i: int| args[i]@)
}

/// The texts of arguments are what they hold, one by one.
pub proof fn law_texts(args: Seq<String>)
    ensures
        texts(args).len() == args.len(),
        forall|i: int| 0 <= i < args.len() ==> #[trigger] texts(args)[i] == args[i]@,
{
}

/// What follows the first occurrence of `flag`, if anything does.
pub open spec fn flag_value(args: Seq<Seq<char>>, flag: Seq<char>) -> Option<Seq<char>>
    decreases args.len(),
{
    if args.len() == 0 {
        None
    } else if args[0] == flag {
        if args.len() > 1 {
            Some(args[1])
        } else {
            None
        }
    } else {
        flag_value(args.skip(1), flag)
    }
}

/// `c` is a decimal digit.
pub open spec fn is_digit(c: char) -> bool {
    '0' <= c <= '9'
}

/// The number that the decimal digits `text` stand for.
pub open spec fn digits_value(text: Seq<char>) -> nat
    decreases text.len(),
{
    if text.len() == 0 {
        0
    } else {
        digits_value(text.drop_last()) * 10 + (text.last() as nat - '0' as nat) as nat
    }
}

/// `text` without a leading plus sign.
pub open spec fn without_plus(text: Seq<char>) -> Seq<char> {
    if text.len() > 0 && text[0] == '+' {
        text.skip(1)
    } else {
        text
    }
}

/// The number that `text` stands for: one decimal digit or more, after an optional plus sign.
pub open spec fn number(text: Seq<char>) -> Option<nat> {
    let digits = without_plus(text);
    if digits.len() > 0 && forall|i: int| 0 <= i < digits.len() ==> is_digit(#[trigger] digits[i]) {
        Some(digits_value(digits))
    } else {
        None
    }
}

/// The value of a flag is the argument right behind its first occurrence.
pub proof fn law_flag_value(args: Seq<Seq<char>>, flag: Seq<char>)
    ensures
        match flag_value(args, flag) {
            Some(value) => exists|i: int|
                0 <= i && i + 1 < args.len() && #[trigger] args[i] == flag && args[i + 1] == value && forall|j: int|
                    0 <= j < i ==> #[trigger] args[j] != flag,
            None => forall|i: int| 0 <= i < args.len() - 1 ==> #[trigger] args[i] != flag,
        },
    decreases args.len(),
{
    if args.len() > 0 && args[0] != flag {
        let rest = args.skip(1);
        law_flag_value(rest, flag);
        match flag_value(rest, flag) {
            Some(value) => {
                let i = choose|i: int|
                    0 <= i && i + 1 < rest.len() && #[trigger] rest[i] == flag && rest[i + 1] == value && forall|
                        j: int,
                    |
                        0 <= j < i ==> #[trigger] rest[j] != flag;
                assert forall|j: int| 0 <= j < i + 1 implies #[trigger] args[j] != flag by {
                    if j > 0 {
                        assert(rest[j - 1] == args[j]);
                    }
                }
                assert(args[i + 1] == flag && args[i + 2] == value);
            },
            None => {
                assert forall|i: int| 0 <= i < args.len() - 1 implies #[trigger] args[i] != flag by {
                    if i > 0 {
                        assert(rest[i - 1] == args[i]);
                    }
                }
            },
        }
    }
}

/// Decimal digits count by powers of ten: a single one stands for its own value, and digits behind
/// others shift those by as many places.
pub proof fn law_digits_value(text: Seq<char>, more: Seq<char>, c: char)
    requires
        '0' <= c <= '9',
    ensures
        digits_value(Seq::empty()) == 0,
        digits_value(seq![c]) == c as nat - '0' as nat,
        digits_value(text + more) == digits_value(text) * pow(10, more.len()) + digits_value(more),
    decreases more.len(),
{
    reveal_with_fuel(digits_value, 2);
    assert(seq![c].drop_last() =~= Seq::empty());
    if more.len() == 0 {
        assert(text + more =~= text);
        lemma_pow0(10);
    } else {
        let fewer = more.drop_last();
        law_digits_value(text, fewer, c);
        assert((text + more).drop_last() =~= text + fewer);
        assert((text + more).last() == more.last());
        lemma_pow_adds(10, fewer.len(), 1);
        lemma_pow1(10);
        let v = digits_value(text) as int;
        let p = pow(10, fewer.len());
        assert(v * (p * 10) == (v * p) * 10) by (nonlinear_arith);
    }
}

/// A number is written with one decimal digit or more, after a plus sign or none.
pub proof fn law_numbers(text: Seq<char>, n: nat)
    ensures
        number(text) == Some(n) <==> exists|digits: Seq<char>|
            (text == digits || text == seq!['+'] + digits) && digits.len() > 0 && (forall|i: int|
                0 <= i < digits.len() ==> '0' <= #[trigger] digits[i] <= '9') && #[trigger] digits_value(digits) == n,
{
    let bare = without_plus(text);
    if number(text) == Some(n) {
        assert forall|i: int| 0 <= i < bare.len() implies '0' <= #[trigger] bare[i] <= '9' by {
            assert(is_digit(bare[i]));
        }
        if text.len() > 0 && text[0] == '+' {
            assert(text =~= seq!['+'] + bare);
        }
        assert(digits_value(bare) == n);
    }
    if exists|digits: Seq<char>|
        (text == digits || text == seq!['+'] + digits) && digits.len() > 0 && (forall|i: int|
            0 <= i < digits.len() ==> '0' <= #[trigger] digits[i] <= '9') && #[trigger] digits_value(digits) == n {
        let digits = choose|digits: Seq<char>|
            (text == digits || text == seq!['+'] + digits) && digits.len() > 0 && (forall|i: int|
                0 <= i < digits.len() ==> '0' <= #[trigger] digits[i] <= '9') && #[trigger] digits_value(digits) == n;
        if text == digits {
            assert('0' <= digits[0]);
        } else {
            assert(text.skip(1) =~= digits);
            assert(text[0] == '+');
        }
        assert(bare == digits);
    }
}

/// The value of a flag, or `default` if it has none.
pub fn parse_arg(args: &[String], flag: &str, default: &str) -> (r: String)
    ensures
        r@ == match flag_value(texts(args@), flag@) {
            Some(value) => value,
            None => default@,
        },
{
    let wanted: String = flag.to_owned();
    let ghost all = texts(args@);
    let mut i: usize = 0;
    assert(all.skip(0) =~= all);
    while i < args.len()
        invariant
            i <= args@.len(),
            wanted@ == flag@,
            all == texts(args@),
            flag_value(all.skip(i as int), flag@) == flag_value(all, flag@),
        decreases args@.len() - i,
    {
        if args[i] == wanted {
            if i + 1 < args.len() {
                return args[i + 1].clone();
            }
            return default.to_owned();
        }
        assert(all.skip(i as int).skip(1) =~= all.skip(i + 1));
        i += 1;
    }
    default.to_owned()
}

/// The number that `text` stands for, if it is one that fits.
fn parse_number(text: &str) -> (r: Option<usize>)
    ensures
        r == match number(text@) {
            Some(n) => if n <= usize::MAX {
                Some(n as usize)
            } else {
                None
            },
            None => None,
        },
{
    let len: usize = text.unicode_len();
    let from: usize = if len > 0 && text.get_char(0) == '+' {
        1
    } else {
        0
    };
    let ghost digits = without_plus(text@);
    assert(text@.skip(from as int) =~= digits);
    if from == len {
        return None;
    }
    let mut value: usize = 0;
    let mut i: usize = from;
    let mut fits: bool = true;
    assert(digits.take(0) =~= Seq::<char>::empty());
    while i < len
        invariant
            len == text@.len(),
            from <= i <= len,
            digits == without_plus(text@),
            digits == text@.skip(from as int),
            forall|j: int| 0 <= j < i - from ==> is_digit(#[trigger] digits[j]),
            fits ==> value == digits_value(digits.take(i - from)),
            !fits ==> digits_value(digits.take(i - from)) > usize::MAX,
        decreases len - i,
    {
        let c: char = text.get_char(i);
        assert(digits[i - from] == c);
        if c < '0' || c > '9' {
            assert(!is_digit(digits[i - from]));
            return None;
        }
        let digit: u128 = (c as u32 - '0' as u32) as u128;
        let more: u128 = value as u128 * 10 + digit;
        proof {
            assert(digits.take(i - from + 1).drop_last() =~= digits.take(i - from));
        }
        if fits && more <= usize::MAX as u128 {
            value = more as usize;
        } else {
            fits = false;
        }
        i += 1;
    }
    assert(digits.take(len - from) =~= digits);
    if fits {
        Some(value)
    } else {
        None
    }
}

/// The number that is the value of a flag, or `default` if it has no value or one that is no number.
pub fn parse_u(args: &[String], flag: &str, default: usize) -> (r: usize)
    ensures
        r == match flag_value(texts(args@), flag@) {
            Some(value) => match number(value) {
                Some(n) => if n <= usize::MAX {
                    n as usize
                } else {
                    default
                },
                None => default,
            },
            None => default,
        },
{
    proof {
        reveal_strlit("");
        assert(number(""@) is None);
    }
    let text: String = parse_arg(args, flag, "");
    match parse_number(text.as_str()) {
        Some(n) => n,
        None => default,
    }
}

} // verus!
