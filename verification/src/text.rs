//! Text helpers: decimal numbers, character order, and small edits on paths.
use vstd::prelude::*;
use vstd::std_specs::iter::IteratorSpec;

verus! {

/// `String::push` appends one character to the end of the string.
pub assume_specification[ String::push ](s: &mut String, c: char)
    ensures
        final(s)@ == old(s)@.push(c),
;

/// The character of one decimal digit.
pub open spec fn digit_char(d: nat) -> char {
    ((48 + d) as u8) as char
}

/// A number in decimal, without leading zeros.
pub open spec fn decimal(n: nat) -> Seq<char>
    decreases n,
{
    if n < 10 {
        seq![digit_char(n)]
    } else {
        decimal(n / 10).push(digit_char(n % 10))
    }
}

/// A signed number in decimal.
pub open spec fn signed_decimal(n: int) -> Seq<char> {
    if n < 0 {
        seq!['-'] + decimal((-n) as nat)
    } else {
        decimal(n as nat)
    }
}

/// Whether a character is one of `0` to `9`.
pub open spec fn is_digit(c: char) -> bool {
    '0' <= c && c <= '9'
}

/// Whether every character is a decimal digit.
pub open spec fn all_digits(s: Seq<char>) -> bool {
    forall|i: int| 0 <= i < s.len() ==> is_digit(#[trigger] s[i])
}

/// The number that a string of decimal digits stands for.
pub open spec fn decimal_value(s: Seq<char>) -> nat
    decreases s.len(),
{
    if s.len() == 0 {
        0
    } else {
        10 * decimal_value(s.drop_last()) + (s.last() as nat - 48) as nat
    }
}

/// How many leading characters of `s` are decimal digits.
pub open spec fn digit_run(s: Seq<char>) -> nat
    decreases s.len(),
{
    if s.len() == 0 || !is_digit(s[0]) {
        0
    } else {
        1 + digit_run(s.drop_first())
    }
}

/// The unsigned 64-bit number that the leading digits of `s` spell, if there are any
/// and it fits.
pub open spec fn leading_u64(s: Seq<char>) -> Option<u64> {
    let run = s.subrange(0, digit_run(s) as int);
    if run.len() > 0 && decimal_value(run) <= u64::MAX {
        Some(decimal_value(run) as u64)
    } else {
        None
    }
}

/// Lexicographic order by Unicode scalar value.
pub open spec fn lex_less(a: Seq<char>, b: Seq<char>) -> bool
    decreases a.len(),
{
    if b.len() == 0 {
        false
    } else if a.len() == 0 {
        true
    } else if a[0] == b[0] {
        lex_less(a.drop_first(), b.drop_first())
    } else {
        a[0] < b[0]
    }
}

/// No string comes before itself.
pub proof fn lex_less_irreflexive(a: Seq<char>)
    ensures
        !lex_less(a, a),
    decreases a.len(),
{
    if a.len() > 0 {
        lex_less_irreflexive(a.drop_first());
    }
}

/// The order of strings is transitive.
pub proof fn lex_less_transitive(a: Seq<char>, b: Seq<char>, c: Seq<char>)
    requires
        lex_less(a, b),
        lex_less(b, c),
    ensures
        lex_less(a, c),
    decreases a.len(),
{
    if a.len() > 0 && a[0] == b[0] && b[0] == c[0] {
        lex_less_transitive(a.drop_first(), b.drop_first(), c.drop_first());
    }
}

/// Two different strings are always in order one way or the other.
pub proof fn lex_less_total(a: Seq<char>, b: Seq<char>)
    ensures
        lex_less(a, b) || a == b || lex_less(b, a),
    decreases a.len(),
{
    if a.len() > 0 && b.len() > 0 && a[0] == b[0] {
        lex_less_total(a.drop_first(), b.drop_first());
        if a.drop_first() == b.drop_first() {
            assert(a =~= seq![a[0]] + a.drop_first());
            assert(b =~= seq![b[0]] + b.drop_first());
        }
    } else if a.len() == 0 && b.len() == 0 {
        assert(a =~= b);
    }
}

/// Strings are ordered as in a dictionary: one comes before another just if it is a proper front of
/// it, or if at the first place where they differ it has the smaller character.
pub proof fn lex_less_is_dictionary_order(a: Seq<char>, b: Seq<char>, i: int)
    requires
        0 <= i <= a.len(),
        i <= b.len(),
        a.subrange(0, i) == b.subrange(0, i),
        i < a.len() && i < b.len() ==> a[i] != b[i],
    ensures
        i == a.len() ==> (lex_less(a, b) <==> a.len() < b.len()),
        i == b.len() ==> !lex_less(a, b),
        i < a.len() && i < b.len() ==> (lex_less(a, b) <==> a[i] < b[i]),
    decreases i,
{
    if i > 0 {
        assert(a[0] == a.subrange(0, i)[0]);
        assert(b[0] == b.subrange(0, i)[0]);
        let x = a.drop_first();
        let y = b.drop_first();
        assert(x.subrange(0, i - 1) =~= a.subrange(0, i).drop_first());
        assert(y.subrange(0, i - 1) =~= b.subrange(0, i).drop_first());
        lex_less_is_dictionary_order(x, y, i - 1);
    }
}

/// A number is written in decimal: its last character is its last digit, and what stands before it
/// is the number without that digit.
pub proof fn decimal_is_positional(n: nat)
    ensures
        decimal(n).len() >= 1,
        decimal(n).last() as int == 48 + n % 10,
        decimal(n).len() == 1 <==> n < 10,
        n >= 10 ==> decimal(n).drop_last() == decimal(n / 10),
    decreases n,
{
    if n >= 10 {
        decimal_is_positional(n / 10);
        assert(decimal(n).drop_last() =~= decimal(n / 10));
    }
}

/// A number with its sign: a minus stands before just the negative ones.
pub proof fn sign_is_written(n: int)
    ensures
        n >= 0 ==> signed_decimal(n) == decimal(n as nat),
        n < 0 ==> signed_decimal(n).len() == decimal((-n) as nat).len() + 1
            && signed_decimal(n)[0] == '-' && signed_decimal(n).drop_first() == decimal(
            (-n) as nat,
        ),
{
    if n < 0 {
        assert(signed_decimal(n).drop_first() =~= decimal((-n) as nat));
    }
}

/// The number that leads a text is that of all the digits up to the first other character. There is
/// none just if the text begins with no digit, or if the number is too large.
pub proof fn leading_number_is_of_all_digits(s: Seq<char>, n: int)
    requires
        0 <= n <= s.len(),
        forall|i: int| 0 <= i < n ==> '0' <= #[trigger] s[i] <= '9',
        n < s.len() ==> !('0' <= s[n] <= '9'),
    ensures
        leading_u64(s) is Some <==> n > 0 && decimal_value(s.subrange(0, n)) <= u64::MAX,
        leading_u64(s) is Some ==> leading_u64(s)->0 == decimal_value(s.subrange(0, n)),
{
    run_is_of_all_digits(s, n);
}

/// The run of digits ends at the first other character.
proof fn run_is_of_all_digits(s: Seq<char>, n: int)
    requires
        0 <= n <= s.len(),
        forall|i: int| 0 <= i < n ==> '0' <= #[trigger] s[i] <= '9',
        n < s.len() ==> !('0' <= s[n] <= '9'),
    ensures
        digit_run(s) == n,
    decreases n,
{
    if n > 0 {
        assert('0' <= s[0] <= '9');
        let rest = s.drop_first();
        assert forall|i: int| 0 <= i < n - 1 implies '0' <= #[trigger] rest[i] <= '9' by {
            assert(rest[i] == s[i + 1]);
        }
        run_is_of_all_digits(rest, n - 1);
    }
}

/// One digit more makes a number ten times as large, and adds the digit.
pub proof fn digits_have_their_value(s: Seq<char>, c: char)
    requires
        '0' <= c <= '9',
    ensures
        decimal_value(s.push(c)) == 10 * decimal_value(s) + (c as int - 48),
        decimal_value(Seq::empty()) == 0,
{
    assert(s.push(c).drop_last() =~= s);
}

/// A trimmed text is the text without the space at its two ends, and with all that is between.
pub proof fn trimming_takes_the_ends(s: Seq<char>, i: int, j: int)
    requires
        0 <= i < j <= s.len(),
        forall|k: int| 0 <= k < i ==> is_space(#[trigger] s[k]),
        forall|k: int| j <= k < s.len() ==> is_space(#[trigger] s[k]),
        !is_space(s[i]),
        !is_space(s[j - 1]),
    ensures
        trimmed(s) == s.subrange(i, j),
{
    trimmed_start_at(s, i);
    let rest = s.subrange(i, s.len() as int);
    assert forall|k: int| j - i <= k < rest.len() implies is_space(#[trigger] rest[k]) by {
        assert(rest[k] == s[k + i]);
    }
    trimmed_end_at(rest, j - i);
    assert(rest.subrange(0, j - i) =~= s.subrange(i, j));
}

/// A text of space alone is trimmed to nothing.
pub proof fn trimming_takes_all_space(s: Seq<char>)
    requires
        forall|k: int| 0 <= k < s.len() ==> is_space(#[trigger] s[k]),
    ensures
        trimmed(s) == Seq::<char>::empty(),
{
    trimmed_start_at(s, s.len() as int);
    assert(s.subrange(s.len() as int, s.len() as int) =~= Seq::<char>::empty());
}

/// What is left when the space at the beginning is taken.
proof fn trimmed_start_at(s: Seq<char>, i: int)
    requires
        0 <= i <= s.len(),
        forall|k: int| 0 <= k < i ==> is_space(#[trigger] s[k]),
        i < s.len() ==> !is_space(s[i]),
    ensures
        trimmed_start(s) == s.subrange(i, s.len() as int),
    decreases i,
{
    if i > 0 {
        assert(is_space(s[0]));
        let rest = s.drop_first();
        assert forall|k: int| 0 <= k < i - 1 implies is_space(#[trigger] rest[k]) by {
            assert(rest[k] == s[k + 1]);
        }
        trimmed_start_at(rest, i - 1);
        assert(rest.subrange(i - 1, rest.len() as int) =~= s.subrange(i, s.len() as int));
    } else {
        assert(s.subrange(0, s.len() as int) =~= s);
    }
}

/// What is left when the space at the end is taken.
proof fn trimmed_end_at(s: Seq<char>, j: int)
    requires
        0 <= j <= s.len(),
        forall|k: int| j <= k < s.len() ==> is_space(#[trigger] s[k]),
        j > 0 ==> !is_space(s[j - 1]),
    ensures
        trimmed_end(s) == s.subrange(0, j),
    decreases s.len(),
{
    if j < s.len() {
        assert(is_space(s[s.len() - 1]));
        let front = s.drop_last();
        assert forall|k: int| j <= k < front.len() implies is_space(#[trigger] front[k]) by {
            assert(front[k] == s[k]);
        }
        trimmed_end_at(front, j);
        assert(front.subrange(0, j) =~= s.subrange(0, j));
    } else {
        assert(s.subrange(0, j) =~= s);
    }
}

/// The characters of a string.
pub(crate) fn chars_of(s: &str) -> (r: Vec<char>)
    ensures
        r@ == s@,
{
    let mut r: Vec<char> = Vec::new();
    let mut it = s.chars();
    loop
        invariant
            r@ + it.remaining() == s@,
            it.decrease() is Some,
        ensures
            r@ == s@,
        decreases it.decrease()->0,
    {
        match it.next() {
            Some(c) => {
                r.push(c);
                proof {
                    assert(r@ + it.remaining() =~= s@);
                }
            },
            None => {
                assert(r@ =~= s@);
                break;
            },
        }
    }
    r
}

/// The string of the characters `chars[from..to]`.
pub(crate) fn string_of(chars: &Vec<char>, from: usize, to: usize) -> (r: String)
    requires
        from <= to <= chars@.len(),
    ensures
        r@ == chars@.subrange(from as int, to as int),
{
    let mut r = String::new();
    let mut i: usize = from;
    while i < to
        invariant
            from <= i <= to <= chars@.len(),
            r@ == chars@.subrange(from as int, i as int),
        decreases to - i,
    {
        r.push(chars[i]);
        i += 1;
        assert(r@ =~= chars@.subrange(from as int, i as int));
    }
    r
}

/// Whether `a` comes before `b` in the order of `lex_less`.
pub(crate) fn text_less(a: &str, b: &str) -> (r: bool)
    ensures
        r == lex_less(a@, b@),
{
    let mut x = a.chars();
    let mut y = b.chars();
    loop
        invariant
            lex_less(a@, b@) == lex_less(x.remaining(), y.remaining()),
            x.decrease() is Some,
        decreases x.decrease()->0,
    {
        match (x.next(), y.next()) {
            (_, None) => {
                return false;
            },
            (None, Some(_)) => {
                return true;
            },
            (Some(c), Some(d)) => {
                if c != d {
                    return c < d;
                }
            },
        }
    }
}

/// Whether two strings hold the same characters.
pub(crate) fn text_eq(a: &str, b: &str) -> (r: bool)
    ensures
        r == (a@ == b@),
{
    let mut x = a.chars();
    let mut y = b.chars();
    let ghost mut seen = Seq::<char>::empty();
    loop
        invariant
            a@ == seen + x.remaining(),
            b@ == seen + y.remaining(),
            x.decrease() is Some,
        decreases x.decrease()->0,
    {
        match (x.next(), y.next()) {
            (None, None) => {
                assert(a@ =~= b@);
                return true;
            },
            (Some(c), Some(d)) => {
                if c != d {
                    assert(a@[seen.len() as int] == c && b@[seen.len() as int] == d);
                    return false;
                }
                proof {
                    seen = seen.push(c);
                    assert(a@ =~= seen + x.remaining());
                    assert(b@ =~= seen + y.remaining());
                }
            },
            _ => {
                assert(a@.len() != b@.len());
                return false;
            },
        }
    }
}

/// Whether `s` begins with `prefix`.
pub(crate) fn text_starts_with(s: &str, prefix: &str) -> (r: bool)
    ensures
        r == prefix@.is_prefix_of(s@),
{
    let mut x = s.chars();
    let mut y = prefix.chars();
    let ghost mut seen = Seq::<char>::empty();
    loop
        invariant
            s@ == seen + x.remaining(),
            prefix@ == seen + y.remaining(),
            x.decrease() is Some,
        decreases x.decrease()->0,
    {
        match y.next() {
            None => {
                assert(prefix@ =~= s@.subrange(0, prefix@.len() as int));
                return true;
            },
            Some(d) => {
                assert(prefix@[seen.len() as int] == d);
                match x.next() {
                    Some(c) if c == d => {
                        proof {
                            seen = seen.push(c);
                            assert(s@ =~= seen + x.remaining());
                            assert(prefix@ =~= seen + y.remaining());
                        }
                    },
                    Some(c) => {
                        assert(s@[seen.len() as int] == c);
                        assert(prefix@.is_prefix_of(s@) ==> s@.subrange(
                            0,
                            prefix@.len() as int,
                        )[seen.len() as int] == d);
                        return false;
                    },
                    None => {
                        assert(s@.len() < prefix@.len());
                        return false;
                    },
                }
            },
        }
    }
}

/// The digit `d` as a character.
fn digit(d: u64) -> (c: char)
    requires
        d < 10,
    ensures
        c == digit_char(d as nat),
{
    (48 + d as u8) as char
}

/// Appends `n` in decimal.
pub(crate) fn push_decimal(s: &mut String, n: u64)
    ensures
        final(s)@ == old(s)@ + decimal(n as nat),
    decreases n,
{
    if n >= 10 {
        push_decimal(s, n / 10);
    }
    s.push(digit(n % 10));
    assert(s@ =~= old(s)@ + decimal(n as nat));
}

/// Appends `n` in decimal, with a sign if it is negative.
pub(crate) fn push_signed(s: &mut String, n: i64)
    ensures
        final(s)@ == old(s)@ + signed_decimal(n as int),
{
    if n < 0 {
        s.push('-');
        let m: u64 = (-(n + 1)) as u64 + 1;
        push_decimal(s, m);
        assert(s@ =~= old(s)@ + signed_decimal(n as int));
    } else {
        push_decimal(s, n as u64);
    }
}

/// The number that the digits at the start of `chars[from..]` spell.
pub(crate) fn parse_leading_u64(chars: &Vec<char>, from: usize) -> (r: Option<u64>)
    requires
        from <= chars@.len(),
    ensures
        r == leading_u64(chars@.subrange(from as int, chars@.len() as int)),
{
    let ghost s = chars@.subrange(from as int, chars@.len() as int);
    let mut value: u64 = 0;
    let mut i: usize = from;
    let mut fits: bool = true;
    assert(s.subrange(0, s.len() as int) =~= s);
    while i < chars.len() && '0' <= chars[i] && chars[i] <= '9'
        invariant
            from <= i <= chars@.len(),
            s == chars@.subrange(from as int, chars@.len() as int),
            all_digits(s.subrange(0, i - from)),
            digit_run(s) == (i - from) + digit_run(s.subrange(i - from, s.len() as int)),
            fits ==> value == decimal_value(s.subrange(0, i - from)),
            !fits ==> decimal_value(s.subrange(0, i - from)) > u64::MAX,
        decreases chars@.len() - i,
    {
        let d: u64 = (chars[i] as u32 - 48) as u64;
        let ghost here = s.subrange(0, i - from);
        let ghost next = s.subrange(0, i + 1 - from);
        proof {
            assert(next.drop_last() =~= here);
            assert(next.last() == chars@[i as int]);
            assert(s.subrange(i - from, s.len() as int).drop_first() =~= s.subrange(
                i + 1 - from,
                s.len() as int,
            ));
            assert(all_digits(next)) by {
                assert forall|k: int| 0 <= k < next.len() implies is_digit(#[trigger] next[k]) by {
                    if k < here.len() {
                        assert(next[k] == here[k]);
                    }
                }
            }
        }
        if fits {
            if value <= (u64::MAX - d) / 10 {
                value = value * 10 + d;
            } else {
                fits = false;
            }
        }
        i += 1;
    }
    proof {
        let rest = s.subrange(i - from, s.len() as int);
        if i < chars@.len() {
            assert(rest[0] == chars@[i as int]);
        }
        assert(digit_run(rest) == 0);
    }
    if i > from && fits {
        Some(value)
    } else {
        None
    }
}

/// A number in decimal is made of digits, at least one.
pub proof fn decimal_is_digits(n: nat)
    ensures
        all_digits(decimal(n)),
        decimal(n).len() > 0,
    decreases n,
{
    if n >= 10 {
        decimal_is_digits(n / 10);
    }
}

/// Reading a number back from its decimal form gives the number.
pub proof fn decimal_value_of_decimal(n: nat)
    ensures
        decimal_value(decimal(n)) == n,
    decreases n,
{
    if n >= 10 {
        decimal_value_of_decimal(n / 10);
        assert(decimal(n).drop_last() =~= decimal(n / 10));
        assert(decimal(n).last() == digit_char(n % 10));
    } else {
        assert(decimal(n).drop_last() =~= Seq::<char>::empty());
        assert(decimal_value(Seq::<char>::empty()) == 0);
    }
}

/// A run of digits ends where the first other character stands.
pub proof fn digit_run_of_prefix(digits: Seq<char>, rest: Seq<char>)
    requires
        all_digits(digits),
        rest.len() == 0 || !is_digit(rest[0]),
    ensures
        digit_run(digits + rest) == digits.len(),
    decreases digits.len(),
{
    if digits.len() == 0 {
        assert(digits + rest =~= rest);
    } else {
        let tail = digits.drop_first();
        assert forall|i: int| 0 <= i < tail.len() implies is_digit(#[trigger] tail[i]) by {
            assert(tail[i] == digits[i + 1]);
        }
        digit_run_of_prefix(tail, rest);
        assert((digits + rest).drop_first() =~= tail + rest);
        assert((digits + rest)[0] == digits[0]);
    }
}

/// A number written before something that is not a digit is read back.
pub proof fn leading_u64_of_decimal(n: u64, rest: Seq<char>)
    requires
        rest.len() == 0 || !is_digit(rest[0]),
    ensures
        leading_u64(decimal(n as nat) + rest) == Some(n),
{
    let digits = decimal(n as nat);
    decimal_is_digits(n as nat);
    decimal_value_of_decimal(n as nat);
    digit_run_of_prefix(digits, rest);
    assert((digits + rest).subrange(0, digits.len() as int) =~= digits);
}

/// Whether a character is white space.
pub open spec fn is_space(c: char) -> bool {
    let n = c as u32;
    ||| 9 <= n <= 13
    ||| n == 0x20
    ||| n == 0x85
    ||| n == 0xa0
    ||| n == 0x1680
    ||| 0x2000 <= n <= 0x200a
    ||| n == 0x2028
    ||| n == 0x2029
    ||| n == 0x202f
    ||| n == 0x205f
    ||| n == 0x3000
}

/// `s` without leading white space.
pub open spec fn trimmed_start(s: Seq<char>) -> Seq<char>
    decreases s.len(),
{
    if s.len() > 0 && is_space(s[0]) {
        trimmed_start(s.drop_first())
    } else {
        s
    }
}

/// `s` without trailing white space.
pub open spec fn trimmed_end(s: Seq<char>) -> Seq<char>
    decreases s.len(),
{
    if s.len() > 0 && is_space(s.last()) {
        trimmed_end(s.drop_last())
    } else {
        s
    }
}

/// `s` without white space at either end.
pub open spec fn trimmed(s: Seq<char>) -> Seq<char> {
    trimmed_end(trimmed_start(s))
}

fn space(c: char) -> (r: bool)
    ensures
        r == is_space(c),
{
    let n: u32 = c as u32;
    (9 <= n && n <= 13) || n == 0x20 || n == 0x85 || n == 0xa0 || n == 0x1680 || (0x2000 <= n && n
        <= 0x200a) || n == 0x2028 || n == 0x2029 || n == 0x202f || n == 0x205f || n == 0x3000
}

/// Removes white space at both ends.
pub(crate) fn trim_text(s: &str) -> (r: String)
    ensures
        r@ == trimmed(s@),
{
    let chars = chars_of(s);
    let mut from: usize = 0;
    let total: usize = chars.len();
    assert(chars@.subrange(0, total as int) =~= s@);
    while from < total && space(chars[from])
        invariant
            from <= total == chars@.len(),
            trimmed_start(chars@.subrange(from as int, total as int)) == trimmed_start(s@),
        decreases total - from,
    {
        assert(chars@.subrange(from as int, total as int).drop_first() =~= chars@.subrange(
            from + 1,
            total as int,
        ));
        from += 1;
    }
    let mut to: usize = total;
    while to > from && space(chars[to - 1])
        invariant
            from <= to <= total == chars@.len(),
            trimmed_end(chars@.subrange(from as int, to as int)) == trimmed(s@),
        decreases to,
    {
        assert(chars@.subrange(from as int, to as int).drop_last() =~= chars@.subrange(
            from as int,
            to - 1,
        ));
        to -= 1;
    }
    string_of(&chars, from, to)
}

/// Text without white space is left as it is.
pub proof fn trimmed_without_space(s: Seq<char>)
    requires
        forall|i: int| 0 <= i < s.len() ==> !is_space(#[trigger] s[i]),
    ensures
        trimmed(s) == s,
{
}

/// One white space character after text without any is trimmed off.
pub proof fn trimmed_before_space(s: Seq<char>, space: Seq<char>)
    requires
        forall|i: int| 0 <= i < s.len() ==> !is_space(#[trigger] s[i]),
        space.len() == 1,
        is_space(space[0]),
    ensures
        trimmed(s + space) == s,
{
    let t = s + space;
    if s.len() == 0 {
        assert(t.drop_first() =~= s);
        assert(trimmed_start(s) == s);
    } else {
        assert(t[0] == s[0]);
        assert(t.drop_last() =~= s);
        assert(trimmed_end(s) == s);
    }
}

/// What counts as space: the blank, tabs and line ends do; of the characters from the exclamation
/// mark to the tilde, with which keys and numbers are written, none does.
pub proof fn visible_characters_are_no_space(c: char)
    ensures
        0x21 <= c as u32 <= 0x7e ==> !is_space(c),
        c == ' ' || c == '\n' || c == '\r' || c == '\t' ==> is_space(c),
        is_space(c) && (c as u32) < 0x80 ==> c == ' ' || 9 <= c as u32 <= 13,
{
}

/// Two numbers between words are read back where they stand.
pub proof fn two_numbers_are_read(
    start: Seq<char>,
    first: u64,
    between: Seq<char>,
    second: u64,
    end: Seq<char>,
    text: Seq<char>,
)
    requires
        text == start + decimal(first as nat) + between + decimal(second as nat) + end,
        between.len() > 0,
        !is_digit(between[0]),
        end.len() == 0 || !is_digit(end[0]),
    ensures
        (start + decimal(first as nat) + between).is_prefix_of(text),
        leading_u64(text.subrange(start.len() as int, text.len() as int)) == Some(first),
        leading_u64(
            text.subrange(
                (start + decimal(first as nat) + between).len() as int,
                text.len() as int,
            ),
        ) == Some(second),
{
    let a = decimal(first as nat);
    let b = decimal(second as nat);
    let n = text.len() as int;
    assert(text.subrange(start.len() as int, n) =~= a + (between + b + end));
    leading_u64_of_decimal(first, between + b + end);
    let front = start + a + between;
    assert(text.subrange(front.len() as int, n) =~= b + end);
    leading_u64_of_decimal(second, end);
}

} // verus!
