//! Character-level text helpers: white space, trimming, splitting and decimal numbers.

use vstd::prelude::*;

verus! {

/// The Unicode `White_Space` property, which is what `char::is_whitespace` tests.
pub open spec fn is_white_space(c: char) -> bool {
    let v = c as u32;
    ||| 0x9 <= v <= 0xD
    ||| v == 0x20
    ||| v == 0x85
    ||| v == 0xA0
    ||| v == 0x1680
    ||| 0x2000 <= v <= 0x200A
    ||| v == 0x2028
    ||| v == 0x2029
    ||| v == 0x202F
    ||| v == 0x205F
    ||| v == 0x3000
}

/// Executable test for [`is_white_space`].
pub fn is_white_space_char(c: char) -> (r: bool)
    ensures
        r == is_white_space(c),
{
    let v = c as u32;
    (0x9 <= v && v <= 0xD) || v == 0x20 || v == 0x85 || v == 0xA0 || v == 0x1680 || (0x2000
        <= v && v <= 0x200A) || v == 0x2028 || v == 0x2029 || v == 0x202F || v == 0x205F || v
        == 0x3000
}

/// `s` without its leading white space, as `str::trim_start` gives it.
pub open spec fn trim_start_spec(s: Seq<char>) -> Seq<char>
    decreases s.len(),
{
    if s.len() > 0 && is_white_space(s[0]) {
        trim_start_spec(s.drop_first())
    } else {
        s
    }
}

/// `s` without its trailing white space, as `str::trim_end` gives it.
pub open spec fn trim_end_spec(s: Seq<char>) -> Seq<char>
    decreases s.len(),
{
    if s.len() > 0 && is_white_space(s.last()) {
        trim_end_spec(s.drop_last())
    } else {
        s
    }
}

/// `s` without leading and trailing white space.
pub open spec fn trimmed(s: Seq<char>) -> Seq<char> {
    trim_end_spec(trim_start_spec(s))
}

proof fn lemma_trim_start_skip(s: Seq<char>, i: int)
    requires
        0 <= i <= s.len(),
        forall|k: int| 0 <= k < i ==> is_white_space(#[trigger] s[k]),
    ensures
        trim_start_spec(s) == trim_start_spec(s.skip(i)),
    decreases i,
{
    if i > 0 {
        assert(s.drop_first().skip(i - 1) =~= s.skip(i));
        lemma_trim_start_skip(s.drop_first(), i - 1);
    } else {
        assert(s.skip(0) =~= s);
    }
}

proof fn lemma_trim_end_take(s: Seq<char>, j: int)
    requires
        0 <= j <= s.len(),
        forall|k: int| j <= k < s.len() ==> is_white_space(#[trigger] s[k]),
    ensures
        trim_end_spec(s) == trim_end_spec(s.take(j)),
    decreases s.len() - j,
{
    if j < s.len() {
        assert(s.drop_last().take(j) =~= s.take(j));
        lemma_trim_end_take(s.drop_last(), j);
    } else {
        assert(s.take(j) =~= s);
    }
}

/// `s` with leading and trailing white space removed (`str::trim_start`
/// followed by `str::trim_end`).
pub fn trim(s: &str) -> (r: String)
    ensures
        r@ == trimmed(s@),
{
    let n = s.unicode_len();
    let mut i: usize = 0;
    while i < n && is_white_space_char(s.get_char(i))
        invariant
            n == s@.len(),
            0 <= i <= n,
            forall|k: int| 0 <= k < i ==> is_white_space(#[trigger] s@[k]),
        decreases n - i,
    {
        i = i + 1;
    }
    proof {
        lemma_trim_start_skip(s@, i as int);
    }
    let ghost rest = s@.skip(i as int);
    assert(i < n ==> !is_white_space(rest[0]));
    assert(trim_start_spec(rest) == rest);
    let mut j: usize = n;
    while j > i && is_white_space_char(s.get_char(j - 1))
        invariant
            n == s@.len(),
            0 <= i <= j <= n,
            forall|k: int| j <= k < n ==> is_white_space(#[trigger] s@[k]),
        decreases j,
    {
        j = j - 1;
    }
    proof {
        let t = s@.subrange(i as int, j as int);
        assert(rest.take(j - i) =~= t);
        assert forall|k: int| j - i <= k < rest.len() implies is_white_space(#[trigger] rest[k]) by {
            assert(rest[k] == s@[k + i]);
        }
        lemma_trim_end_take(rest, j - i);
        assert(t.len() > 0 ==> t.last() == s@[j - 1]);
    }
    s.substring_char(i, j).to_owned()
}

/// `s` cut at every occurrence of `sep`, as `str::split` with a `char`
/// pattern cuts it: `k` separators give `k + 1` pieces, empty ones included.
pub open spec fn split_spec(s: Seq<char>, sep: char) -> Seq<Seq<char>>
    decreases s.len(),
{
    if s.len() == 0 {
        seq![Seq::<char>::empty()]
    } else if s[0] == sep {
        seq![Seq::<char>::empty()] + split_spec(s.drop_first(), sep)
    } else {
        let rest = split_spec(s.drop_first(), sep);
        rest.update(0, seq![s[0]] + rest[0])
    }
}

/// The pieces of `pieces` with `sep` between each two of them.
pub open spec fn join_spec(pieces: Seq<Seq<char>>, sep: char) -> Seq<char>
    decreases pieces.len(),
{
    if pieces.len() == 0 {
        Seq::<char>::empty()
    } else if pieces.len() == 1 {
        pieces[0]
    } else {
        pieces[0] + seq![sep] + join_spec(pieces.drop_first(), sep)
    }
}

/// The views of a vector of strings.
pub open spec fn string_views(v: Seq<String>) -> Seq<Seq<char>> {
    Seq::new(v.len(), |i: int| v[i]@)
}

proof fn lemma_trim_start_shape(s: Seq<char>)
    ensures
        exists|a: int|
            0 <= a <= s.len() && #[trigger] trim_start_spec(s) == s.skip(a) && (forall|i: int|
                0 <= i < a ==> is_white_space(#[trigger] s[i])),
        trim_start_spec(s).len() > 0 ==> !is_white_space(trim_start_spec(s)[0]),
    decreases s.len(),
{
    if s.len() > 0 && is_white_space(s[0]) {
        lemma_trim_start_shape(s.drop_first());
        let a = choose|a: int|
            0 <= a <= s.drop_first().len() && #[trigger] trim_start_spec(s.drop_first())
                == s.drop_first().skip(a) && (forall|i: int|
                0 <= i < a ==> is_white_space(#[trigger] s.drop_first()[i]));
        assert(s.drop_first().skip(a) =~= s.skip(a + 1));
        assert forall|i: int| 0 <= i < a + 1 implies is_white_space(#[trigger] s[i]) by {
            if i > 0 {
                assert(s[i] == s.drop_first()[i - 1]);
            }
        }
    } else {
        assert(s.skip(0) =~= s);
    }
}

proof fn lemma_trim_end_shape(s: Seq<char>)
    ensures
        exists|b: int|
            0 <= b <= s.len() && #[trigger] trim_end_spec(s) == s.take(b) && (forall|i: int|
                b <= i < s.len() ==> is_white_space(#[trigger] s[i])),
        trim_end_spec(s).len() > 0 ==> !is_white_space(trim_end_spec(s).last()),
    decreases s.len(),
{
    if s.len() > 0 && is_white_space(s.last()) {
        lemma_trim_end_shape(s.drop_last());
        let b = choose|b: int|
            0 <= b <= s.drop_last().len() && #[trigger] trim_end_spec(s.drop_last())
                == s.drop_last().take(b) && (forall|i: int|
                b <= i < s.drop_last().len() ==> is_white_space(#[trigger] s.drop_last()[i]));
        assert(s.drop_last().take(b) =~= s.take(b));
        assert forall|i: int| b <= i < s.len() implies is_white_space(#[trigger] s[i]) by {
            if i < s.len() - 1 {
                assert(s[i] == s.drop_last()[i]);
            }
        }
    } else {
        assert(s.take(s.len() as int) =~= s);
    }
}

/// Law: trimming cuts white space off both ends and nothing else: the result
/// is the part of `s` between a leading and a trailing run of white space, and
/// it neither starts nor ends with white space.
pub proof fn law_trim_cuts_only_white_space(s: Seq<char>)
    ensures
        exists|a: int, b: int|
            0 <= a <= b <= s.len() && #[trigger] trimmed(s) == s.subrange(a, b) && (forall|i: int|
                0 <= i < a ==> is_white_space(#[trigger] s[i])) && (forall|i: int|
                b <= i < s.len() ==> is_white_space(#[trigger] s[i])),
        trimmed(s).len() > 0 ==> !is_white_space(trimmed(s)[0]) && !is_white_space(
            trimmed(s).last(),
        ),
{
    lemma_trim_start_shape(s);
    let a = choose|a: int|
        0 <= a <= s.len() && #[trigger] trim_start_spec(s) == s.skip(a) && (forall|i: int|
            0 <= i < a ==> is_white_space(#[trigger] s[i]));
    let t = s.skip(a);
    lemma_trim_end_shape(t);
    let b = choose|b: int|
        0 <= b <= t.len() && #[trigger] trim_end_spec(t) == t.take(b) && (forall|i: int|
            b <= i < t.len() ==> is_white_space(#[trigger] t[i]));
    assert(t.take(b) =~= s.subrange(a, a + b));
    assert forall|i: int| a + b <= i < s.len() implies is_white_space(#[trigger] s[i]) by {
        assert(s[i] == t[i - a]);
    }
    assert(trimmed(s) == s.subrange(a, a + b));
    if trimmed(s).len() > 0 {
        assert(trimmed(s)[0] == t[0]);
    }
}

/// A text made of white space only trims to nothing.
pub proof fn lemma_trim_white_space(s: Seq<char>)
    requires
        forall|i: int| 0 <= i < s.len() ==> is_white_space(#[trigger] s[i]),
    ensures
        trimmed(s).len() == 0,
{
    lemma_trim_start_skip(s, s.len() as int);
    assert(s.skip(s.len() as int) =~= Seq::<char>::empty());
}

/// Cutting a text always gives at least one piece.
pub proof fn lemma_split_len(s: Seq<char>, sep: char)
    ensures
        split_spec(s, sep).len() >= 1,
    decreases s.len(),
{
    if s.len() > 0 {
        lemma_split_len(s.drop_first(), sep);
    }
}

spec fn prepend_first(p: Seq<char>, r: Seq<Seq<char>>) -> Seq<Seq<char>> {
    r.update(0, p + r[0])
}

/// `s` cut at every `sep` (`str::split` with a `char` pattern, collected).
pub fn split_at_char(s: &str, sep: char) -> (r: Vec<String>)
    ensures
        string_views(r@) == split_spec(s@, sep),
{
    let n = s.unicode_len();
    let mut pieces: Vec<String> = Vec::new();
    let mut start: usize = 0;
    let mut i: usize = 0;
    proof {
        lemma_split_len(s@, sep);
        assert(s@.skip(0) =~= s@);
        assert(prepend_first(Seq::<char>::empty(), split_spec(s@, sep)) =~= split_spec(s@, sep));
    }
    while i < n
        invariant
            n == s@.len(),
            0 <= start <= i <= n,
            split_spec(s@, sep) == string_views(pieces@) + prepend_first(
                s@.subrange(start as int, i as int),
                split_spec(s@.skip(i as int), sep),
            ),
        decreases n - i,
    {
        let c = s.get_char(i);
        let ghost t = s@.skip(i as int);
        proof {
            lemma_split_len(t.drop_first(), sep);
            assert(t.drop_first() =~= s@.skip(i + 1));
            assert(t[0] == c);
        }
        if c == sep {
            let piece = s.substring_char(start, i).to_owned();
            let ghost old_pieces = pieces@;
            pieces.push(piece);
            proof {
                let r = split_spec(s@.skip(i + 1), sep);
                let p = s@.subrange(start as int, i as int);
                assert(split_spec(t, sep) == seq![Seq::<char>::empty()] + r);
                assert(prepend_first(p, seq![Seq::<char>::empty()] + r) =~= seq![p] + r);
                assert(string_views(pieces@) =~= string_views(old_pieces) + seq![p]);
                assert(s@.subrange(i + 1, i + 1) =~= Seq::<char>::empty());
                assert(prepend_first(Seq::<char>::empty(), r) =~= r);
                assert(string_views(old_pieces) + (seq![p] + r) =~= string_views(pieces@) + r);
            }
            start = i + 1;
        } else {
            proof {
                let r = split_spec(s@.skip(i + 1), sep);
                let p = s@.subrange(start as int, i as int);
                assert(split_spec(t, sep) == prepend_first(seq![c], r));
                assert(s@.subrange(start as int, i + 1) =~= p + seq![c]);
                assert(r.len() >= 1);
                assert(p + (seq![c] + r[0]) =~= (p + seq![c]) + r[0]);
                assert(prepend_first(p, prepend_first(seq![c], r)) =~= prepend_first(
                    p + seq![c],
                    r,
                ));
            }
        }
        i = i + 1;
    }
    let last = s.substring_char(start, n).to_owned();
    let ghost old_pieces = pieces@;
    pieces.push(last);
    proof {
        let p = s@.subrange(start as int, n as int);
        assert(s@.skip(n as int) =~= Seq::<char>::empty());
        assert(prepend_first(p, seq![Seq::<char>::empty()]) =~= seq![p]);
        assert(string_views(pieces@) =~= string_views(old_pieces) + seq![p]);
    }
    pieces
}

proof fn lemma_join_prepend(p: Seq<char>, r: Seq<Seq<char>>, sep: char)
    requires
        r.len() >= 1,
    ensures
        join_spec(r.update(0, p + r[0]), sep) == p + join_spec(r, sep),
{
    let u = r.update(0, p + r[0]);
    if r.len() == 1 {
    } else {
        assert(u.drop_first() =~= r.drop_first());
        assert(join_spec(u, sep) =~= p + join_spec(r, sep));
    }
}

/// Law: cutting a text at a character and putting the pieces back together
/// with that character between them gives the text back; no piece holds the
/// character.
pub proof fn law_split_then_join(s: Seq<char>, sep: char)
    ensures
        join_spec(split_spec(s, sep), sep) == s,
        forall|i: int, k: int|
            0 <= i < split_spec(s, sep).len() && 0 <= k < split_spec(s, sep)[i].len()
                ==> #[trigger] split_spec(s, sep)[i][k] != sep,
    decreases s.len(),
{
    if s.len() > 0 {
        let rest = s.drop_first();
        law_split_then_join(rest, sep);
        lemma_split_len(rest, sep);
        let r = split_spec(rest, sep);
        if s[0] == sep {
            let e = Seq::<char>::empty();
            let whole = seq![e] + r;
            assert(whole.drop_first() =~= r);
            assert(join_spec(whole, sep) =~= s);
            assert forall|i: int, k: int|
                0 <= i < whole.len() && 0 <= k < whole[i].len() implies #[trigger] whole[i][k] != sep by {
                if i > 0 {
                    assert(whole[i] == r[i - 1]);
                }
            }
        } else {
            lemma_join_prepend(seq![s[0]], r, sep);
            assert(seq![s[0]] + rest =~= s);
            let u = r.update(0, seq![s[0]] + r[0]);
            assert forall|i: int, k: int|
                0 <= i < u.len() && 0 <= k < u[i].len() implies #[trigger] u[i][k] != sep by {
                if i == 0 {
                    if k > 0 {
                        assert(u[0][k] == r[0][k - 1]);
                    }
                } else {
                    assert(u[i] == r[i]);
                }
            }
        }
    } else {
        assert(join_spec(seq![Seq::<char>::empty()], sep) =~= s);
    }
}

/// An ASCII decimal digit, the only digits that integer parsing accepts.
pub open spec fn is_digit(c: char) -> bool {
    '0' <= c <= '9'
}

/// The value of the ASCII digit `c`.
pub open spec fn digit_value(c: char) -> int {
    c as int - '0' as int
}

/// Every character of `s` is an ASCII digit.
pub open spec fn all_digits(s: Seq<char>) -> bool {
    forall|k: int| 0 <= k < s.len() ==> is_digit(#[trigger] s[k])
}

/// The number that the digits `s` write in base ten.
pub open spec fn digits_value(s: Seq<char>) -> nat
    decreases s.len(),
{
    if s.len() == 0 {
        0
    } else {
        (10 * digits_value(s.drop_last()) + digit_value(s.last())) as nat
    }
}

/// The integer that `s` writes in the grammar of `FromStr` for Rust's signed
/// integers: an optional `+` or `-`, then at least one ASCII digit, nothing else.
pub open spec fn integer_value(s: Seq<char>) -> Option<int> {
    if s.len() > 0 && (s[0] == '-' || s[0] == '+') {
        let rest = s.drop_first();
        if rest.len() > 0 && all_digits(rest) {
            if s[0] == '-' {
                Some(-(digits_value(rest) as int))
            } else {
                Some(digits_value(rest) as int)
            }
        } else {
            None
        }
    } else if s.len() > 0 && all_digits(s) {
        Some(digits_value(s) as int)
    } else {
        None
    }
}

/// What `s.parse::<i64>()` gives back, as an `Option`.
pub open spec fn parsed_i64(s: Seq<char>) -> Option<i64> {
    match integer_value(s) {
        Some(v) => if i64::MIN <= v <= i64::MAX {
            Some(v as i64)
        } else {
            None
        },
        None => None,
    }
}

/// What `s.parse::<i32>()` gives back, as an `Option`.
pub open spec fn parsed_i32(s: Seq<char>) -> Option<i32> {
    match integer_value(s) {
        Some(v) => if i32::MIN <= v <= i32::MAX {
            Some(v as i32)
        } else {
            None
        },
        None => None,
    }
}

/// The character of the digit `d` (`0 <= d < 10`).
pub open spec fn digit_char(d: int) -> char {
    ('0' as int + d) as char
}

/// The base-ten digits of `n`, without leading zeros ("0" for zero).
pub open spec fn natural_text(n: nat) -> Seq<char>
    decreases n,
{
    if n < 10 {
        seq![digit_char(n as int)]
    } else {
        natural_text(n / 10) + seq![digit_char((n % 10) as int)]
    }
}

/// `n` written as `format!("{}", n)` writes an integer: a `-` before the digits
/// of a negative number.
pub open spec fn integer_text(n: int) -> Seq<char> {
    if n < 0 {
        seq!['-'] + natural_text((-n) as nat)
    } else {
        natural_text(n as nat)
    }
}

proof fn lemma_digits_value_prefix(s: Seq<char>, i: int)
    requires
        0 <= i <= s.len(),
        all_digits(s),
    ensures
        digits_value(s.take(i)) <= digits_value(s),
    decreases s.len() - i,
{
    if i < s.len() {
        assert(s.drop_last().take(i) =~= s.take(i));
        lemma_digits_value_prefix(s.drop_last(), i);
    } else {
        assert(s.take(i) =~= s);
    }
}

/// The digits of `s` after position `from`, read as a `u64`: `None` when one of
/// them is no ASCII digit, when there are none, or when their value exceeds `u64::MAX`.
fn magnitude_after(s: &str, from: usize) -> (r: Option<u64>)
    requires
        from <= s@.len(),
    ensures
        ({
            let rest = s@.skip(from as int);
            match r {
                Some(m) => rest.len() > 0 && all_digits(rest) && m == digits_value(rest),
                None => !(rest.len() > 0 && all_digits(rest)) || digits_value(rest) > u64::MAX,
            }
        }),
{
    let n = s.unicode_len();
    let ghost rest = s@.skip(from as int);
    if from == n {
        return None;
    }
    let mut acc: u64 = 0;
    let mut i: usize = from;
    assert(rest.take(0) =~= Seq::<char>::empty());
    while i < n
        invariant
            n == s@.len(),
            from <= i <= n,
            rest == s@.skip(from as int),
            all_digits(rest.take(i - from)),
            acc == digits_value(rest.take(i - from)),
        decreases n - i,
    {
        let c = s.get_char(i);
        assert(rest[i - from] == c);
        if !('0' <= c && c <= '9') {
            return None;
        }
        let d = (c as u32 - '0' as u32) as u64;
        assert(rest.take(i - from + 1).drop_last() =~= rest.take(i - from));
        assert(rest.take(i - from + 1).last() == c);
        if acc > (u64::MAX - d) / 10 {
            proof {
                assert(10 * acc + d > u64::MAX) by (nonlinear_arith)
                    requires
                        acc > (u64::MAX - d) / 10,
                        d <= 9,
                ;
                if all_digits(rest) {
                    lemma_digits_value_prefix(rest, i - from + 1);
                }
            }
            return None;
        }
        assert(10 * acc + d <= u64::MAX) by (nonlinear_arith)
            requires
                acc <= (u64::MAX - d) / 10,
                d <= 9,
        ;
        acc = acc * 10 + d;
        i = i + 1;
    }
    assert(rest.take(n - from) =~= rest);
    Some(acc)
}

/// The sign and the magnitude of the integer that `s` writes, where the
/// magnitude fits in a `u64`.
fn sign_and_magnitude(s: &str) -> (r: Option<(bool, u64)>)
    ensures
        match r {
            Some((neg, m)) => integer_value(s@) == Some(
                if neg {
                    -(m as int)
                } else {
                    m as int
                },
            ),
            None => match integer_value(s@) {
                Some(v) => v > u64::MAX || v < -(u64::MAX as int),
                None => true,
            },
        },
{
    let n = s.unicode_len();
    if n == 0 {
        return None;
    }
    let c = s.get_char(0);
    if c == '-' || c == '+' {
        assert(s@.skip(1) =~= s@.drop_first());
        match magnitude_after(s, 1) {
            Some(m) => Some((c == '-', m)),
            None => None,
        }
    } else {
        assert(s@.skip(0) =~= s@);
        match magnitude_after(s, 0) {
            Some(m) => Some((false, m)),
            None => None,
        }
    }
}

/// `s.parse::<i64>().ok()`.
pub fn parse_i64(s: &str) -> (r: Option<i64>)
    ensures
        r == parsed_i64(s@),
{
    match sign_and_magnitude(s) {
        Some((neg, m)) => {
            if neg {
                if m <= 0x8000_0000_0000_0000u64 {
                    if m == 0x8000_0000_0000_0000u64 {
                        Some(i64::MIN)
                    } else {
                        Some(-(m as i64))
                    }
                } else {
                    None
                }
            } else {
                if m <= 0x7fff_ffff_ffff_ffffu64 {
                    Some(m as i64)
                } else {
                    None
                }
            }
        },
        None => None,
    }
}

/// `s.parse::<i32>().ok()`.
pub fn parse_i32(s: &str) -> (r: Option<i32>)
    ensures
        r == parsed_i32(s@),
{
    match sign_and_magnitude(s) {
        Some((neg, m)) => {
            if neg {
                if m <= 0x8000_0000u64 {
                    Some((0 - (m as i64)) as i32)
                } else {
                    None
                }
            } else {
                if m <= 0x7fff_ffffu64 {
                    Some(m as i32)
                } else {
                    None
                }
            }
        },
        None => None,
    }
}

/// The one-character text of the digit `d`.
fn digit_str(d: u8) -> (r: &'static str)
    requires
        d < 10,
    ensures
        r@ == seq![digit_char(d as int)],
{
    proof {
        reveal_strlit("0");
        reveal_strlit("1");
        reveal_strlit("2");
        reveal_strlit("3");
        reveal_strlit("4");
        reveal_strlit("5");
        reveal_strlit("6");
        reveal_strlit("7");
        reveal_strlit("8");
        reveal_strlit("9");
    }
    match d {
        0 => "0",
        1 => "1",
        2 => "2",
        3 => "3",
        4 => "4",
        5 => "5",
        6 => "6",
        7 => "7",
        8 => "8",
        _ => "9",
    }
}

spec fn digits_text(ds: Seq<u8>) -> Seq<char> {
    Seq::new(ds.len(), |k: int| digit_char(ds[ds.len() - 1 - k] as int))
}

/// The base-ten digits of `m`.
fn natural_to_text(m: u64) -> (r: String)
    ensures
        r@ == natural_text(m as nat),
{
    let mut ds: Vec<u8> = Vec::new();
    let mut x: u64 = m;
    assert(natural_text(m as nat) =~= natural_text(x as nat) + digits_text(ds@));
    while x >= 10
        invariant
            natural_text(m as nat) == natural_text(x as nat) + digits_text(ds@),
            forall|k: int| 0 <= k < ds@.len() ==> #[trigger] ds@[k] < 10,
        decreases x,
    {
        let d = (x % 10) as u8;
        let ghost old_ds = ds@;
        ds.push(d);
        proof {
            assert(natural_text(x as nat) == natural_text((x / 10) as nat) + seq![
                digit_char(d as int),
            ]);
            assert(digits_text(ds@) =~= seq![digit_char(d as int)] + digits_text(old_ds));
            assert(natural_text(x as nat) + digits_text(old_ds) =~= natural_text((x / 10) as nat)
                + digits_text(ds@));
        }
        x = x / 10;
    }
    let ghost old_ds = ds@;
    ds.push(x as u8);
    assert(digits_text(ds@) =~= seq![digit_char(x as int)] + digits_text(old_ds));
    let mut out = String::new();
    let mut j: usize = ds.len();
    let ghost all = digits_text(ds@);
    assert(all.take(0) =~= out@);
    while j > 0
        invariant
            0 <= j <= ds@.len(),
            all == digits_text(ds@),
            out@ == all.take(ds@.len() - j),
            forall|k: int| 0 <= k < ds@.len() ==> #[trigger] ds@[k] < 10,
        decreases j,
    {
        j = j - 1;
        let piece = digit_str(ds[j]);
        out.append(piece);
        assert(all.take(ds@.len() - j) =~= all.take(ds@.len() - j - 1) + seq![
            digit_char(ds@[j as int] as int),
        ]);
    }
    assert(all.take(ds@.len() as int) =~= all);
    out
}

/// `n.to_string()`: the decimal text of `n`.
pub fn integer_to_text(n: i64) -> (r: String)
    ensures
        r@ == integer_text(n as int),
{
    if n < 0 {
        let m: u64 = if n == i64::MIN {
            0x8000_0000_0000_0000u64
        } else {
            (-n) as u64
        };
        let digits = natural_to_text(m);
        proof {
            reveal_strlit("-");
        }
        let mut out = String::new();
        out.append("-");
        out.append(digits.as_str());
        out
    } else {
        natural_to_text(n as u64)
    }
}

/// `n.to_string()` for an `i32`.
pub fn i32_to_text(n: i32) -> (r: String)
    ensures
        r@ == integer_text(n as int),
{
    integer_to_text(n as i64)
}

proof fn lemma_natural_text_digits(n: nat)
    ensures
        natural_text(n).len() > 0,
        all_digits(natural_text(n)),
        digits_value(natural_text(n)) == n,
    decreases n,
{
    if n >= 10 {
        lemma_natural_text_digits(n / 10);
        let t = natural_text(n);
        assert(t.drop_last() =~= natural_text(n / 10));
        assert(t.last() == digit_char((n % 10) as int));
        assert(digit_value(digit_char((n % 10) as int)) == n % 10);
        assert(n == 10 * (n / 10) + n % 10);
        assert(digits_value(t) == 10 * digits_value(t.drop_last()) + digit_value(t.last()));
    } else {
        let t = natural_text(n);
        assert(t.drop_last() =~= Seq::<char>::empty());
        assert(digit_value(digit_char(n as int)) == n);
        assert(digits_value(t) == 10 * digits_value(t.drop_last()) + digit_value(t.last()));
    }
}

/// Law: what the library writes as an integer it reads back as the same
/// integer (the rows that one run appends are parsed by the next).
pub proof fn law_integer_text_parses_back(n: i64)
    ensures
        parsed_i64(integer_text(n as int)) == Some(n),
{
    lemma_integer_text_value(n as int);
}

/// Law: what the library writes as an `i32` it reads back as the same `i32`.
pub proof fn law_i32_text_parses_back(n: i32)
    ensures
        parsed_i32(integer_text(n as int)) == Some(n),
{
    lemma_integer_text_value(n as int);
}

/// The integer that the text of `n` writes is `n`.
pub proof fn lemma_integer_text_value(n: int)
    ensures
        integer_value(integer_text(n)) == Some(n),
{
    let t = integer_text(n);
    if n < 0 {
        lemma_natural_text_digits((-n) as nat);
        assert(t.drop_first() =~= natural_text((-n) as nat));
    } else {
        lemma_natural_text_digits(n as nat);
        let d = natural_text(n as nat);
        assert(d[0] != '-' && d[0] != '+') by {
            assert(is_digit(d[0]));
        }
    }
}

} // verus!
