//! Text helpers: prefixes, splitting, and decimal numbers.

use vstd::prelude::*;

verus! {

/// The characters of a string.
pub fn chars_of(s: &str) -> (r: Vec<char>)
    ensures
        r@ == s@,
{
    let mut chars: Vec<char> = Vec::new();
    for c in it: s.chars()
        invariant
            it.seq() == s@,
            chars@ == s@.take(it.index()),
    {
        chars.push(c);
        assert(s@.take(it.index() + 1) =~= s@.take(it.index()).push(c));
    }
    assert(s@.take(s@.len() as int) =~= s@);
    chars
}

/// Whether `s` begins with `prefix`.
pub fn has_prefix(s: &str, prefix: &str) -> (r: bool)
    ensures
        r == prefix@.is_prefix_of(s@),
{
    let text = chars_of(s);
    let head = chars_of(prefix);
    if head.len() > text.len() {
        return false;
    }
    let mut i: usize = 0;
    while i < head.len()
        invariant
            i <= head.len() <= text.len(),
            text@ == s@,
            head@ == prefix@,
            forall|j: int| 0 <= j < i ==> head@[j] == text@[j],
        decreases head.len() - i,
    {
        if head[i] != text[i] {
            assert(s@.subrange(0, prefix@.len() as int)[i as int] == text@[i as int]);
            return false;
        }
        i += 1;
    }
    assert(prefix@ =~= s@.subrange(0, prefix@.len() as int));
    true
}

/// Two strings, one after the other.
pub fn joined(a: &str, b: &str) -> (r: String)
    ensures
        r@ == a@ + b@,
{
    let mut s = a.to_owned();
    s.append(b);
    s
}

/// Three strings, one after the other.
pub fn joined3(a: &str, b: &str, c: &str) -> (r: String)
    ensures
        r@ == a@ + b@ + c@,
{
    let mut s = joined(a, b);
    s.append(c);
    s
}

/// The position of the first `c` in `s`, or the length of `s` where there is none.
pub open spec fn first_of(s: Seq<char>, c: char) -> int
    decreases s.len(),
{
    if s.len() == 0 || s[0] == c {
        0
    } else {
        1 + first_of(s.skip(1), c)
    }
}

/// The first occurrence is the only candidate: nothing before it is `c`, and it is.
pub proof fn lemma_first_of(s: Seq<char>, c: char)
    ensures
        0 <= first_of(s, c) <= s.len(),
        forall|i: int| 0 <= i < first_of(s, c) ==> s[i] != c,
        first_of(s, c) < s.len() ==> s[first_of(s, c)] == c,
    decreases s.len(),
{
    if s.len() == 0 || s[0] == c {
    } else {
        let t = s.skip(1);
        lemma_first_of(t, c);
        assert forall|i: int| 0 <= i < first_of(s, c) implies s[i] != c by {
            if i > 0 {
                assert(t[i - 1] == s[i]);
            }
        }
    }
}

/// Only the first occurrence is preceded by none.
pub proof fn lemma_first_of_is(s: Seq<char>, c: char, at: int)
    requires
        0 <= at <= s.len(),
        forall|i: int| 0 <= i < at ==> s[i] != c,
        at == s.len() || s[at] == c,
    ensures
        first_of(s, c) == at,
{
    lemma_first_of(s, c);
    let f = first_of(s, c);
    if f < at {
        assert(s[f] == c);
    } else if at < f {
        assert(s[at] == c);
    }
}

/// The pieces of `s` between the separators, in order; one more than there are separators.
pub open spec fn pieces(s: Seq<char>, sep: char) -> Seq<Seq<char>>
    decreases s.len(),
    via pieces_decreases
{
    let at = first_of(s, sep);
    if at >= s.len() {
        seq![s]
    } else {
        seq![s.take(at)] + pieces(s.skip(at + 1), sep)
    }
}

#[via_fn]
proof fn pieces_decreases(s: Seq<char>, sep: char) {
    lemma_first_of(s, sep);
}

/// The views of a vector of strings.
pub open spec fn views(v: Seq<String>) -> Seq<Seq<char>> {
    Seq::new(v.len(), |i: int| v[i]@)
}

/// Splits at every `sep`.
pub fn split(s: &str, sep: char) -> (r: Vec<String>)
    ensures
        views(r@) == pieces(s@, sep),
{
    let text = chars_of(s);
    let n: usize = text.len();
    let mut out: Vec<String> = Vec::new();
    let mut start: usize = 0;
    let mut i: usize = 0;
    assert(s@.skip(0) =~= s@);
    assert(views(out@) + pieces(s@.skip(0), sep) =~= pieces(s@, sep));
    while i < n
        invariant
            n == text.len(),
            text@ == s@,
            start <= i <= n,
            forall|j: int| start <= j < i ==> s@[j] != sep,
            views(out@) + pieces(s@.skip(start as int), sep) == pieces(s@, sep),
        decreases n - i,
    {
        if text[i] == sep {
            let piece = s.substring_char(start, i).to_owned();
            let ghost rest = s@.skip(start as int);
            let ghost before = out@;
            proof {
                assert forall|j: int| 0 <= j < i - start implies rest[j] != sep by {
                    assert(rest[j] == s@[start + j]);
                }
                lemma_first_of_is(rest, sep, i - start);
                assert(rest.take(i - start) =~= s@.subrange(start as int, i as int));
                assert(rest.skip(i - start + 1) =~= s@.skip(i + 1));
            }
            out.push(piece);
            start = i + 1;
            assert(views(out@) =~= views(before).push(piece@));
            assert(views(out@) + pieces(s@.skip(start as int), sep) =~= views(before) + (seq![
                piece@,
            ] + pieces(s@.skip(start as int), sep)));
        }
        i += 1;
    }
    let last = s.substring_char(start, n).to_owned();
    let ghost rest = s@.skip(start as int);
    let ghost before = out@;
    proof {
        assert forall|j: int| 0 <= j < n - start implies rest[j] != sep by {
            assert(rest[j] == s@[start + j]);
        }
        lemma_first_of_is(rest, sep, n - start);
        assert(rest =~= s@.subrange(start as int, n as int));
    }
    out.push(last);
    assert(views(out@) =~= views(before) + seq![last@]);
    out
}

/// Splits at the first `sep`, which belongs to neither side; `None` where there is none.
pub fn split_once(s: &str, sep: char) -> (r: Option<(String, String)>)
    ensures
        match r {
            Some((head, tail)) => {
                &&& first_of(s@, sep) < s@.len()
                &&& head@ == s@.take(first_of(s@, sep))
                &&& tail@ == s@.skip(first_of(s@, sep) + 1)
            },
            None => first_of(s@, sep) == s@.len(),
        },
{
    let text = chars_of(s);
    let n: usize = text.len();
    let mut i: usize = 0;
    while i < n
        invariant
            n == text.len(),
            text@ == s@,
            i <= n,
            forall|j: int| 0 <= j < i ==> s@[j] != sep,
        decreases n - i,
    {
        if text[i] == sep {
            proof {
                lemma_first_of_is(s@, sep, i as int);
            }
            let head = s.substring_char(0, i).to_owned();
            let tail = s.substring_char(i + 1, n).to_owned();
            assert(head@ =~= s@.take(i as int));
            assert(tail@ =~= s@.skip(i + 1));
            return Some((head, tail));
        }
        i += 1;
    }
    proof {
        lemma_first_of_is(s@, sep, n as int);
    }
    None
}

/// Whether `c` is an ASCII digit.
pub open spec fn is_digit(c: char) -> bool {
    '0' <= c <= '9'
}

/// The number that a sequence of digits stands for.
pub open spec fn digits_value(s: Seq<char>) -> nat
    decreases s.len(),
{
    if s.len() == 0 {
        0
    } else {
        (digits_value(s.drop_last()) * 10 + (s.last() as int - '0' as int)) as nat
    }
}

/// What follows an optional leading plus sign.
pub open spec fn unsigned_part(s: Seq<char>) -> Seq<char> {
    if s.len() > 0 && s[0] == '+' {
        s.skip(1)
    } else {
        s
    }
}

/// The unsigned number that a text stands for: an optional plus sign, then one or more digits,
/// of a value that 64 bits hold.
pub open spec fn number_of(s: Seq<char>) -> Option<u64> {
    let d = unsigned_part(s);
    if d.len() > 0 && (forall|i: int| 0 <= i < d.len() ==> is_digit(#[trigger] d[i]))
        && digits_value(d) <= u64::MAX {
        Some(digits_value(d) as u64)
    } else {
        None
    }
}

/// Reads an unsigned decimal number.
pub fn parse_u64(s: &str) -> (r: Option<u64>)
    ensures
        r == number_of(s@),
{
    let text = chars_of(s);
    let n: usize = text.len();
    let start: usize = if n > 0 && text[0] == '+' {
        1
    } else {
        0
    };
    let ghost d = unsigned_part(s@);
    assert(d =~= s@.skip(start as int));
    if start == n {
        return None;
    }
    let mut value: u64 = 0;
    let mut overflow: bool = false;
    let mut i: usize = start;
    assert(d.take(0) =~= Seq::<char>::empty());
    while i < n
        invariant
            n == text.len(),
            text@ == s@,
            start <= i <= n,
            d == s@.skip(start as int),
            d == unsigned_part(s@),
            forall|j: int| 0 <= j < i - start ==> is_digit(#[trigger] d[j]),
            !overflow ==> value == digits_value(d.take(i - start)),
            overflow ==> digits_value(d.take(i - start)) > u64::MAX,
        decreases n - i,
    {
        let c = text[i];
        assert(d[i - start] == c);
        if c < '0' || c > '9' {
            return None;
        }
        let digit: u64 = (c as u32 - '0' as u32) as u64;
        assert(d.take(i - start + 1).drop_last() =~= d.take(i - start));
        assert(d.take(i - start + 1).last() == c);
        if !overflow {
            if value > (u64::MAX - digit) / 10 {
                overflow = true;
            } else {
                value = value * 10 + digit;
            }
        }
        i += 1;
    }
    assert(d.take(n - start) =~= d);
    if overflow {
        None
    } else {
        Some(value)
    }
}

/// The decimal digit of a number below ten.
pub open spec fn digit_char(d: nat) -> char {
    ('0' as nat + d) as char
}

/// A number in decimal, without leading zeros.
pub open spec fn decimal(n: nat) -> Seq<char>
    decreases n,
{
    if n < 10 {
        seq![digit_char(n)]
    } else {
        decimal(n / 10).push(digit_char(n % 10))
    }
}

fn digit_text(d: u64) -> (r: &'static str)
    requires
        d < 10,
    ensures
        r@ == seq![digit_char(d as nat)],
{
    proof {
        reveal_strlit("0");
        reveal_strlit("1");
        reveal_strlit("2");
        reveal_strlit("3");
        reveal_strlit("4");
        reveal_strlit("5");
        reveal_strlit("6");
        reveal_strlit("7");
        reveal_strlit("8");
        reveal_strlit("9");
    }
    let r = match d {
        0 => "0",
        1 => "1",
        2 => "2",
        3 => "3",
        4 => "4",
        5 => "5",
        6 => "6",
        7 => "7",
        8 => "8",
        _ => "9",
    };
    assert(r@ =~= seq![digit_char(d as nat)]);
    r
}

/// Writes an unsigned number in decimal.
pub fn decimal_text(n: u64) -> (r: String)
    ensures
        r@ == decimal(n as nat),
    decreases n,
{
    if n < 10 {
        digit_text(n).to_owned()
    } else {
        let mut s = decimal_text(n / 10);
        let ghost head = s@;
        let d = digit_text(n % 10);
        s.append(d);
        assert(s@ =~= head.push(digit_char((n % 10) as nat)));
        s
    }
}

/// Every string of a list is shown, and whole.
pub proof fn strings_are_shown_whole(list: Seq<String>, i: int)
    requires
        0 <= i < list.len(),
    ensures
        views(list).len() == list.len(),
        views(list)[i] == list[i]@,
{
}

/// Splitting loses nothing but the separators and leaves none behind: put back between the pieces,
/// one before each piece but the first, they give the text again.
pub proof fn pieces_make_up_the_text(s: Seq<char>, sep: char)
    ensures
        pieces(s, sep).len() > 0,
        forall|i: int, j: int|
            0 <= i < pieces(s, sep).len() && 0 <= j < pieces(s, sep)[i].len() ==> #[trigger] pieces(
                s,
                sep,
            )[i][j] != sep,
        pieces(s, sep).map_values(|piece: Seq<char>| seq![sep] + piece).flatten() == seq![sep] + s,
    decreases s.len(),
{
    lemma_first_of(s, sep);
    let at = first_of(s, sep);
    let all = pieces(s, sep);
    let f = |piece: Seq<char>| seq![sep] + piece;
    if at >= s.len() {
        assert(all =~= seq![s]);
        assert(all.map_values(f) =~= seq![seq![sep] + s]);
        all.map_values(f).lemma_flatten_one_element();
    } else {
        let rest = s.skip(at + 1);
        pieces_make_up_the_text(rest, sep);
        let tail = pieces(rest, sep);
        assert(all =~= seq![s.take(at)] + tail);
        assert forall|i: int, j: int|
            0 <= i < all.len() && 0 <= j < all[i].len() implies #[trigger] all[i][j] != sep by {
            if i > 0 {
                assert(all[i] == tail[i - 1]);
                assert(tail[i - 1][j] != sep);
            }
        }
        let mapped = all.map_values(f);
        assert(mapped.drop_first() =~= tail.map_values(f));
        assert(mapped.first() == seq![sep] + s.take(at));
        assert(mapped.flatten() == mapped.first() + tail.map_values(f).flatten());
        assert(seq![sep] + s =~= (seq![sep] + s.take(at)) + (seq![sep] + rest));
    }
}

/// A decimal numeral is read digit by digit, each worth ten times the one after it, with one plus
/// sign allowed before it. Anything else, and a number over 64 bits, is refused.
pub proof fn numerals_are_read_digit_by_digit(s: Seq<char>, c: char)
    ensures
        digits_value(Seq::empty()) == 0,
        '0' <= c <= '9' ==> digits_value(s.push(c)) == 10 * digits_value(s) + (c as int - '0' as int),
        is_digit(c) <==> '0' <= c <= '9',
        number_of(s) is Some ==> {
            let d = if s[0] == '+' {
                s.skip(1)
            } else {
                s
            };
            &&& d.len() > 0
            &&& forall|i: int| 0 <= i < d.len() ==> '0' <= #[trigger] d[i] <= '9'
            &&& number_of(s)->Some_0 == digits_value(d)
        },
        s.len() > 0 && s[0] != '+' && digits_value(s) <= u64::MAX && (forall|i: int|
            0 <= i < s.len() ==> '0' <= #[trigger] s[i] <= '9') ==> number_of(s) is Some && number_of(
            seq!['+'] + s,
        ) == number_of(s),
{
    assert(s.push(c).drop_last() =~= s);
    let plus = seq!['+'] + s;
    assert(plus.skip(1) =~= s);
    if s.len() > 0 && s[0] == '+' {
        assert(unsigned_part(s) == s.skip(1));
    }
}

/// A number is written with its last digit last: its numeral is that of a tenth of it and the digit
/// that is left, and reading it gives the number back.
pub proof fn numbers_are_written_digit_by_digit(n: nat)
    ensures
        n >= 10 ==> decimal(n) == decimal(n / 10) + decimal(n % 10),
        n < 10 ==> decimal(n).len() == 1 && decimal(n)[0] as int == '0' as int + n,
        n <= u64::MAX ==> number_of(decimal(n)) == Some(n as u64),
    decreases n,
{
    lemma_decimal_reads_back(n);
    if n >= 10 {
        assert(decimal(n % 10) =~= seq![digit_char(n % 10)]);
        assert(decimal(n) =~= decimal(n / 10) + decimal(n % 10));
    }
}

proof fn lemma_decimal_reads_back(n: nat)
    ensures
        decimal(n).len() > 0,
        forall|i: int| 0 <= i < decimal(n).len() ==> '0' <= #[trigger] decimal(n)[i] <= '9',
        digits_value(decimal(n)) == n,
    decreases n,
{
    let all = decimal(n);
    if n < 10 {
        assert(all =~= seq![digit_char(n)]);
        assert(all.drop_last() =~= Seq::<char>::empty());
        assert(digits_value(all.drop_last()) == 0);
        assert(all.last() as int == '0' as int + n);
    } else {
        lemma_decimal_reads_back(n / 10);
        assert(all =~= decimal(n / 10).push(digit_char(n % 10)));
        assert(all.drop_last() =~= decimal(n / 10));
        assert(all.last() as int == '0' as int + n % 10);
    }
}

} // verus!
