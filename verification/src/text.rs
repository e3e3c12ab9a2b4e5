//! Character-level text handling for the command line and the policy
//! file: Unicode white space, trimming, splitting, searching, and decimal
//! integers.
use vstd::prelude::*;

verus! {

/// The Unicode `White_Space` property: U+0009..U+000D, U+0020, U+0085,
/// U+00A0, U+1680, U+2000..U+200A, U+2028, U+2029, U+202F, U+205F, U+3000.
pub open spec fn white_space(c: char) -> bool {
    let u = c as int;
    ||| 0x9 <= u <= 0xd
    ||| u == 0x20
    ||| u == 0x85
    ||| u == 0xa0
    ||| u == 0x1680
    ||| 0x2000 <= u <= 0x200a
    ||| u == 0x2028
    ||| u == 0x2029
    ||| u == 0x202f
    ||| u == 0x205f
    ||| u == 0x3000
}

/// Whether `c` has the Unicode `White_Space` property (as
/// `char::is_whitespace`).
pub fn char_is_whitespace(c: char) -> (r: bool)
    ensures
        r == white_space(c),
{
    let u = c as u32;
    (0x9 <= u && u <= 0xd) || u == 0x20 || u == 0x85 || u == 0xa0 || u == 0x1680 || (0x2000 <= u
        && u <= 0x200a) || u == 0x2028 || u == 0x2029 || u == 0x202f || u == 0x205f || u == 0x3000
}

/// `t` with leading white space removed.
pub open spec fn trim_start_spec(t: Seq<char>) -> Seq<char>
    decreases t.len(),
{
    if t.len() > 0 && white_space(t[0]) {
        trim_start_spec(t.drop_first())
    } else {
        t
    }
}

/// `t` with trailing white space removed.
pub open spec fn trim_end_spec(t: Seq<char>) -> Seq<char>
    decreases t.len(),
{
    if t.len() > 0 && white_space(t.last()) {
        trim_end_spec(t.drop_last())
    } else {
        t
    }
}

/// `t` with leading and trailing white space removed.
pub open spec fn trim_spec(t: Seq<char>) -> Seq<char> {
    trim_end_spec(trim_start_spec(t))
}

proof fn lemma_trim_start_at(t: Seq<char>, a: int)
    requires
        0 <= a <= t.len(),
        forall|i: int| 0 <= i < a ==> white_space(#[trigger] t[i]),
        a == t.len() || !white_space(t[a]),
    ensures
        trim_start_spec(t) == t.subrange(a, t.len() as int),
    decreases a,
{
    if a == 0 {
        assert(t.subrange(0, t.len() as int) =~= t);
    } else {
        let d = t.drop_first();
        assert forall|i: int| 0 <= i < a - 1 implies white_space(#[trigger] d[i]) by {
            assert(d[i] == t[i + 1]);
        }
        if a < t.len() {
            assert(d[a - 1] == t[a]);
        }
        lemma_trim_start_at(d, a - 1);
        assert(d.subrange(a - 1, d.len() as int) =~= t.subrange(a, t.len() as int));
    }
}

proof fn lemma_trim_end_at(t: Seq<char>, b: int)
    requires
        0 <= b <= t.len(),
        forall|i: int| b <= i < t.len() ==> white_space(#[trigger] t[i]),
        b == 0 || !white_space(t[b - 1]),
    ensures
        trim_end_spec(t) == t.subrange(0, b),
    decreases t.len() - b,
{
    if b == t.len() {
        assert(t.subrange(0, b) =~= t);
    } else {
        let d = t.drop_last();
        assert forall|i: int| b <= i < d.len() implies white_space(#[trigger] d[i]) by {
            assert(d[i] == t[i]);
        }
        if b > 0 {
            assert(d[b - 1] == t[b - 1]);
        }
        lemma_trim_end_at(d, b);
        assert(d.subrange(0, b) =~= t.subrange(0, b));
    }
}

/// The text with leading and trailing white space removed (as `str::trim`).
pub fn trim(s: &str) -> (r: &str)
    ensures
        r@ == trim_spec(s@),
{
    let n = s.unicode_len();
    let mut a: usize = 0;
    while a < n && char_is_whitespace(s.get_char(a))
        invariant
            n == s@.len(),
            a <= n,
            forall|i: int| 0 <= i < a ==> white_space(#[trigger] s@[i]),
        decreases n - a,
    {
        a += 1;
    }
    let mut b: usize = n;
    while b > a && char_is_whitespace(s.get_char(b - 1))
        invariant
            n == s@.len(),
            a <= b <= n,
            forall|i: int| b <= i < n ==> white_space(#[trigger] s@[i]),
        decreases b,
    {
        b -= 1;
    }
    proof {
        lemma_trim_start_at(s@, a as int);
        let u = s@.subrange(a as int, n as int);
        assert forall|i: int| (b - a) <= i < u.len() implies white_space(#[trigger] u[i]) by {
            assert(u[i] == s@[i + a]);
        }
        if b > a {
            assert(u[b - a - 1] == s@[b - 1]);
        }
        lemma_trim_end_at(u, (b - a) as int);
        assert(u.subrange(0, (b - a) as int) =~= s@.subrange(a as int, b as int));
    }
    s.substring_char(a, b)
}

/// Text with no white space at either end is its own trim.
pub proof fn lemma_trim_noop(t: Seq<char>)
    requires
        t.len() > 0 ==> !white_space(t[0]) && !white_space(t.last()),
    ensures
        trim_spec(t) == t,
{
    if t.len() > 0 {
        lemma_trim_start_at(t, 0);
        assert(t.subrange(0, t.len() as int) =~= t);
        lemma_trim_end_at(t, t.len() as int);
        assert(t.subrange(0, t.len() as int) =~= t);
    } else {
        assert(trim_start_spec(t) == t);
    }
}

/// Whether `c` is an ASCII decimal digit.
pub open spec fn is_digit(c: char) -> bool {
    '0' as int <= c as int <= '9' as int
}

/// The value of the decimal digit `c`.
pub open spec fn digit_value(c: char) -> nat {
    (c as int - '0' as int) as nat
}

/// The value of a string of decimal digits.
pub open spec fn digits_value(d: Seq<char>) -> nat
    decreases d.len(),
{
    if d.len() == 0 {
        0
    } else {
        digits_value(d.drop_last()) * 10 + digit_value(d.last())
    }
}

/// The digits part of an unsigned decimal: the text after an optional
/// leading `+`.
pub open spec fn unsigned_digits(t: Seq<char>) -> Seq<char> {
    if t.len() > 0 && t[0] == '+' {
        t.drop_first()
    } else {
        t
    }
}

/// Whether `d` is one or more ASCII digits.
pub open spec fn all_digits(d: Seq<char>) -> bool {
    d.len() > 0 && forall|i: int| 0 <= i < d.len() ==> is_digit(#[trigger] d[i])
}

/// An unsigned decimal: an optional `+` sign followed by one or more
/// ASCII digits, with value at most `max`.
pub open spec fn parse_unsigned(t: Seq<char>, max: nat) -> Option<nat> {
    if all_digits(unsigned_digits(t)) && digits_value(unsigned_digits(t)) <= max {
        Some(digits_value(unsigned_digits(t)))
    } else {
        None
    }
}

/// `str::parse::<u8>`: an optional `+` then only ASCII digits, at most 255;
/// anything else (white space, a sign alone, overflow) is an error.
#[verifier::external_body]
pub(crate) fn parse_u8(s: &str) -> (r: Option<u8>)
    ensures
        match parse_unsigned(s@, u8::MAX as nat) {
            Some(v) => r == Some(v as u8),
            None => r is None,
        },
{
    s.parse::<u8>().ok()
}

/// `str::parse::<usize>`: an optional `+` then only ASCII digits, at most
/// `usize::MAX`; anything else is an error.
#[verifier::external_body]
pub(crate) fn parse_usize(s: &str) -> (r: Option<usize>)
    ensures
        match parse_unsigned(s@, usize::MAX as nat) {
            Some(v) => r == Some(v as usize),
            None => r is None,
        },
{
    s.parse::<usize>().ok()
}

/// The ASCII digit of `d` (in `0..10`).
pub open spec fn digit_char(d: nat) -> char {
    if d == 0 {
        '0'
    } else if d == 1 {
        '1'
    } else if d == 2 {
        '2'
    } else if d == 3 {
        '3'
    } else if d == 4 {
        '4'
    } else if d == 5 {
        '5'
    } else if d == 6 {
        '6'
    } else if d == 7 {
        '7'
    } else if d == 8 {
        '8'
    } else {
        '9'
    }
}

/// The decimal rendering of `n`: no sign, no leading zeros.
pub open spec fn decimal_text(n: nat) -> Seq<char>
    decreases n,
{
    if n < 10 {
        seq![digit_char(n)]
    } else {
        decimal_text(n / 10).push(digit_char(n % 10))
    }
}

/// The one-digit text of `d` (in `0..10`).
fn digit_text(d: u8) -> (r: &'static str)
    requires
        d < 10,
    ensures
        r@ == seq![digit_char(d as nat)],
{
    if d == 0 {
        proof { reveal_strlit("0"); }
        "0"
    } else if d == 1 {
        proof { reveal_strlit("1"); }
        "1"
    } else if d == 2 {
        proof { reveal_strlit("2"); }
        "2"
    } else if d == 3 {
        proof { reveal_strlit("3"); }
        "3"
    } else if d == 4 {
        proof { reveal_strlit("4"); }
        "4"
    } else if d == 5 {
        proof { reveal_strlit("5"); }
        "5"
    } else if d == 6 {
        proof { reveal_strlit("6"); }
        "6"
    } else if d == 7 {
        proof { reveal_strlit("7"); }
        "7"
    } else if d == 8 {
        proof { reveal_strlit("8"); }
        "8"
    } else {
        proof { reveal_strlit("9"); }
        "9"
    }
}

/// The decimal rendering of a byte (as `u8::to_string`): digits only, no
/// sign, no leading zeros.
pub fn u8_text(v: u8) -> (r: String)
    ensures
        r@ == decimal_text(v as nat),
{
    if v < 10 {
        String::from_str(digit_text(v))
    } else if v < 100 {
        let mut out = String::from_str(digit_text(v / 10));
        out.append(digit_text(v % 10));
        proof {
            assert(decimal_text((v / 10) as nat) == seq![digit_char((v / 10) as nat)]);
            assert(out@ =~= decimal_text(v as nat));
        }
        out
    } else {
        let mut out = String::from_str(digit_text(v / 100));
        out.append(digit_text((v / 10) % 10));
        out.append(digit_text(v % 10));
        proof {
            let t = (v / 10) as nat;
            assert(t / 10 == v / 100);
            assert(decimal_text(t / 10) == seq![digit_char(t / 10)]);
            assert(decimal_text(t) == decimal_text(t / 10).push(digit_char(t % 10)));
            assert(out@ =~= decimal_text(v as nat));
        }
        out
    }
}

/// Decimal digits are not white space.
pub proof fn lemma_digit_not_space(c: char)
    requires
        is_digit(c),
    ensures
        !white_space(c),
{
}

/// A rendered decimal reads back as its value.
pub proof fn lemma_decimal_round_trip(n: nat, max: nat)
    requires
        n <= max,
    ensures
        parse_unsigned(decimal_text(n), max) == Some(n),
        decimal_text(n).len() > 0,
        forall|i: int|
            0 <= i < decimal_text(n).len() ==> is_digit(#[trigger] decimal_text(n)[i]),
{
    lemma_decimal_digits(n);
}

proof fn lemma_digit_char(d: nat)
    requires
        d < 10,
    ensures
        is_digit(digit_char(d)),
        digit_value(digit_char(d)) == d,
        digit_char(d) != '+',
{
}

proof fn lemma_decimal_digits(n: nat)
    ensures
        decimal_text(n).len() > 0,
        forall|i: int|
            0 <= i < decimal_text(n).len() ==> is_digit(#[trigger] decimal_text(n)[i]),
        digits_value(decimal_text(n)) == n,
        decimal_text(n)[0] != '+',
    decreases n,
{
    if n >= 10 {
        lemma_decimal_digits(n / 10);
        lemma_digit_char(n % 10);
        let t = decimal_text(n);
        assert(t.drop_last() =~= decimal_text(n / 10));
        assert(t.last() == digit_char(n % 10));
        assert(digits_value(t) == digits_value(t.drop_last()) * 10 + digit_value(t.last()));
        assert(n == (n / 10) * 10 + n % 10);
        assert(t[0] == decimal_text(n / 10)[0]);
        assert forall|i: int| 0 <= i < t.len() implies is_digit(#[trigger] t[i]) by {
            if i < t.len() - 1 {
                assert(t[i] == decimal_text(n / 10)[i]);
            }
        }
    } else {
        lemma_digit_char(n);
        let t = decimal_text(n);
        assert(t.drop_last() =~= Seq::<char>::empty());
        assert(digits_value(t) == digits_value(t.drop_last()) * 10 + digit_value(t.last()));
    }
}

/// First position `i >= from` where `pat` occurs in `s`.
pub open spec fn find_text_spec(s: Seq<char>, pat: Seq<char>, from: int) -> Option<int>
    decreases s.len() + 1 - from,
{
    if from < 0 || from + pat.len() > s.len() {
        None
    } else if s.subrange(from, from + pat.len()) == pat {
        Some(from)
    } else {
        find_text_spec(s, pat, from + 1)
    }
}

/// Where `find_text_spec` lands: an occurrence, with none before it.
pub proof fn lemma_find_text_facts(s: Seq<char>, pat: Seq<char>, from: int)
    requires
        0 <= from,
    ensures
        match find_text_spec(s, pat, from) {
            Some(i) => from <= i && i + pat.len() <= s.len() && s.subrange(i, i + pat.len())
                == pat && forall|j: int|
                from <= j < i ==> #[trigger] s.subrange(j, j + pat.len()) != pat,
            None => forall|j: int|
                from <= j && j + pat.len() <= s.len() ==> #[trigger] s.subrange(j, j + pat.len())
                    != pat,
        },
    decreases s.len() + 1 - from,
{
    if from + pat.len() <= s.len() && s.subrange(from, from + pat.len()) != pat {
        lemma_find_text_facts(s, pat, from + 1);
    }
}

/// An occurrence at `p`, with none in `from..p`, is the one found.
pub proof fn lemma_find_text_at(s: Seq<char>, pat: Seq<char>, from: int, p: int)
    requires
        0 <= from <= p,
        p + pat.len() <= s.len(),
        s.subrange(p, p + pat.len()) == pat,
        forall|j: int| from <= j < p ==> #[trigger] s.subrange(j, j + pat.len()) != pat,
    ensures
        find_text_spec(s, pat, from) == Some(p),
    decreases p - from,
{
    if from < p {
        lemma_find_text_at(s, pat, from + 1, p);
    }
}

/// Whether `pat` occurs in `s` at position `i`.
fn occurs_at(s: &str, n: usize, pat: &str, k: usize, i: usize) -> (r: bool)
    requires
        n == s@.len(),
        k == pat@.len(),
        i + k <= n,
    ensures
        r == (s@.subrange(i as int, i + k) == pat@),
{
    let mut j: usize = 0;
    while j < k
        invariant
            n == s@.len(),
            k == pat@.len(),
            i + k <= n,
            j <= k,
            forall|m: int| 0 <= m < j ==> s@[i + m] == pat@[m],
        decreases k - j,
    {
        if s.get_char(i + j) != pat.get_char(j) {
            assert(s@.subrange(i as int, i + k)[j as int] != pat@[j as int]);
            return false;
        }
        j += 1;
    }
    assert(s@.subrange(i as int, i + k) =~= pat@);
    true
}

/// The first position `i >= from` where `pat` occurs in `s`.
pub fn find_text(s: &str, pat: &str, from: usize) -> (r: Option<usize>)
    ensures
        match (r, find_text_spec(s@, pat@, from as int)) {
            (Some(i), Some(j)) => i == j,
            (None, None) => true,
            _ => false,
        },
        r matches Some(i) ==> from <= i && i + pat@.len() <= s@.len() && s@.subrange(
            i as int,
            i + pat@.len(),
        ) == pat@,
{
    proof {
        lemma_find_text_facts(s@, pat@, from as int);
    }
    let n = s.unicode_len();
    let k = pat.unicode_len();
    if k > n {
        return None;
    }
    let last = n - k;
    let mut i = from;
    while i <= last
        invariant
            n == s@.len(),
            k == pat@.len(),
            last == n - k,
            from <= i,
            find_text_spec(s@, pat@, from as int) == find_text_spec(s@, pat@, i as int),
        decreases last + 1 - i,
    {
        if occurs_at(s, n, pat, k, i) {
            return Some(i);
        }
        if i == last {
            assert(find_text_spec(s@, pat@, i + 1) == None::<int>);
            return None;
        }
        i += 1;
    }
    None
}

/// The pieces of `s` between occurrences of `sep` (as `str::split` with a
/// character pattern): always at least one piece.
pub open spec fn split_spec(s: Seq<char>, sep: char) -> Seq<Seq<char>>
    decreases s.len(),
{
    if s.len() == 0 {
        seq![Seq::empty()]
    } else {
        let prev = split_spec(s.drop_last(), sep);
        if s.last() == sep {
            prev.push(Seq::empty())
        } else {
            prev.update(prev.len() - 1, prev.last().push(s.last()))
        }
    }
}

pub proof fn lemma_split_nonempty(s: Seq<char>, sep: char)
    ensures
        split_spec(s, sep).len() >= 1,
    decreases s.len(),
{
    if s.len() > 0 {
        lemma_split_nonempty(s.drop_last(), sep);
    }
}

/// Whether `s` holds no `sep`.
pub open spec fn lacks(s: Seq<char>, sep: char) -> bool {
    forall|i: int| 0 <= i < s.len() ==> #[trigger] s[i] != sep
}

/// A text without separators is a single piece.
pub proof fn lemma_split_single(s: Seq<char>, sep: char)
    requires
        lacks(s, sep),
    ensures
        split_spec(s, sep) == seq![s],
    decreases s.len(),
{
    if s.len() > 0 {
        let d = s.drop_last();
        assert(lacks(d, sep)) by {
            assert forall|i: int| 0 <= i < d.len() implies #[trigger] d[i] != sep by {
                assert(d[i] == s[i]);
            }
        }
        lemma_split_single(d, sep);
        assert(s.last() == s[s.len() - 1]);
        assert(d.push(s.last()) =~= s);
        assert(split_spec(s, sep) =~= seq![s]);
    } else {
        assert(s =~= Seq::<char>::empty());
    }
}

/// Splitting at a separator splits the two sides independently.
pub proof fn lemma_split_concat(a: Seq<char>, b: Seq<char>, sep: char)
    ensures
        split_spec(a.push(sep) + b, sep) == split_spec(a, sep) + split_spec(b, sep),
    decreases b.len(),
{
    lemma_split_nonempty(b, sep);
    if b.len() == 0 {
        assert(a.push(sep) + b =~= a.push(sep));
        assert(a.push(sep).drop_last() =~= a);
        assert(split_spec(a.push(sep), sep) =~= split_spec(a, sep) + split_spec(b, sep));
    } else {
        let b1 = b.drop_last();
        let c = b.last();
        lemma_split_concat(a, b1, sep);
        lemma_split_nonempty(b1, sep);
        let s = a.push(sep) + b;
        assert(s.drop_last() =~= a.push(sep) + b1);
        assert(s.last() == c);
        let pa = split_spec(a, sep);
        let pb = split_spec(b1, sep);
        if c == sep {
            assert(split_spec(s, sep) =~= (pa + pb).push(Seq::empty()));
            assert((pa + pb).push(Seq::empty()) =~= pa + pb.push(Seq::empty()));
        } else {
            let all = pa + pb;
            assert(all.last() == pb.last());
            assert(all.update(all.len() - 1, all.last().push(c)) =~= pa + pb.update(
                pb.len() - 1,
                pb.last().push(c),
            ));
        }
    }
}

/// The views of a list of text pieces.
pub open spec fn texts_view(v: Seq<&str>) -> Seq<Seq<char>> {
    v.map_values(|t: &str| t@)
}

/// The pieces of `s` between occurrences of `sep`.
pub fn split_char<'a>(s: &'a str, sep: char) -> (r: Vec<&'a str>)
    ensures
        texts_view(r@) == split_spec(s@, sep),
{
    let n = s.unicode_len();
    let mut pieces: Vec<&'a str> = Vec::new();
    let mut start: usize = 0;
    let mut i: usize = 0;
    proof {
        assert(s@.take(0) =~= Seq::<char>::empty());
        assert(texts_view(pieces@).push(s@.subrange(0, 0)) =~= seq![Seq::<char>::empty()]);
    }
    while i < n
        invariant
            n == s@.len(),
            start <= i <= n,
            split_spec(s@.take(i as int), sep) == texts_view(pieces@).push(
                s@.subrange(start as int, i as int),
            ),
        decreases n - i,
    {
        let c = s.get_char(i);
        proof {
            assert(s@.take(i + 1).drop_last() =~= s@.take(i as int));
            assert(s@.take(i + 1).last() == c);
        }
        if c == sep {
            let piece = s.substring_char(start, i);
            pieces.push(piece);
            start = i + 1;
            proof {
                assert(texts_view(pieces@) =~= texts_view(pieces@.drop_last()).push(piece@));
                assert(s@.subrange(start as int, (i + 1) as int) =~= Seq::<char>::empty());
            }
        } else {
            proof {
                assert(s@.subrange(start as int, (i + 1) as int) =~= s@.subrange(
                    start as int,
                    i as int,
                ).push(c));
            }
        }
        i += 1;
    }
    let last = s.substring_char(start, n);
    let ghost before = pieces@;
    pieces.push(last);
    proof {
        assert(s@.take(n as int) =~= s@);
        assert(texts_view(pieces@) =~= texts_view(before).push(last@));
    }
    pieces
}

} // verus!
