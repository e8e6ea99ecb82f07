//! Text helpers: decimal numerals, padding, trimming and replacement, each
//! stated over character sequences.

use vstd::prelude::*;

verus! {

broadcast use vstd::string::group_string_axioms;

/// The characters of each of the given texts.
pub open spec fn texts(v: Seq<String>) -> Seq<Seq<char>> {
    v.map_values(|s: String| s@)
}

/// The characters of an optional text.
pub open spec fn optional_text(s: Option<String>) -> Option<Seq<char>> {
    match s {
        Some(t) => Some(t@),
        None => None,
    }
}

/// The characters of `s`.
pub fn chars_of(s: &str) -> (r: Vec<char>)
    ensures
        r@ == s@,
{
    let mut out: Vec<char> = Vec::new();
    for c in it: s.chars()
        invariant
            out@ == it.seq().take(it.index()),
            it.seq() == s@,
    {
        proof {
            assert(it.seq().take(it.index() + 1) =~= it.seq().take(it.index()).push(c));
        }
        out.push(c);
    }
    assert(out@ =~= s@);
    out
}

/// Whether two texts hold the same characters.
pub fn same_text(a: &str, b: &str) -> (r: bool)
    ensures
        r == (a@ == b@),
{
    a.to_owned() == b.to_owned()
}

/// Whether `part` stands in `s` at position `i`.
pub open spec fn occurs_at(s: Seq<char>, part: Seq<char>, i: int) -> bool {
    &&& 0 <= i
    &&& i + part.len() <= s.len()
    &&& s.subrange(i, i + part.len()) == part
}

/// Whether `part` stands somewhere in `s`.
pub open spec fn part_of(part: Seq<char>, s: Seq<char>) -> bool {
    exists|i: int| #[trigger] occurs_at(s, part, i)
}

/// Tests [`occurs_at`] on character vectors.
pub fn occurs(s: &Vec<char>, part: &Vec<char>, i: usize) -> (r: bool)
    requires
        i <= s@.len(),
    ensures
        r == occurs_at(s@, part@, i as int),
{
    if part.len() > s.len() - i {
        return false;
    }
    let mut k: usize = 0;
    while k < part.len()
        invariant
            k <= part@.len(),
            i + part@.len() <= s.len(),
            forall|m: int| 0 <= m < k ==> s@[i + m] == part@[m],
        decreases part@.len() - k,
    {
        if s[i + k] != part[k] {
            assert(s@.subrange(i as int, i + part@.len())[k as int] != part@[k as int]);
            return false;
        }
        k += 1;
    }
    assert(s@.subrange(i as int, i + part@.len()) =~= part@);
    true
}

/// What is left of `s` from position `i` on once every occurrence of `from`,
/// taken from left to right without overlap, has become `to`.
pub open spec fn replace_from(s: Seq<char>, from: Seq<char>, to: Seq<char>, i: int) -> Seq<char>
    decreases s.len() - i,
{
    if i >= s.len() {
        seq![]
    } else if from.len() > 0 && occurs_at(s, from, i) {
        to + replace_from(s, from, to, i + from.len())
    } else {
        seq![s[i]] + replace_from(s, from, to, i + 1)
    }
}

/// `s` with every occurrence of `from`, taken from left to right without
/// overlap, replaced by `to`.
pub open spec fn replaced(s: Seq<char>, from: Seq<char>, to: Seq<char>) -> Seq<char> {
    replace_from(s, from, to, 0)
}

/// Replaces every occurrence of `from` in `s` by `to`.
pub fn replace_all(s: &str, from: &str, to: &str) -> (r: String)
    requires
        from@.len() > 0,
    ensures
        r@ == replaced(s@, from@, to@),
{
    let text = chars_of(s);
    let part = chars_of(from);
    let mut out = String::new();
    let mut start: usize = 0;
    let mut i: usize = 0;
    assert(out@ + s@.subrange(0, 0) + replace_from(s@, from@, to@, 0) =~= replaced(s@, from@, to@));
    while i < text.len()
        invariant
            text@ == s@,
            part@ == from@,
            from@.len() > 0,
            start <= i <= text@.len(),
            out@ + s@.subrange(start as int, i as int) + replace_from(s@, from@, to@, i as int)
                == replaced(s@, from@, to@),
        decreases text@.len() - i,
    {
        let ghost rest = replace_from(s@, from@, to@, i as int);
        let ghost before = out@;
        if occurs(&text, &part, i) {
            out.append(s.substring_char(start, i));
            out.append(to);
            let ghost tail = replace_from(s@, from@, to@, i + from@.len());
            assert(out@ + s@.subrange(i + from@.len(), i + from@.len()) + tail =~= before
                + s@.subrange(start as int, i as int) + rest);
            i = i + part.len();
            start = i;
        } else {
            let ghost tail = replace_from(s@, from@, to@, i + 1);
            assert(out@ + s@.subrange(start as int, i + 1) + tail =~= before + s@.subrange(
                start as int,
                i as int,
            ) + rest);
            i = i + 1;
        }
    }
    out.append(s.substring_char(start, i));
    assert(out@ =~= replaced(s@, from@, to@));
    out
}

/// The decimal digit that stands for `d`.
pub open spec fn digit(d: int) -> char
    recommends
        0 <= d < 10,
{
    ('0' as int + d) as char
}

/// The decimal numeral of `n`, without leading zeros.
pub open spec fn decimal(n: nat) -> Seq<char>
    decreases n,
{
    if n < 10 {
        seq![digit(n as int)]
    } else {
        decimal(n / 10).push(digit((n % 10) as int))
    }
}

/// Different numbers have different numerals.
pub proof fn lemma_decimal_differs(a: nat, b: nat)
    requires
        decimal(a) == decimal(b),
    ensures
        a == b,
    decreases a,
{
    let x = decimal(a);
    let y = decimal(b);
    assert(x.last() == digit((a % 10) as int));
    assert(y.last() == digit((b % 10) as int));
    if a >= 10 {
        lemma_decimal_len(b);
        lemma_decimal_len(a / 10);
        assert(x.drop_last() =~= decimal(a / 10));
        assert(y.drop_last() =~= decimal(b / 10));
        lemma_decimal_differs(a / 10, b / 10);
    } else if b >= 10 {
        lemma_decimal_len(b / 10);
    }
}

/// A numeral is not empty, and has one digit exactly below ten.
proof fn lemma_decimal_len(n: nat)
    ensures
        decimal(n).len() >= 1,
        decimal(n).len() == 1 ==> n < 10,
    decreases n,
{
    if n >= 10 {
        lemma_decimal_len(n / 10);
    }
}

/// The decimal numeral of `n`, with a minus sign in front of a negative one.
pub open spec fn signed_decimal(n: int) -> Seq<char> {
    if n < 0 {
        seq!['-'] + decimal((-n) as nat)
    } else {
        decimal(n as nat)
    }
}

/// Writes `n` in decimal.
pub fn decimal_text(n: u64) -> (r: String)
    ensures
        r@ == decimal(n as nat),
    decreases n,
{
    let mut out = String::new();
    if n >= 10 {
        out = decimal_text(n / 10);
    }
    let d: usize = (n % 10) as usize;
    proof {
        reveal_strlit("0123456789");
    }
    let one = "0123456789".substring_char(d, d + 1);
    assert(one@ =~= seq![digit(d as int)]);
    out.append(one);
    assert(out@ =~= decimal(n as nat));
    out
}

/// Writes `n` in decimal, with its sign if it is negative.
pub fn signed_decimal_text(n: i64) -> (r: String)
    ensures
        r@ == signed_decimal(n as int),
{
    if n < 0 {
        let magnitude: u64 = (-(n + 1)) as u64 + 1;
        let mut out = "-".to_owned();
        let digits = decimal_text(magnitude);
        out.append(digits.as_str());
        proof {
            reveal_strlit("-");
        }
        assert(out@ =~= signed_decimal(n as int));
        out
    } else {
        decimal_text(n as u64)
    }
}

/// Whether `c` is one of the ten decimal digits.
pub open spec fn is_digit(c: char) -> bool {
    '0' <= c <= '9'
}

/// The number that a sequence of decimal digits stands for.
pub open spec fn digits_value(ds: Seq<char>) -> int
    decreases ds.len(),
{
    if ds.len() == 0 {
        0
    } else {
        10 * digits_value(ds.drop_last()) + (ds.last() as int - '0' as int)
    }
}

/// The digits of a numeral, without its optional sign.
pub open spec fn unsigned_part(s: Seq<char>) -> Seq<char> {
    if s.len() > 0 && (s[0] == '+' || s[0] == '-') {
        s.skip(1)
    } else {
        s
    }
}

/// The integer that `s` spells: an optional sign, then at least one decimal
/// digit and nothing else.
pub open spec fn spelled_integer(s: Seq<char>) -> Option<int> {
    let ds = unsigned_part(s);
    if ds.len() > 0 && (forall|i: int| 0 <= i < ds.len() ==> is_digit(#[trigger] ds[i])) {
        if s[0] == '-' {
            Some(-digits_value(ds))
        } else {
            Some(digits_value(ds))
        }
    } else {
        None
    }
}

/// The 64-bit integer that `s` spells, if it spells one that fits.
pub open spec fn spelled_i64(s: Seq<char>) -> Option<i64> {
    match spelled_integer(s) {
        Some(n) => if i64::MIN <= n <= i64::MAX {
            Some(n as i64)
        } else {
            None
        },
        None => None,
    }
}

/// A longer run of digits never stands for a smaller number.
proof fn lemma_digits_value_grows(ds: Seq<char>, k: int)
    requires
        0 <= k <= ds.len(),
        forall|i: int| 0 <= i < ds.len() ==> is_digit(#[trigger] ds[i]),
    ensures
        0 <= digits_value(ds.take(k)) <= digits_value(ds),
    decreases ds.len(),
{
    if k == ds.len() {
        assert(ds.take(k) =~= ds);
        if ds.len() > 0 {
            lemma_digits_value_grows(ds.drop_last(), k - 1);
            assert(is_digit(ds[ds.len() - 1]));
        }
    } else {
        lemma_digits_value_grows(ds.drop_last(), k);
        assert(ds.drop_last().take(k) =~= ds.take(k));
        assert(is_digit(ds[ds.len() - 1]));
    }
}

/// Reads a signed 64-bit decimal integer.
pub fn parse_i64(s: &str) -> (r: Option<i64>)
    ensures
        r == spelled_i64(s@),
{
    let text = chars_of(s);
    let signed = text.len() > 0 && (text[0] == '+' || text[0] == '-');
    let first: usize = if signed {
        1
    } else {
        0
    };
    let ghost ds = unsigned_part(s@);
    assert(ds =~= s@.skip(first as int));
    if text.len() == first {
        return None;
    }
    let mut acc: i128 = 0;
    let mut i: usize = first;
    assert(ds.take(0) =~= Seq::<char>::empty());
    while i < text.len()
        invariant
            text@ == s@,
            ds == s@.skip(first as int),
            ds == unsigned_part(s@),
            first <= i <= text@.len(),
            first < text@.len(),
            forall|k: int| 0 <= k < i - first ==> is_digit(#[trigger] ds[k]),
            acc == digits_value(ds.take(i - first)),
            0 <= acc <= 0x1_0000_0000_0000_0000,
        decreases text@.len() - i,
    {
        let c = text[i];
        let ghost k = i - first;
        assert(ds[k] == c);
        if !('0' <= c && c <= '9') {
            return None;
        }
        let d: i128 = (c as u32 - '0' as u32) as i128;
        assert(ds.take(k + 1).drop_last() =~= ds.take(k));
        acc = acc * 10 + d;
        if acc > 0x1_0000_0000_0000_0000 {
            proof {
                if forall|m: int| 0 <= m < ds.len() ==> is_digit(#[trigger] ds[m]) {
                    lemma_digits_value_grows(ds, k + 1);
                }
            }
            return None;
        }
        i = i + 1;
    }
    assert(ds.take(ds.len() as int) =~= ds);
    let n: i128 = if text[0] == '-' {
        -acc
    } else {
        acc
    };
    if n < i64::MIN as i128 || n > i64::MAX as i128 {
        None
    } else {
        Some(n as i64)
    }
}

/// `s` without the slashes at its end.
pub open spec fn without_trailing_slashes(s: Seq<char>) -> Seq<char>
    decreases s.len(),
{
    if s.len() > 0 && s.last() == '/' {
        without_trailing_slashes(s.drop_last())
    } else {
        s
    }
}

/// Drops every slash at the end of `s`.
pub fn trim_trailing_slashes(s: &str) -> (r: String)
    ensures
        r@ == without_trailing_slashes(s@),
{
    let text = chars_of(s);
    let mut n: usize = text.len();
    assert(s@.take(n as int) =~= s@);
    while n > 0 && text[n - 1] == '/'
        invariant
            text@ == s@,
            n <= text@.len(),
            without_trailing_slashes(s@.take(n as int)) == without_trailing_slashes(s@),
        decreases n,
    {
        assert(s@.take(n as int).drop_last() =~= s@.take(n - 1));
        n = n - 1;
    }
    assert(s@.subrange(0, n as int) =~= s@.take(n as int));
    s.substring_char(0, n).to_owned()
}

/// `n` spaces.
pub open spec fn spaces(n: nat) -> Seq<char> {
    Seq::new(n, |i: int| ' ')
}

/// `s` filled up with spaces on the right to at least `width` characters.
pub open spec fn padded(s: Seq<char>, width: int) -> Seq<char> {
    if s.len() < width {
        s + spaces((width - s.len()) as nat)
    } else {
        s
    }
}

/// Fills `s` up with spaces on the right to at least `width` characters.
pub fn pad_right(s: &str, width: usize) -> (r: String)
    ensures
        r@ == padded(s@, width as int),
{
    let mut out = s.to_owned();
    let n: usize = s.unicode_len();
    let mut k: usize = n;
    proof {
        reveal_strlit(" ");
    }
    assert(out@ =~= s@ + spaces(0));
    while k < width
        invariant
            n == s@.len(),
            n <= k,
            n <= width ==> k <= width,
            n > width ==> k == n,
            out@ == s@ + spaces((k - n) as nat),
        decreases width - k,
    {
        proof {
            reveal_strlit(" ");
        }
        out.append(" ");
        assert(out@ =~= s@ + spaces((k + 1 - n) as nat));
        k = k + 1;
    }
    assert(s@ + spaces(0) =~= s@);
    out
}

/// A part stands at a position exactly if what follows from there begins with it.
pub proof fn law_occurs_at(s: Seq<char>, part: Seq<char>, i: int)
    ensures
        occurs_at(s, part, i) <==> 0 <= i <= s.len() && part.is_prefix_of(s.skip(i)),
{
    if 0 <= i && i + part.len() <= s.len() {
        assert(s.skip(i).take(part.len() as int) =~= s.subrange(i, i + part.len()));
    }
}

/// Where the beginning of a text is cut off, the rest is replaced as before.
proof fn lemma_replace_shift(s: Seq<char>, from: Seq<char>, to: Seq<char>, k: int, i: int)
    requires
        0 <= k <= i,
        k <= s.len(),
    ensures
        replace_from(s, from, to, i) == replace_from(s.skip(k), from, to, i - k),
    decreases s.len() - i,
{
    let r = s.skip(k);
    if i < s.len() {
        assert(occurs_at(s, from, i) == occurs_at(r, from, i - k)) by {
            if i + from.len() <= s.len() {
                assert(s.subrange(i, i + from.len()) =~= r.subrange(i - k, i - k + from.len()));
            }
        }
        if from.len() > 0 && occurs_at(s, from, i) {
            lemma_replace_shift(s, from, to, k, i + from.len());
        } else {
            lemma_replace_shift(s, from, to, k, i + 1);
            assert(r[i - k] == s[i]);
        }
    }
}

/// Where a text does not occur, nothing is replaced up to there.
pub proof fn lemma_replace_past(s: Seq<char>, from: Seq<char>, to: Seq<char>, i: int, k: int)
    requires
        0 <= i <= k <= s.len(),
        forall|p: int| i <= p < k ==> !#[trigger] occurs_at(s, from, p),
    ensures
        replace_from(s, from, to, i) == s.subrange(i, k) + replace_from(s, from, to, k),
    decreases k - i,
{
    if i < k {
        assert(!occurs_at(s, from, i));
        lemma_replace_past(s, from, to, i + 1, k);
        assert(s.subrange(i, k) =~= seq![s[i]] + s.subrange(i + 1, k));
        assert(replace_from(s, from, to, i) =~= s.subrange(i, k) + replace_from(s, from, to, k));
    } else {
        assert(replace_from(s, from, to, i) =~= s.subrange(i, k) + replace_from(s, from, to, k));
    }
}

/// A text in which `from` occurs nowhere stays as it is.
pub proof fn law_nothing_to_replace(s: Seq<char>, from: Seq<char>, to: Seq<char>)
    requires
        from.len() > 0,
        forall|j: int| 0 <= j < s.len() ==> !from.is_prefix_of(#[trigger] s.skip(j)),
    ensures
        replaced(s, from, to) == s,
{
    assert forall|p: int| 0 <= p < s.len() implies !#[trigger] occurs_at(s, from, p) by {
        law_occurs_at(s, from, p);
        assert(!from.is_prefix_of(s.skip(p)));
    }
    lemma_replace_past(s, from, to, 0, s.len() as int);
    assert(s.subrange(0, s.len() as int) =~= s);
    assert(replaced(s, from, to) =~= s);
}

/// The first occurrence of `from` becomes `to`: what stands before it stays, and
/// what stands behind it is a text of its own.
pub proof fn law_first_replacement(s: Seq<char>, from: Seq<char>, to: Seq<char>, i: int)
    requires
        from.len() > 0,
        0 <= i < s.len(),
        from.is_prefix_of(s.skip(i)),
        forall|j: int| 0 <= j < i ==> !from.is_prefix_of(#[trigger] s.skip(j)),
    ensures
        replaced(s, from, to) == s.take(i) + to + replaced(s.skip(i + from.len()), from, to),
{
    assert forall|p: int| 0 <= p < i implies !#[trigger] occurs_at(s, from, p) by {
        law_occurs_at(s, from, p);
        assert(!from.is_prefix_of(s.skip(p)));
    }
    law_occurs_at(s, from, i);
    lemma_replace_past(s, from, to, 0, i);
    lemma_replace_shift(s, from, to, i + from.len(), i + from.len());
    assert(s.subrange(0, i) =~= s.take(i));
    assert(replaced(s, from, to) =~= s.take(i) + to + replaced(s.skip(i + from.len()), from, to));
}

/// A run of digits is worth what its front is worth, ten times over, and its last
/// digit.
pub proof fn law_digits_value(ds: Seq<char>, c: char)
    ensures
        digits_value(ds.push(c)) == 10 * digits_value(ds) + (c as int - '0' as int),
        digits_value(Seq::<char>::empty()) == 0,
{
    assert(ds.push(c).drop_last() =~= ds);
}

/// A numeral holds digits only, has no leading zero, and is worth the number that
/// it was written for.
pub proof fn law_decimal(n: nat)
    ensures
        decimal(n).len() > 0,
        forall|i: int| 0 <= i < decimal(n).len() ==> '0' <= #[trigger] decimal(n)[i] <= '9',
        decimal(n)[0] == '0' ==> n == 0 && decimal(n).len() == 1,
        digits_value(decimal(n)) == n,
    decreases n,
{
    if n < 10 {
        assert(decimal(n).drop_last() =~= Seq::<char>::empty());
        assert(digits_value(Seq::<char>::empty()) == 0);
    } else {
        law_decimal(n / 10);
        let front = decimal(n / 10);
        assert(decimal(n).drop_last() =~= front);
        assert forall|i: int| 0 <= i < decimal(n).len() implies '0' <= #[trigger] decimal(n)[i]
            <= '9' by {
            if i < front.len() {
                assert(decimal(n)[i] == front[i]);
            }
        }
        assert(decimal(n)[0] == front[0]);
    }
}

/// A number that is written in decimal reads back as itself.
pub proof fn law_numerals_read_back(n: i64)
    ensures
        spelled_i64(signed_decimal(n as int)) == Some(n),
{
    let s = signed_decimal(n as int);
    if n < 0 {
        let ds = decimal((-n) as nat);
        law_decimal((-n) as nat);
        assert(s.skip(1) =~= ds);
        assert(unsigned_part(s) == ds);
        assert forall|i: int| 0 <= i < ds.len() implies is_digit(#[trigger] ds[i]) by {}
    } else {
        let ds = decimal(n as nat);
        law_decimal(n as nat);
        assert(is_digit(ds[0]));
        assert(unsigned_part(s) == ds);
        assert forall|i: int| 0 <= i < ds.len() implies is_digit(#[trigger] ds[i]) by {}
    }
}

/// A text spells an integer exactly if it is a sign, or none, and at least one
/// digit and nothing else; the integer is what the digits are worth, negative
/// behind a minus sign.
pub proof fn law_spelled_integer(ds: Seq<char>)
    requires
        ds.len() > 0,
        forall|i: int| 0 <= i < ds.len() ==> '0' <= #[trigger] ds[i] <= '9',
    ensures
        spelled_integer(ds) == Some(digits_value(ds)),
        spelled_integer(seq!['+'] + ds) == Some(digits_value(ds)),
        spelled_integer(seq!['-'] + ds) == Some(-digits_value(ds)),
{
    assert forall|i: int| 0 <= i < ds.len() implies is_digit(#[trigger] ds[i]) by {}
    assert(is_digit(ds[0]));
    assert((seq!['+'] + ds).skip(1) =~= ds);
    assert((seq!['-'] + ds).skip(1) =~= ds);
}

/// A text that holds anything else spells no integer.
pub proof fn law_no_integer(s: Seq<char>, i: int)
    requires
        s.len() == 0 || (0 <= i < s.len() && !('0' <= s[i] <= '9') && (i > 0 || s.len() == 1 || (s[0]
            != '+' && s[0] != '-'))),
    ensures
        spelled_integer(s) is None,
{
    let ds = unsigned_part(s);
    if s.len() > 0 {
        if s[0] == '+' || s[0] == '-' {
            if i > 0 {
                assert(ds[i - 1] == s[i]);
                assert(!is_digit(ds[i - 1]));
            }
        } else {
            assert(!is_digit(ds[i]));
        }
    }
}

/// Only slashes are dropped, all of those at the end and no others.
pub proof fn law_trailing_slashes(s: Seq<char>)
    ensures
        without_trailing_slashes(s).is_prefix_of(s),
        forall|i: int| without_trailing_slashes(s).len() <= i < s.len() ==> #[trigger] s[i] == '/',
        without_trailing_slashes(s).len() > 0 ==> without_trailing_slashes(s).last() != '/',
    decreases s.len(),
{
    if s.len() > 0 && s.last() == '/' {
        law_trailing_slashes(s.drop_last());
        let r = without_trailing_slashes(s);
        assert(s.take(r.len() as int) =~= s.drop_last().take(r.len() as int));
        assert forall|i: int| r.len() <= i < s.len() implies #[trigger] s[i] == '/' by {
            if i < s.len() - 1 {
                assert(s.drop_last()[i] == '/');
            }
        }
    } else {
        assert(s.take(s.len() as int) =~= s);
    }
}

/// A text is filled up with spaces behind it, to the width and no further; one
/// that is wide enough stays as it is.
pub proof fn law_padded(s: Seq<char>, width: int)
    ensures
        s.is_prefix_of(padded(s, width)),
        padded(s, width).len() == if s.len() < width {
            width
        } else {
            s.len() as int
        },
        forall|i: int| s.len() <= i < padded(s, width).len() ==> #[trigger] padded(s, width)[i] == ' ',
{
    assert(padded(s, width).take(s.len() as int) =~= s);
}

/// The characters of texts are those of each, one by one.
pub proof fn law_texts(v: Seq<String>, s: Option<String>)
    ensures
        texts(v).len() == v.len(),
        forall|i: int| 0 <= i < v.len() ==> #[trigger] texts(v)[i] == v[i]@,
        optional_text(s) is Some <==> s is Some,
        s matches Some(t) ==> optional_text(s) == Some(t@),
{
}

/// A text is part of another where that has the text behind some beginning.
pub proof fn law_part_of(part: Seq<char>, s: Seq<char>)
    ensures
        part_of(part, s) <==> exists|i: int|
            0 <= i <= s.len() && part.is_prefix_of(#[trigger] s.skip(i)),
{
    if part_of(part, s) {
        let i = choose|i: int| #[trigger] occurs_at(s, part, i);
        law_occurs_at(s, part, i);
        assert(part.is_prefix_of(s.skip(i)));
    }
    if exists|i: int| 0 <= i <= s.len() && part.is_prefix_of(#[trigger] s.skip(i)) {
        let i = choose|i: int| 0 <= i <= s.len() && part.is_prefix_of(#[trigger] s.skip(i));
        law_occurs_at(s, part, i);
        assert(occurs_at(s, part, i));
    }
}

} // verus!
