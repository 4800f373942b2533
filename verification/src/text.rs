//! Text primitives the file formats are built from, each stated as a spec
//! function and implemented by a verified executable function: splitting at a
//! character, splitting into whitespace-separated tokens, decimal integers.

use vstd::prelude::*;

verus! {

/// Whitespace as `char::is_whitespace` decides it: the Unicode `White_Space` characters.
pub open spec fn is_ws(c: char) -> bool {
    let u = c as u32;
    ||| 0x09 <= u <= 0x0D
    ||| u == 0x20 || u == 0x85 || u == 0xA0 || u == 0x1680
    ||| 0x2000 <= u <= 0x200A
    ||| u == 0x2028 || u == 0x2029 || u == 0x202F || u == 0x205F || u == 0x3000
}

/// The position of the first `c` in `s`, or the length of `s` when there is none.
pub open spec fn index_of_char(s: Seq<char>, c: char) -> nat
    decreases s.len(),
{
    if s.len() == 0 {
        0
    } else if s[0] == c {
        0
    } else {
        1 + index_of_char(s.drop_first(), c)
    }
}

/// The position of the first whitespace character in `s`, or the length of `s`.
pub open spec fn index_of_ws(s: Seq<char>) -> nat
    decreases s.len(),
{
    if s.len() == 0 {
        0
    } else if is_ws(s[0]) {
        0
    } else {
        1 + index_of_ws(s.drop_first())
    }
}

pub proof fn lemma_index_of_char_bound(s: Seq<char>, c: char)
    ensures
        index_of_char(s, c) <= s.len(),
    decreases s.len(),
{
    if s.len() > 0 && s[0] != c {
        lemma_index_of_char_bound(s.drop_first(), c);
    }
}

pub proof fn lemma_index_of_ws_bound(s: Seq<char>)
    ensures
        index_of_ws(s) <= s.len(),
    decreases s.len(),
{
    if s.len() > 0 && !is_ws(s[0]) {
        lemma_index_of_ws_bound(s.drop_first());
    }
}

/// `k` is the first `c` in `s` (or the end) when nothing before `k` is `c`.
pub proof fn lemma_index_of_char_at(s: Seq<char>, c: char, k: int)
    requires
        0 <= k <= s.len(),
        forall|j: int| 0 <= j < k ==> s[j] != c,
        k < s.len() ==> s[k] == c,
    ensures
        index_of_char(s, c) == k,
    decreases k,
{
    if k > 0 {
        assert(s[0] != c);
        lemma_index_of_char_at(s.drop_first(), c, k - 1);
    }
}

/// `k` is the first whitespace in `s` (or the end) when nothing before `k` is whitespace.
pub proof fn lemma_index_of_ws_at(s: Seq<char>, k: int)
    requires
        0 <= k <= s.len(),
        forall|j: int| 0 <= j < k ==> !is_ws(s[j]),
        k < s.len() ==> is_ws(s[k]),
    ensures
        index_of_ws(s) == k,
    decreases k,
{
    if k > 0 {
        assert(!is_ws(s[0]));
        lemma_index_of_ws_at(s.drop_first(), k - 1);
    }
}

/// The pieces of `s` between the occurrences of `c`, as `str::split` with a
/// character gives them: `n` occurrences give `n + 1` pieces, empty ones included.
pub open spec fn split_on(s: Seq<char>, c: char) -> Seq<Seq<char>>
    decreases s.len(),
{
    let k = index_of_char(s, c);
    if k >= s.len() {
        seq![s]
    } else {
        seq![s.take(k as int)] + split_on(s.skip(k as int + 1), c)
    }
}

/// The maximal runs of non-whitespace characters of `s`, in order, as
/// `str::split_whitespace` gives them.
pub open spec fn ws_tokens(s: Seq<char>) -> Seq<Seq<char>>
    decreases s.len(),
{
    if s.len() == 0 {
        seq![]
    } else if is_ws(s[0]) {
        ws_tokens(s.drop_first())
    } else {
        let k = index_of_ws(s);
        proof {
            lemma_index_of_ws_bound(s);
        }
        seq![s.take(k as int)] + ws_tokens(s.skip(k as int))
    }
}

/// The views of a sequence of character vectors.
pub open spec fn views(v: Seq<Vec<char>>) -> Seq<Seq<char>> {
    v.map_values(|x: Vec<char>| x@)
}

pub proof fn lemma_views_push(v: Seq<Vec<char>>, x: Vec<char>)
    ensures
        views(v.push(x)) == views(v).push(x@),
{
    assert(views(v.push(x)) =~= views(v).push(x@));
}

/// Decides `is_ws`, as `char::is_whitespace` does.
pub fn is_whitespace_char(c: char) -> (b: bool)
    ensures
        b == is_ws(c),
{
    let u = c as u32;
    (0x09 <= u && u <= 0x0D) || u == 0x20 || u == 0x85 || u == 0xA0 || u == 0x1680 || (0x2000
        <= u && u <= 0x200A) || u == 0x2028 || u == 0x2029 || u == 0x202F || u == 0x205F || u
        == 0x3000
}

/// The characters of `s` from `start` up to `end`.
pub fn copy_range(s: &Vec<char>, start: usize, end: usize) -> (r: Vec<char>)
    requires
        start <= end <= s.len(),
    ensures
        r@ == s@.subrange(start as int, end as int),
{
    let mut r: Vec<char> = Vec::new();
    let mut i = start;
    while i < end
        invariant
            start <= i <= end <= s.len(),
            r@ == s@.subrange(start as int, i as int),
        decreases end - i,
    {
        r.push(s[i]);
        assert(s@.subrange(start as int, i + 1) == s@.subrange(start as int, i as int).push(
            s@[i as int],
        ));
        i = i + 1;
    }
    r
}

/// The position of the first `c` at or after `start`, or the length of `s`.
pub fn find_char_from(s: &Vec<char>, start: usize, c: char) -> (k: usize)
    requires
        start <= s.len(),
    ensures
        start <= k <= s.len(),
        k == start + index_of_char(s@.skip(start as int), c),
{
    let mut i = start;
    while i < s.len()
        invariant
            start <= i <= s.len(),
            forall|j: int| start <= j < i ==> s@[j] != c,
        ensures
            start <= i <= s.len(),
            forall|j: int| start <= j < i ==> s@[j] != c,
            i < s.len() ==> s@[i as int] == c,
        decreases s.len() - i,
    {
        if s[i] == c {
            break;
        }
        i = i + 1;
    }
    proof {
        lemma_index_of_char_at(s@.skip(start as int), c, i - start);
    }
    i
}

/// The position of the first whitespace character at or after `start`, or the length of `s`.
pub fn find_ws_from(s: &Vec<char>, start: usize) -> (k: usize)
    requires
        start <= s.len(),
    ensures
        start <= k <= s.len(),
        k == start + index_of_ws(s@.skip(start as int)),
{
    let mut i = start;
    while i < s.len()
        invariant
            start <= i <= s.len(),
            forall|j: int| start <= j < i ==> !is_ws(s@[j]),
        ensures
            start <= i <= s.len(),
            forall|j: int| start <= j < i ==> !is_ws(s@[j]),
            i < s.len() ==> is_ws(s@[i as int]),
        decreases s.len() - i,
    {
        if is_whitespace_char(s[i]) {
            break;
        }
        i = i + 1;
    }
    proof {
        lemma_index_of_ws_at(s@.skip(start as int), i - start);
    }
    i
}


/// Splits `s` at every `c`, as `str::split` does.
pub fn split_chars(s: &Vec<char>, c: char) -> (pieces: Vec<Vec<char>>)
    ensures
        views(pieces@) == split_on(s@, c),
{
    let mut out: Vec<Vec<char>> = Vec::new();
    let mut start: usize = 0;
    assert(s@.skip(0) == s@);
    loop
        invariant
            start <= s.len(),
            split_on(s@, c) == views(out@) + split_on(s@.skip(start as int), c),
        decreases s.len() - start,
    {
        let k = find_char_from(s, start, c);
        let piece = copy_range(s, start, k);
        let ghost rest = s@.skip(start as int);
        proof {
            lemma_views_push(out@, piece);
            assert(rest.take(k - start) == piece@);
        }
        out.push(piece);
        if k == s.len() {
            assert(split_on(rest, c) == seq![rest]);
            assert(rest == piece@);
            assert(views(out@) == split_on(s@, c));
            return out;
        }
        proof {
            assert(rest.skip(k - start + 1) == s@.skip(k + 1));
            assert(split_on(rest, c) == seq![piece@] + split_on(s@.skip(k + 1), c));
            assert(split_on(s@, c) == views(out@) + split_on(s@.skip(k + 1), c));
        }
        start = k + 1;
    }
}

/// Splits `s` into its whitespace-separated tokens, as `str::split_whitespace` does.
pub fn whitespace_tokens(s: &Vec<char>) -> (toks: Vec<Vec<char>>)
    ensures
        views(toks@) == ws_tokens(s@),
{
    let mut out: Vec<Vec<char>> = Vec::new();
    let mut i: usize = 0;
    assert(s@.skip(0) == s@);
    while i < s.len()
        invariant
            i <= s.len(),
            ws_tokens(s@) == views(out@) + ws_tokens(s@.skip(i as int)),
        decreases s.len() - i,
    {
        let ghost rest = s@.skip(i as int);
        if is_whitespace_char(s[i]) {
            assert(rest.drop_first() == s@.skip(i + 1));
            i = i + 1;
        } else {
            let k = find_ws_from(s, i);
            proof {
                if k == i {
                    assert(rest[0] == s@[i as int]);
                    assert(index_of_ws(rest) > 0);
                }
            }
            let tok = copy_range(s, i, k);
            proof {
                lemma_views_push(out@, tok);
                assert(rest.take(k - i) == tok@);
                assert(rest.skip(k - i) == s@.skip(k as int));
                assert(ws_tokens(rest) == seq![tok@] + ws_tokens(s@.skip(k as int)));
            }
            out.push(tok);
            i = k;
        }
    }
    assert(s@.skip(i as int) == Seq::<char>::empty());
    assert(views(out@) + seq![] == views(out@));
    out
}

/// An ASCII decimal digit.
pub open spec fn is_digit(c: char) -> bool {
    48 <= (c as u32) <= 57
}

/// The value of a decimal digit.
pub open spec fn digit_value(c: char) -> nat {
    ((c as u32) - 48) as nat
}

/// Every character of `s` is a decimal digit.
pub open spec fn all_digits(s: Seq<char>) -> bool {
    forall|i: int| 0 <= i < s.len() ==> is_digit(#[trigger] s[i])
}

/// The number that the decimal digits `s` spell, most significant first.
pub open spec fn digits_value(s: Seq<char>) -> nat
    decreases s.len(),
{
    if s.len() == 0 {
        0
    } else {
        digits_value(s.drop_last()) * 10 + digit_value(s.last())
    }
}

/// `s` without one leading `+`, and, when `signed`, without one leading `-`.
pub open spec fn without_sign(s: Seq<char>, signed: bool) -> Seq<char> {
    if s.len() > 0 && (s[0] == '+' || (signed && s[0] == '-')) {
        s.drop_first()
    } else {
        s
    }
}

/// What `str::parse::<usize>` gives: an optional `+` followed by one or more
/// decimal digits whose value fits in a `usize`; nothing else, not even whitespace.
pub open spec fn parse_usize_text(s: Seq<char>) -> Option<usize> {
    let d = without_sign(s, false);
    if d.len() > 0 && all_digits(d) && digits_value(d) <= usize::MAX {
        Some(digits_value(d) as usize)
    } else {
        None
    }
}

/// What `str::parse::<i32>` gives: an optional `+` or `-` followed by one or
/// more decimal digits whose signed value fits in an `i32`.
pub open spec fn parse_i32_text(s: Seq<char>) -> Option<i32> {
    let d = without_sign(s, true);
    let negative = s.len() > 0 && s[0] == '-';
    if d.len() == 0 || !all_digits(d) {
        None
    } else if negative {
        if digits_value(d) <= 0x8000_0000 {
            Some((0 - digits_value(d)) as i32)
        } else {
            None
        }
    } else if digits_value(d) <= 0x7fff_ffff {
        Some(digits_value(d) as i32)
    } else {
        None
    }
}

pub proof fn lemma_digits_value_prefix(s: Seq<char>, j: int)
    requires
        0 <= j <= s.len(),
    ensures
        digits_value(s.take(j)) <= digits_value(s),
    decreases s.len(),
{
    if j < s.len() {
        lemma_digits_value_prefix(s.drop_last(), j);
        assert(s.drop_last().take(j) == s.take(j));
    } else {
        assert(s.take(j) == s);
    }
}

/// The value of the decimal digits of `s` from `start` on, when they are all
/// digits, there is at least one, and the value is at most `limit`.
fn parse_digits_from(s: &Vec<char>, start: usize, limit: u64) -> (r: Option<u64>)
    requires
        start <= s.len(),
        limit >= 9,
    ensures
        ({
            let d = s@.skip(start as int);
            match r {
                Some(v) => d.len() > 0 && all_digits(d) && digits_value(d) <= limit && v
                    == digits_value(d),
                None => !(d.len() > 0 && all_digits(d) && digits_value(d) <= limit),
            }
        }),
{
    let ghost d = s@.skip(start as int);
    if start == s.len() {
        return None;
    }
    let mut value: u64 = 0;
    let mut i = start;
    assert(d.take(0) == Seq::<char>::empty());
    while i < s.len()
        invariant
            start <= i <= s.len(),
            d == s@.skip(start as int),
            all_digits(d.take(i - start)),
            value == digits_value(d.take(i - start)),
            value <= limit,
            limit >= 9,
        decreases s.len() - i,
    {
        let c = s[i];
        let u = c as u32;
        if u < 48 || u > 57 {
            assert(d[i - start] == c);
            return None;
        }
        let dv = (u - 48) as u64;
        let ghost prefix = d.take(i - start + 1);
        assert(prefix.drop_last() == d.take(i - start));
        assert(prefix.last() == c);
        assert(digits_value(prefix) == value * 10 + dv);
        if value > (limit - dv) / 10 {
            assert(value * 10 + dv > limit) by (nonlinear_arith)
                requires
                    value > (limit - dv) / 10,
                    dv <= 9,
                    dv <= limit,
            ;
            proof {
                lemma_digits_value_prefix(d, i - start + 1);
            }
            return None;
        }
        assert(value * 10 + dv <= limit) by (nonlinear_arith)
            requires
                value <= (limit - dv) / 10,
                dv <= limit,
        ;
        value = value * 10 + dv;
        assert(all_digits(prefix)) by {
            assert forall|k: int| 0 <= k < prefix.len() implies is_digit(#[trigger] prefix[k]) by {
                if k < i - start {
                    assert(prefix[k] == d.take(i - start)[k]);
                }
            }
        }
        i = i + 1;
    }
    assert(d.take(i - start) == d);
    Some(value)
}

/// Parses a `usize` as `str::parse::<usize>` does.
pub fn parse_usize(s: &Vec<char>) -> (r: Option<usize>)
    ensures
        r == parse_usize_text(s@),
{
    let start: usize = if s.len() > 0 && s[0] == '+' {
        1
    } else {
        0
    };
    assert(without_sign(s@, false) == s@.skip(start as int));
    let limit = usize::MAX as u64;
    match parse_digits_from(s, start, limit) {
        Some(v) => Some(v as usize),
        None => None,
    }
}

/// Parses an `i32` as `str::parse::<i32>` does.
pub fn parse_i32(s: &Vec<char>) -> (r: Option<i32>)
    ensures
        r == parse_i32_text(s@),
{
    let negative = s.len() > 0 && s[0] == '-';
    let start: usize = if s.len() > 0 && (s[0] == '+' || s[0] == '-') {
        1
    } else {
        0
    };
    assert(without_sign(s@, true) == s@.skip(start as int));
    match parse_digits_from(s, start, 0x8000_0000) {
        Some(v) => {
            if negative {
                Some((0 - (v as i64)) as i32)
            } else if v <= 0x7fff_ffff {
                Some(v as i32)
            } else {
                None
            }
        },
        None => {
            let ghost d = s@.skip(start as int);
            assert(!(d.len() > 0 && all_digits(d) && digits_value(d) <= 0x8000_0000));
            None
        },
    }
}

/// The character of the decimal digit `d`.
pub open spec fn digit_char(d: nat) -> char {
    ((d + 48) as u8) as char
}

/// The decimal numeral of `n`, as `{}` formats an unsigned integer: no sign,
/// no leading zeros, `0` for zero.
pub open spec fn decimal(n: nat) -> Seq<char>
    decreases n,
{
    if n < 10 {
        seq![digit_char(n)]
    } else {
        decimal(n / 10).push(digit_char(n % 10))
    }
}

/// A decimal numeral reads back as the number it was written from.
pub proof fn lemma_decimal_digits(n: nat)
    ensures
        decimal(n).len() > 0,
        all_digits(decimal(n)),
        digits_value(decimal(n)) == n,
        decimal(n)[0] != '+',
        decimal(n)[0] != '-',
        decimal(n)[0] != ',',
        forall|i: int| 0 <= i < decimal(n).len() ==> !is_ws(#[trigger] decimal(n)[i]),
    decreases n,
{
    let last = if n < 10 { n } else { n % 10 };
    assert(digit_value(digit_char(last)) == last);
    if n < 10 {
        assert(decimal(n).drop_last() == Seq::<char>::empty());
        assert(digits_value(decimal(n)) == digits_value(Seq::<char>::empty()) * 10 + last);
    } else {
        lemma_decimal_digits(n / 10);
        let s = decimal(n);
        assert(s.drop_last() == decimal(n / 10));
        assert(s[0] == decimal(n / 10)[0]);
        assert(all_digits(s)) by {
            assert forall|i: int| 0 <= i < s.len() implies is_digit(#[trigger] s[i]) by {
                if i < s.len() - 1 {
                    assert(s[i] == decimal(n / 10)[i]);
                }
            }
        }
        assert forall|i: int| 0 <= i < s.len() implies !is_ws(#[trigger] s[i]) by {
            if i < s.len() - 1 {
                assert(s[i] == decimal(n / 10)[i]);
            }
        }
        assert(n == (n / 10) * 10 + n % 10);
        assert(s.last() == digit_char(last));
        assert(digits_value(s) == digits_value(decimal(n / 10)) * 10 + last);
    }
}

/// Law: parsing the decimal numeral of a `usize` gives the number back.
pub proof fn lemma_parse_decimal_usize(n: usize)
    ensures
        parse_usize_text(decimal(n as nat)) == Some(n),
{
    lemma_decimal_digits(n as nat);
}

/// Formats a `usize` in decimal, as `{}` does.
pub fn decimal_text(n: usize) -> (s: String)
    ensures
        s@ == decimal(n as nat),
{
    let mut digits: Vec<char> = Vec::new();
    let mut m = n;
    while m >= 10
        invariant
            decimal(n as nat) == decimal(m as nat) + digits@,
        decreases m,
    {
        let d = (m % 10) as u8;
        let c = (d + 48) as char;
        let ghost before = digits@;
        digits.insert(0, c);
        proof {
            assert(decimal(m as nat) == decimal((m / 10) as nat).push(c));
            assert(digits@ == seq![c] + before);
            assert(decimal((m / 10) as nat).push(c) + before =~= decimal((m / 10) as nat)
                + digits@);
        }
        m = m / 10;
    }
    let d = m as u8;
    let c = (d + 48) as char;
    digits.insert(0, c);
    assert(decimal(n as nat) == digits@);
    string_from_chars(&digits)
}

/// The string of the characters of `v`, in order.
pub fn string_from_chars(v: &Vec<char>) -> (s: String)
    ensures
        s@ == v@,
{
    let mut s = String::new();
    let mut i: usize = 0;
    while i < v.len()
        invariant
            i <= v.len(),
            s@ == v@.take(i as int),
        decreases v.len() - i,
    {
        crate::util::push_char(&mut s, v[i]);
        assert(v@.take(i + 1) == v@.take(i as int).push(v@[i as int]));
        i = i + 1;
    }
    assert(v@.take(i as int) == v@);
    s
}

/// What `index_of_ws` finds: nothing before it is whitespace, and it is
/// whitespace unless it is the end.
pub proof fn lemma_index_of_ws_props(s: Seq<char>)
    ensures
        index_of_ws(s) <= s.len(),
        forall|j: int| 0 <= j < index_of_ws(s) ==> !is_ws(#[trigger] s[j]),
        index_of_ws(s) < s.len() ==> is_ws(s[index_of_ws(s) as int]),
    decreases s.len(),
{
    if s.len() > 0 && !is_ws(s[0]) {
        let t = s.drop_first();
        lemma_index_of_ws_props(t);
        assert forall|j: int| 0 <= j < index_of_ws(s) implies !is_ws(#[trigger] s[j]) by {
            if j > 0 {
                assert(s[j] == t[j - 1]);
            }
        }
    }
}

/// Law: whitespace between two texts separates their tokens, so the tokens of
/// the joined text are the tokens of the first followed by those of the second.
pub proof fn lemma_ws_tokens_join(a: Seq<char>, w: char, b: Seq<char>)
    requires
        is_ws(w),
    ensures
        ws_tokens(a + seq![w] + b) == ws_tokens(a) + ws_tokens(b),
    decreases a.len(),
{
    let x = a + seq![w] + b;
    if a.len() == 0 {
        assert(x.drop_first() == b);
        assert(ws_tokens(a) == Seq::<Seq<char>>::empty());
        assert(ws_tokens(a) + ws_tokens(b) == ws_tokens(b));
    } else if is_ws(a[0]) {
        assert(x[0] == a[0]);
        assert(x.drop_first() == a.drop_first() + seq![w] + b);
        lemma_ws_tokens_join(a.drop_first(), w, b);
    } else {
        lemma_index_of_ws_props(a);
        let k = index_of_ws(a) as int;
        assert(k > 0);
        assert forall|j: int| 0 <= j < k implies !is_ws(#[trigger] x[j]) by {
            assert(x[j] == a[j]);
        }
        if k < a.len() {
            assert(x[k] == a[k]);
        } else {
            assert(x[k] == w);
        }
        lemma_index_of_ws_at(x, k);
        assert(x[0] == a[0]);
        assert(x.take(k) == a.take(k));
        assert(x.skip(k) == a.skip(k) + seq![w] + b);
        lemma_ws_tokens_join(a.skip(k), w, b);
        assert(ws_tokens(x) == seq![a.take(k)] + ws_tokens(x.skip(k)));
        assert(ws_tokens(a) == seq![a.take(k)] + ws_tokens(a.skip(k)));
        assert(ws_tokens(x) == seq![a.take(k)] + (ws_tokens(a.skip(k)) + ws_tokens(b)));
        assert(seq![a.take(k)] + (ws_tokens(a.skip(k)) + ws_tokens(b)) =~= (seq![a.take(k)]
            + ws_tokens(a.skip(k))) + ws_tokens(b));
    }
}

/// The texts `ls` with `sep` between neighbours, as `join` does.
pub open spec fn join_with(ls: Seq<Seq<char>>, sep: char) -> Seq<char>
    decreases ls.len(),
{
    if ls.len() == 0 {
        seq![]
    } else if ls.len() == 1 {
        ls[0]
    } else {
        join_with(ls.drop_last(), sep) + seq![sep] + ls.last()
    }
}

/// The tokens of each text of `ls`, one text after the other.
pub open spec fn tokens_of_each(ls: Seq<Seq<char>>) -> Seq<Seq<char>>
    decreases ls.len(),
{
    if ls.len() == 0 {
        seq![]
    } else {
        tokens_of_each(ls.drop_last()) + ws_tokens(ls.last())
    }
}

/// Law: the tokens of texts joined with spaces are the tokens of each text in turn.
pub proof fn lemma_tokens_of_joined(ls: Seq<Seq<char>>)
    ensures
        ws_tokens(join_with(ls, ' ')) == tokens_of_each(ls),
    decreases ls.len(),
{
    if ls.len() == 1 {
        assert(ls.drop_last().len() == 0);
        assert(tokens_of_each(ls.drop_last()) == Seq::<Seq<char>>::empty());
        assert(ls.last() == ls[0]);
        assert(tokens_of_each(ls) == Seq::<Seq<char>>::empty() + ws_tokens(ls[0]));
        assert(Seq::<Seq<char>>::empty() + ws_tokens(ls[0]) == ws_tokens(ls[0]));
    } else if ls.len() > 1 {
        lemma_tokens_of_joined(ls.drop_last());
        assert(is_ws(' '));
        lemma_ws_tokens_join(join_with(ls.drop_last(), ' '), ' ', ls.last());
    }
}

/// The characters of `s`, in order.
pub fn chars_of(s: &str) -> (v: Vec<char>)
    ensures
        v@ == s@,
{
    broadcast use vstd::string::group_string_axioms;

    let mut v: Vec<char> = Vec::new();
    for c in it: s.chars()
        invariant
            v.len() == it.index(),
            forall|i: int| 0 <= i < v.len() ==> v@[i] == it.seq()[i],
    {
        v.push(c);
    }
    assert(v@ =~= s@);
    v
}

/// A line without the `'\r'` that ends it, if one does.
pub open spec fn without_cr(l: Seq<char>) -> Seq<char> {
    if l.len() > 0 && l.last() == '\r' {
        l.drop_last()
    } else {
        l
    }
}

/// The lines of a text as `BufRead::lines` gives them: split after each `'\n'`,
/// which goes, with a `'\r'` just before it; a last line without `'\n'` stays as it is.
pub open spec fn text_lines(s: Seq<char>) -> Seq<Seq<char>>
    decreases s.len(),
{
    if s.len() == 0 {
        seq![]
    } else {
        let k = index_of_char(s, '\n');
        if k >= s.len() {
            seq![s]
        } else {
            seq![without_cr(s.take(k as int))] + text_lines(s.skip(k as int + 1))
        }
    }
}

/// Law: a line written with `"\r\n"` after it reads back as itself, and the
/// lines after it follow.
pub proof fn lemma_text_lines_crlf(a: Seq<char>, rest: Seq<char>)
    requires
        !a.contains('\n'),
    ensures
        text_lines(a + seq!['\r', '\n'] + rest) == seq![a] + text_lines(rest),
{
    let s = a + seq!['\r', '\n'] + rest;
    let k = a.len() + 1int;
    assert forall|j: int| 0 <= j < k implies s[j] != '\n' by {
        if j < a.len() {
            assert(s[j] == a[j]);
        }
    }
    lemma_index_of_char_at(s, '\n', k);
    assert(s.take(k) == a.push('\r'));
    assert(a.push('\r').drop_last() == a);
    assert(s.skip(k + 1) == rest);
}

/// Splits a text into lines, as `BufRead::lines` does.
pub fn split_lines(s: &Vec<char>) -> (lines: Vec<Vec<char>>)
    ensures
        views(lines@) == text_lines(s@),
{
    let mut out: Vec<Vec<char>> = Vec::new();
    let mut start: usize = 0;
    assert(s@.skip(0) == s@);
    while start < s.len()
        invariant
            start <= s.len(),
            text_lines(s@) == views(out@) + text_lines(s@.skip(start as int)),
        decreases s.len() - start,
    {
        let ghost rest = s@.skip(start as int);
        let k = find_char_from(s, start, '\n');
        let mut line = copy_range(s, start, k);
        assert(line@ == rest.take(k - start));
        if k == s.len() {
            assert(rest.take(k - start) == rest);
            assert(text_lines(rest) == seq![line@]);
            proof {
                lemma_views_push(out@, line);
            }
            out.push(line);
            assert(s@.skip(s.len() as int) == Seq::<char>::empty());
            start = k;
        } else {
            if line.len() > 0 && line[line.len() - 1] == '\r' {
                line.pop();
            }
            assert(rest.skip(k - start + 1) == s@.skip(k + 1));
            assert(text_lines(rest) == seq![line@] + text_lines(s@.skip(k + 1)));
            proof {
                lemma_views_push(out@, line);
            }
            out.push(line);
            start = k + 1;
        }
    }
    assert(s@.skip(start as int) == Seq::<char>::empty());
    assert(views(out@) + seq![] == views(out@));
    out
}

/// Law: splitting at `c` a text made of `x`, `c` and `y` gives the pieces of `x`
/// followed by the pieces of `y`.
pub proof fn lemma_split_on_join(x: Seq<char>, c: char, y: Seq<char>)
    ensures
        split_on(x + seq![c] + y, c) == split_on(x, c) + split_on(y, c),
    decreases x.len(),
{
    let s = x + seq![c] + y;
    lemma_index_of_char_bound(x, c);
    let k = index_of_char(x, c) as int;
    lemma_index_of_char_props(x, c);
    assert forall|j: int| 0 <= j < k implies s[j] != c by {
        assert(s[j] == x[j]);
    }
    if k < x.len() {
        assert(s[k] == x[k]);
    } else {
        assert(s[k] == c);
    }
    lemma_index_of_char_at(s, c, k);
    assert(s.take(k) == x.take(k));
    if k == x.len() {
        assert(x.take(k) == x);
        assert(s.skip(k + 1) == y);
    } else {
        assert(s.skip(k + 1) == x.skip(k + 1) + seq![c] + y);
        lemma_split_on_join(x.skip(k + 1), c, y);
        assert(split_on(x, c) == seq![x.take(k)] + split_on(x.skip(k + 1), c));
        assert(seq![x.take(k)] + (split_on(x.skip(k + 1), c) + split_on(y, c)) =~= (seq![
            x.take(k),
        ] + split_on(x.skip(k + 1), c)) + split_on(y, c));
    }
}

/// What `index_of_char` finds: nothing before it is `c`, and it is `c` unless it
/// is the end.
pub proof fn lemma_index_of_char_props(s: Seq<char>, c: char)
    ensures
        index_of_char(s, c) <= s.len(),
        forall|j: int| 0 <= j < index_of_char(s, c) ==> #[trigger] s[j] != c,
        index_of_char(s, c) < s.len() ==> s[index_of_char(s, c) as int] == c,
    decreases s.len(),
{
    if s.len() > 0 && s[0] != c {
        let t = s.drop_first();
        lemma_index_of_char_props(t, c);
        assert forall|j: int| 0 <= j < index_of_char(s, c) implies #[trigger] s[j] != c by {
            if j > 0 {
                assert(s[j] == t[j - 1]);
            }
        }
    }
}

/// A text without `c` is a single piece.
pub proof fn lemma_split_on_single(y: Seq<char>, c: char)
    requires
        !y.contains(c),
    ensures
        split_on(y, c) == seq![y],
{
    lemma_index_of_char_props(y, c);
    if index_of_char(y, c) < y.len() {
        assert(y.contains(c));
    }
}

/// Law: texts without `c`, joined with `c`, split back into themselves.
pub proof fn lemma_split_joined(ps: Seq<Seq<char>>, c: char)
    requires
        ps.len() > 0,
        forall|i: int| 0 <= i < ps.len() ==> !(#[trigger] ps[i]).contains(c),
    ensures
        split_on(join_with(ps, c), c) == ps,
    decreases ps.len(),
{
    if ps.len() == 1 {
        lemma_split_on_single(ps[0], c);
        assert(seq![ps[0]] == ps);
    } else {
        let init = ps.drop_last();
        assert forall|i: int| 0 <= i < init.len() implies !(#[trigger] init[i]).contains(c) by {
            assert(init[i] == ps[i]);
        }
        lemma_split_joined(init, c);
        lemma_split_on_join(join_with(init, c), c, ps.last());
        lemma_split_on_single(ps.last(), c);
        assert(init + seq![ps.last()] == ps);
    }
}

/// The texts of a sequence of strings.
pub open spec fn string_views(v: Seq<String>) -> Seq<Seq<char>> {
    v.map_values(|x: String| x@)
}

/// The texts of the character vectors `v`, as strings.
pub fn strings_of(v: &Vec<Vec<char>>) -> (r: Vec<String>)
    ensures
        string_views(r@) == views(v@),
{
    let mut r: Vec<String> = Vec::new();
    let mut i: usize = 0;
    while i < v.len()
        invariant
            i <= v.len(),
            string_views(r@) == views(v@).take(i as int),
        decreases v.len() - i,
    {
        let s = string_from_chars(&v[i]);
        assert(views(v@)[i as int] == v@[i as int]@);
        assert(string_views(r@.push(s)) =~= string_views(r@).push(s@));
        assert(views(v@).take(i + 1) =~= views(v@).take(i as int).push(v@[i as int]@));
        r.push(s);
        i = i + 1;
    }
    assert(views(v@).take(i as int) == views(v@));
    r
}

/// `c` in lower case, when it is an ASCII letter.
pub open spec fn ascii_lower(c: char) -> char {
    if 65 <= (c as u32) <= 90 {
        ((c as u32) + 32) as char
    } else {
        c
    }
}

/// `s` is `word`, ignoring the case of ASCII letters.
pub open spec fn is_word(s: Seq<char>, word: Seq<char>) -> bool {
    s.len() == word.len() && forall|i: int| 0 <= i < s.len() ==> ascii_lower(#[trigger] s[i])
        == word[i]
}

/// The position of the first `e` or `E` in `s`, or the length of `s`.
pub open spec fn index_of_exp(s: Seq<char>) -> nat
    decreases s.len(),
{
    if s.len() == 0 {
        0
    } else if ascii_lower(s[0]) == 'e' {
        0
    } else {
        1 + index_of_exp(s.drop_first())
    }
}

/// Digits with at most one decimal point, and at least one digit.
pub open spec fn mantissa_ok(m: Seq<char>) -> bool {
    let p = index_of_char(m, '.');
    if p >= m.len() {
        m.len() > 0 && all_digits(m)
    } else {
        all_digits(m.take(p as int)) && all_digits(m.skip(p as int + 1)) && m.len() >= 2
    }
}

/// An optional sign followed by one or more digits.
pub open spec fn exponent_ok(e: Seq<char>) -> bool {
    let d = without_sign(e, true);
    d.len() > 0 && all_digits(d)
}

/// The texts that `str::parse::<f64>` accepts, as its documentation gives them:
/// an optional sign, then `inf`, `infinity` or `nan` in any case, or digits with
/// at most one decimal point and at least one digit, optionally followed by `e`
/// or `E`, an optional sign and one or more digits.
pub open spec fn real_text(s: Seq<char>) -> bool {
    let u = without_sign(s, true);
    let k = index_of_exp(u);
    ||| is_word(u, seq!['i', 'n', 'f'])
    ||| is_word(u, seq!['i', 'n', 'f', 'i', 'n', 'i', 't', 'y'])
    ||| is_word(u, seq!['n', 'a', 'n'])
    ||| (mantissa_ok(u.take(k as int)) && (k >= u.len() || exponent_ok(u.skip(k as int + 1))))
}

/// Every text of `ts` is a real number.
pub open spec fn all_real(ts: Seq<Seq<char>>) -> bool {
    forall|i: int| 0 <= i < ts.len() ==> real_text(#[trigger] ts[i])
}

proof fn lemma_index_of_exp_at(s: Seq<char>, k: int)
    requires
        0 <= k <= s.len(),
        forall|j: int| 0 <= j < k ==> ascii_lower(s[j]) != 'e',
        k < s.len() ==> ascii_lower(s[k]) == 'e',
    ensures
        index_of_exp(s) == k,
    decreases k,
{
    if k > 0 {
        assert(ascii_lower(s[0]) != 'e');
        lemma_index_of_exp_at(s.drop_first(), k - 1);
    }
}

/// Decides `ascii_lower`.
fn lower_char(c: char) -> (r: char)
    ensures
        r == ascii_lower(c),
{
    let u = c as u32;
    if 65 <= u && u <= 90 {
        ((u + 32) as u8) as char
    } else {
        c
    }
}

/// Whether the characters of `v` from `a` to `b` are all digits.
fn digits_only(v: &Vec<char>, a: usize, b: usize) -> (r: bool)
    requires
        a <= b <= v.len(),
    ensures
        r == all_digits(v@.subrange(a as int, b as int)),
{
    let mut i = a;
    while i < b
        invariant
            a <= i <= b <= v.len(),
            all_digits(v@.subrange(a as int, i as int)),
        decreases b - i,
    {
        let u = v[i] as u32;
        if u < 48 || u > 57 {
            assert(v@.subrange(a as int, b as int)[i - a] == v@[i as int]);
            return false;
        }
        assert forall|k: int| 0 <= k < i + 1 - a implies is_digit(
            #[trigger] v@.subrange(a as int, i + 1)[k],
        ) by {
            if k < i - a {
                assert(v@.subrange(a as int, i + 1)[k] == v@.subrange(a as int, i as int)[k]);
            }
        }
        i = i + 1;
    }
    true
}

/// Whether `v` is `word`, ignoring the case of ASCII letters.
fn word_is(v: &Vec<char>, word: &Vec<char>) -> (r: bool)
    ensures
        r == is_word(v@, word@),
{
    if v.len() != word.len() {
        return false;
    }
    let mut i: usize = 0;
    while i < v.len()
        invariant
            i <= v.len() == word.len(),
            forall|k: int| 0 <= k < i ==> ascii_lower(#[trigger] v@[k]) == word@[k],
        decreases v.len() - i,
    {
        if lower_char(v[i]) != word[i] {
            return false;
        }
        i = i + 1;
    }
    true
}

/// Whether `s` is a real number as `str::parse::<f64>` reads one.
pub fn is_real_text(s: &Vec<char>) -> (r: bool)
    ensures
        r == real_text(s@),
{
    let start: usize = if s.len() > 0 && (s[0] == '+' || s[0] == '-') {
        1
    } else {
        0
    };
    let u = copy_range(s, start, s.len());
    assert(u@ == without_sign(s@, true));
    if word_is(&u, &vec!['i', 'n', 'f']) || word_is(&u, &vec!['i', 'n', 'f', 'i', 'n', 'i', 't', 'y'])
        || word_is(&u, &vec!['n', 'a', 'n']) {
        return true;
    }
    let mut k: usize = 0;
    while k < u.len()
        invariant
            k <= u.len(),
            forall|j: int| 0 <= j < k ==> ascii_lower(u@[j]) != 'e',
        ensures
            k <= u.len(),
            forall|j: int| 0 <= j < k ==> ascii_lower(u@[j]) != 'e',
            k < u.len() ==> ascii_lower(u@[k as int]) == 'e',
        decreases u.len() - k,
    {
        if lower_char(u[k]) == 'e' {
            break;
        }
        k = k + 1;
    }
    proof {
        lemma_index_of_exp_at(u@, k as int);
    }
    let m = copy_range(&u, 0, k);
    assert(m@ == u@.take(k as int));
    let p = find_char_from(&m, 0, '.');
    assert(m@.skip(0) == m@);
    let mantissa = if p >= m.len() {
        assert(m@.subrange(0, m.len() as int) == m@);
        m.len() > 0 && digits_only(&m, 0, m.len())
    } else {
        assert(m@.subrange(0, p as int) == m@.take(p as int));
        assert(m@.subrange(p + 1, m.len() as int) == m@.skip(p + 1));
        digits_only(&m, 0, p) && digits_only(&m, p + 1, m.len()) && m.len() >= 2
    };
    if !mantissa {
        return false;
    }
    if k >= u.len() {
        return true;
    }
    let e = copy_range(&u, k + 1, u.len());
    assert(e@ == u@.skip(k + 1));
    let es: usize = if e.len() > 0 && (e[0] == '+' || e[0] == '-') {
        1
    } else {
        0
    };
    assert(without_sign(e@, true) == e@.subrange(es as int, e.len() as int));
    es < e.len() && digits_only(&e, es, e.len())
}

/// A decimal numeral is a real number.
pub proof fn lemma_decimal_real(n: nat)
    ensures
        real_text(decimal(n)),
{
    lemma_decimal_digits(n);
    let d = decimal(n);
    assert(without_sign(d, true) == d);
    assert forall|j: int| 0 <= j < d.len() implies ascii_lower(d[j]) != 'e' && d[j] != '.' by {
        assert(is_digit(d[j]));
    }
    lemma_index_of_exp_at(d, d.len() as int);
    lemma_index_of_char_at(d, '.', d.len() as int);
    assert(d.take(d.len() as int) == d);
}

/// Law: decimal notation is a real number whatever the number of its digits:
/// digits, optionally a point and more digits, optionally `e` or `E`, a sign or
/// none, and one or more exponent digits (so `2.5e-04`, `1.70141e+038`, `3E7`,
/// `0.05` and `5001` all are).
pub proof fn lemma_decimal_notation_is_real(
    whole: Seq<char>,
    frac: Seq<char>,
    marker: char,
    sign: Seq<char>,
    exp: Seq<char>,
)
    requires
        whole.len() > 0,
        all_digits(whole),
        all_digits(frac),
        marker == 'e' || marker == 'E',
        sign == Seq::<char>::empty() || sign == seq!['+'] || sign == seq!['-'],
        exp.len() > 0,
        all_digits(exp),
    ensures
        real_text(whole + seq!['.'] + frac + seq![marker] + sign + exp),
        real_text(whole + seq![marker] + sign + exp),
        real_text(whole + seq!['.'] + frac),
        real_text(whole),
{
    assert(ascii_lower(marker) == 'e');
    assert(is_digit(whole[0]));
    lemma_point_mantissa(whole, frac);
    lemma_plain_mantissa(whole);
    let m = whole + seq!['.'] + frac;
    assert(m[0] == whole[0]);
    lemma_mantissa_then_exponent(m, marker, sign, exp);
    lemma_mantissa_then_exponent(whole, marker, sign, exp);
    lemma_plain_real(m);
    lemma_plain_real(whole);
}

/// Digits, with a point between two runs of them when there is one.
proof fn lemma_point_mantissa(whole: Seq<char>, frac: Seq<char>)
    requires
        whole.len() > 0,
        all_digits(whole),
        all_digits(frac),
    ensures
        mantissa_ok(whole + seq!['.'] + frac),
        forall|i: int|
            0 <= i < (whole + seq!['.'] + frac).len() ==> ascii_lower(
                #[trigger] (whole + seq!['.'] + frac)[i],
            ) != 'e',
{
    let m = whole + seq!['.'] + frac;
    assert forall|j: int| 0 <= j < whole.len() implies m[j] != '.' by {
        assert(m[j] == whole[j]);
        assert(is_digit(whole[j]));
    }
    lemma_index_of_char_at(m, '.', whole.len() as int);
    assert(m.take(whole.len() as int) == whole);
    assert(m.skip(whole.len() as int + 1) == frac);
    assert forall|i: int| 0 <= i < m.len() implies ascii_lower(#[trigger] m[i]) != 'e' by {
        if i < whole.len() {
            assert(m[i] == whole[i]);
            assert(is_digit(whole[i]));
        } else if i > whole.len() {
            assert(m[i] == frac[i - whole.len() - 1]);
            assert(is_digit(frac[i - whole.len() - 1]));
        }
    }
}

/// Digits alone.
proof fn lemma_plain_mantissa(whole: Seq<char>)
    requires
        whole.len() > 0,
        all_digits(whole),
    ensures
        mantissa_ok(whole),
        forall|i: int| 0 <= i < whole.len() ==> ascii_lower(#[trigger] whole[i]) != 'e',
{
    assert forall|j: int| 0 <= j < whole.len() implies whole[j] != '.' && ascii_lower(whole[j])
        != 'e' by {
        assert(is_digit(whole[j]));
    }
    lemma_index_of_char_at(whole, '.', whole.len() as int);
}

/// A valid mantissa without `e`, starting with a digit, is a real number.
proof fn lemma_plain_real(m: Seq<char>)
    requires
        m.len() > 0,
        is_digit(m[0]),
        mantissa_ok(m),
        forall|i: int| 0 <= i < m.len() ==> ascii_lower(#[trigger] m[i]) != 'e',
    ensures
        real_text(m),
{
    assert(without_sign(m, true) == m);
    lemma_index_of_exp_at(m, m.len() as int);
    assert(m.take(m.len() as int) == m);
}

/// A valid mantissa starting with a digit, then `e`, then a signed exponent.
proof fn lemma_mantissa_then_exponent(m: Seq<char>, marker: char, sign: Seq<char>, exp: Seq<char>)
    requires
        m.len() > 0,
        is_digit(m[0]),
        mantissa_ok(m),
        forall|i: int| 0 <= i < m.len() ==> ascii_lower(#[trigger] m[i]) != 'e',
        ascii_lower(marker) == 'e',
        sign == Seq::<char>::empty() || sign == seq!['+'] || sign == seq!['-'],
        exp.len() > 0,
        all_digits(exp),
    ensures
        real_text(m + seq![marker] + sign + exp),
{
    let s = m + seq![marker] + sign + exp;
    assert(s[0] == m[0]);
    assert(without_sign(s, true) == s);
    assert forall|j: int| 0 <= j < m.len() implies ascii_lower(s[j]) != 'e' by {
        assert(s[j] == m[j]);
    }
    assert(s[m.len() as int] == marker);
    lemma_index_of_exp_at(s, m.len() as int);
    assert(s.take(m.len() as int) == m);
    assert(s.skip(m.len() as int + 1) == sign + exp);
    if sign.len() == 0 {
        assert(sign + exp == exp);
        assert(is_digit(exp[0]));
        assert(without_sign(exp, true) == exp);
    } else {
        assert((sign + exp).drop_first() == exp);
    }
}

/// Joining `a` and then `ps` puts `sep` between `a` and the join of `ps`.
proof fn lemma_join_with_cons(a: Seq<char>, ps: Seq<Seq<char>>, sep: char)
    requires
        ps.len() > 0,
    ensures
        join_with(seq![a] + ps, sep) == a + seq![sep] + join_with(ps, sep),
    decreases ps.len(),
{
    let x = seq![a] + ps;
    if ps.len() == 1 {
        assert(x.drop_last() == seq![a]);
        assert(x.last() == ps[0]);
        assert(join_with(seq![a], sep) == a);
        assert(join_with(ps, sep) == ps[0]);
    } else {
        assert(x.drop_last() == seq![a] + ps.drop_last());
        assert(x.last() == ps.last());
        lemma_join_with_cons(a, ps.drop_last(), sep);
        assert(a + seq![sep] + join_with(ps.drop_last(), sep) + seq![sep] + ps.last() =~= a
            + seq![sep] + (join_with(ps.drop_last(), sep) + seq![sep] + ps.last()));
    }
}

/// Law: the pieces that splitting at `c` gives are at least one, hold no `c`, and
/// joined with `c` give the text back, which fixes them.
pub proof fn lemma_split_on_pieces(s: Seq<char>, c: char)
    ensures
        split_on(s, c).len() > 0,
        join_with(split_on(s, c), c) == s,
        forall|i: int| 0 <= i < split_on(s, c).len() ==> !(#[trigger] split_on(s, c)[i]).contains(c),
    decreases s.len(),
{
    lemma_index_of_char_props(s, c);
    let k = index_of_char(s, c) as int;
    if k >= s.len() {
        if s.contains(c) {
            let i = choose|i: int| 0 <= i < s.len() && s[i] == c;
            assert(s[i] != c);
        }
    } else {
        let head = s.take(k);
        let rest = s.skip(k + 1);
        lemma_split_on_pieces(rest, c);
        lemma_join_with_cons(head, split_on(rest, c), c);
        assert(s == head + seq![c] + rest);
        assert forall|i: int| 0 <= i < split_on(s, c).len() implies !(#[trigger] split_on(
            s,
            c,
        )[i]).contains(c) by {
            if i == 0 {
                if head.contains(c) {
                    let q = choose|q: int| 0 <= q < head.len() && head[q] == c;
                    assert(s[q] == c);
                }
            } else {
                assert(split_on(s, c)[i] == split_on(rest, c)[i - 1]);
            }
        }
    }
}

/// Law: every token that splitting at whitespace gives is non-empty and holds
/// no whitespace.
pub proof fn lemma_ws_tokens_words(s: Seq<char>)
    ensures
        forall|i: int|
            0 <= i < ws_tokens(s).len() ==> (#[trigger] ws_tokens(s)[i]).len() > 0 && forall|
                q: int,
            |
                0 <= q < ws_tokens(s)[i].len() ==> !is_ws(ws_tokens(s)[i][q]),
    decreases s.len(),
{
    if s.len() > 0 {
        if is_ws(s[0]) {
            lemma_ws_tokens_words(s.drop_first());
            assert(ws_tokens(s) == ws_tokens(s.drop_first()));
        } else {
            lemma_index_of_ws_props(s);
            let k = index_of_ws(s) as int;
            lemma_ws_tokens_words(s.skip(k));
            assert forall|i: int| 0 <= i < ws_tokens(s).len() implies (#[trigger] ws_tokens(
                s,
            )[i]).len() > 0 && forall|q: int|
                0 <= q < ws_tokens(s)[i].len() ==> !is_ws(ws_tokens(s)[i][q]) by {
                if i == 0 {
                    assert(ws_tokens(s)[0] == s.take(k));
                    assert forall|q: int| 0 <= q < k implies !is_ws(s.take(k)[q]) by {
                        assert(s.take(k)[q] == s[q]);
                    }
                } else {
                    assert(ws_tokens(s)[i] == ws_tokens(s.skip(k))[i - 1]);
                }
            }
        }
    }
}

/// Law: `usize` parsing takes an optional `+` and leading zeros, and refuses the
/// empty text, a `-` and any whitespace.
pub proof fn lemma_parse_usize_forms(n: usize, s: Seq<char>)
    ensures
        parse_usize_text(seq!['+'] + decimal(n as nat)) == Some(n),
        parse_usize_text(seq!['0'] + decimal(n as nat)) == Some(n),
        parse_usize_text(Seq::<char>::empty()) is None,
        parse_usize_text(seq!['-'] + s) is None,
        (exists|i: int| 0 <= i < s.len() && is_ws(#[trigger] s[i])) ==> parse_usize_text(s) is None,
{
    lemma_decimal_digits(n as nat);
    let d = decimal(n as nat);
    assert((seq!['+'] + d).drop_first() == d);
    let z = seq!['0'] + d;
    assert(all_digits(z)) by {
        assert forall|i: int| 0 <= i < z.len() implies is_digit(#[trigger] z[i]) by {
            if i > 0 {
                assert(z[i] == d[i - 1]);
            }
        }
    }
    lemma_digits_value_leading_zero(d);
    assert(!is_digit('-'));
    if exists|i: int| 0 <= i < s.len() && is_ws(#[trigger] s[i]) {
        let i = choose|i: int| 0 <= i < s.len() && is_ws(#[trigger] s[i]);
        assert(!is_digit(s[i]));
        if s[0] == '+' {
            assert(i > 0);
            assert(without_sign(s, false)[i - 1] == s[i]);
        }
    }
}

/// A leading zero does not change the value of digits.
proof fn lemma_digits_value_leading_zero(d: Seq<char>)
    ensures
        digits_value(seq!['0'] + d) == digits_value(d),
    decreases d.len(),
{
    let z = seq!['0'] + d;
    assert(digit_value('0') == 0);
    if d.len() == 0 {
        assert(z.drop_last() == Seq::<char>::empty());
        assert(z.last() == '0');
        assert(digits_value(z) == digits_value(z.drop_last()) * 10 + digit_value(z.last()));
        assert(digits_value(Seq::<char>::empty()) == 0);
    } else {
        assert(z.drop_last() == seq!['0'] + d.drop_last());
        assert(z.last() == d.last());
        lemma_digits_value_leading_zero(d.drop_last());
        assert(digits_value(z) == digits_value(z.drop_last()) * 10 + digit_value(z.last()));
        assert(digits_value(d) == digits_value(d.drop_last()) * 10 + digit_value(d.last()));
    }
}

/// Law: `i32` parsing reads a minus sign as negation, down to the least `i32`.
pub proof fn lemma_parse_i32_negative(n: nat)
    requires
        n <= 0x8000_0000,
    ensures
        parse_i32_text(seq!['-'] + decimal(n)) == Some((0 - n) as i32),
        n <= 0x7fff_ffff ==> parse_i32_text(decimal(n)) == Some(n as i32),
{
    lemma_decimal_digits(n);
    assert((seq!['-'] + decimal(n)).drop_first() == decimal(n));
}

/// Law: a decimal numeral has no leading zero, unless it is `0` itself.
pub proof fn lemma_decimal_no_leading_zero(n: nat)
    ensures
        decimal(n)[0] == '0' <==> n == 0,
    decreases n,
{
    if n >= 10 {
        lemma_decimal_no_leading_zero(n / 10);
        lemma_decimal_digits(n / 10);
        assert(decimal(n)[0] == decimal(n / 10)[0]);
    } else {
        assert(digit_char(n) as u32 == n + 48);
    }
}

} // verus!
