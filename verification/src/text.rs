//! Characters, words and lines: the text operations every other module
//! builds on, each stated over the sequence of characters of its argument.

use vstd::prelude::*;

verus! {

/// Appends one character.
///
/// `String::push` adds the character after everything the string already holds.
pub assume_specification[ String::push ](s: &mut String, c: char)
    ensures
        final(s)@ == old(s)@.push(c),
;

/// The text that bytes hold, as `String::from_utf8_lossy` decodes them.
pub uninterp spec fn lossy_text(bytes: Seq<u8>) -> Seq<char>;

/// Decodes bytes with `String::from_utf8_lossy`.
///
/// Claimed of it: the result depends on the bytes alone, and valid UTF-8
/// decodes to the text it encodes. How bytes that are not UTF-8 are replaced is
/// left to it.
#[verifier::external_body]
pub(crate) fn lossy(bytes: &[u8]) -> (r: String)
    ensures
        r@ == lossy_text(bytes@),
        vstd::utf8::valid_utf8(bytes@) ==> r@ == vstd::utf8::decode_utf8(bytes@),
{
    String::from_utf8_lossy(bytes).into_owned()
}

// ---------------------------------------------------------------------------
// What texts are
/// The characters with the Unicode property `White_Space`.
pub open spec fn is_space(c: char) -> bool {
    ||| '\u{9}' <= c <= '\u{d}'
    ||| c == ' '
    ||| c == '\u{85}'
    ||| c == '\u{a0}'
    ||| c == '\u{1680}'
    ||| '\u{2000}' <= c <= '\u{200a}'
    ||| c == '\u{2028}'
    ||| c == '\u{2029}'
    ||| c == '\u{202f}'
    ||| c == '\u{205f}'
    ||| c == '\u{3000}'
}

pub open spec fn is_digit(c: char) -> bool {
    '0' <= c <= '9'
}

pub open spec fn is_alphanumeric(c: char) -> bool {
    is_digit(c) || 'a' <= c <= 'z' || 'A' <= c <= 'Z'
}

pub open spec fn is_hex_digit(c: char) -> bool {
    is_digit(c) || 'a' <= c <= 'f' || 'A' <= c <= 'F'
}

/// `s` without its leading white space.
pub open spec fn trim_start(s: Seq<char>) -> Seq<char>
    decreases s.len(),
{
    if s.len() > 0 && is_space(s[0]) {
        trim_start(s.drop_first())
    } else {
        s
    }
}

/// `s` without its trailing white space.
pub open spec fn trim_end(s: Seq<char>) -> Seq<char>
    decreases s.len(),
{
    if s.len() > 0 && is_space(s.last()) {
        trim_end(s.drop_last())
    } else {
        s
    }
}

/// `s` without white space at either end.
pub open spec fn trim(s: Seq<char>) -> Seq<char> {
    trim_end(trim_start(s))
}

/// How many characters stand before the first `c`; all of them when there is none.
pub open spec fn before_first(s: Seq<char>, c: char) -> int
    decreases s.len(),
{
    if s.len() == 0 || s[0] == c {
        0
    } else {
        1 + before_first(s.drop_first(), c)
    }
}

/// The two parts around the first `c`.
pub open spec fn split_once(s: Seq<char>, c: char) -> Option<(Seq<char>, Seq<char>)> {
    let k = before_first(s, c);
    if k < s.len() {
        Some((s.take(k), s.skip(k + 1)))
    } else {
        None
    }
}

/// The parts between every two neighbouring `c`. There is always at least one.
pub open spec fn split(s: Seq<char>, c: char) -> Seq<Seq<char>>
    decreases s.len(),
{
    let k = before_first(s, c);
    if 0 <= k < s.len() {
        seq![s.take(k)] + split(s.skip(k + 1), c)
    } else {
        seq![s]
    }
}

/// The parts at the first `n - 1` occurrences of `c`; the last part is the rest.
pub open spec fn splitn(s: Seq<char>, n: nat, c: char) -> Seq<Seq<char>>
    decreases n,
{
    let k = before_first(s, c);
    if n == 0 {
        Seq::empty()
    } else if n > 1 && 0 <= k < s.len() {
        seq![s.take(k)] + splitn(s.skip(k + 1), (n - 1) as nat, c)
    } else {
        seq![s]
    }
}

/// A line that ended in a line feed, without the carriage return before it.
pub open spec fn chomp(s: Seq<char>) -> Seq<char> {
    if s.len() > 0 && s.last() == '\r' {
        s.drop_last()
    } else {
        s
    }
}

/// The lines of a text. A final line feed does not open another line.
pub open spec fn lines(s: Seq<char>) -> Seq<Seq<char>>
    decreases s.len(),
{
    let k = before_first(s, '\n');
    if s.len() == 0 {
        Seq::empty()
    } else if 0 <= k < s.len() {
        seq![chomp(s.take(k))] + lines(s.skip(k + 1))
    } else {
        seq![s]
    }
}

/// All parts, with `sep` between every two neighbours.
pub open spec fn join(parts: Seq<Seq<char>>, sep: Seq<char>) -> Seq<char>
    decreases parts.len(),
{
    if parts.len() == 0 {
        Seq::empty()
    } else if parts.len() == 1 {
        parts[0]
    } else {
        join(parts.drop_last(), sep) + sep + parts.last()
    }
}

/// The character of a digit below ten.
pub open spec fn digit(n: nat) -> char {
    ('0' as u32 + n) as char
}

/// The decimal notation of `n`.
pub open spec fn decimal(n: nat) -> Seq<char>
    decreases n,
{
    if n < 10 {
        seq![digit(n)]
    } else {
        decimal(n / 10).push(digit(n % 10))
    }
}

/// The number that a sequence of digits denotes; nothing when some character
/// is no digit.
pub open spec fn digits_value(s: Seq<char>) -> Option<nat>
    decreases s.len(),
{
    if s.len() == 0 {
        Some(0)
    } else if !is_digit(s.last()) {
        None
    } else {
        match digits_value(s.drop_last()) {
            Some(n) => Some(10 * n + (s.last() as u32 - '0' as u32) as nat),
            None => None,
        }
    }
}

/// An unsigned number: at least one digit, after an optional `+`.
pub open spec fn number_value(s: Seq<char>) -> Option<nat> {
    let body = if s.len() > 0 && s[0] == '+' {
        s.drop_first()
    } else {
        s
    };
    if body.len() == 0 {
        None
    } else {
        digits_value(body)
    }
}

/// A signed number: at least one digit, after an optional sign.
pub open spec fn integer_value(s: Seq<char>) -> Option<int> {
    if s.len() > 0 && s[0] == '-' {
        let body = s.drop_first();
        if body.len() == 0 {
            None
        } else {
            match digits_value(body) {
                Some(n) => Some(-(n as int)),
                None => None,
            }
        }
    } else {
        match number_value(s) {
            Some(n) => Some(n as int),
            None => None,
        }
    }
}

/// The order of texts: by the first character in which they differ, a text
/// before its own extensions.
pub open spec fn less(a: Seq<char>, b: Seq<char>) -> bool
    decreases a.len(),
{
    if b.len() == 0 {
        false
    } else if a.len() == 0 {
        true
    } else if a[0] == b[0] {
        less(a.drop_first(), b.drop_first())
    } else {
        a[0] < b[0]
    }
}

// ---------------------------------------------------------------------------
// Facts
pub proof fn lemma_before_first(s: Seq<char>, c: char)
    ensures
        0 <= before_first(s, c) <= s.len(),
        before_first(s, c) < s.len() ==> s[before_first(s, c)] == c,
        forall|i: int| 0 <= i < before_first(s, c) ==> s[i] != c,
    decreases s.len(),
{
    if s.len() > 0 && s[0] != c {
        lemma_before_first(s.drop_first(), c);
        assert forall|i: int| 0 <= i < before_first(s, c) implies s[i] != c by {
            if i > 0 {
                assert(s.drop_first()[i - 1] == s[i]);
            }
        }
    }
}

/// The first `c` stands where no earlier character is one.
pub proof fn lemma_before_first_unique(s: Seq<char>, c: char, k: int)
    requires
        0 <= k <= s.len(),
        k < s.len() ==> s[k] == c,
        forall|i: int| 0 <= i < k ==> s[i] != c,
    ensures
        before_first(s, c) == k,
{
    lemma_before_first(s, c);
    let f = before_first(s, c);
    if f < k {
        assert(s[f] != c);
    } else if k < f {
        assert(s[k] != c);
    }
}

/// There is always a first part.
pub proof fn lemma_splitn_some(s: Seq<char>, n: nat, c: char)
    requires
        n > 0,
    ensures
        splitn(s, n, c).len() > 0,
{
}

/// Text order is irreflexive.
pub proof fn lemma_less_irreflexive(a: Seq<char>)
    ensures
        !less(a, a),
    decreases a.len(),
{
    if a.len() > 0 {
        lemma_less_irreflexive(a.drop_first());
    }
}

/// Text order is transitive.
pub proof fn lemma_less_transitive(a: Seq<char>, b: Seq<char>, c: Seq<char>)
    requires
        less(a, b),
        less(b, c),
    ensures
        less(a, c),
    decreases a.len(),
{
    if a.len() > 0 && b.len() > 0 && c.len() > 0 && a[0] == b[0] && b[0] == c[0] {
        lemma_less_transitive(a.drop_first(), b.drop_first(), c.drop_first());
    }
}

/// Two different texts are ordered one way or the other.
pub proof fn lemma_less_total(a: Seq<char>, b: Seq<char>)
    ensures
        a == b || less(a, b) || less(b, a),
    decreases a.len(),
{
    if a.len() > 0 && b.len() > 0 && a[0] == b[0] {
        lemma_less_total(a.drop_first(), b.drop_first());
        if a.drop_first() == b.drop_first() {
            assert(a =~= seq![a[0]] + a.drop_first());
            assert(b =~= seq![b[0]] + b.drop_first());
        }
    } else if a.len() == 0 && b.len() == 0 {
        assert(a =~= b);
    }
}

/// Digits are different for different numbers below ten.
pub proof fn lemma_digit(n: nat)
    requires
        n < 10,
    ensures
        is_digit(digit(n)),
        digit(n) as u32 - '0' as u32 == n,
{
}

/// Reading a number back gives the number that was written.
pub proof fn lemma_decimal_value(n: nat)
    ensures
        decimal(n).len() > 0,
        is_digit(decimal(n)[0]),
        digits_value(decimal(n)) == Some(n),
        number_value(decimal(n)) == Some(n),
    decreases n,
{
    if n < 10 {
        lemma_digit(n);
        assert(decimal(n).drop_last() =~= Seq::empty());
        assert(digits_value(Seq::empty()) == Some(0nat));
        reveal_with_fuel(digits_value, 2);
    } else {
        lemma_decimal_value(n / 10);
        lemma_digit(n % 10);
        assert(decimal(n).drop_last() =~= decimal(n / 10));
        assert(decimal(n)[0] == decimal(n / 10)[0]);
    }
}

/// Different numbers have different notations.
pub proof fn lemma_decimal_injective(m: nat, n: nat)
    requires
        decimal(m) == decimal(n),
    ensures
        m == n,
{
    lemma_decimal_value(m);
    lemma_decimal_value(n);
}

/// Every character of a number is a digit.
pub proof fn lemma_decimal_digits(n: nat)
    ensures
        forall|i: int| 0 <= i < decimal(n).len() ==> is_digit(#[trigger] decimal(n)[i]),
    decreases n,
{
    if n >= 10 {
        lemma_decimal_digits(n / 10);
        lemma_digit(n % 10);
        assert forall|i: int| 0 <= i < decimal(n).len() implies is_digit(
            #[trigger] decimal(n)[i],
        ) by {
            if i < decimal(n / 10).len() {
                assert(decimal(n)[i] == decimal(n / 10)[i]);
            }
        }
    } else {
        lemma_digit(n);
    }
}

// ---------------------------------------------------------------------------
// Reading texts
/// Whether two texts are the same sequence of characters.
pub fn same(a: &str, b: &str) -> (r: bool)
    ensures
        r == (a@ == b@),
{
    let a: String = a.to_owned();
    let b: String = b.to_owned();
    a == b
}

/// The characters of a text, one by one.
pub fn chars_of(s: &str) -> (r: Vec<char>)
    ensures
        r@ == s@,
{
    let mut out: Vec<char> = Vec::new();
    for c in it: s.chars()
        invariant
            it.seq() == s@,
            out@ == s@.take(it.index() as int),
    {
        out.push(c);
    }
    out
}

pub fn space(c: char) -> (r: bool)
    ensures
        r == is_space(c),
{
    ('\u{9}' <= c && c <= '\u{d}') || c == ' ' || c == '\u{85}' || c == '\u{a0}' || c == '\u{1680}'
        || ('\u{2000}' <= c && c <= '\u{200a}') || c == '\u{2028}' || c == '\u{2029}'
        || c == '\u{202f}' || c == '\u{205f}' || c == '\u{3000}'
}

/// `s` without its leading white space.
pub fn trim_start_of<'a>(s: &'a str) -> (r: &'a str)
    ensures
        r@ == trim_start(s@),
{
    let v: Vec<char> = chars_of(s);
    let mut k: usize = 0;
    assert(s@.skip(0) =~= s@);
    while k < v.len() && space(v[k])
        invariant
            k <= v.len(),
            v@ == s@,
            trim_start(s@) == trim_start(s@.skip(k as int)),
        decreases v.len() - k,
    {
        assert(s@.skip(k as int).drop_first() =~= s@.skip(k + 1));
        k += 1;
    }
    assert(s@.subrange(k as int, s@.len() as int) =~= s@.skip(k as int));
    s.substring_char(k, v.len())
}

/// `s` without its trailing white space.
pub fn trim_end_of<'a>(s: &'a str) -> (r: &'a str)
    ensures
        r@ == trim_end(s@),
{
    let v: Vec<char> = chars_of(s);
    let mut k: usize = v.len();
    assert(s@.take(k as int) =~= s@);
    while k > 0 && space(v[k - 1])
        invariant
            k <= v.len(),
            v@ == s@,
            trim_end(s@) == trim_end(s@.take(k as int)),
        decreases k,
    {
        assert(s@.take(k as int).drop_last() =~= s@.take(k - 1));
        k -= 1;
    }
    assert(s@.subrange(0, k as int) =~= s@.take(k as int));
    s.substring_char(0, k)
}

/// `s` without white space at either end.
pub fn trim_of<'a>(s: &'a str) -> (r: &'a str)
    ensures
        r@ == trim(s@),
{
    trim_end_of(trim_start_of(s))
}

/// The position of the first `c` at or after `from`, counted from there.
pub fn find_from(v: &Vec<char>, from: usize, c: char) -> (r: usize)
    requires
        from <= v.len(),
    ensures
        from <= r <= v.len(),
        r == from + before_first(v@.skip(from as int), c),
{
    let mut k: usize = from;
    while k < v.len() && v[k] != c
        invariant
            from <= k <= v.len(),
            forall|i: int| from <= i < k ==> v@[i] != c,
        decreases v.len() - k,
    {
        k += 1;
    }
    proof {
        lemma_before_first_unique(v@.skip(from as int), c, k - from);
    }
    k
}

/// Whether `p` opens `s`.
pub fn starts_with(s: &str, p: &str) -> (r: bool)
    ensures
        r == p@.is_prefix_of(s@),
{
    let v: Vec<char> = chars_of(s);
    let w: Vec<char> = chars_of(p);
    if w.len() > v.len() {
        return false;
    }
    let mut k: usize = 0;
    while k < w.len()
        invariant
            k <= w.len() <= v.len(),
            v@ == s@,
            w@ == p@,
            forall|i: int| 0 <= i < k ==> v@[i] == w@[i],
        decreases w.len() - k,
    {
        if v[k] != w[k] {
            assert(s@.subrange(0, p@.len() as int)[k as int] != p@[k as int]);
            return false;
        }
        k += 1;
    }
    assert(s@.subrange(0, p@.len() as int) =~= p@);
    true
}

/// Whether `p` closes `s`.
pub fn ends_with(s: &str, p: &str) -> (r: bool)
    ensures
        r == p@.is_suffix_of(s@),
{
    let n: usize = s.unicode_len();
    let m: usize = p.unicode_len();
    if m > n {
        return false;
    }
    same(s.substring_char(n - m, n), p)
}

/// What follows `p` at the start of `s`.
pub open spec fn strip_prefix(s: Seq<char>, p: Seq<char>) -> Option<Seq<char>> {
    if p.is_prefix_of(s) {
        Some(s.skip(p.len() as int))
    } else {
        None
    }
}

/// What precedes `p` at the end of `s`.
pub open spec fn strip_suffix(s: Seq<char>, p: Seq<char>) -> Option<Seq<char>> {
    if p.is_suffix_of(s) {
        Some(s.take(s.len() - p.len()))
    } else {
        None
    }
}

pub fn strip_prefix_of<'a>(s: &'a str, p: &str) -> (r: Option<&'a str>)
    ensures
        r.deep_view() == strip_prefix(s@, p@),
{
    if starts_with(s, p) {
        let n: usize = s.unicode_len();
        let m: usize = p.unicode_len();
        assert(s@.subrange(m as int, n as int) =~= s@.skip(m as int));
        Some(s.substring_char(m, n))
    } else {
        None
    }
}

pub fn strip_suffix_of<'a>(s: &'a str, p: &str) -> (r: Option<&'a str>)
    ensures
        r.deep_view() == strip_suffix(s@, p@),
{
    if ends_with(s, p) {
        let n: usize = s.unicode_len();
        let m: usize = p.unicode_len();
        assert(s@.subrange(0, n - m) =~= s@.take(n - m));
        Some(s.substring_char(0, n - m))
    } else {
        None
    }
}

/// The two parts around the first `c`.
pub fn split_once_of<'a>(s: &'a str, c: char) -> (r: Option<(&'a str, &'a str)>)
    ensures
        r.deep_view() == split_once(s@, c),
{
    let v: Vec<char> = chars_of(s);
    let k: usize = find_from(&v, 0, c);
    assert(s@.skip(0) =~= s@);
    if k < v.len() {
        assert(s@.subrange(0, k as int) =~= s@.take(k as int));
        assert(s@.subrange(k + 1, s@.len() as int) =~= s@.skip(k + 1));
        Some((s.substring_char(0, k), s.substring_char(k + 1, v.len())))
    } else {
        None
    }
}

/// The parts between every two neighbouring `c`.
pub fn split_of(s: &str, c: char) -> (r: Vec<String>)
    ensures
        r.deep_view() == split(s@, c),
        r.len() > 0,
{
    let v: Vec<char> = chars_of(s);
    let mut out: Vec<String> = Vec::new();
    let mut from: usize = 0;
    assert(s@.skip(0) =~= s@);
    assert(out.deep_view() + split(s@, c) =~= split(s@, c));
    loop
        invariant
            v@ == s@,
            from <= v.len(),
            out.deep_view() + split(s@.skip(from as int), c) == split(s@, c),
        decreases v.len() - from,
    {
        let k: usize = find_from(&v, from, c);
        let ghost rest = s@.skip(from as int);
        let ghost was = out.deep_view();
        assert(s@.subrange(from as int, k as int) =~= rest.take(k - from));
        out.push(s.substring_char(from, k).to_owned());
        assert(out.deep_view() =~= was.push(rest.take(k - from)));
        if k == v.len() {
            assert(rest.take(k - from) =~= rest);
            assert(out.deep_view() =~= was + seq![rest]);
            return out;
        }
        assert(s@.skip(k + 1) =~= rest.skip(k - from + 1));
        assert(out.deep_view() + split(s@.skip(k + 1), c) =~= was + split(rest, c));
        from = k + 1;
    }
}

/// The parts at the first `n - 1` occurrences of `c`; the last part is the rest.
pub fn splitn_of(s: &str, n: usize, c: char) -> (r: Vec<String>)
    ensures
        r.deep_view() == splitn(s@, n as nat, c),
{
    let v: Vec<char> = chars_of(s);
    let mut out: Vec<String> = Vec::new();
    let mut from: usize = 0;
    let mut left: usize = n;
    assert(s@.skip(0) =~= s@);
    assert(out.deep_view() + splitn(s@, n as nat, c) =~= splitn(s@, n as nat, c));
    while left > 0
        invariant
            v@ == s@,
            from <= v.len(),
            out.deep_view() + splitn(s@.skip(from as int), left as nat, c) == splitn(
                s@,
                n as nat,
                c,
            ),
        decreases left,
    {
        let k: usize = find_from(&v, from, c);
        let ghost rest = s@.skip(from as int);
        let ghost was = out.deep_view();
        if k == v.len() || left == 1 {
            assert(s@.subrange(from as int, s@.len() as int) =~= rest);
            out.push(s.substring_char(from, v.len()).to_owned());
            assert(out.deep_view() =~= was + seq![rest]);
            return out;
        }
        assert(s@.subrange(from as int, k as int) =~= rest.take(k - from));
        out.push(s.substring_char(from, k).to_owned());
        assert(out.deep_view() =~= was.push(rest.take(k - from)));
        assert(s@.skip(k + 1) =~= rest.skip(k - from + 1));
        assert(out.deep_view() + splitn(s@.skip(k + 1), (left - 1) as nat, c) =~= was + splitn(
            rest,
            left as nat,
            c,
        ));
        from = k + 1;
        left -= 1;
    }
    assert(out.deep_view() + Seq::<Seq<char>>::empty() =~= out.deep_view());
    out
}

/// The lines of a text.
pub fn lines_of(s: &str) -> (r: Vec<String>)
    ensures
        r.deep_view() == lines(s@),
{
    let v: Vec<char> = chars_of(s);
    let mut out: Vec<String> = Vec::new();
    let mut from: usize = 0;
    assert(s@.skip(0) =~= s@);
    assert(out.deep_view() + lines(s@) =~= lines(s@));
    while from < v.len()
        invariant
            v@ == s@,
            from <= v.len(),
            out.deep_view() + lines(s@.skip(from as int)) == lines(s@),
        decreases v.len() - from,
    {
        let k: usize = find_from(&v, from, '\n');
        let ghost rest = s@.skip(from as int);
        let ghost was = out.deep_view();
        if k == v.len() {
            assert(s@.subrange(from as int, k as int) =~= rest);
            out.push(s.substring_char(from, k).to_owned());
            assert(out.deep_view() =~= was + seq![rest]);
            return out;
        }
        let end: usize = if k > from && v[k - 1] == '\r' {
            k - 1
        } else {
            k
        };
        assert(s@.subrange(from as int, end as int) =~= chomp(rest.take(k - from)));
        out.push(s.substring_char(from, end).to_owned());
        assert(out.deep_view() =~= was.push(chomp(rest.take(k - from))));
        assert(s@.skip(k + 1) =~= rest.skip(k - from + 1));
        assert(out.deep_view() + lines(s@.skip(k + 1)) =~= was + lines(rest));
        from = k + 1;
    }
    assert(out.deep_view() + lines(Seq::empty()) =~= out.deep_view());
    assert(s@.skip(from as int) =~= Seq::empty());
    out
}

/// All parts, with `sep` between every two neighbours.
pub fn join_of(parts: &Vec<String>, sep: &str) -> (r: String)
    ensures
        r@ == join(parts.deep_view(), sep@),
{
    let mut out: String = String::new();
    let mut k: usize = 0;
    while k < parts.len()
        invariant
            k <= parts.len(),
            out@ == join(parts.deep_view().take(k as int), sep@),
        decreases parts.len() - k,
    {
        let ghost next = parts.deep_view().take(k + 1);
        assert(next.drop_last() =~= parts.deep_view().take(k as int));
        if k > 0 {
            out.append(sep);
        }
        let ghost was = out@;
        out.append(&parts[k]);
        proof {
            if k == 0 {
                assert(was + next[0] =~= next[0]);
            }
        }
        k += 1;
    }
    assert(parts.deep_view().take(k as int) =~= parts.deep_view());
    out
}

/// `a` and `b`, one after the other.
pub fn cat2(a: &str, b: &str) -> (r: String)
    ensures
        r@ == a@ + b@,
{
    let mut out: String = a.to_owned();
    out.append(b);
    out
}

/// `a`, `b` and `c`, one after the other.
pub fn cat3(a: &str, b: &str, c: &str) -> (r: String)
    ensures
        r@ == a@ + b@ + c@,
{
    let mut out: String = a.to_owned();
    out.append(b);
    out.append(c);
    out
}

/// `a`, `b`, `c` and `d`, one after the other.
pub fn cat4(a: &str, b: &str, c: &str, d: &str) -> (r: String)
    ensures
        r@ == a@ + b@ + c@ + d@,
{
    let mut out: String = a.to_owned();
    out.append(b);
    out.append(c);
    out.append(d);
    out
}

/// `a`, `b`, `c`, `d` and `e`, one after the other.
pub fn cat5(a: &str, b: &str, c: &str, d: &str, e: &str) -> (r: String)
    ensures
        r@ == a@ + b@ + c@ + d@ + e@,
{
    let mut out: String = a.to_owned();
    out.append(b);
    out.append(c);
    out.append(d);
    out.append(e);
    out
}

/// `a`, `b`, `c`, `d`, `e` and `f`, one after the other.
pub fn cat6(a: &str, b: &str, c: &str, d: &str, e: &str, f: &str) -> (r: String)
    ensures
        r@ == a@ + b@ + c@ + d@ + e@ + f@,
{
    let mut out: String = a.to_owned();
    out.append(b);
    out.append(c);
    out.append(d);
    out.append(e);
    out.append(f);
    out
}

/// `a`, `b`, `c`, `d`, `e`, `f` and `g`, one after the other.
pub fn cat7(a: &str, b: &str, c: &str, d: &str, e: &str, f: &str, g: &str) -> (r: String)
    ensures
        r@ == a@ + b@ + c@ + d@ + e@ + f@ + g@,
{
    let mut out: String = a.to_owned();
    out.append(b);
    out.append(c);
    out.append(d);
    out.append(e);
    out.append(f);
    out.append(g);
    out
}

/// The decimal notation of `n`.
pub fn decimal_of(n: u64) -> (r: String)
    ensures
        r@ == decimal(n as nat),
    decreases n,
{
    let last: char = ((n % 10) as u8 + 48) as char;
    if n < 10 {
        let mut out: String = String::new();
        out.push(last);
        assert(out@ =~= decimal(n as nat));
        out
    } else {
        let mut out: String = decimal_of(n / 10);
        out.push(last);
        out
    }
}

/// The number that at least one digit, after an optional `+`, denotes.
pub fn parse_number(s: &str) -> (r: Option<u64>)
    ensures
        r == (match number_value(s@) {
            Some(n) => if n <= u64::MAX {
                Some(n as u64)
            } else {
                None
            },
            None => None,
        }),
{
    let v: Vec<char> = chars_of(s);
    let from: usize = if v.len() > 0 && v[0] == '+' {
        1
    } else {
        0
    };
    let ghost body = s@.skip(from as int);
    assert(from == 0 ==> body =~= s@);
    assert(from == 1 ==> body =~= s@.drop_first());
    if v.len() == from {
        return None;
    }
    let mut value: u64 = 0;
    let mut over: bool = false;
    let mut k: usize = from;
    assert(body.take(0) =~= Seq::empty());
    while k < v.len()
        invariant
            v@ == s@,
            from <= k <= v.len(),
            body == s@.skip(from as int),
            number_value(s@) == digits_value(body),
            digits_value(body.take(k - from)) is Some,
            over ==> digits_value(body.take(k - from))->Some_0 > u64::MAX,
            !over ==> digits_value(body.take(k - from)) == Some(value as nat),
        decreases v.len() - k,
    {
        let c: char = v[k];
        let ghost next = body.take(k - from + 1);
        assert(next.drop_last() =~= body.take(k - from));
        assert(next.last() == c);
        if !('0' <= c && c <= '9') {
            proof {
                lemma_digits_value_prefix(body, k - from + 1);
            }
            return None;
        }
        let d: u64 = c as u64 - '0' as u64;
        if !over {
            match value.checked_mul(10) {
                Some(t) => match t.checked_add(d) {
                    Some(u) => {
                        value = u;
                    },
                    None => {
                        over = true;
                    },
                },
                None => {
                    over = true;
                },
            }
        }
        k += 1;
    }
    assert(body.take(k - from) =~= body);
    if over {
        None
    } else {
        Some(value)
    }
}

/// Text with a character that is no digit somewhere denotes no number.
pub proof fn lemma_digits_value_prefix(s: Seq<char>, k: int)
    requires
        0 <= k <= s.len(),
        digits_value(s.take(k)) is None,
    ensures
        digits_value(s) is None,
    decreases s.len() - k,
{
    if k == s.len() {
        assert(s.take(k) =~= s);
    } else {
        assert(s.take(k + 1).drop_last() =~= s.take(k));
        lemma_digits_value_prefix(s, k + 1);
    }
}

/// Whether `a` comes before `b` in text order.
pub fn before(a: &str, b: &str) -> (r: bool)
    ensures
        r == less(a@, b@),
{
    let v: Vec<char> = chars_of(a);
    let w: Vec<char> = chars_of(b);
    let mut k: usize = 0;
    assert(a@.skip(0) =~= a@);
    assert(b@.skip(0) =~= b@);
    while k < v.len() && k < w.len() && v[k] == w[k]
        invariant
            v@ == a@,
            w@ == b@,
            k <= v.len(),
            k <= w.len(),
            less(a@, b@) == less(a@.skip(k as int), b@.skip(k as int)),
        decreases v.len() - k,
    {
        assert(a@.skip(k as int).drop_first() =~= a@.skip(k + 1));
        assert(b@.skip(k as int).drop_first() =~= b@.skip(k + 1));
        k += 1;
    }
    if k == w.len() {
        false
    } else if k == v.len() {
        true
    } else {
        v[k] < w[k]
    }
}

/// How many characters stand before the first `p` in `s`; all of them when
/// there is none.
pub open spec fn before_text(s: Seq<char>, p: Seq<char>) -> int
    decreases s.len(),
{
    if s.len() == 0 || p.is_prefix_of(s) {
        0
    } else {
        1 + before_text(s.drop_first(), p)
    }
}

/// `p` stands somewhere in `s`.
pub open spec fn holds(s: Seq<char>, p: Seq<char>) -> bool {
    p.is_prefix_of(s.skip(before_text(s, p)))
}

/// The two parts around the first `p`.
pub open spec fn split_once_text(s: Seq<char>, p: Seq<char>) -> Option<(Seq<char>, Seq<char>)> {
    let k = before_text(s, p);
    if holds(s, p) {
        Some((s.take(k), s.skip(k + p.len())))
    } else {
        None
    }
}

/// The position of the first `p`, or the length.
fn find_text(s: &str, p: &str) -> (r: usize)
    ensures
        r == before_text(s@, p@),
        r <= s@.len(),
{
    let n: usize = s.unicode_len();
    let mut k: usize = 0;
    assert(s@.skip(0) =~= s@);
    while k < n
        invariant
            k <= n,
            n == s@.len(),
            before_text(s@, p@) == k + before_text(s@.skip(k as int), p@),
        decreases n - k,
    {
        assert(s@.subrange(k as int, n as int) =~= s@.skip(k as int));
        if starts_with(s.substring_char(k, n), p) {
            return k;
        }
        assert(s@.skip(k as int).drop_first() =~= s@.skip(k + 1));
        k += 1;
    }
    k
}

/// Whether `p` stands somewhere in `s`.
pub fn contains(s: &str, p: &str) -> (r: bool)
    ensures
        r == holds(s@, p@),
{
    let k: usize = find_text(s, p);
    let n: usize = s.unicode_len();
    assert(s@.subrange(k as int, n as int) =~= s@.skip(k as int));
    starts_with(s.substring_char(k, n), p)
}

/// The two parts around the first `p`.
pub fn split_once_text_of<'a>(s: &'a str, p: &str) -> (r: Option<(&'a str, &'a str)>)
    ensures
        r.deep_view() == split_once_text(s@, p@),
{
    let k: usize = find_text(s, p);
    let n: usize = s.unicode_len();
    let m: usize = p.unicode_len();
    assert(s@.subrange(k as int, n as int) =~= s@.skip(k as int));
    if starts_with(s.substring_char(k, n), p) {
        assert(s@.subrange(0, k as int) =~= s@.take(k as int));
        assert(s@.subrange(k + m, n as int) =~= s@.skip(k + m));
        Some((s.substring_char(0, k), s.substring_char(k + m, n)))
    } else {
        None
    }
}

/// The number that at least one digit, after an optional sign, denotes.
pub fn parse_integer(s: &str) -> (r: Option<i64>)
    ensures
        r == (match integer_value(s@) {
            Some(n) => if i64::MIN <= n <= i64::MAX {
                Some(n as i64)
            } else {
                None
            },
            None => None,
        }),
{
    let n: usize = s.unicode_len();
    if n > 0 && s.get_char(0) == '-' {
        let rest: &str = s.substring_char(1, n);
        assert(rest@ =~= s@.drop_first());
        if rest.unicode_len() == 0 || rest.get_char(0) == '+' {
            proof {
                if rest@.len() > 0 {
                    lemma_digits_value_prefix_char(rest@);
                }
            }
            return None;
        }
        match parse_number(rest) {
            Some(v) => {
                if v <= 9223372036854775807 {
                    Some(-(v as i64))
                } else if v == 9223372036854775808 {
                    Some(i64::MIN)
                } else {
                    None
                }
            },
            None => None,
        }
    } else {
        match parse_number(s) {
            Some(v) => if v <= 9223372036854775807 {
                Some(v as i64)
            } else {
                None
            },
            None => None,
        }
    }
}

/// Text that starts with no digit denotes no number.
proof fn lemma_digits_value_prefix_char(s: Seq<char>)
    requires
        s.len() > 0,
        !is_digit(s[0]),
    ensures
        digits_value(s) is None,
{
    assert(s.take(1).last() == s[0]);
    lemma_digits_value_prefix(s, 1);
}

/// A text is split around the first place where `p` stands, and into nothing
/// where it stands nowhere.
pub proof fn lemma_split_once_text(s: Seq<char>, p: Seq<char>)
    requires
        p.len() > 0,
    ensures
        match split_once_text(s, p) {
            Some((a, b)) => s == a + p + b && forall|k: int|
                0 <= k < a.len() ==> !p.is_prefix_of(#[trigger] s.skip(k)),
            None => forall|k: int| 0 <= k <= s.len() ==> !p.is_prefix_of(#[trigger] s.skip(k)),
        },
{
    lemma_before_text(s, p);
    let k = before_text(s, p);
    if holds(s, p) {
        let rest = s.skip(k);
        assert(p == rest.subrange(0, p.len() as int));
        assert(s =~= s.take(k) + p + s.skip(k + p.len()));
    } else {
        assert forall|j: int| 0 <= j <= s.len() implies !p.is_prefix_of(#[trigger] s.skip(j)) by {
            if j == s.len() {
                assert(s.skip(j).len() == 0);
            } else if j > k {
                assert(k == s.len());
            }
        }
    }
}

proof fn lemma_before_text(s: Seq<char>, p: Seq<char>)
    requires
        p.len() > 0,
    ensures
        0 <= before_text(s, p) <= s.len(),
        before_text(s, p) < s.len() ==> p.is_prefix_of(s.skip(before_text(s, p))),
        forall|k: int|
            0 <= k < before_text(s, p) ==> !p.is_prefix_of(#[trigger] s.skip(k)),
    decreases s.len(),
{
    assert(s.skip(0) =~= s);
    if s.len() > 0 && !p.is_prefix_of(s) {
        let rest = s.drop_first();
        lemma_before_text(rest, p);
        let n = before_text(rest, p);
        assert(rest.skip(n) =~= s.skip(n + 1));
        assert forall|k: int| 0 <= k < n + 1 implies !p.is_prefix_of(#[trigger] s.skip(k)) by {
            if k > 0 {
                assert(rest.skip(k - 1) =~= s.skip(k));
                assert(!p.is_prefix_of(rest.skip(k - 1)));
            }
        }
    }
}

/// A text comes before another one if it is the start of it, or if at the first
/// place where they differ its character comes first.
pub proof fn lemma_less_is_lexicographic(a: Seq<char>, b: Seq<char>)
    ensures
        less(a, b) <==> exists|k: int| #[trigger] differ_at(a, b, k),
    decreases a.len(),
{
    if a.len() > 0 && b.len() > 0 && a[0] == b[0] {
        let x = a.drop_first();
        let y = b.drop_first();
        lemma_less_is_lexicographic(x, y);
        if exists|k: int| #[trigger] differ_at(x, y, k) {
            let k = choose|k: int| #[trigger] differ_at(x, y, k);
            assert forall|i: int| 0 <= i < k + 1 implies #[trigger] a[i] == b[i] by {
                if i > 0 {
                    assert(x[i - 1] == y[i - 1]);
                }
            }
            assert(k < x.len() ==> a[k + 1] == x[k]);
            assert(b[k + 1] == y[k]);
            assert(differ_at(a, b, k + 1));
        }
        if exists|k: int| #[trigger] differ_at(a, b, k) {
            let k = choose|k: int| #[trigger] differ_at(a, b, k);
            assert(k > 0);
            assert forall|i: int| 0 <= i < k - 1 implies #[trigger] x[i] == y[i] by {
                assert(a[i + 1] == b[i + 1]);
            }
            assert(k < a.len() ==> x[k - 1] == a[k]);
            assert(y[k - 1] == b[k]);
            assert(differ_at(x, y, k - 1));
        }
    } else {
        if less(a, b) {
            assert(differ_at(a, b, 0));
        }
        if exists|k: int| #[trigger] differ_at(a, b, k) {
            let k = choose|k: int| #[trigger] differ_at(a, b, k);
            if k > 0 {
                assert(a[0] == b[0]);
            }
        }
    }
}

/// Two texts agree up to `k`, and there the first ends or has the smaller
/// character.
pub open spec fn differ_at(a: Seq<char>, b: Seq<char>, k: int) -> bool {
    &&& 0 <= k <= a.len()
    &&& k < b.len()
    &&& forall|i: int| 0 <= i < k ==> #[trigger] a[i] == b[i]
    &&& k < a.len() ==> a[k] < b[k]
}

} // verus!
