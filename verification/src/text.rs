//! Character-level text utilities: conversions between `String` and
//! character sequences, Unicode whitespace trimming, line splitting,
//! lexicographic order and decimal formatting.
use vstd::prelude::*;

verus! {

// ---------------------------------------------------------------------------
// Conversions
// ---------------------------------------------------------------------------

/// The characters of `s`, in order.
pub fn chars_of(s: &str) -> (chars: Vec<char>)
    ensures
        chars@ == s@,
{
    let mut chars: Vec<char> = Vec::new();
    for c in it: s.chars()
        invariant
            chars@ == it.seq().take(it.index() as int),
    {
        chars.push(c);
    }
    chars
}

/// Appends one character to a string.
///
/// Trusted: calls `String::push`, which std documents as appending the
/// given `char` to the end of the string.
#[verifier::external_body]
fn push_char(s: &mut String, c: char)
    ensures
        final(s)@ == old(s)@.push(c),
{
    s.push(c);
}

/// The string made of `chars`, in order.
pub fn string_from_chars(chars: &[char]) -> (s: String)
    ensures
        s@ == chars@,
{
    let mut s = String::new();
    for i in 0..chars.len()
        invariant
            s@ == chars@.take(i as int),
    {
        push_char(&mut s, chars[i]);
    }
    assert(chars@.take(chars@.len() as int) =~= chars@);
    s
}

// ---------------------------------------------------------------------------
// Whitespace and trimming
// ---------------------------------------------------------------------------

/// The Unicode `White_Space` property, as tested by `char::is_whitespace`.
pub open spec fn spec_is_whitespace(c: char) -> bool {
    let v = c as u32;
    ||| 9 <= v <= 13
    ||| v == 32
    ||| v == 0x85
    ||| v == 0xa0
    ||| v == 0x1680
    ||| 0x2000 <= v <= 0x200a
    ||| v == 0x2028
    ||| v == 0x2029
    ||| v == 0x202f
    ||| v == 0x205f
    ||| v == 0x3000
}

/// Whether `c` has the Unicode `White_Space` property.
pub fn is_whitespace(c: char) -> (b: bool)
    ensures
        b == spec_is_whitespace(c),
{
    let v = c as u32;
    (9 <= v && v <= 13) || v == 32 || v == 0x85 || v == 0xa0 || v == 0x1680 || (0x2000 <= v && v
        <= 0x200a) || v == 0x2028 || v == 0x2029 || v == 0x202f || v == 0x205f || v == 0x3000
}

/// `s` without its leading whitespace.
pub open spec fn trim_start(s: Seq<char>) -> Seq<char>
    decreases s.len(),
{
    if s.len() > 0 && spec_is_whitespace(s[0]) {
        trim_start(s.drop_first())
    } else {
        s
    }
}

/// `s` without its trailing whitespace.
pub open spec fn trim_end(s: Seq<char>) -> Seq<char>
    decreases s.len(),
{
    if s.len() > 0 && spec_is_whitespace(s.last()) {
        trim_end(s.drop_last())
    } else {
        s
    }
}

/// `s` without leading and trailing whitespace (what `str::trim` returns).
pub open spec fn trim(s: Seq<char>) -> Seq<char> {
    trim_end(trim_start(s))
}

/// Removes leading and trailing Unicode whitespace.
pub fn trim_chars(s: &[char]) -> (t: Vec<char>)
    ensures
        t@ == trim(s@),
{
    let n = s.len();
    let mut i: usize = 0;
    assert(s@.subrange(0, n as int) =~= s@);
    while i < n && is_whitespace(s[i])
        invariant
            n == s@.len(),
            i <= n,
            trim_start(s@) == trim_start(s@.subrange(i as int, n as int)),
        decreases n - i,
    {
        assert(s@.subrange(i as int, n as int).drop_first() =~= s@.subrange(i + 1, n as int));
        i = i + 1;
    }
    let mut j: usize = n;
    while j > i && is_whitespace(s[j - 1])
        invariant
            n == s@.len(),
            i <= j <= n,
            trim_end(s@.subrange(i as int, n as int)) == trim_end(s@.subrange(i as int, j as int)),
        decreases j - i,
    {
        assert(s@.subrange(i as int, j as int).drop_last() =~= s@.subrange(i as int, j - 1));
        j = j - 1;
    }
    let mut t: Vec<char> = Vec::new();
    let mut k: usize = i;
    while k < j
        invariant
            i <= k <= j <= n,
            n == s@.len(),
            t@ == s@.subrange(i as int, k as int),
        decreases j - k,
    {
        t.push(s[k]);
        k = k + 1;
    }
    t
}

// ---------------------------------------------------------------------------
// Lines
// ---------------------------------------------------------------------------

/// The pieces of `s` between `'\n'` separators (as `str::split('\n')` yields
/// them): an empty string gives one empty piece.
pub open spec fn split_lines(s: Seq<char>) -> Seq<Seq<char>>
    decreases s.len(),
{
    if s.len() == 0 {
        seq![Seq::<char>::empty()]
    } else {
        let prev = split_lines(s.drop_last());
        if s.last() == '\n' {
            prev.push(Seq::<char>::empty())
        } else {
            prev.update(prev.len() - 1, prev.last().push(s.last()))
        }
    }
}

pub proof fn lemma_split_lines_nonempty(s: Seq<char>)
    ensures
        split_lines(s).len() >= 1,
    decreases s.len(),
{
    if s.len() > 0 {
        lemma_split_lines_nonempty(s.drop_last());
    }
}

/// The character sequences of a sequence of character vectors.
pub open spec fn views_of(v: Seq<Vec<char>>) -> Seq<Seq<char>> {
    Seq::new(v.len(), |i: int| v[i]@)
}

/// Splits `s` at each `'\n'`.
pub fn split_lines_of(s: &[char]) -> (lines: Vec<Vec<char>>)
    ensures
        views_of(lines@) == split_lines(s@),
{
    let mut lines: Vec<Vec<char>> = Vec::new();
    let mut cur: Vec<char> = Vec::new();
    let n = s.len();
    let mut k: usize = 0;
    while k < n
        invariant
            n == s@.len(),
            k <= n,
            views_of(lines@).push(cur@) == split_lines(s@.take(k as int)),
        decreases n - k,
    {
        proof {
            assert(s@.take(k + 1).drop_last() =~= s@.take(k as int));
            lemma_split_lines_nonempty(s@.take(k as int));
        }
        let c = s[k];
        if c == '\n' {
            let finished = cur;
            let ghost before = views_of(lines@);
            let ghost fin = finished@;
            lines.push(finished);
            cur = Vec::new();
            assert(views_of(lines@) =~= before.push(fin));
            assert(views_of(lines@).push(cur@) =~= split_lines(s@.take(k as int)).push(
                Seq::<char>::empty(),
            ));
        } else {
            let ghost before = views_of(lines@);
            cur.push(c);
            assert(views_of(lines@).push(cur@) =~= split_lines(s@.take(k as int)).update(
                before.len() as int,
                split_lines(s@.take(k as int)).last().push(c),
            ));
        }
        k = k + 1;
    }
    let ghost before = views_of(lines@);
    lines.push(cur);
    assert(s@.take(n as int) =~= s@);
    assert(views_of(lines@) =~= before.push(cur@));
    lines
}

// ---------------------------------------------------------------------------
// Lower case (std)
// ---------------------------------------------------------------------------

/// What `str::to_lowercase` returns for a string with characters `s`
/// (Unicode full lower-case mapping).
pub uninterp spec fn lowercase_of(s: Seq<char>) -> Seq<char>;

/// Lower-cases a string.
///
/// Trusted: calls `str::to_lowercase`; the contract says only that the
/// result is the fixed function `lowercase_of` of the input characters (the
/// Unicode mapping table itself is not stated).
#[verifier::external_body]
pub(crate) fn to_lowercase(s: &str) -> (r: String)
    ensures
        r@ == lowercase_of(s@),
{
    s.to_lowercase()
}

// ---------------------------------------------------------------------------
// Lexicographic order
// ---------------------------------------------------------------------------

/// Lexicographic order of character sequences by code point. For UTF-8
/// strings this is the order of `str`'s `Ord` (byte-wise comparison).
pub open spec fn lex_lt(a: Seq<char>, b: Seq<char>) -> bool
    decreases a.len(),
{
    if b.len() == 0 {
        false
    } else if a.len() == 0 {
        true
    } else if a[0] != b[0] {
        a[0] < b[0]
    } else {
        lex_lt(a.drop_first(), b.drop_first())
    }
}

pub proof fn lemma_lex_irreflexive(a: Seq<char>)
    ensures
        !lex_lt(a, a),
    decreases a.len(),
{
    if a.len() > 0 {
        lemma_lex_irreflexive(a.drop_first());
    }
}

pub proof fn lemma_lex_asymmetric(a: Seq<char>, b: Seq<char>)
    ensures
        lex_lt(a, b) ==> !lex_lt(b, a),
    decreases a.len(),
{
    if a.len() > 0 && b.len() > 0 && a[0] == b[0] {
        lemma_lex_asymmetric(a.drop_first(), b.drop_first());
    }
}

pub proof fn lemma_lex_transitive(a: Seq<char>, b: Seq<char>, c: Seq<char>)
    requires
        lex_lt(a, b),
        lex_lt(b, c),
    ensures
        lex_lt(a, c),
    decreases a.len(),
{
    if a.len() > 0 && b.len() > 0 && c.len() > 0 && a[0] == b[0] && b[0] == c[0] {
        lemma_lex_transitive(a.drop_first(), b.drop_first(), c.drop_first());
    }
}

pub proof fn lemma_lex_total(a: Seq<char>, b: Seq<char>)
    ensures
        a != b ==> lex_lt(a, b) || lex_lt(b, a),
    decreases a.len(),
{
    if a.len() > 0 && b.len() > 0 && a[0] == b[0] {
        lemma_lex_total(a.drop_first(), b.drop_first());
        if a.drop_first() == b.drop_first() {
            assert(a =~= seq![a[0]] + a.drop_first());
            assert(b =~= seq![b[0]] + b.drop_first());
        }
    }
    if a.len() == 0 && b.len() == 0 {
        assert(a =~= b);
    }
}

/// Whether `a` comes strictly before `b` in lexicographic order.
pub fn chars_lt(a: &[char], b: &[char]) -> (r: bool)
    ensures
        r == lex_lt(a@, b@),
{
    let mut i: usize = 0;
    assert(a@.skip(0) =~= a@);
    assert(b@.skip(0) =~= b@);
    while i < a.len() && i < b.len() && a[i] == b[i]
        invariant
            i <= a@.len(),
            i <= b@.len(),
            lex_lt(a@, b@) == lex_lt(a@.skip(i as int), b@.skip(i as int)),
        decreases a@.len() - i,
    {
        assert(a@.skip(i as int).drop_first() =~= a@.skip(i + 1));
        assert(b@.skip(i as int).drop_first() =~= b@.skip(i + 1));
        i = i + 1;
    }
    if i == b.len() {
        false
    } else if i == a.len() {
        true
    } else {
        a[i] < b[i]
    }
}

/// Whether string `a` comes strictly before string `b`.
pub fn str_lt(a: &str, b: &str) -> (r: bool)
    ensures
        r == lex_lt(a@, b@),
{
    let ac = chars_of(a);
    let bc = chars_of(b);
    chars_lt(ac.as_slice(), bc.as_slice())
}

// ---------------------------------------------------------------------------
// Decimal formatting
// ---------------------------------------------------------------------------

/// The decimal digit character for `d < 10`.
pub open spec fn digit_char(d: nat) -> char {
    (48 + d) as char
}

/// The decimal representation of `n` without leading zeros (`"0"` for 0).
pub open spec fn decimal(n: nat) -> Seq<char>
    decreases n,
{
    if n < 10 {
        seq![digit_char(n)]
    } else {
        decimal(n / 10).push(digit_char(n % 10))
    }
}

/// The number denoted by a string of decimal digit characters.
pub open spec fn digits_value(s: Seq<char>) -> nat
    decreases s.len(),
{
    if s.len() == 0 {
        0
    } else {
        digits_value(s.drop_last()) * 10 + ((s.last() as u32) - 48) as nat
    }
}

/// `decimal(n)` denotes `n` again, and consists of digit characters.
pub proof fn lemma_decimal_value(n: nat)
    ensures
        digits_value(decimal(n)) == n,
        decimal(n).len() >= 1,
        forall|i: int| 0 <= i < decimal(n).len() ==> 48 <= (#[trigger] decimal(n)[i] as u32) <= 57,
    decreases n,
{
    if n >= 10 {
        lemma_decimal_value(n / 10);
        let d = decimal(n);
        assert(d == decimal(n / 10).push(digit_char(n % 10)));
        assert(d.drop_last() =~= decimal(n / 10));
        assert(d.last() == digit_char(n % 10));
        assert((digit_char(n % 10) as u32) == 48 + n % 10);
        assert(digits_value(d) == digits_value(d.drop_last()) * 10 + ((d.last() as u32) - 48) as nat);
        assert(digits_value(d) == digits_value(decimal(n / 10)) * 10 + n % 10);
        assert(n == (n / 10) * 10 + n % 10);
        assert forall|i: int| 0 <= i < d.len() implies 48 <= (#[trigger] d[i] as u32) <= 57 by {
            if i < d.len() - 1 {
                assert(d[i] == decimal(n / 10)[i]);
            }
        }
    } else {
        let d = decimal(n);
        assert((digit_char(n) as u32) == 48 + n);
        assert(d.drop_last() =~= Seq::<char>::empty());
        assert(digits_value(d.drop_last()) == 0);
        assert(digits_value(d) == digits_value(d.drop_last()) * 10 + ((d.last() as u32) - 48) as nat);
    }
}

/// Different numbers have different decimal representations.
pub proof fn lemma_decimal_injective(m: nat, n: nat)
    requires
        decimal(m) == decimal(n),
    ensures
        m == n,
{
    lemma_decimal_value(m);
    lemma_decimal_value(n);
}

/// `s` left-padded with `'0'` characters to at least `width` characters.
pub open spec fn zero_pad(s: Seq<char>, width: nat) -> Seq<char> {
    if s.len() >= width {
        s
    } else {
        Seq::new((width - s.len()) as nat, |i: int| '0') + s
    }
}

/// The decimal representation of `n`.
pub fn decimal_string(n: u64) -> (s: String)
    ensures
        s@ == decimal(n as nat),
{
    let mut digits: Vec<char> = Vec::new();
    let mut m: u64 = n;
    // digits are collected least significant first
    loop
        invariant_except_break
            m <= n,
            decimal(n as nat) == decimal(m as nat) + digits@.reverse(),
        ensures
            decimal(n as nat) == digits@.reverse(),
        decreases m,
    {
        let d = (m % 10) as u8;
        let c = (48u8 + d) as char;
        proof {
            assert(digit_char((m % 10) as nat) == c);
        }
        if m < 10 {
            let ghost old_digits = digits@;
            digits.push(c);
            assert(decimal(m as nat) == seq![c]);
            assert(digits@.reverse() =~= seq![c] + old_digits.reverse());
            assert(decimal(n as nat) =~= digits@.reverse());
            break;
        }
        let ghost old_digits = digits@;
        digits.push(c);
        assert(decimal(m as nat) == decimal((m / 10) as nat).push(c));
        assert(digits@.reverse() =~= seq![c] + old_digits.reverse());
        assert(decimal(m as nat) + old_digits.reverse() =~= decimal((m / 10) as nat)
            + digits@.reverse());
        m = m / 10;
    }
    let mut out: Vec<char> = Vec::new();
    let len = digits.len();
    let mut k: usize = 0;
    while k < len
        invariant
            len == digits@.len(),
            k <= len,
            out@ == digits@.reverse().take(k as int),
        decreases len - k,
    {
        out.push(digits[len - 1 - k]);
        assert(out@ =~= digits@.reverse().take(k + 1));
        k = k + 1;
    }
    assert(out@ =~= digits@.reverse());
    string_from_chars(out.as_slice())
}

/// The decimal representation of `n`, left-padded with zeros to `width`
/// characters (the `{:0width$}` format).
pub fn zero_padded_decimal(n: u64, width: usize) -> (s: String)
    ensures
        s@ == zero_pad(decimal(n as nat), width as nat),
{
    let digits = chars_of(decimal_string(n).as_str());
    let mut out: Vec<char> = Vec::new();
    if digits.len() < width {
        let pad = width - digits.len();
        let mut k: usize = 0;
        while k < pad
            invariant
                k <= pad,
                out@ == Seq::new(k as nat, |i: int| '0'),
            decreases pad - k,
        {
            out.push('0');
            assert(out@ =~= Seq::new((k + 1) as nat, |i: int| '0'));
            k = k + 1;
        }
    }
    let mut k: usize = 0;
    let base = out.len();
    while k < digits.len()
        invariant
            k <= digits@.len(),
            base <= out@.len(),
            out@.len() == base + k,
            out@.subrange(base as int, out@.len() as int) == digits@.take(k as int),
            out@.take(base as int) == (if digits@.len() < width {
                Seq::new((width - digits@.len()) as nat, |i: int| '0')
            } else {
                Seq::<char>::empty()
            }),
        decreases digits@.len() - k,
    {
        let ghost before = out@;
        out.push(digits[k]);
        assert(out@.subrange(base as int, out@.len() as int) =~= digits@.take(k + 1));
        assert(out@.take(base as int) =~= before.take(base as int));
        k = k + 1;
    }
    assert(out@ =~= out@.take(base as int) + out@.subrange(base as int, out@.len() as int));
    assert(digits@.take(digits@.len() as int) =~= digits@);
    assert(out@ =~= zero_pad(decimal(n as nat), width as nat));
    string_from_chars(out.as_slice())
}

} // verus!
