//! Character-level text handling: whitespace trimming, literal comparison,
//! searching, decimal integers, substring replacement and joining.
use vstd::prelude::*;

verus! {

broadcast use vstd::string::group_string_axioms;

// ---------------------------------------------------------------------------
// Conversions
// ---------------------------------------------------------------------------

/// The characters of a string slice, in order.
pub fn chars_of(s: &str) -> (v: Vec<char>)
    ensures
        v@ == s@,
{
    let mut v: Vec<char> = Vec::new();
    for c in it: s.chars()
        invariant
            v@ == it.seq().take(it.index()),
            it.seq() == s@,
    {
        v.push(c);
    }
    v
}

/// An owned copy of the characters `from..to` of `s`.
pub fn substring(s: &str, from: usize, to: usize) -> (r: String)
    requires
        from <= to <= s@.len(),
    ensures
        r@ == s@.subrange(from as int, to as int),
{
    String::from_str(s.substring_char(from, to))
}

// ---------------------------------------------------------------------------
// Whitespace and trimming
// ---------------------------------------------------------------------------

/// The characters with the Unicode `White_Space` property, which is what
/// `char::is_whitespace` and `str::trim` go by.
pub open spec fn is_ws(c: char) -> bool {
    ||| ('\u{9}' <= c && c <= '\u{D}')
    ||| c == ' '
    ||| c == '\u{85}'
    ||| c == '\u{A0}'
    ||| c == '\u{1680}'
    ||| ('\u{2000}' <= c && c <= '\u{200A}')
    ||| c == '\u{2028}'
    ||| c == '\u{2029}'
    ||| c == '\u{202F}'
    ||| c == '\u{205F}'
    ||| c == '\u{3000}'
}

/// `s` without its leading whitespace.
pub open spec fn trim_start(s: Seq<char>) -> Seq<char>
    decreases s.len(),
{
    if s.len() > 0 && is_ws(s[0]) {
        trim_start(s.drop_first())
    } else {
        s
    }
}

/// `s` without its trailing whitespace.
pub open spec fn trim_end(s: Seq<char>) -> Seq<char>
    decreases s.len(),
{
    if s.len() > 0 && is_ws(s.last()) {
        trim_end(s.drop_last())
    } else {
        s
    }
}

/// `s` without leading and trailing whitespace.
pub open spec fn trimmed(s: Seq<char>) -> Seq<char> {
    trim_end(trim_start(s))
}

/// Whether `c` is a whitespace character.
pub fn is_whitespace(c: char) -> (b: bool)
    ensures
        b == is_ws(c),
{
    ('\u{9}' <= c && c <= '\u{D}') || c == ' ' || c == '\u{85}' || c == '\u{A0}' || c
        == '\u{1680}' || ('\u{2000}' <= c && c <= '\u{200A}') || c == '\u{2028}' || c
        == '\u{2029}' || c == '\u{202F}' || c == '\u{205F}' || c == '\u{3000}'
}

proof fn lemma_trim_start_skip(s: Seq<char>, i: int)
    requires
        0 <= i < s.len(),
        is_ws(s[i]),
    ensures
        trim_start(s.skip(i)) == trim_start(s.skip(i + 1)),
{
    assert(s.skip(i).drop_first() =~= s.skip(i + 1));
}

proof fn lemma_trim_end_take(s: Seq<char>, j: int)
    requires
        0 < j <= s.len(),
        is_ws(s[j - 1]),
    ensures
        trim_end(s.take(j)) == trim_end(s.take(j - 1)),
{
    assert(s.take(j).drop_last() =~= s.take(j - 1));
}

/// `s` with leading and trailing whitespace removed, as `str::trim` does.
pub fn trim(s: &str) -> (t: &str)
    ensures
        t@ == trimmed(s@),
{
    let v = chars_of(s);
    let n = v.len();
    let mut lo: usize = 0;
    assert(s@.skip(0) =~= s@);
    while lo < n && is_whitespace(v[lo])
        invariant
            lo <= n,
            n == s@.len(),
            v@ == s@,
            trim_start(s@) == trim_start(s@.skip(lo as int)),
        decreases n - lo,
    {
        proof {
            lemma_trim_start_skip(s@, lo as int);
        }
        lo = lo + 1;
    }
    let ghost rest = s@.skip(lo as int);
    assert(trim_start(rest) == rest);
    let mut hi: usize = n;
    assert(rest.take(rest.len() as int) =~= rest);
    while hi > lo && is_whitespace(v[hi - 1])
        invariant
            lo <= hi <= n,
            n == s@.len(),
            v@ == s@,
            rest == s@.skip(lo as int),
            trim_end(rest) == trim_end(rest.take(hi - lo)),
        decreases hi,
    {
        proof {
            lemma_trim_end_take(rest, (hi - lo) as int);
        }
        hi = hi - 1;
    }
    assert(trim_end(rest.take(hi - lo)) == rest.take(hi - lo));
    assert(rest.take(hi - lo) =~= s@.subrange(lo as int, hi as int));
    s.substring_char(lo, hi)
}

// ---------------------------------------------------------------------------
// Comparison with literals and prefixes
// ---------------------------------------------------------------------------

/// Whether `v` holds exactly the characters of `lit`.
pub fn eq_lit(v: &Vec<char>, lit: &str) -> (b: bool)
    ensures
        b == (v@ == lit@),
{
    let m = lit.unicode_len();
    if v.len() != m {
        return false;
    }
    let mut i: usize = 0;
    while i < m
        invariant
            i <= m,
            m == lit@.len(),
            v@.len() == m,
            forall|k: int| 0 <= k < i ==> v@[k] == lit@[k],
        decreases m - i,
    {
        if v[i] != lit.get_char(i) {
            return false;
        }
        i = i + 1;
    }
    assert(v@ =~= lit@);
    true
}

/// Whether `v` starts with the characters of `lit`.
pub fn starts_with_lit(v: &Vec<char>, lit: &str) -> (b: bool)
    ensures
        b == lit@.is_prefix_of(v@),
{
    let m = lit.unicode_len();
    if v.len() < m {
        return false;
    }
    let mut i: usize = 0;
    while i < m
        invariant
            i <= m,
            m == lit@.len(),
            m <= v@.len(),
            forall|k: int| 0 <= k < i ==> v@[k] == lit@[k],
        decreases m - i,
    {
        if v[i] != lit.get_char(i) {
            return false;
        }
        i = i + 1;
    }
    assert(lit@ =~= v@.subrange(0, m as int));
    true
}

/// Whether the characters `at..at + p.len()` of `v` are those of `p`.
pub fn matches_at(v: &Vec<char>, at: usize, p: &Vec<char>) -> (b: bool)
    ensures
        b == (at + p@.len() <= v@.len() && v@.subrange(at as int, at + p@.len()) == p@),
{
    if at > v.len() || v.len() - at < p.len() {
        return false;
    }
    let m = p.len();
    let end = at + m;
    let mut j: usize = at;
    while j < end
        invariant
            at <= j <= end,
            end == at + m,
            m == p@.len(),
            end <= v@.len(),
            forall|k: int| 0 <= k < j - at ==> v@[at + k] == p@[k],
        decreases end - j,
    {
        if v[j] != p[j - at] {
            assert(v@.subrange(at as int, at + m)[j - at] != p@[j - at]);
            return false;
        }
        j = j + 1;
    }
    assert(v@.subrange(at as int, at + m) =~= p@);
    true
}

/// Whether `v` contains the character `c`.
pub fn contains_char(v: &Vec<char>, c: char) -> (b: bool)
    ensures
        b == v@.contains(c),
{
    let mut i: usize = 0;
    while i < v.len()
        invariant
            i <= v@.len(),
            forall|k: int| 0 <= k < i ==> v@[k] != c,
        decreases v@.len() - i,
    {
        if v[i] == c {
            return true;
        }
        i = i + 1;
    }
    false
}

// ---------------------------------------------------------------------------
// Searching
// ---------------------------------------------------------------------------

/// The index of the first `c` in `s`, or `s.len()` where there is none.
pub open spec fn first_index_of(s: Seq<char>, c: char) -> int
    decreases s.len(),
{
    if s.len() == 0 {
        0
    } else if s[0] == c {
        0
    } else {
        1 + first_index_of(s.drop_first(), c)
    }
}

/// `first_index_of` is the least index that holds `c`.
pub proof fn lemma_first_index_of(s: Seq<char>, c: char)
    ensures
        0 <= first_index_of(s, c) <= s.len(),
        forall|k: int| 0 <= k < first_index_of(s, c) ==> s[k] != c,
        first_index_of(s, c) < s.len() ==> s[first_index_of(s, c)] == c,
    decreases s.len(),
{
    if s.len() > 0 && s[0] != c {
        lemma_first_index_of(s.drop_first(), c);
        assert forall|k: int| 0 <= k < first_index_of(s, c) implies s[k] != c by {
            if k > 0 {
                assert(s[k] == s.drop_first()[k - 1]);
            }
        }
    }
}

/// Any index that holds `c` with no `c` before it is `first_index_of`.
pub proof fn lemma_first_index_of_unique(s: Seq<char>, c: char, i: int)
    requires
        0 <= i <= s.len(),
        forall|k: int| 0 <= k < i ==> s[k] != c,
        i < s.len() ==> s[i] == c,
    ensures
        first_index_of(s, c) == i,
    decreases s.len(),
{
    if s.len() > 0 && s[0] != c {
        assert forall|k: int| 0 <= k < i - 1 implies s.drop_first()[k] != c by {
            assert(s.drop_first()[k] == s[k + 1]);
        }
        lemma_first_index_of_unique(s.drop_first(), c, i - 1);
    }
}

/// The index of the first `c` at or after `from` in `v`, or `v.len()`.
pub fn find_char(v: &Vec<char>, c: char, from: usize) -> (r: usize)
    requires
        from <= v@.len(),
    ensures
        r == from + first_index_of(v@.skip(from as int), c),
        r <= v@.len(),
{
    let mut i = from;
    while i < v.len() && v[i] != c
        invariant
            from <= i <= v@.len(),
            forall|k: int| from <= k < i ==> v@[k] != c,
        decreases v@.len() - i,
    {
        i = i + 1;
    }
    proof {
        let t = v@.skip(from as int);
        assert forall|k: int| 0 <= k < i - from implies t[k] != c by {
            assert(t[k] == v@[from + k]);
        }
        lemma_first_index_of_unique(t, c, i - from);
    }
    i
}

// ---------------------------------------------------------------------------
// Decimal integers
// ---------------------------------------------------------------------------

/// An ASCII decimal digit.
pub open spec fn is_digit(c: char) -> bool {
    '0' <= c && c <= '9'
}

/// The value of an ASCII decimal digit.
pub open spec fn digit_value(c: char) -> int {
    c as int - '0' as int
}

/// Whether every character of `s` is a digit.
pub open spec fn all_digits(s: Seq<char>) -> bool {
    forall|i: int| 0 <= i < s.len() ==> is_digit(#[trigger] s[i])
}

/// The number that the digits `d` write in base ten.
pub open spec fn digits_value(d: Seq<char>) -> int
    decreases d.len(),
{
    if d.len() == 0 {
        0
    } else {
        digits_value(d.drop_last()) * 10 + digit_value(d.last())
    }
}

/// What `str::parse::<i64>` gives: an optional `+` or `-` sign followed by
/// at least one ASCII digit, whose value fits in an `i64`; otherwise nothing.
pub open spec fn spec_parse_i64(s: Seq<char>) -> Option<i64> {
    let signed = s.len() > 0 && (s[0] == '-' || s[0] == '+');
    let negative = s.len() > 0 && s[0] == '-';
    let digits = if signed {
        s.drop_first()
    } else {
        s
    };
    let value = if negative {
        -digits_value(digits)
    } else {
        digits_value(digits)
    };
    if digits.len() == 0 || !all_digits(digits) {
        None
    } else if i64::MIN <= value <= i64::MAX {
        Some(value as i64)
    } else {
        None
    }
}

proof fn lemma_digits_value_nonneg(d: Seq<char>)
    requires
        all_digits(d),
    ensures
        digits_value(d) >= 0,
    decreases d.len(),
{
    if d.len() > 0 {
        assert(all_digits(d.drop_last())) by {
            assert forall|i: int| 0 <= i < d.drop_last().len() implies is_digit(
                #[trigger] d.drop_last()[i],
            ) by {
                assert(d.drop_last()[i] == d[i]);
            }
        }
        lemma_digits_value_nonneg(d.drop_last());
        assert(is_digit(d[d.len() - 1]));
    }
}

/// The value of digits grows with each digit added.
proof fn lemma_digits_value_prefix(d: Seq<char>, i: int)
    requires
        all_digits(d),
        0 <= i <= d.len(),
    ensures
        digits_value(d.take(i)) <= digits_value(d),
    decreases d.len(),
{
    if i < d.len() {
        let p = d.drop_last();
        assert(all_digits(p)) by {
            assert forall|j: int| 0 <= j < p.len() implies is_digit(#[trigger] p[j]) by {
                assert(p[j] == d[j]);
            }
        }
        lemma_digits_value_prefix(p, i);
        assert(p.take(i) =~= d.take(i));
        lemma_digits_value_nonneg(p);
        assert(is_digit(d[d.len() - 1]));
    } else {
        assert(d.take(i) =~= d);
    }
}

/// Parses a decimal `i64` as `str::parse::<i64>` does.
pub fn parse_i64(v: &Vec<char>) -> (r: Option<i64>)
    ensures
        r == spec_parse_i64(v@),
{
    let n = v.len();
    let signed = n > 0 && (v[0] == '-' || v[0] == '+');
    let negative = n > 0 && v[0] == '-';
    let start: usize = if signed {
        1
    } else {
        0
    };
    let ghost digits = if signed {
        v@.drop_first()
    } else {
        v@
    };
    assert(digits =~= v@.skip(start as int));
    if start >= n {
        return None;
    }
    let limit: u64 = 0x8000_0000_0000_0000;
    let mut acc: u64 = 0;
    let mut i: usize = start;
    assert(digits.take(0) =~= Seq::<char>::empty());
    while i < n
        invariant
            start <= i <= n,
            n == v@.len(),
            digits == v@.skip(start as int),
            digits == (if v@.len() > 0 && (v@[0] == '-' || v@[0] == '+') {
                v@.drop_first()
            } else {
                v@
            }),
            negative == (v@.len() > 0 && v@[0] == '-'),
            all_digits(digits.take(i - start)),
            acc == digits_value(digits.take(i - start)),
            acc <= limit,
            limit == 0x8000_0000_0000_0000u64,
        decreases n - i,
    {
        let c = v[i];
        if !('0' <= c && c <= '9') {
            assert(digits[i - start] == c);
            assert(!is_digit(digits[i - start]));
            assert(!all_digits(digits));
            assert(spec_parse_i64(v@) is None);
            return None;
        }
        let d: u64 = (c as u32 - '0' as u32) as u64;
        let ghost k = i - start;
        assert(digits.take(k + 1).drop_last() =~= digits.take(k));
        assert(digits.take(k + 1).last() == c);
        assert(all_digits(digits.take(k + 1))) by {
            assert forall|j: int| 0 <= j < k + 1 implies is_digit(
                #[trigger] digits.take(k + 1)[j],
            ) by {
                if j < k {
                    assert(digits.take(k + 1)[j] == digits.take(k)[j]);
                }
            }
        }
        if acc > (limit - d) / 10 {
            proof {
                assert(acc * 10 + d > limit) by (nonlinear_arith)
                    requires
                        acc > (limit - d) / 10,
                        d <= 9,
                        limit == 0x8000_0000_0000_0000u64,
                ;
                assert(digits_value(digits.take(k + 1)) == acc * 10 + d);
                if all_digits(digits) {
                    lemma_digits_value_prefix(digits, k + 1);
                    assert(digits_value(digits) > limit);
                }
                assert(spec_parse_i64(v@) is None);
            }
            return None;
        }
        assert(acc * 10 + d <= limit) by (nonlinear_arith)
            requires
                acc <= (limit - d) / 10,
                d <= 9,
                limit == 0x8000_0000_0000_0000u64,
        ;
        acc = acc * 10 + d;
        i = i + 1;
    }
    assert(digits.take(n - start) =~= digits);
    if negative {
        if acc == limit {
            Some(i64::MIN)
        } else {
            Some(-(acc as i64))
        }
    } else {
        if acc == limit {
            None
        } else {
            Some(acc as i64)
        }
    }
}

// ---------------------------------------------------------------------------
// Replacement
// ---------------------------------------------------------------------------

/// `s` with every occurrence of `p` replaced by `r`, scanning from the left
/// and without overlap, as `str::replace` does for a non-empty pattern.
pub open spec fn replaced(s: Seq<char>, p: Seq<char>, r: Seq<char>) -> Seq<char>
    decreases s.len(),
{
    if p.len() == 0 || s.len() < p.len() {
        s
    } else if s.take(p.len() as int) == p {
        r + replaced(s.skip(p.len() as int), p, r)
    } else {
        seq![s[0]] + replaced(s.drop_first(), p, r)
    }
}

proof fn lemma_replaced_step_miss(s: Seq<char>, p: Seq<char>, r: Seq<char>, i: int)
    requires
        0 <= i < s.len(),
        p.len() > 0,
        !(i + p.len() <= s.len() && s.subrange(i, i + p.len()) == p),
    ensures
        replaced(s.skip(i), p, r) == seq![s[i]] + replaced(s.skip(i + 1), p, r),
{
    let t = s.skip(i);
    assert(t.drop_first() =~= s.skip(i + 1));
    if t.len() >= p.len() {
        assert(t.take(p.len() as int) =~= s.subrange(i, i + p.len()));
    } else {
        assert(s.skip(i + 1).len() < p.len());
        assert(t =~= seq![s[i]] + s.skip(i + 1));
    }
}

proof fn lemma_replaced_step_hit(s: Seq<char>, p: Seq<char>, r: Seq<char>, i: int)
    requires
        0 <= i,
        p.len() > 0,
        i + p.len() <= s.len(),
        s.subrange(i, i + p.len()) == p,
    ensures
        replaced(s.skip(i), p, r) == r + replaced(s.skip(i + p.len()), p, r),
{
    let t = s.skip(i);
    assert(t.take(p.len() as int) =~= s.subrange(i, i + p.len()));
    assert(t.skip(p.len() as int) =~= s.skip(i + p.len()));
}

/// `s` with every occurrence of `pat` replaced by `rep`, as `str::replace`.
pub fn replace_all(s: &str, pat: &str, rep: &str) -> (out: String)
    requires
        pat@.len() > 0,
    ensures
        out@ == replaced(s@, pat@, rep@),
{
    let v = chars_of(s);
    let p = chars_of(pat);
    let n = v.len();
    let m = p.len();
    let mut out = String::new();
    let mut seg: usize = 0;
    let mut i: usize = 0;
    assert(s@.skip(0) =~= s@);
    while i < n
        invariant
            seg <= i <= n,
            n == s@.len(),
            m == pat@.len(),
            m > 0,
            v@ == s@,
            p@ == pat@,
            out@ + s@.subrange(seg as int, i as int) + replaced(s@.skip(i as int), pat@, rep@)
                == replaced(s@, pat@, rep@),
        decreases n - i,
    {
        if matches_at(&v, i, &p) {
            proof {
                lemma_replaced_step_hit(s@, pat@, rep@, i as int);
            }
            let piece = s.substring_char(seg, i);
            let ghost before = out@;
            out.append(piece);
            out.append(rep);
            assert(before + s@.subrange(seg as int, i as int) + (rep@ + replaced(
                s@.skip(i + m),
                pat@,
                rep@,
            )) =~= out@ + s@.subrange((i + m) as int, (i + m) as int) + replaced(
                s@.skip(i + m),
                pat@,
                rep@,
            ));
            i = i + m;
            seg = i;
        } else {
            proof {
                lemma_replaced_step_miss(s@, pat@, rep@, i as int);
                assert(s@.subrange(seg as int, i as int) + (seq![s@[i as int]] + replaced(
                    s@.skip(i + 1),
                    pat@,
                    rep@,
                )) =~= s@.subrange(seg as int, i + 1) + replaced(s@.skip(i + 1), pat@, rep@));
            }
            i = i + 1;
        }
    }
    proof {
        assert(s@.skip(n as int).len() == 0);
        assert(replaced(s@.skip(n as int), pat@, rep@) == s@.skip(n as int));
        assert(s@.skip(n as int) =~= Seq::<char>::empty());
    }
    let tail = s.substring_char(seg, n);
    out.append(tail);
    assert(out@ =~= replaced(s@, pat@, rep@));
    out
}

// ---------------------------------------------------------------------------
// Joining
// ---------------------------------------------------------------------------

/// The pieces of `parts` one after another, with `sep` between each two.
pub open spec fn joined(parts: Seq<Seq<char>>, sep: Seq<char>) -> Seq<char>
    decreases parts.len(),
{
    if parts.len() == 0 {
        Seq::empty()
    } else if parts.len() == 1 {
        parts[0]
    } else {
        joined(parts.drop_last(), sep) + sep + parts.last()
    }
}

/// The views of a sequence of strings.
pub open spec fn views(v: Seq<String>) -> Seq<Seq<char>> {
    v.map_values(|s: String| s@)
}

/// The strings of `parts` joined by `sep`.
pub fn join(parts: &Vec<String>, sep: &str) -> (out: String)
    ensures
        out@ == joined(views(parts@), sep@),
{
    let mut out = String::new();
    let n = parts.len();
    let mut i: usize = 0;
    while i < n
        invariant
            i <= n,
            n == parts@.len(),
            out@ == joined(views(parts@).take(i as int), sep@),
        decreases n - i,
    {
        let ghost before = views(parts@).take(i as int);
        assert(views(parts@).take(i + 1).drop_last() =~= before);
        if i > 0 {
            out.append(sep);
        }
        out.append(parts[i].as_str());
        proof {
            if i == 0 {
                assert(out@ =~= views(parts@).take(1)[0]);
            }
        }
        i = i + 1;
    }
    assert(views(parts@).take(n as int) =~= views(parts@));
    out
}

// ---------------------------------------------------------------------------
// Laws
// ---------------------------------------------------------------------------

/// A text that neither starts nor ends with whitespace is its own trim.
pub proof fn law_trim_keeps_trimmed(s: Seq<char>)
    requires
        s.len() > 0,
        !is_ws(s[0]),
        !is_ws(s.last()),
    ensures
        trimmed(s) == s,
{
}

/// Trimming twice is trimming once.
pub proof fn law_trim_idempotent(s: Seq<char>)
    ensures
        trimmed(trimmed(s)) == trimmed(s),
{
    lemma_trim_start_fixed(s);
    lemma_trim_end_fixed(trim_start(s));
    lemma_trim_end_keeps_start(trim_start(s));
}

proof fn lemma_trim_start_fixed(s: Seq<char>)
    ensures
        trim_start(trim_start(s)) == trim_start(s),
        trim_start(s).len() > 0 ==> !is_ws(trim_start(s)[0]),
    decreases s.len(),
{
    if s.len() > 0 && is_ws(s[0]) {
        lemma_trim_start_fixed(s.drop_first());
    }
}

proof fn lemma_trim_end_fixed(s: Seq<char>)
    ensures
        trim_end(trim_end(s)) == trim_end(s),
        trim_end(s).len() > 0 ==> !is_ws(trim_end(s).last()),
    decreases s.len(),
{
    if s.len() > 0 && is_ws(s.last()) {
        lemma_trim_end_fixed(s.drop_last());
    }
}

/// Trimming the end of a text whose first character is not whitespace
/// leaves a text that is empty or still starts with that character.
proof fn lemma_trim_end_keeps_start(s: Seq<char>)
    requires
        s.len() > 0 ==> !is_ws(s[0]),
    ensures
        trim_start(trim_end(s)) == trim_end(s),
    decreases s.len(),
{
    if s.len() > 0 && is_ws(s.last()) {
        if s.len() > 1 {
            assert(s.drop_last()[0] == s[0]);
        }
        lemma_trim_end_keeps_start(s.drop_last());
    }
}

/// Surrounding whitespace does not change the trim.
pub proof fn law_trim_ignores_padding(pre: Seq<char>, s: Seq<char>, post: Seq<char>)
    requires
        forall|i: int| 0 <= i < pre.len() ==> is_ws(#[trigger] pre[i]),
        forall|i: int| 0 <= i < post.len() ==> is_ws(#[trigger] post[i]),
    ensures
        trimmed(pre + s + post) == trimmed(s),
{
    lemma_trim_start_pad(pre, s + post);
    assert(pre + s + post =~= pre + (s + post));
    lemma_trim_end_pad(trim_start(s), post);
    lemma_trim_start_append(s, post);
}

proof fn lemma_trim_start_pad(pre: Seq<char>, s: Seq<char>)
    requires
        forall|i: int| 0 <= i < pre.len() ==> is_ws(#[trigger] pre[i]),
    ensures
        trim_start(pre + s) == trim_start(s),
    decreases pre.len(),
{
    if pre.len() > 0 {
        assert((pre + s).drop_first() =~= pre.drop_first() + s);
        assert((pre + s)[0] == pre[0]);
        assert forall|i: int| 0 <= i < pre.drop_first().len() implies is_ws(
            #[trigger] pre.drop_first()[i],
        ) by {
            assert(pre.drop_first()[i] == pre[i + 1]);
        }
        lemma_trim_start_pad(pre.drop_first(), s);
    } else {
        assert(pre + s =~= s);
    }
}

proof fn lemma_trim_end_pad(s: Seq<char>, post: Seq<char>)
    requires
        forall|i: int| 0 <= i < post.len() ==> is_ws(#[trigger] post[i]),
    ensures
        trim_end(s + post) == trim_end(s),
    decreases post.len(),
{
    if post.len() > 0 {
        assert((s + post).drop_last() =~= s + post.drop_last());
        assert((s + post).last() == post.last());
        assert(is_ws(post[post.len() - 1]));
        assert forall|i: int| 0 <= i < post.drop_last().len() implies is_ws(
            #[trigger] post.drop_last()[i],
        ) by {
            assert(post.drop_last()[i] == post[i]);
        }
        lemma_trim_end_pad(s, post.drop_last());
    } else {
        assert(s + post =~= s);
    }
}

/// Trimming the start of `s + post` trims the start of `s`, unless `s` is
/// all whitespace.
proof fn lemma_trim_start_append(s: Seq<char>, post: Seq<char>)
    requires
        forall|i: int| 0 <= i < post.len() ==> is_ws(#[trigger] post[i]),
    ensures
        trim_end(trim_start(s + post)) == trim_end(trim_start(s)),
    decreases s.len(),
{
    if s.len() > 0 && is_ws(s[0]) {
        assert((s + post).drop_first() =~= s.drop_first() + post);
        assert((s + post)[0] == s[0]);
        lemma_trim_start_append(s.drop_first(), post);
    } else if s.len() > 0 {
        assert((s + post)[0] == s[0]);
        lemma_trim_end_pad(s, post);
    } else {
        assert(s + post =~= post);
        lemma_all_ws_trims_away(post);
        assert(trim_start(s) =~= s);
    }
}

proof fn lemma_all_ws_trims_away(s: Seq<char>)
    requires
        forall|i: int| 0 <= i < s.len() ==> is_ws(#[trigger] s[i]),
    ensures
        trim_start(s).len() == 0,
        trim_end(trim_start(s)).len() == 0,
    decreases s.len(),
{
    if s.len() > 0 {
        assert(is_ws(s[0]));
        assert forall|i: int| 0 <= i < s.drop_first().len() implies is_ws(
            #[trigger] s.drop_first()[i],
        ) by {
            assert(s.drop_first()[i] == s[i + 1]);
        }
        lemma_all_ws_trims_away(s.drop_first());
    }
}

/// The digit character of `d` (0 to 9).
pub open spec fn digit_char(d: nat) -> char {
    (d + 48) as char
}

/// The base-ten digits of `n`, without leading zeros.
pub open spec fn decimal(n: nat) -> Seq<char>
    decreases n,
{
    if n < 10 {
        seq![digit_char(n)]
    } else {
        decimal(n / 10).push(digit_char(n % 10))
    }
}

/// How an `i64` is written in base ten: a `-` before the digits of a
/// negative number.
pub open spec fn i64_text(x: i64) -> Seq<char> {
    if x < 0 {
        seq!['-'] + decimal((-x) as nat)
    } else {
        decimal(x as nat)
    }
}

proof fn lemma_digit_char(d: nat)
    requires
        d < 10,
    ensures
        is_digit(digit_char(d)),
        digit_value(digit_char(d)) == d,
{
    assert('0' as int == 48);
    assert('9' as int == 57);
    assert((d + 48) as char as int == d + 48);
}

proof fn lemma_decimal(n: nat)
    ensures
        decimal(n).len() > 0,
        all_digits(decimal(n)),
        digits_value(decimal(n)) == n,
    decreases n,
{
    lemma_digit_char(n % 10);
    if n < 10 {
        assert(n % 10 == n);
        let d = decimal(n);
        assert(d.drop_last() =~= Seq::<char>::empty());
        assert(digits_value(d.drop_last()) == 0);
        assert(d.last() == digit_char(n));
    } else {
        lemma_decimal(n / 10);
        let d = decimal(n);
        assert(d.drop_last() =~= decimal(n / 10));
        assert(d.last() == digit_char(n % 10));
        assert(digits_value(d) == digits_value(decimal(n / 10)) * 10 + digit_value(digit_char(n % 10)));
        assert(n == (n / 10) * 10 + n % 10) by (nonlinear_arith);
        assert forall|i: int| 0 <= i < d.len() implies is_digit(#[trigger] d[i]) by {
            if i < d.len() - 1 {
                assert(d[i] == decimal(n / 10)[i]);
            }
        }
    }
}

/// Reading back the base-ten text of an `i64` gives that number.
pub proof fn law_parse_i64_text(x: i64)
    ensures
        spec_parse_i64(i64_text(x)) == Some(x),
{
    if x < 0 {
        lemma_decimal((-x) as nat);
        let s = i64_text(x);
        assert(s.drop_first() =~= decimal((-x) as nat));
    } else {
        lemma_decimal(x as nat);
        let s = decimal(x as nat);
        assert(is_digit(s[0]));
    }
}

/// Without an occurrence of the pattern, replacing changes nothing.
pub proof fn law_replace_absent(s: Seq<char>, p: Seq<char>, r: Seq<char>)
    requires
        p.len() > 0,
        forall|i: int| 0 <= i && i + p.len() <= s.len() ==> #[trigger] s.subrange(i, i + p.len()) != p,
    ensures
        replaced(s, p, r) == s,
    decreases s.len(),
{
    if s.len() >= p.len() {
        assert(s.take(p.len() as int) == s.subrange(0, p.len() as int));
        assert(s.subrange(0, 0 + p.len() as int) != p);
        let t = s.drop_first();
        assert forall|i: int| 0 <= i && i + p.len() <= t.len() implies #[trigger] t.subrange(
            i,
            i + p.len(),
        ) != p by {
            assert(t.subrange(i, i + p.len()) =~= s.subrange(i + 1, i + 1 + p.len()));
        }
        law_replace_absent(t, p, r);
        assert(seq![s[0]] + t =~= s);
    }
}

/// Without the pattern's first character, replacing changes nothing.
pub proof fn law_replace_without_first_char(s: Seq<char>, p: Seq<char>, r: Seq<char>)
    requires
        p.len() > 0,
        !s.contains(p[0]),
    ensures
        replaced(s, p, r) == s,
{
    assert forall|i: int| 0 <= i && i + p.len() <= s.len() implies #[trigger] s.subrange(
        i,
        i + p.len(),
    ) != p by {
        assert(s.subrange(i, i + p.len())[0] == s[i]);
    }
    law_replace_absent(s, p, r);
}

/// A single occurrence of the pattern, with its first character nowhere
/// else, is replaced by the replacement and nothing else changes.
pub proof fn law_replace_single(a: Seq<char>, p: Seq<char>, b: Seq<char>, r: Seq<char>)
    requires
        p.len() > 0,
        !a.contains(p[0]),
        !b.contains(p[0]),
    ensures
        replaced(a + p + b, p, r) == a + r + b,
    decreases a.len(),
{
    let s = a + p + b;
    if a.len() == 0 {
        assert(s =~= p + b);
        assert(s.take(p.len() as int) =~= p);
        assert(s.skip(p.len() as int) =~= b);
        law_replace_without_first_char(b, p, r);
        assert(a + r + b =~= r + b);
    } else {
        assert(s[0] == a[0]);
        assert(s.take(p.len() as int)[0] == a[0]);
        assert(!a.drop_first().contains(p[0])) by {
            if a.drop_first().contains(p[0]) {
                let k = choose|k: int| 0 <= k < a.drop_first().len() && a.drop_first()[k] == p[0];
                assert(a[k + 1] == p[0]);
            }
        }
        assert(a[0] != p[0]);
        assert(s.drop_first() =~= a.drop_first() + p + b);
        law_replace_single(a.drop_first(), p, b, r);
        assert(seq![a[0]] + (a.drop_first() + r + b) =~= a + r + b);
    }
}

/// Joining nothing gives nothing, joining one text gives that text, and
/// joining two non-empty lists one after the other puts one separator
/// between them.
pub proof fn law_join(a: Seq<Seq<char>>, b: Seq<Seq<char>>, x: Seq<char>, sep: Seq<char>)
    ensures
        joined(Seq::empty(), sep) == Seq::<char>::empty(),
        joined(seq![x], sep) == x,
        a.len() > 0 && b.len() > 0 ==> joined(a + b, sep) == joined(a, sep) + sep + joined(b, sep),
    decreases b.len(),
{
    if a.len() > 0 && b.len() > 0 {
        let c = a + b;
        if b.len() == 1 {
            assert(c.drop_last() =~= a);
            assert(c.last() == b[0]);
            assert(joined(b, sep) == b[0]);
        } else {
            assert(c.drop_last() =~= a + b.drop_last());
            assert(c.last() == b.last());
            law_join(a, b.drop_last(), x, sep);
            assert(joined(a, sep) + sep + joined(b.drop_last(), sep) + sep + b.last() =~= joined(
                a,
                sep,
            ) + sep + (joined(b.drop_last(), sep) + sep + b.last()));
        }
    }
}

/// Text that `str::parse::<i64>` refuses: empty text, a lone sign, and any
/// text with a character other than a digit, apart from one leading sign.
pub proof fn law_parse_i64_rejects(s: Seq<char>)
    ensures
        s.len() == 0 ==> spec_parse_i64(s) is None,
        s == seq!['-'] || s == seq!['+'] ==> spec_parse_i64(s) is None,
        (exists|i: int|
            0 <= i < s.len() && !is_digit(#[trigger] s[i]) && !(i == 0 && (s[i] == '-' || s[i]
                == '+'))) ==> spec_parse_i64(s) is None,
{
    if exists|i: int|
        0 <= i < s.len() && !is_digit(#[trigger] s[i]) && !(i == 0 && (s[i] == '-' || s[i] == '+')) {
        let i = choose|i: int|
            0 <= i < s.len() && !is_digit(#[trigger] s[i]) && !(i == 0 && (s[i] == '-' || s[i]
                == '+'));
        if s[0] == '-' || s[0] == '+' {
            assert(s.drop_first()[i - 1] == s[i]);
        }
    }
    if s == seq!['-'] || s == seq!['+'] {
        assert(s.drop_first().len() == 0);
    }
}

} // verus!
