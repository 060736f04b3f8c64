//! Verified text utilities: decimal rendering, splitting, joining,
//! substring replacement and token extraction over `Seq<char>` models.

use vstd::prelude::*;
use vstd::string::*;

verus! {

/// The character for a single decimal digit.
pub open spec fn digit_char(d: nat) -> char {
    if d == 0 {
        '0'
    } else if d == 1 {
        '1'
    } else if d == 2 {
        '2'
    } else if d == 3 {
        '3'
    } else if d == 4 {
        '4'
    } else if d == 5 {
        '5'
    } else if d == 6 {
        '6'
    } else if d == 7 {
        '7'
    } else if d == 8 {
        '8'
    } else {
        '9'
    }
}

/// The decimal rendering of a natural number, most significant digit first,
/// with no leading zeros (except for the number 0 itself).
pub open spec fn decimal_chars(n: nat) -> Seq<char>
    decreases n,
{
    if n < 10 {
        seq![digit_char(n)]
    } else {
        decimal_chars(n / 10) + seq![digit_char(n % 10)]
    }
}

fn digit_str(d: u64) -> (r: &'static str)
    requires
        d < 10,
    ensures
        r@ == seq![digit_char(d as nat)],
{
    if d == 0 {
        proof {
            reveal_strlit("0");
            assert("0"@ =~= seq![digit_char(d as nat)]);
        }
        return "0";
    }
    if d == 1 {
        proof {
            reveal_strlit("1");
            assert("1"@ =~= seq![digit_char(d as nat)]);
        }
        return "1";
    }
    if d == 2 {
        proof {
            reveal_strlit("2");
            assert("2"@ =~= seq![digit_char(d as nat)]);
        }
        return "2";
    }
    if d == 3 {
        proof {
            reveal_strlit("3");
            assert("3"@ =~= seq![digit_char(d as nat)]);
        }
        return "3";
    }
    if d == 4 {
        proof {
            reveal_strlit("4");
            assert("4"@ =~= seq![digit_char(d as nat)]);
        }
        return "4";
    }
    if d == 5 {
        proof {
            reveal_strlit("5");
            assert("5"@ =~= seq![digit_char(d as nat)]);
        }
        return "5";
    }
    if d == 6 {
        proof {
            reveal_strlit("6");
            assert("6"@ =~= seq![digit_char(d as nat)]);
        }
        return "6";
    }
    if d == 7 {
        proof {
            reveal_strlit("7");
            assert("7"@ =~= seq![digit_char(d as nat)]);
        }
        return "7";
    }
    if d == 8 {
        proof {
            reveal_strlit("8");
            assert("8"@ =~= seq![digit_char(d as nat)]);
        }
        return "8";
    }
    proof {
        reveal_strlit("9");
        assert("9"@ =~= seq![digit_char(d as nat)]);
    }
    "9"
}

/// Renders an unsigned number in decimal.
pub fn u64_string(n: u64) -> (r: String)
    ensures
        r@ == decimal_chars(n as nat),
    decreases n,
{
    if n < 10 {
        digit_str(n).to_owned()
    } else {
        let mut r = u64_string(n / 10);
        r.append(digit_str(n % 10));
        r
    }
}

/// Character-for-character equality of two string slices.
pub fn str_eq(a: &str, b: &str) -> (r: bool)
    ensures
        r == (a@ == b@),
{
    let n = a.unicode_len();
    if n != b.unicode_len() {
        return false;
    }
    let mut i: usize = 0;
    while i < n
        invariant
            n == a@.len(),
            n == b@.len(),
            0 <= i <= n,
            forall|x: int| 0 <= x < i ==> a@[x] == b@[x],
        decreases n - i,
    {
        if a.get_char(i) != b.get_char(i) {
            return false;
        }
        i += 1;
    }
    proof {
        assert(a@ =~= b@);
    }
    true
}

/// True when `pat` occurs in `s` starting at position `i`.
pub open spec fn match_at(s: Seq<char>, pat: Seq<char>, i: int) -> bool {
    &&& 0 <= i
    &&& i + pat.len() <= s.len()
    &&& s.subrange(i, i + pat.len() as int) == pat
}

/// The parts of `s` between non-overlapping leftmost occurrences of `sep`,
/// in order. A string with no occurrence is a single part; each occurrence
/// ends the current part and starts the next one.
pub open spec fn split_chars(s: Seq<char>, sep: Seq<char>) -> Seq<Seq<char>>
    decreases s.len(),
{
    if sep.len() == 0 || s.len() == 0 {
        seq![s]
    } else if match_at(s, sep, 0) {
        seq![Seq::<char>::empty()] + split_chars(s.skip(sep.len() as int), sep)
    } else {
        let rest = split_chars(s.drop_first(), sep);
        seq![seq![s[0]] + rest[0]] + rest.drop_first()
    }
}

pub proof fn lemma_split_nonempty(s: Seq<char>, sep: Seq<char>)
    ensures
        split_chars(s, sep).len() >= 1,
    decreases s.len(),
{
    if !(sep.len() == 0 || s.len() == 0) && !match_at(s, sep, 0) {
        lemma_split_nonempty(s.drop_first(), sep);
    }
}

proof fn lemma_match_skip(s: Seq<char>, sep: Seq<char>, d: int, j: int)
    requires
        0 <= d <= s.len(),
        0 <= j,
    ensures
        match_at(s.skip(d), sep, j) == match_at(s, sep, j + d),
{
    if j + d + sep.len() <= s.len() {
        assert(s.skip(d).subrange(j, j + sep.len() as int) =~= s.subrange(
            j + d,
            j + d + sep.len() as int,
        ));
    }
}

/// Splitting a string whose first `k` positions hold no separator occurrence:
/// a match at `k` ends the first part there; no match at all makes the whole
/// string the single part.
proof fn lemma_split_from(s: Seq<char>, sep: Seq<char>, k: int)
    requires
        sep.len() >= 1,
        0 <= k <= s.len(),
        forall|j: int| 0 <= j < k ==> !match_at(s, sep, j),
    ensures
        match_at(s, sep, k) ==> split_chars(s, sep) == seq![s.take(k)] + split_chars(
            s.skip(k + sep.len() as int),
            sep,
        ),
        k == s.len() ==> split_chars(s, sep) == seq![s],
    decreases k,
{
    if k == 0 {
        if match_at(s, sep, 0) {
            assert(s.take(0) =~= Seq::<char>::empty());
            assert(seq![s.take(0)] =~= seq![Seq::<char>::empty()]);
        }
    } else {
        assert(!match_at(s, sep, 0));
        let s1 = s.drop_first();
        assert(s1 =~= s.skip(1));
        assert forall|j: int| 0 <= j < k - 1 implies !match_at(s1, sep, j) by {
            lemma_match_skip(s, sep, 1, j);
        }
        lemma_split_from(s1, sep, k - 1);
        let rest = split_chars(s1, sep);
        lemma_split_nonempty(s1, sep);
        if match_at(s, sep, k) {
            lemma_match_skip(s, sep, 1, k - 1);
            assert(match_at(s1, sep, k - 1));
            let tail = split_chars(s1.skip(k - 1 + sep.len() as int), sep);
            assert(rest == seq![s1.take(k - 1)] + tail);
            assert(rest[0] == s1.take(k - 1));
            assert(rest.drop_first() =~= tail);
            assert(seq![s[0]] + s1.take(k - 1) =~= s.take(k));
            assert(s1.skip(k - 1 + sep.len() as int) =~= s.skip(k + sep.len() as int));
            assert(split_chars(s, sep) =~= seq![s.take(k)] + tail);
        }
        if k == s.len() {
            assert(rest == seq![s1]);
            assert(rest.drop_first() =~= Seq::<Seq<char>>::empty());
            assert(seq![s[0]] + s1 =~= s);
            assert(split_chars(s, sep) =~= seq![s]);
        }
    }
}

fn str_match_at(s: &str, sep: &str, i: usize, n: usize, m: usize) -> (b: bool)
    requires
        n == s@.len(),
        m == sep@.len(),
        i + m <= n,
    ensures
        b == match_at(s@, sep@, i as int),
{
    let mut j: usize = 0;
    while j < m
        invariant
            n == s@.len(),
            m == sep@.len(),
            i + m <= n,
            0 <= j <= m,
            forall|x: int| 0 <= x < j ==> s@[i + x] == sep@[x],
        decreases m - j,
    {
        if s.get_char(i + j) != sep.get_char(j) {
            proof {
                if match_at(s@, sep@, i as int) {
                    assert(s@.subrange(i as int, i + m as int)[j as int] == sep@[j as int]);
                }
            }
            return false;
        }
        j += 1;
    }
    proof {
        assert(s@.subrange(i as int, i + m as int) =~= sep@);
    }
    true
}

/// Splits `s` on every non-overlapping leftmost occurrence of `sep`.
pub fn split_str(s: &str, sep: &str) -> (parts: Vec<String>)
    requires
        sep@.len() >= 1,
    ensures
        parts.deep_view() == split_chars(s@, sep@),
{
    let n = s.unicode_len();
    let m = sep.unicode_len();
    let mut parts: Vec<String> = Vec::new();
    let mut start: usize = 0;
    let mut i: usize = 0;
    proof {
        assert(s@.skip(0) =~= s@);
        assert(parts.deep_view() =~= Seq::<Seq<char>>::empty());
        assert(parts.deep_view() + split_chars(s@, sep@) =~= split_chars(s@, sep@));
    }
    while m <= n - i && i <= n
        invariant
            n == s@.len(),
            m == sep@.len(),
            m >= 1,
            0 <= start <= i <= n,
            split_chars(s@, sep@) == parts.deep_view() + split_chars(
                s@.skip(start as int),
                sep@,
            ),
            forall|j: int| start <= j < i ==> !match_at(s@, sep@, j),
        decreases n - i,
    {
        if str_match_at(s, sep, i, n, m) {
            let ghost prev = parts.deep_view();
            let part = s.substring_char(start, i).to_owned();
            parts.push(part);
            proof {
                assert(parts.deep_view() =~= prev.push(s@.subrange(start as int, i as int)));
                let rem = s@.skip(start as int);
                assert forall|j: int| 0 <= j < i - start implies !match_at(rem, sep@, j) by {
                    lemma_match_skip(s@, sep@, start as int, j);
                }
                lemma_match_skip(s@, sep@, start as int, i - start);
                assert(match_at(rem, sep@, i - start));
                lemma_split_from(rem, sep@, i - start);
                assert(rem.take(i - start) =~= s@.subrange(start as int, i as int));
                assert(rem.skip(i - start + sep@.len() as int) =~= s@.skip(i + m as int));
                assert(split_chars(s@, sep@) =~= parts.deep_view() + split_chars(
                    s@.skip(i + m as int),
                    sep@,
                ));
            }
            start = i + m;
            i = start;
        } else {
            i += 1;
        }
    }
    let ghost prev = parts.deep_view();
    let tail = s.substring_char(start, n).to_owned();
    parts.push(tail);
    proof {
        let rem = s@.skip(start as int);
        assert forall|j: int| 0 <= j < rem.len() implies !match_at(rem, sep@, j) by {
            lemma_match_skip(s@, sep@, start as int, j);
            if start + j < i {
            } else {
                assert(start + j + m > n);
            }
        }
        lemma_split_from(rem, sep@, rem.len() as int);
        assert(rem =~= s@.subrange(start as int, n as int));
        assert(parts.deep_view() =~= prev.push(s@.subrange(start as int, n as int)));
        assert(parts.deep_view() =~= prev + seq![rem]);
        assert(split_chars(s@, sep@) == prev + split_chars(rem, sep@));
    }
    parts
}

/// The parts joined with `sep` between consecutive parts.
pub open spec fn join_chars(parts: Seq<Seq<char>>, sep: Seq<char>) -> Seq<char>
    decreases parts.len(),
{
    if parts.len() == 0 {
        Seq::empty()
    } else if parts.len() == 1 {
        parts[0]
    } else {
        parts[0] + sep + join_chars(parts.drop_first(), sep)
    }
}

proof fn lemma_join_push(parts: Seq<Seq<char>>, sep: Seq<char>, x: Seq<char>)
    requires
        parts.len() >= 1,
    ensures
        join_chars(parts.push(x), sep) == join_chars(parts, sep) + sep + x,
    decreases parts.len(),
{
    if parts.len() == 1 {
        assert(parts.push(x)[0] == parts[0]);
        assert(parts.push(x).drop_first() =~= seq![x]);
        assert(join_chars(seq![x], sep) == x);
    } else {
        lemma_join_push(parts.drop_first(), sep, x);
        assert(parts.push(x).drop_first() =~= parts.drop_first().push(x));
        assert(parts.push(x)[0] == parts[0]);
        assert(parts[0] + sep + (join_chars(parts.drop_first(), sep) + sep + x) =~= parts[0] + sep
            + join_chars(parts.drop_first(), sep) + sep + x);
    }
}

/// Joins the parts, placing `sep` between consecutive parts.
pub fn join_strs(parts: &Vec<String>, sep: &str) -> (r: String)
    ensures
        r@ == join_chars(parts.deep_view(), sep@),
{
    let ghost dv = parts.deep_view();
    let mut r = String::new();
    let mut i: usize = 0;
    while i < parts.len()
        invariant
            dv == parts.deep_view(),
            0 <= i <= parts.len(),
            dv.len() == parts.len(),
            r@ == join_chars(dv.take(i as int), sep@),
        decreases parts.len() - i,
    {
        if i > 0 {
            r.append(sep);
        }
        r.append(parts[i].as_str());
        proof {
            assert(dv.take(i + 1) =~= dv.take(i as int).push(dv[i as int]));
            if i == 0 {
                assert(dv.take(1)[0] == dv[0]);
                assert(r@ =~= join_chars(dv.take(1), sep@));
            } else {
                lemma_join_push(dv.take(i as int), sep@, dv[i as int]);
            }
        }
        i += 1;
    }
    proof {
        assert(dv.take(parts.len() as int) =~= dv);
    }
    r
}

/// `s` with every non-overlapping leftmost occurrence of `pat` replaced by `to`.
pub open spec fn replace_chars(s: Seq<char>, pat: Seq<char>, to: Seq<char>) -> Seq<char> {
    join_chars(split_chars(s, pat), to)
}

/// Replaces every non-overlapping leftmost occurrence of `pat` in `s` by `to`.
pub fn replace_str(s: &str, pat: &str, to: &str) -> (r: String)
    requires
        pat@.len() >= 1,
    ensures
        r@ == replace_chars(s@, pat@, to@),
{
    let parts = split_str(s, pat);
    join_strs(&parts, to)
}

/// `s` without its leading spaces.
pub open spec fn trim_leading_spaces(s: Seq<char>) -> Seq<char>
    decreases s.len(),
{
    if s.len() > 0 && s[0] == ' ' {
        trim_leading_spaces(s.drop_first())
    } else {
        s
    }
}

/// The longest space-free prefix of `s`.
pub open spec fn leading_token(s: Seq<char>) -> Seq<char>
    decreases s.len(),
{
    if s.len() > 0 && s[0] != ' ' {
        seq![s[0]] + leading_token(s.drop_first())
    } else {
        Seq::empty()
    }
}

/// The first space-delimited token of `s`, if any.
pub open spec fn first_token(s: Seq<char>) -> Option<Seq<char>> {
    let t = trim_leading_spaces(s);
    if t.len() == 0 {
        None
    } else {
        Some(leading_token(t))
    }
}

proof fn lemma_trim_skip(s: Seq<char>, i: int)
    requires
        0 <= i <= s.len(),
        forall|x: int| 0 <= x < i ==> s[x] == ' ',
    ensures
        trim_leading_spaces(s) == trim_leading_spaces(s.skip(i)),
    decreases i,
{
    if i > 0 {
        assert(s.drop_first() =~= s.skip(1));
        assert forall|x: int| 0 <= x < i - 1 implies s.skip(1)[x] == ' ' by {}
        lemma_trim_skip(s.skip(1), i - 1);
        assert(s.skip(1).skip(i - 1) =~= s.skip(i));
    } else {
        assert(s.skip(0) =~= s);
    }
}

proof fn lemma_leading_token_range(s: Seq<char>, j: int)
    requires
        0 <= j <= s.len(),
        forall|x: int| 0 <= x < j ==> s[x] != ' ',
        j == s.len() || s[j] == ' ',
    ensures
        leading_token(s) == s.take(j),
    decreases j,
{
    if j == 0 {
        assert(s.take(0) =~= Seq::<char>::empty());
    } else {
        assert(s.drop_first() =~= s.skip(1));
        lemma_leading_token_range(s.skip(1), j - 1);
        assert(seq![s[0]] + s.skip(1).take(j - 1) =~= s.take(j));
    }
}

/// Extracts the first space-delimited token of `s`, if `s` holds one.
pub fn first_token_str(s: &str) -> (r: Option<String>)
    ensures
        r is Some <==> first_token(s@) is Some,
        r matches Some(t) ==> first_token(s@) == Some(t@),
{
    let n = s.unicode_len();
    let mut i: usize = 0;
    while i < n && s.get_char(i) == ' '
        invariant
            n == s@.len(),
            0 <= i <= n,
            forall|x: int| 0 <= x < i ==> s@[x] == ' ',
        decreases n - i,
    {
        i += 1;
    }
    proof {
        lemma_trim_skip(s@, i as int);
    }
    if i == n {
        proof {
            assert(s@.skip(i as int) =~= Seq::<char>::empty());
        }
        return None;
    }
    let mut j: usize = i;
    while j < n && s.get_char(j) != ' '
        invariant
            n == s@.len(),
            0 <= i <= j <= n,
            forall|x: int| i <= x < j ==> s@[x] != ' ',
        decreases n - j,
    {
        j += 1;
    }
    let tok = s.substring_char(i, j).to_owned();
    proof {
        let rem = s@.skip(i as int);
        assert(trim_leading_spaces(s@) == rem);
        assert(rem[0] == s@[i as int]);
        assert(rem.len() > 0);
        assert forall|x: int| 0 <= x < j - i implies rem[x] != ' ' by {
            assert(rem[x] == s@[i + x]);
        }
        if j < n {
            assert(rem[j - i] == s@[j as int]);
        }
        lemma_leading_token_range(rem, j - i);
        assert(rem.take(j - i) =~= s@.subrange(i as int, j as int));
    }
    Some(tok)
}

/// The code point of `c`, with an ASCII capital letter taken to its
/// lower-case counterpart.
pub open spec fn lower_code(c: char) -> int {
    if 'A' <= c && c <= 'Z' {
        c as int + 32
    } else {
        c as int
    }
}

/// Equality of two character sequences up to ASCII case.
pub open spec fn eq_ignore_ascii_case(a: Seq<char>, b: Seq<char>) -> bool {
    a.len() == b.len() && forall|i: int| 0 <= i < a.len() ==> lower_code(a[i]) == lower_code(b[i])
}

fn char_lower_code(c: char) -> (r: u32)
    ensures
        r == lower_code(c),
{
    let code = c as u32;
    if 65 <= code && code <= 90 {
        code + 32
    } else {
        code
    }
}

/// Compares two strings for equality up to ASCII case.
pub fn str_eq_ignore_ascii_case(a: &str, b: &str) -> (r: bool)
    ensures
        r == eq_ignore_ascii_case(a@, b@),
{
    let n = a.unicode_len();
    if n != b.unicode_len() {
        return false;
    }
    let mut i: usize = 0;
    while i < n
        invariant
            n == a@.len(),
            n == b@.len(),
            0 <= i <= n,
            forall|x: int| 0 <= x < i ==> lower_code(a@[x]) == lower_code(b@[x]),
        decreases n - i,
    {
        if char_lower_code(a.get_char(i)) != char_lower_code(b.get_char(i)) {
            return false;
        }
        i += 1;
    }
    true
}

} // verus!
