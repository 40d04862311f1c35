//! Character-level text utilities: trimming, splitting, case-insensitive
//! comparison, and decimal conversion.
//!
//! The scheduler's command-line tools emit delimiter-separated text; every
//! parser in this crate is built from the functions here.

use vstd::prelude::*;
use vstd::string::*;

verus! {

/// The whitespace characters recognised by `trim_str` and `split_ws`.
pub open spec fn is_ws(c: char) -> bool {
    c == ' ' || c == '\t' || c == '\n' || c == '\r'
}

/// `s` with leading whitespace removed.
pub open spec fn trim_front(s: Seq<char>) -> Seq<char>
    decreases s.len(),
{
    if s.len() > 0 && is_ws(s[0]) {
        trim_front(s.drop_first())
    } else {
        s
    }
}

/// `s` with trailing whitespace removed.
pub open spec fn trim_back(s: Seq<char>) -> Seq<char>
    decreases s.len(),
{
    if s.len() > 0 && is_ws(s.last()) {
        trim_back(s.drop_last())
    } else {
        s
    }
}

/// `s` with leading and trailing whitespace removed.
pub open spec fn spec_trim(s: Seq<char>) -> Seq<char> {
    trim_back(trim_front(s))
}

proof fn lemma_trim_front_at(s: Seq<char>, k: int)
    requires
        0 <= k <= s.len(),
        forall|j: int| 0 <= j < k ==> is_ws(s[j]),
        k < s.len() ==> !is_ws(s[k]),
    ensures
        trim_front(s) == s.subrange(k, s.len() as int),
    decreases k,
{
    if k == 0 {
        assert(s.subrange(0, s.len() as int) =~= s);
    } else {
        assert(is_ws(s[0]));
        lemma_trim_front_at(s.drop_first(), k - 1);
        assert(s.drop_first().subrange(k - 1, s.drop_first().len() as int) =~= s.subrange(
            k,
            s.len() as int,
        ));
    }
}

proof fn lemma_trim_back_at(s: Seq<char>, k: int)
    requires
        0 <= k <= s.len(),
        forall|j: int| k <= j < s.len() ==> is_ws(s[j]),
        k > 0 ==> !is_ws(s[k - 1]),
    ensures
        trim_back(s) == s.subrange(0, k),
    decreases s.len() - k,
{
    if k == s.len() {
        if s.len() > 0 && is_ws(s.last()) {
            assert(!is_ws(s[k - 1]));
            assert(false);
        }
        assert(s.subrange(0, s.len() as int) =~= s);
    } else {
        assert(is_ws(s.last()));
        lemma_trim_back_at(s.drop_last(), k);
        assert(s.drop_last().subrange(0, k) =~= s.subrange(0, k));
    }
}

/// Run-time test matching `is_ws`.
pub fn is_ws_char(c: char) -> (r: bool)
    ensures
        r == is_ws(c),
{
    c == ' ' || c == '\t' || c == '\n' || c == '\r'
}

/// Remove leading and trailing whitespace.
pub fn trim_str(s: &str) -> (r: &str)
    ensures
        r@ == spec_trim(s@),
{
    let n: usize = s.unicode_len();
    let mut lo: usize = 0;
    while lo < n && is_ws_char(s.get_char(lo))
        invariant
            n == s@.len(),
            lo <= n,
            forall|j: int| 0 <= j < lo ==> is_ws(s@[j]),
        decreases n - lo,
    {
        lo = lo + 1;
    }
    let mut hi: usize = n;
    while hi > lo && is_ws_char(s.get_char(hi - 1))
        invariant
            n == s@.len(),
            lo <= hi <= n,
            lo < n ==> !is_ws(s@[lo as int]),
            forall|j: int| hi <= j < n ==> is_ws(s@[j]),
        decreases hi,
    {
        hi = hi - 1;
    }
    let r = s.substring_char(lo, hi);
    proof {
        lemma_trim_front_at(s@, lo as int);
        let t = s@.subrange(lo as int, n as int);
        lemma_trim_back_at(t, hi - lo);
        assert(t.subrange(0, hi - lo) =~= s@.subrange(lo as int, hi as int));
    }
    r
}

/// Character-for-character string equality.
pub fn str_eq(a: &str, b: &str) -> (r: bool)
    ensures
        r == (a@ == b@),
{
    let na: usize = a.unicode_len();
    let nb: usize = b.unicode_len();
    if na != nb {
        return false;
    }
    let mut i: usize = 0;
    while i < na
        invariant
            na == a@.len(),
            na == b@.len(),
            i <= na,
            forall|j: int| 0 <= j < i ==> a@[j] == b@[j],
        decreases na - i,
    {
        if a.get_char(i) != b.get_char(i) {
            return false;
        }
        i = i + 1;
    }
    proof {
        assert(a@ =~= b@);
    }
    true
}

/// The pieces of `s` between occurrences of `sep`.
///
/// An empty sequence yields one empty piece; a trailing separator yields a
/// trailing empty piece.
pub open spec fn split_on(s: Seq<char>, sep: char) -> Seq<Seq<char>>
    decreases s.len(),
{
    if s.len() == 0 {
        seq![Seq::<char>::empty()]
    } else if s.last() == sep {
        split_on(s.drop_last(), sep).push(Seq::<char>::empty())
    } else {
        let r = split_on(s.drop_last(), sep);
        r.update(r.len() - 1, r.last().push(s.last()))
    }
}

pub proof fn lemma_split_on_nonempty(s: Seq<char>, sep: char)
    ensures
        split_on(s, sep).len() > 0,
    decreases s.len(),
{
    if s.len() > 0 {
        lemma_split_on_nonempty(s.drop_last(), sep);
    }
}

/// Split `s` at every occurrence of `sep`.
pub fn split_char(s: &str, sep: char) -> (r: Vec<String>)
    ensures
        r.deep_view() == split_on(s@, sep),
{
    let n: usize = s.unicode_len();
    let mut out: Vec<String> = Vec::new();
    let mut st: usize = 0;
    let mut i: usize = 0;
    proof {
        assert(out.deep_view().push(s@.subrange(0, 0)) =~~= split_on(s@.take(0), sep));
    }
    while i < n
        invariant
            n == s@.len(),
            st <= i <= n,
            out.deep_view().push(s@.subrange(st as int, i as int)) == split_on(
                s@.take(i as int),
                sep,
            ),
        decreases n - i,
    {
        let ghost pre = s@.take(i as int);
        let c = s.get_char(i);
        proof {
            assert(s@.take(i + 1).drop_last() =~= pre);
            assert(s@.take(i + 1).last() == c);
        }
        if c == sep {
            let piece = s.substring_char(st, i).to_owned();
            let ghost old_dv = out.deep_view();
            out.push(piece);
            proof {
                assert(out.deep_view() =~= old_dv.push(piece@));
                assert(out.deep_view().push(s@.subrange(i + 1, i + 1)) =~~= split_on(
                    s@.take(i + 1),
                    sep,
                ));
            }
            st = i + 1;
        } else {
            proof {
                let r = split_on(pre, sep);
                assert(r.last() == s@.subrange(st as int, i as int));
                assert(s@.subrange(st as int, i + 1) =~= s@.subrange(st as int, i as int).push(c));
                assert(out.deep_view().push(s@.subrange(st as int, i + 1)) =~~= r.update(
                    r.len() - 1,
                    r.last().push(c),
                ));
            }
        }
        i = i + 1;
    }
    let piece = s.substring_char(st, n).to_owned();
    let ghost old_dv = out.deep_view();
    out.push(piece);
    proof {
        assert(s@.take(n as int) =~= s@);
        assert(out.deep_view() =~= old_dv.push(piece@));
    }
    out
}

/// `l` with one trailing carriage return removed.
pub open spec fn strip_cr(l: Seq<char>) -> Seq<char> {
    if l.len() > 0 && l.last() == '\r' {
        l.drop_last()
    } else {
        l
    }
}

/// The lines of `s`: pieces between newlines, without a trailing empty line,
/// each stripped of one trailing carriage return.
pub open spec fn spec_lines(s: Seq<char>) -> Seq<Seq<char>> {
    if s.len() == 0 {
        Seq::<Seq<char>>::empty()
    } else {
        let p = split_on(s, '\n');
        let q = if p.last().len() == 0 {
            p.drop_last()
        } else {
            p
        };
        q.map_values(|l: Seq<char>| strip_cr(l))
    }
}

/// Split `s` into lines.
pub fn lines_of(s: &str) -> (r: Vec<String>)
    ensures
        r.deep_view() == spec_lines(s@),
{
    let mut out: Vec<String> = Vec::new();
    if s.unicode_len() == 0 {
        proof {
            assert(out.deep_view() =~= spec_lines(s@));
        }
        return out;
    }
    let parts = split_char(s, '\n');
    proof {
        lemma_split_on_nonempty(s@, '\n');
    }
    let last = parts.len() - 1;
    let keep: usize = if parts[last].as_str().unicode_len() == 0 {
        last
    } else {
        parts.len()
    };
    let ghost q = if split_on(s@, '\n').last().len() == 0 {
        split_on(s@, '\n').drop_last()
    } else {
        split_on(s@, '\n')
    };
    proof {
        assert(q =~= parts.deep_view().take(keep as int));
    }
    let mut i: usize = 0;
    while i < keep
        invariant
            keep <= parts.len(),
            i <= keep,
            q == parts.deep_view().take(keep as int),
            out.deep_view() == q.map_values(|l: Seq<char>| strip_cr(l)).take(i as int),
        decreases keep - i,
    {
        let p = parts[i].as_str();
        let pl = p.unicode_len();
        let stripped: String = if pl > 0 && p.get_char(pl - 1) == '\r' {
            p.substring_char(0, pl - 1).to_owned()
        } else {
            p.to_owned()
        };
        let ghost old_dv = out.deep_view();
        out.push(stripped);
        proof {
            assert(stripped@ =~= strip_cr(q[i as int]));
            assert(out.deep_view() =~= old_dv.push(stripped@));
            assert(out.deep_view() =~= q.map_values(|l: Seq<char>| strip_cr(l)).take(i + 1));
        }
        i = i + 1;
    }
    proof {
        assert(out.deep_view() =~= spec_lines(s@));
    }
    out
}

/// The maximal runs of non-whitespace characters in `s`.
pub open spec fn spec_split_ws(s: Seq<char>) -> Seq<Seq<char>>
    decreases s.len(),
{
    if s.len() == 0 {
        Seq::<Seq<char>>::empty()
    } else if is_ws(s.last()) {
        spec_split_ws(s.drop_last())
    } else if s.len() >= 2 && !is_ws(s[s.len() - 2]) {
        let r = spec_split_ws(s.drop_last());
        r.update(r.len() - 1, r.last().push(s.last()))
    } else {
        spec_split_ws(s.drop_last()).push(seq![s.last()])
    }
}

/// Split `s` into whitespace-separated words.
pub fn split_ws(s: &str) -> (r: Vec<String>)
    ensures
        r.deep_view() == spec_split_ws(s@),
{
    let n: usize = s.unicode_len();
    let mut out: Vec<String> = Vec::new();
    let mut st: usize = 0;
    let mut in_run: bool = false;
    let mut i: usize = 0;
    proof {
        assert(out.deep_view() =~~= spec_split_ws(s@.take(0)));
    }
    while i < n
        invariant
            n == s@.len(),
            i <= n,
            in_run ==> st < i && (forall|j: int| st <= j < i ==> !is_ws(s@[j])),
            in_run ==> out.deep_view().push(s@.subrange(st as int, i as int)) == spec_split_ws(
                s@.take(i as int),
            ),
            !in_run ==> (i == 0 || is_ws(s@[i - 1])),
            !in_run ==> out.deep_view() == spec_split_ws(s@.take(i as int)),
        decreases n - i,
    {
        let ghost pre = s@.take(i as int);
        let c = s.get_char(i);
        proof {
            assert(s@.take(i + 1).drop_last() =~= pre);
            assert(s@.take(i + 1).last() == c);
        }
        let ws = is_ws_char(c);
        if in_run {
            if ws {
                let piece = s.substring_char(st, i).to_owned();
                let ghost old_dv = out.deep_view();
                out.push(piece);
                proof {
                    assert(out.deep_view() =~= old_dv.push(piece@));
                    assert(out.deep_view() =~~= spec_split_ws(s@.take(i + 1)));
                }
                in_run = false;
            } else {
                proof {
                    let r = spec_split_ws(pre);
                    assert(!is_ws(s@.take(i + 1)[i - 1]));
                    assert(s@.subrange(st as int, i + 1) =~= s@.subrange(
                        st as int,
                        i as int,
                    ).push(c));
                    assert(out.deep_view().push(s@.subrange(st as int, i + 1)) =~~= r.update(
                        r.len() - 1,
                        r.last().push(c),
                    ));
                }
            }
        } else {
            if !ws {
                st = i;
                in_run = true;
                proof {
                    assert(s@.subrange(i as int, i + 1) =~= seq![c]);
                    assert(out.deep_view().push(s@.subrange(i as int, i + 1)) =~~= spec_split_ws(
                        s@.take(i + 1),
                    ));
                }
            } else {
                proof {
                    assert(out.deep_view() =~~= spec_split_ws(s@.take(i + 1)));
                }
            }
        }
        i = i + 1;
    }
    proof {
        assert(s@.take(n as int) =~= s@);
    }
    if in_run {
        let piece = s.substring_char(st, n).to_owned();
        let ghost old_dv = out.deep_view();
        out.push(piece);
        proof {
            assert(out.deep_view() =~= old_dv.push(piece@));
        }
    }
    out
}

/// Decimal digit test.
pub open spec fn is_digit(c: char) -> bool {
    48 <= c as u32 <= 57
}

/// The numeric value of one decimal digit.
pub open spec fn digit_val(c: char) -> int {
    c as u32 - 48
}

/// Every character of `s` is a decimal digit.
pub open spec fn all_digits(s: Seq<char>) -> bool {
    forall|j: int| 0 <= j < s.len() ==> is_digit(s[j])
}

/// The value of `s` read as a decimal numeral.
pub open spec fn digits_val(s: Seq<char>) -> int
    decreases s.len(),
{
    if s.len() == 0 {
        0
    } else {
        digits_val(s.drop_last()) * 10 + digit_val(s.last())
    }
}

proof fn lemma_digits_val_nonneg(s: Seq<char>)
    requires
        all_digits(s),
    ensures
        digits_val(s) >= 0,
    decreases s.len(),
{
    if s.len() > 0 {
        assert(all_digits(s.drop_last()));
        lemma_digits_val_nonneg(s.drop_last());
    }
}

proof fn lemma_digits_val_prefix_le(s: Seq<char>, k: int)
    requires
        all_digits(s),
        0 <= k <= s.len(),
    ensures
        digits_val(s.take(k)) <= digits_val(s),
    decreases s.len() - k,
{
    if k < s.len() {
        lemma_digits_val_prefix_le(s, k + 1);
        assert(s.take(k + 1).drop_last() =~= s.take(k));
        assert(all_digits(s.take(k + 1)));
        lemma_digits_val_nonneg(s.take(k));
        assert(digits_val(s.take(k)) <= digits_val(s.take(k + 1)));
    } else {
        assert(s.take(k) =~= s);
    }
}

/// Run-time test matching `is_digit`.
pub fn is_digit_char(c: char) -> (r: bool)
    ensures
        r == is_digit(c),
{
    let cu: u32 = c as u32;
    48 <= cu && cu <= 57
}

/// Does `t` occur in `s` starting exactly at position `i`?
pub fn starts_with_at(s: &str, i: usize, t: &str) -> (r: bool)
    requires
        i <= s@.len(),
    ensures
        r == (i + t@.len() <= s@.len() && s@.subrange(i as int, i + t@.len()) == t@),
{
    let n: usize = s.unicode_len();
    let m: usize = t.unicode_len();
    if m > n - i {
        return false;
    }
    let mut j: usize = 0;
    while j < m
        invariant
            n == s@.len(),
            m == t@.len(),
            i + m <= n,
            j <= m,
            forall|l: int| 0 <= l < j ==> s@[i + l] == t@[l],
        decreases m - j,
    {
        if s.get_char(i + j) != t.get_char(j) {
            proof {
                assert(s@.subrange(i as int, i + t@.len())[j as int] == s@[i + j]);
            }
            return false;
        }
        j = j + 1;
    }
    proof {
        assert(s@.subrange(i as int, i + t@.len()) =~= t@);
    }
    true
}

/// Parse a decimal numeral, rejecting empty input, non-digits, and overflow.
pub fn parse_u64(s: &str) -> (r: Option<u64>)
    ensures
        r is Some <==> (s@.len() > 0 && all_digits(s@) && digits_val(s@) <= u64::MAX),
        r is Some ==> r->0 == digits_val(s@),
{
    let n: usize = s.unicode_len();
    if n == 0 {
        return None;
    }
    let mut v: u64 = 0;
    let mut i: usize = 0;
    while i < n
        invariant
            n == s@.len(),
            i <= n,
            all_digits(s@.take(i as int)),
            v == digits_val(s@.take(i as int)),
        decreases n - i,
    {
        let c = s.get_char(i);
        let cu: u32 = c as u32;
        if !(48 <= cu && cu <= 57) {
            return None;
        }
        let d: u64 = (cu - 48) as u64;
        proof {
            assert(s@.take(i + 1).drop_last() =~= s@.take(i as int));
        }
        let m = match v.checked_mul(10) {
            Some(m) => m,
            None => {
                proof {
                    overflow_rest(s@, i as int, v);
                }
                return None;
            },
        };
        let w = match m.checked_add(d) {
            Some(w) => w,
            None => {
                proof {
                    overflow_rest(s@, i as int, v);
                }
                return None;
            },
        };
        v = w;
        i = i + 1;
    }
    proof {
        assert(s@.take(n as int) =~= s@);
    }
    Some(v)
}

proof fn overflow_rest(s: Seq<char>, i: int, v: u64)
    requires
        0 <= i < s.len(),
        is_digit(s[i]),
        v == digits_val(s.take(i)),
        v * 10 + digit_val(s[i]) > u64::MAX,
    ensures
        all_digits(s) ==> digits_val(s) > u64::MAX,
{
    if all_digits(s) {
        assert(s.take(i + 1).drop_last() =~= s.take(i));
        assert(digits_val(s.take(i + 1)) == v * 10 + digit_val(s[i]));
        lemma_digits_val_prefix_le(s, i + 1);
    }
}

/// The decimal numeral of `n`, most significant digit first.
pub open spec fn u64_digits(n: int) -> Seq<char>
    decreases n,
{
    if n < 10 {
        seq![spec_digit_char(n)]
    } else {
        u64_digits(n / 10).push(spec_digit_char(n % 10))
    }
}

/// The character for one decimal digit value.
pub open spec fn spec_digit_char(d: int) -> char {
    if d == 0 {
        '0'
    } else if d == 1 {
        '1'
    } else if d == 2 {
        '2'
    } else if d == 3 {
        '3'
    } else if d == 4 {
        '4'
    } else if d == 5 {
        '5'
    } else if d == 6 {
        '6'
    } else if d == 7 {
        '7'
    } else if d == 8 {
        '8'
    } else {
        '9'
    }
}

fn digit_str(d: u64) -> (r: &'static str)
    requires
        d < 10,
    ensures
        r@ == seq![spec_digit_char(d as int)],
{
    let ds = "0123456789";
    proof {
        reveal_strlit("0123456789");
    }
    let r = ds.substring_char(d as usize, d as usize + 1);
    proof {
        assert(r@ =~= seq![spec_digit_char(d as int)]);
    }
    r
}

/// Format `n` as a decimal numeral.
pub fn u64_to_string(n: u64) -> (r: String)
    ensures
        r@ == u64_digits(n as int),
    decreases n,
{
    if n < 10 {
        digit_str(n).to_owned()
    } else {
        let mut r = u64_to_string(n / 10);
        r.append(digit_str(n % 10));
        proof {
            assert(r@ =~= u64_digits(n as int));
        }
        r
    }
}

/// Case-insensitive character equality, folding ASCII letters only.
pub open spec fn eq_ic_char(a: char, b: char) -> bool {
    a == b || (97 <= a as u32 <= 122 && a as u32 == b as u32 + 32) || (97 <= b as u32 <= 122 && b
        as u32 == a as u32 + 32)
}

/// Case-insensitive string equality over ASCII letters.
pub open spec fn eq_ic_seq(a: Seq<char>, b: Seq<char>) -> bool {
    a.len() == b.len() && forall|j: int| 0 <= j < a.len() ==> eq_ic_char(a[j], b[j])
}

/// `t` occurs in `s` up to ASCII case.
pub open spec fn contains_ic(s: Seq<char>, t: Seq<char>) -> bool {
    exists|i: int|
        0 <= i <= s.len() - t.len() && eq_ic_seq(#[trigger] s.subrange(i, i + t.len()), t)
}

fn eq_ic_char_exec(a: char, b: char) -> (r: bool)
    ensures
        r == eq_ic_char(a, b),
{
    let au: u32 = a as u32;
    let bu: u32 = b as u32;
    a == b || (97 <= au && au <= 122 && au == bu + 32) || (97 <= bu && bu <= 122 && bu == au + 32)
}

/// Case-insensitive equality of two strings.
pub fn eq_ignore_case(a: &str, b: &str) -> (r: bool)
    ensures
        r == eq_ic_seq(a@, b@),
{
    let na: usize = a.unicode_len();
    let nb: usize = b.unicode_len();
    if na != nb {
        return false;
    }
    let mut i: usize = 0;
    while i < na
        invariant
            na == a@.len(),
            na == b@.len(),
            i <= na,
            forall|j: int| 0 <= j < i ==> eq_ic_char(a@[j], b@[j]),
        decreases na - i,
    {
        if !eq_ic_char_exec(a.get_char(i), b.get_char(i)) {
            return false;
        }
        i = i + 1;
    }
    true
}

/// Case-insensitive substring search.
pub fn contains_ignore_case(s: &str, t: &str) -> (r: bool)
    ensures
        r == contains_ic(s@, t@),
{
    let n: usize = s.unicode_len();
    let m: usize = t.unicode_len();
    if m > n {
        return false;
    }
    let mut i: usize = 0;
    while i <= n - m
        invariant
            n == s@.len(),
            m == t@.len(),
            m <= n,
            i <= n - m + 1,
            forall|k: int|
                0 <= k < i ==> !eq_ic_seq(#[trigger] s@.subrange(k, k + t@.len()), t@),
        decreases n - i,
    {
        let mut j: usize = 0;
        let mut ok: bool = true;
        while j < m
            invariant
                n == s@.len(),
                m == t@.len(),
                i + m <= n,
                j <= m,
                ok ==> forall|l: int| 0 <= l < j ==> eq_ic_char(s@[i + l], t@[l]),
                !ok ==> !eq_ic_seq(s@.subrange(i as int, i + t@.len()), t@),
            decreases m - j,
        {
            if !eq_ic_char_exec(s.get_char(i + j), t.get_char(j)) {
                proof {
                    let sub = s@.subrange(i as int, i + t@.len());
                    assert(sub[j as int] == s@[i + j]);
                }
                ok = false;
                j = m;
            } else {
                j = j + 1;
            }
        }
        if ok {
            proof {
                let sub = s@.subrange(i as int, i + t@.len());
                assert(forall|l: int| 0 <= l < m ==> sub[l] == s@[i + l]);
                assert(eq_ic_seq(sub, t@));
            }
            return true;
        }
        i = i + 1;
    }
    false
}

} // verus!
