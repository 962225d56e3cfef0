//! Character-level text primitives: line splitting, trimming, whitespace
//! tokenisation, case-insensitive comparison and decimal numerals, each an
//! executable function proved against a direct specification over `Seq<char>`.

use vstd::prelude::*;

verus! {

/// The whitespace characters the scanners recognise.
pub open spec fn is_ws(c: char) -> bool {
    c == ' ' || c == '\t' || c == '\r' || c == '\n'
}

pub open spec fn to_upper_s(c: char) -> char {
    if 'a' <= c && c <= 'z' {
        (((c as u32) - 32) as u8) as char
    } else {
        c
    }
}

/// Equal after mapping lowercase ASCII letters to uppercase.
pub open spec fn eq_icase_s(a: Seq<char>, b: Seq<char>) -> bool {
    a.len() == b.len() && forall|i: int| 0 <= i < a.len() ==> to_upper_s(a[i]) == to_upper_s(b[i])
}

pub open spec fn is_digit(c: char) -> bool {
    '0' <= c && c <= '9'
}

pub open spec fn digit_val(c: char) -> int {
    (c as int) - 48
}

/// Length of the longest prefix of `s` on which `stop` never holds.
pub open spec fn scan_len(s: Seq<char>, stop: spec_fn(char) -> bool) -> int
    decreases s.len(),
{
    if s.len() == 0 || stop(s[0]) {
        0
    } else {
        1 + scan_len(s.drop_first(), stop)
    }
}

pub proof fn lemma_scan_len_bounds(s: Seq<char>, stop: spec_fn(char) -> bool)
    ensures
        0 <= scan_len(s, stop) <= s.len(),
    decreases s.len(),
{
    if s.len() > 0 && !stop(s[0]) {
        lemma_scan_len_bounds(s.drop_first(), stop);
    }
}

pub proof fn lemma_scan_len(s: Seq<char>, stop: spec_fn(char) -> bool, k: int)
    requires
        0 <= k <= s.len(),
        forall|j: int| 0 <= j < k ==> !stop(s[j]),
        k == s.len() || stop(s[k]),
    ensures
        scan_len(s, stop) == k,
    decreases s.len(),
{
    if k == 0 {
    } else {
        lemma_scan_len(s.drop_first(), stop, k - 1);
    }
}

pub open spec fn trim_start_s(s: Seq<char>) -> Seq<char>
    decreases s.len(),
{
    if s.len() > 0 && is_ws(s[0]) {
        trim_start_s(s.drop_first())
    } else {
        s
    }
}

pub open spec fn trim_end_s(s: Seq<char>) -> Seq<char>
    decreases s.len(),
{
    if s.len() > 0 && is_ws(s.last()) {
        trim_end_s(s.drop_last())
    } else {
        s
    }
}

pub open spec fn trim_s(s: Seq<char>) -> Seq<char> {
    trim_end_s(trim_start_s(s))
}

pub proof fn lemma_trim_start_skip(s: Seq<char>, k: int)
    requires
        0 <= k <= s.len(),
        forall|j: int| 0 <= j < k ==> is_ws(s[j]),
        k == s.len() || !is_ws(s[k]),
    ensures
        trim_start_s(s) =~= s.skip(k),
    decreases s.len(),
{
    if k == 0 {
    } else {
        lemma_trim_start_skip(s.drop_first(), k - 1);
    }
}

proof fn lemma_trim_end_take(s: Seq<char>, k: int)
    requires
        0 <= k <= s.len(),
        forall|j: int| k <= j < s.len() ==> is_ws(s[j]),
        k == 0 || !is_ws(s[k - 1]),
    ensures
        trim_end_s(s) =~= s.take(k),
    decreases s.len(),
{
    if k < s.len() {
        lemma_trim_end_take(s.drop_last(), k);
    }
}

/// Strips leading and trailing whitespace.
pub fn trim(v: &Vec<char>) -> (r: Vec<char>)
    ensures
        r@ == trim_s(v@),
{
    let n = v.len();
    let mut i: usize = 0;
    while i < n && (v[i] == ' ' || v[i] == '\t' || v[i] == '\r' || v[i] == '\n')
        invariant
            0 <= i <= n,
            n == v@.len(),
            forall|j: int| 0 <= j < i ==> is_ws(v@[j]),
        decreases n - i,
    {
        i = i + 1;
    }
    let mut j: usize = n;
    while j > i && (v[j - 1] == ' ' || v[j - 1] == '\t' || v[j - 1] == '\r' || v[j - 1] == '\n')
        invariant
            i <= j <= n,
            n == v@.len(),
            forall|k: int| j <= k < n ==> is_ws(v@[k]),
        decreases j,
    {
        j = j - 1;
    }
    proof {
        lemma_trim_start_skip(v@, i as int);
        lemma_trim_end_take(v@.skip(i as int), j - i);
        assert(v@.skip(i as int).take(j - i) =~= v@.subrange(i as int, j as int));
    }
    slice_to_vec_chars(v, i, j)
}

/// Copies the characters of `v` at positions `i .. j`.
pub fn slice_to_vec_chars(v: &Vec<char>, i: usize, j: usize) -> (r: Vec<char>)
    requires
        0 <= i <= j <= v@.len(),
    ensures
        r@ == v@.subrange(i as int, j as int),
{
    let mut out: Vec<char> = Vec::new();
    let mut k: usize = i;
    while k < j
        invariant
            i <= k <= j <= v@.len(),
            out@ =~= v@.subrange(i as int, k as int),
        decreases j - k,
    {
        out.push(v[k]);
        proof {
            assert(out@ =~= v@.subrange(i as int, k + 1));
        }
        k = k + 1;
    }
    out
}

/// Appends all of `src` to `dst`.
pub fn push_all(dst: &mut Vec<char>, src: &Vec<char>)
    ensures
        final(dst)@ == old(dst)@ + src@,
{
    let mut k: usize = 0;
    while k < src.len()
        invariant
            0 <= k <= src@.len(),
            dst@ =~= old(dst)@ + src@.take(k as int),
        decreases src@.len() - k,
    {
        dst.push(src[k]);
        proof {
            assert(dst@ =~= old(dst)@ + src@.take(k + 1));
        }
        k = k + 1;
    }
    proof {
        assert(dst@ =~= old(dst)@ + src@);
    }
}

/// The characters of a borrowed string, in order.
pub fn str_chars(s: &str) -> (r: Vec<char>)
    ensures
        r@ == s@,
{
    let n = s.unicode_len();
    let mut out: Vec<char> = Vec::new();
    let mut k: usize = 0;
    while k < n
        invariant
            0 <= k <= n,
            n == s@.len(),
            out@ =~= s@.take(k as int),
        decreases n - k,
    {
        out.push(s.get_char(k));
        proof {
            assert(out@ =~= s@.take(k + 1));
        }
        k = k + 1;
    }
    proof {
        assert(out@ =~= s@);
    }
    out
}

/// Character-for-character equality of two buffers.
pub fn chars_eq(a: &Vec<char>, b: &Vec<char>) -> (r: bool)
    ensures
        r == (a@ == b@),
{
    let n = a.len();
    if n != b.len() {
        return false;
    }
    let mut i: usize = 0;
    while i < n
        invariant
            0 <= i <= n,
            n == a@.len() == b@.len(),
            forall|j: int| 0 <= j < i ==> a@[j] == b@[j],
        decreases n - i,
    {
        if a[i] != b[i] {
            return false;
        }
        i = i + 1;
    }
    proof {
        assert(a@ =~= b@);
    }
    true
}

/// An owned copy of a borrowed string.
pub fn copy_string(s: &str) -> (r: String)
    ensures
        r@ == s@,
{
    s.to_owned()
}

/// Relies on `String::from_iter` over `char`: the resulting string holds
/// exactly the given characters in order.
#[verifier::external_body]
pub fn chars_string(v: &Vec<char>) -> (r: String)
    ensures
        r@ == v@,
{
    v.iter().collect()
}

/// Compares two buffers ignoring ASCII case.
pub fn eq_icase(a: &Vec<char>, b: &Vec<char>) -> (r: bool)
    ensures
        r == eq_icase_s(a@, b@),
{
    if a.len() != b.len() {
        return false;
    }
    let n = a.len();
    let mut k: usize = 0;
    while k < n
        invariant
            0 <= k <= n,
            n == a@.len() == b@.len(),
            forall|j: int| 0 <= j < k ==> to_upper_s(a@[j]) == to_upper_s(b@[j]),
        decreases n - k,
    {
        if to_upper(a[k]) != to_upper(b[k]) {
            return false;
        }
        k = k + 1;
    }
    true
}

/// Uppercases one ASCII letter.
pub fn to_upper(c: char) -> (r: char)
    ensures
        r == to_upper_s(c),
{
    if 'a' <= c && c <= 'z' {
        (((c as u32) - 32) as u8) as char
    } else {
        c
    }
}

/// Whether `p` is a prefix of `v`.
pub fn has_prefix(v: &Vec<char>, p: &Vec<char>) -> (r: bool)
    ensures
        r == p@.is_prefix_of(v@),
{
    if p.len() > v.len() {
        return false;
    }
    let n = p.len();
    let mut k: usize = 0;
    while k < n
        invariant
            0 <= k <= n,
            n == p@.len() <= v@.len(),
            forall|j: int| 0 <= j < k ==> p@[j] == v@[j],
        decreases n - k,
    {
        if p[k] != v[k] {
            return false;
        }
        k = k + 1;
    }
    true
}

/// First position of `c` in `v` at or after `from`.
pub fn find_char(v: &Vec<char>, c: char, from: usize) -> (r: Option<usize>)
    requires
        from <= v@.len(),
    ensures
        r matches Some(i) ==> from <= i < v@.len() && v@[i as int] == c && forall|j: int|
            from <= j < i ==> v@[j] != c,
        r is None ==> forall|j: int| from <= j < v@.len() ==> v@[j] != c,
{
    let n = v.len();
    let mut k: usize = from;
    while k < n
        invariant
            from <= k <= n,
            n == v@.len(),
            forall|j: int| from <= j < k ==> v@[j] != c,
        decreases n - k,
    {
        if v[k] == c {
            return Some(k);
        }
        k = k + 1;
    }
    None
}

/// The lines of a text, in the manner of line-oriented scanning: split at
/// newlines, a carriage return before a newline dropped, and no empty final
/// line after a trailing newline.
pub open spec fn lines_of(s: Seq<char>) -> Seq<Seq<char>>
    decreases s.len() via lines_of_dec
{
    if s.len() == 0 {
        Seq::empty()
    } else {
        let k = scan_len(s, |c: char| c == '\n');
        let line = strip_cr(s.take(k));
        if k == s.len() {
            seq![line]
        } else {
            seq![line] + lines_of(s.skip(k + 1))
        }
    }
}

#[via_fn]
proof fn lines_of_dec(s: Seq<char>) {
    lemma_scan_len_bounds(s, |c: char| c == '\n');
}

pub open spec fn strip_cr(l: Seq<char>) -> Seq<char> {
    if l.len() > 0 && l.last() == '\r' {
        l.drop_last()
    } else {
        l
    }
}

/// Splits a text into its lines.
pub fn split_lines(v: &Vec<char>) -> (r: Vec<Vec<char>>)
    ensures
        r@.map_values(|l: Vec<char>| l@) == lines_of(v@),
{
    let n = v.len();
    let mut out: Vec<Vec<char>> = Vec::new();
    let mut p: usize = 0;
    proof {
        assert(v@.skip(0) =~= v@);
        assert(out@.map_values(|l: Vec<char>| l@) =~= Seq::<Seq<char>>::empty());
    }
    while p < n
        invariant
            0 <= p <= n,
            n == v@.len(),
            lines_of(v@) =~= out@.map_values(|l: Vec<char>| l@) + lines_of(v@.skip(p as int)),
        decreases n - p,
    {
        let mut k: usize = p;
        while k < n && v[k] != '\n'
            invariant
                p <= k <= n,
                n == v@.len(),
                forall|j: int| p <= j < k ==> v@[j] != '\n',
            decreases n - k,
        {
            k = k + 1;
        }
        proof {
            lemma_scan_len(v@.skip(p as int), |c: char| c == '\n', k - p);
        }
        let mut line: Vec<char>;
        if k > p && v[k - 1] == '\r' {
            line = slice_to_vec_chars(v, p, k - 1);
        } else {
            line = slice_to_vec_chars(v, p, k);
        }
        proof {
            let rest = v@.skip(p as int);
            assert(rest.take(k - p) =~= v@.subrange(p as int, k as int));
            assert(line@ =~= strip_cr(rest.take(k - p)));
            if k < n {
                assert(rest.skip(k - p + 1) =~= v@.skip(k + 1));
            }
        }
        let ghost prev = out@;
        out.push(line);
        proof {
            assert(out@.map_values(|l: Vec<char>| l@) =~= prev.map_values(|l: Vec<char>| l@)
                + seq![line@]);
        }
        if k < n {
            p = k + 1;
        } else {
            p = n;
        }
        proof {
            assert(lines_of(v@) =~= out@.map_values(|l: Vec<char>| l@) + lines_of(
                v@.skip(p as int),
            ));
        }
    }
    proof {
        assert(lines_of(v@.skip(n as int)) =~= Seq::<Seq<char>>::empty());
        assert(lines_of(v@) =~= out@.map_values(|l: Vec<char>| l@));
    }
    out
}

/// The whitespace-separated words of a text, in order.
pub open spec fn tokens_s(s: Seq<char>) -> Seq<Seq<char>>
    decreases s.len() via tokens_s_dec
{
    if s.len() == 0 {
        Seq::empty()
    } else if is_ws(s[0]) {
        tokens_s(s.drop_first())
    } else {
        let k = scan_len(s, |c: char| is_ws(c));
        seq![s.take(k)] + tokens_s(s.skip(k))
    }
}

#[via_fn]
proof fn tokens_s_dec(s: Seq<char>) {
    if s.len() > 0 && !is_ws(s[0]) {
        lemma_scan_len_bounds(s, |c: char| is_ws(c));
        assert(scan_len(s, |c: char| is_ws(c)) == 1 + scan_len(s.drop_first(), |c: char| is_ws(c)));
        lemma_scan_len_bounds(s.drop_first(), |c: char| is_ws(c));
    }
}

proof fn lemma_tokens_skip_ws(s: Seq<char>, k: int)
    requires
        0 <= k <= s.len(),
        forall|j: int| 0 <= j < k ==> is_ws(s[j]),
    ensures
        tokens_s(s) == tokens_s(s.skip(k)),
    decreases k,
{
    if k > 0 {
        assert(is_ws(s[0]));
        assert(s.drop_first() =~= s.skip(1));
        assert(forall|j: int| 0 <= j < k - 1 ==> is_ws(#[trigger] s.skip(1)[j]));
        lemma_tokens_skip_ws(s.skip(1), k - 1);
        assert(s.skip(1).skip(k - 1) =~= s.skip(k));
    } else {
        assert(s.skip(0) =~= s);
    }
}

/// Splits a text into whitespace-separated words.
pub fn tokens(v: &Vec<char>) -> (r: Vec<Vec<char>>)
    ensures
        r@.map_values(|t: Vec<char>| t@) == tokens_s(v@),
{
    let n = v.len();
    let mut out: Vec<Vec<char>> = Vec::new();
    let mut p: usize = 0;
    proof {
        assert(v@.skip(0) =~= v@);
        assert(out@.map_values(|t: Vec<char>| t@) =~= Seq::<Seq<char>>::empty());
    }
    while p < n
        invariant
            0 <= p <= n,
            n == v@.len(),
            tokens_s(v@) =~= out@.map_values(|t: Vec<char>| t@) + tokens_s(v@.skip(p as int)),
        decreases n - p,
    {
        if v[p] == ' ' || v[p] == '\t' || v[p] == '\r' || v[p] == '\n' {
            proof {
                lemma_tokens_skip_ws(v@.skip(p as int), 1);
                assert(v@.skip(p as int).skip(1) =~= v@.skip(p + 1));
            }
            p = p + 1;
        } else {
            let mut k: usize = p;
            while k < n && v[k] != ' ' && v[k] != '\t' && v[k] != '\r' && v[k] != '\n'
                invariant
                    p <= k <= n,
                    n == v@.len(),
                    forall|j: int| p <= j < k ==> !is_ws(v@[j]),
                decreases n - k,
            {
                k = k + 1;
            }
            proof {
                lemma_scan_len(v@.skip(p as int), |c: char| is_ws(c), k - p);
            }
            let tok = slice_to_vec_chars(v, p, k);
            proof {
                let rest = v@.skip(p as int);
                assert(rest.take(k - p) =~= v@.subrange(p as int, k as int));
                assert(rest.skip(k - p) =~= v@.skip(k as int));
            }
            let ghost prev = out@;
            out.push(tok);
            proof {
                assert(out@.map_values(|t: Vec<char>| t@) =~= prev.map_values(|t: Vec<char>| t@)
                    + seq![tok@]);
            }
            p = k;
        }
    }
    proof {
        assert(tokens_s(v@.skip(n as int)) =~= Seq::<Seq<char>>::empty());
        assert(tokens_s(v@) =~= out@.map_values(|t: Vec<char>| t@));
    }
    out
}

/// Numeric value of a string of decimal digits.
pub open spec fn digits_val(s: Seq<char>) -> int
    decreases s.len(),
{
    if s.len() == 0 {
        0
    } else {
        digits_val(s.drop_last()) * 10 + digit_val(s.last())
    }
}

pub open spec fn all_digits(s: Seq<char>) -> bool {
    forall|j: int| 0 <= j < s.len() ==> is_digit(s[j])
}

/// The numeral with an optional single leading `+` removed.
pub open spec fn numeral_body(s: Seq<char>) -> Seq<char> {
    if s.len() > 0 && s[0] == '+' {
        s.drop_first()
    } else {
        s
    }
}

/// An unsigned decimal numeral with an optional leading `+`, as the standard
/// integer parser reads it; absent on any other shape or past `u32::MAX`.
pub open spec fn parse_u32_s(s: Seq<char>) -> Option<u32> {
    let body = numeral_body(s);
    if body.len() == 0 || !all_digits(body) || digits_val(body) > u32::MAX {
        None
    } else {
        Some(digits_val(body) as u32)
    }
}

proof fn lemma_digits_val_nonneg(s: Seq<char>)
    requires
        all_digits(s),
    ensures
        digits_val(s) >= 0,
    decreases s.len(),
{
    if s.len() > 0 {
        lemma_digits_val_nonneg(s.drop_last());
    }
}

/// Reads an unsigned decimal numeral.
pub fn parse_u32(v: &Vec<char>) -> (r: Option<u32>)
    ensures
        r == parse_u32_s(v@),
{
    let start: usize = if v.len() > 0 && v[0] == '+' {
        1
    } else {
        0
    };
    let ghost body = numeral_body(v@);
    let n = v.len();
    if start == n {
        return None;
    }
    let mut acc: u64 = 0;
    let mut over: bool = false;
    let mut k: usize = start;
    while k < n
        invariant
            start <= k <= n,
            n == v@.len(),
            body == numeral_body(v@),
            start == if v@.len() > 0 && v@[0] == '+' {
                1int
            } else {
                0int
            },
            body =~= v@.skip(start as int),
            all_digits(body.take(k - start)),
            !over ==> acc == digits_val(body.take(k - start)) && acc <= u32::MAX,
            over ==> digits_val(body.take(k - start)) > u32::MAX,
        decreases n - k,
    {
        let c = v[k];
        if !('0' <= c && c <= '9') {
            proof {
                assert(body[k - start] == v@[k as int]);
                assert(!all_digits(body));
            }
            return None;
        }
        let d: u64 = (c as u32 as u64) - 48;
        proof {
            assert(body.take(k - start + 1).drop_last() =~= body.take(k - start));
            lemma_digits_val_nonneg(body.take(k - start));
        }
        if over {
            proof {
                assert(digits_val(body.take(k - start + 1)) > u32::MAX);
            }
        } else if acc > (u32::MAX as u64 - d) / 10 || acc * 10 + d > u32::MAX as u64 {
            over = true;
            proof {
                assert(digits_val(body.take(k - start + 1)) == digits_val(body.take(k - start))
                    * 10 + d);
            }
        } else {
            acc = acc * 10 + d;
        }
        k = k + 1;
    }
    proof {
        assert(body.take(n - start) =~= body);
    }
    if over {
        None
    } else {
        Some(acc as u32)
    }
}

pub open spec fn digit_char(d: int) -> char {
    ((48 + d) as u8) as char
}

/// The decimal numeral of a non-negative integer, most significant digit
/// first and without leading zeros.
pub open spec fn dec_digits(n: int) -> Seq<char>
    decreases n,
{
    if n < 10 {
        seq![digit_char(if n >= 0 {
            n
        } else {
            0
        })]
    } else {
        dec_digits(n / 10).push(digit_char(n % 10))
    }
}

/// The decimal numeral of any integer: a minus sign for negatives.
pub open spec fn dec_int(n: int) -> Seq<char> {
    if n < 0 {
        seq!['-'] + dec_digits(-n)
    } else {
        dec_digits(n)
    }
}

/// Writes `n` in decimal.
pub fn i64_digits(n: i64) -> (r: Vec<char>)
    ensures
        r@ == dec_int(n as int),
{
    if n < 0 {
        let m: u64 = ((-(n + 1)) as u64) + 1;
        let mut out: Vec<char> = Vec::new();
        out.push('-');
        let digits = u64_digits(m);
        push_all(&mut out, &digits);
        proof {
            assert(out@ =~= seq!['-'] + dec_digits(-(n as int)));
        }
        out
    } else {
        u64_digits(n as u64)
    }
}

/// Writes `n` in decimal.
pub fn u64_digits(n: u64) -> (r: Vec<char>)
    ensures
        r@ == dec_digits(n as int),
    decreases n,
{
    if n < 10 {
        let c: char = ((48 + n as u8)) as char;
        let mut out: Vec<char> = Vec::new();
        out.push(c);
        proof {
            assert(out@ =~= dec_digits(n as int));
        }
        out
    } else {
        proof {
            assert(n / 10 < n) by (nonlinear_arith)
                requires
                    n >= 10,
            ;
        }
        let mut out = u64_digits(n / 10);
        let c: char = ((48 + (n % 10) as u8)) as char;
        out.push(c);
        out
    }
}

} // verus!
