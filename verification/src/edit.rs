//! In-place edits of a document's heading lines: marking a heading DONE
//! and rewriting its status keyword, returning the new full text; the
//! timestamps and drawers of the document are never touched.

use vstd::prelude::*;
use crate::text::{
    is_ws, scan_len, lemma_scan_len, trim_s, trim_start_s, lemma_trim_start_skip, str_chars,
    slice_to_vec_chars, chars_string, eq_icase_s, eq_icase, lines_of, split_lines, push_all,
};
use crate::agenda::{join_lines, lemma_join_lines_push};

verus! {

/// Why an edit could not be applied.
#[derive(Clone, Copy, PartialEq, Eq, Structural, Debug)]
pub enum EditError {
    HeadlineNotFound,
}

/// First index where `pat` occurs in `s`, or -1.
pub open spec fn find_sub(s: Seq<char>, pat: Seq<char>) -> int
    decreases s.len(),
{
    if pat.len() > s.len() {
        -1
    } else if pat.is_prefix_of(s) {
        0
    } else {
        let r = find_sub(s.drop_first(), pat);
        if r == -1 {
            -1
        } else {
            r + 1
        }
    }
}

proof fn lemma_find_sub_bounds(s: Seq<char>, pat: Seq<char>)
    ensures
        find_sub(s, pat) == -1 || (0 <= find_sub(s, pat) && find_sub(s, pat) + pat.len()
            <= s.len()),
    decreases s.len(),
{
    if pat.len() <= s.len() && !pat.is_prefix_of(s) {
        lemma_find_sub_bounds(s.drop_first(), pat);
    }
}

fn find_sub_exec(v: &Vec<char>, pat: &Vec<char>) -> (r: Option<usize>)
    ensures
        (match r {
            Some(i) => find_sub(v@, pat@) == i as int && i + pat@.len() <= v@.len(),
            None => find_sub(v@, pat@) == -1,
        }),
{
    let n = v.len();
    let m = pat.len();
    if m > n {
        return None;
    }
    let mut k: usize = 0;
    proof {
        assert(v@.skip(0) =~= v@);
    }
    while k <= n - m
        invariant
            0 <= k,
            m <= n,
            k + m <= n + 1,
            n == v@.len(),
            m == pat@.len(),
            find_sub(v@, pat@) == (if find_sub(v@.skip(k as int), pat@) == -1 {
                -1int
            } else {
                find_sub(v@.skip(k as int), pat@) + k
            }),
        decreases n - k,
    {
        let mut j: usize = 0;
        let mut ok: bool = true;
        while j < m
            invariant
                0 <= j <= m,
                k + m <= n,
                n == v@.len(),
                m == pat@.len(),
                ok == (forall|t: int| 0 <= t < j ==> v@[k + t] == pat@[t]),
            decreases m - j,
        {
            if v[k + j] != pat[j] {
                ok = false;
            }
            j = j + 1;
        }
        proof {
            assert(pat@.is_prefix_of(v@.skip(k as int)) == (forall|t: int|
                0 <= t < m ==> v@[k + t] == pat@[t])) by {
                if forall|t: int| 0 <= t < m ==> v@[k + t] == pat@[t] {
                    assert(v@.skip(k as int).take(m as int) =~= pat@);
                }
                if pat@.is_prefix_of(v@.skip(k as int)) {
                    assert forall|t: int| 0 <= t < m implies v@[k + t] == pat@[t] by {
                        assert(v@.skip(k as int).take(m as int)[t] == v@[k + t]);
                    }
                }
            }
        }
        if ok {
            return Some(k);
        }
        proof {
            lemma_find_sub_bounds(v@.skip(k + 1), pat@);
            assert(v@.skip(k as int).drop_first() =~= v@.skip(k + 1));
            assert(find_sub(v@.skip(k as int), pat@) == (if find_sub(v@.skip(k + 1), pat@) == -1 {
                -1int
            } else {
                find_sub(v@.skip(k + 1), pat@) + 1
            }));
        }
        k = k + 1;
    }
    proof {
        assert(pat@.len() > v@.skip(k as int).len());
    }
    None
}

/// The first occurrence of `pat` replaced by `to`; `s` unchanged with no
/// occurrence.
pub open spec fn replace_first(s: Seq<char>, pat: Seq<char>, to: Seq<char>) -> Seq<char> {
    let i = find_sub(s, pat);
    if i == -1 {
        s
    } else {
        s.take(i) + to + s.skip(i + pat.len())
    }
}

fn replace_first_exec(v: &Vec<char>, pat: &Vec<char>, to: &Vec<char>) -> (r: Vec<char>)
    ensures
        r@ == replace_first(v@, pat@, to@),
{
    match find_sub_exec(v, pat) {
        None => slice_to_vec_chars(v, 0, v.len()),
        Some(i) => {
            let nv = v.len();
            let mut out = slice_to_vec_chars(v, 0, i);
            push_all(&mut out, to);
            let tail = slice_to_vec_chars(v, i + pat.len(), nv);
            push_all(&mut out, &tail);
            proof {
                assert(out@ =~= replace_first(v@, pat@, to@));
            }
            out
        },
    }
}

/// A heading line rewritten to DONE: the leading stars and their spacing
/// kept; a leading DONE kept, a leading TODO turned into DONE, else the
/// first occurrence of the heading's own keyword replaced; and DONE
/// prefixed when the result still does not begin with it.
pub open spec fn complete_line_spec(line: Seq<char>, keyword: Option<Seq<char>>) -> Seq<char> {
    let stars = scan_len(line, |c: char| c != '*');
    let prefix = line.take(stars);
    let rest = trim_start_s(line.skip(stars));
    let step1 = if "DONE"@.is_prefix_of(rest) {
        rest
    } else if "TODO"@.is_prefix_of(rest) {
        replace_first(rest, "TODO"@, "DONE"@)
    } else {
        match keyword {
            Some(k) => replace_first(rest, k, "DONE"@),
            None => "DONE "@ + rest,
        }
    };
    let step2 = if "DONE"@.is_prefix_of(step1) {
        step1
    } else {
        "DONE "@ + trim_start_s(step1)
    };
    prefix + step2
}

fn prefix_check(v: &Vec<char>, pat: &Vec<char>) -> (r: bool)
    ensures
        r == pat@.is_prefix_of(v@),
{
    crate::text::has_prefix(v, pat)
}

fn complete_line(line: &Vec<char>, keyword: &Option<String>) -> (r: Vec<char>)
    ensures
        r@ == complete_line_spec(line@, crate::agenda::view_opt_string(*keyword)),
{
    let n = line.len();
    let mut stars: usize = 0;
    while stars < n && line[stars] == '*'
        invariant
            0 <= stars <= n,
            n == line@.len(),
            forall|j: int| 0 <= j < stars ==> line@[j] == '*',
        decreases n - stars,
    {
        stars = stars + 1;
    }
    proof {
        lemma_scan_len(line@, |c: char| c != '*', stars as int);
    }
    let prefix = slice_to_vec_chars(line, 0, stars);
    let mut k: usize = stars;
    while k < n && (line[k] == ' ' || line[k] == '\t' || line[k] == '\r' || line[k] == '\n')
        invariant
            stars <= k <= n,
            n == line@.len(),
            forall|j: int| stars <= j < k ==> is_ws(line@[j]),
        decreases n - k,
    {
        k = k + 1;
    }
    proof {
        let after = line@.skip(stars as int);
        assert(forall|j: int| 0 <= j < k - stars ==> is_ws(after[j]));
        lemma_trim_start_skip(after, k - stars);
        assert(after.skip(k - stars) =~= line@.subrange(k as int, n as int));
    }
    let rest = slice_to_vec_chars(line, k, n);
    let pat_done = str_chars("DONE");
    let pat_todo = str_chars("TODO");
    let done_sp = str_chars("DONE ");
    let step1: Vec<char>;
    if prefix_check(&rest, &pat_done) {
        step1 = rest;
    } else if prefix_check(&rest, &pat_todo) {
        step1 = replace_first_exec(&rest, &pat_todo, &pat_done);
    } else {
        match keyword {
            Some(kw) => {
                let kv = str_chars(kw.as_str());
                step1 = replace_first_exec(&rest, &kv, &pat_done);
            },
            None => {
                let mut s = slice_to_vec_chars(&done_sp, 0, done_sp.len());
                push_all(&mut s, &rest);
                proof {
                    assert(s@ =~= "DONE "@ + rest@);
                }
                step1 = s;
            },
        }
    }
    let step2: Vec<char>;
    if prefix_check(&step1, &pat_done) {
        step2 = step1;
    } else {
        let ts = trim_start_only(&step1);
        let mut s = slice_to_vec_chars(&done_sp, 0, done_sp.len());
        push_all(&mut s, &ts);
        proof {
            assert(s@ =~= "DONE "@ + trim_start_s(step1@));
        }
        step2 = s;
    }
    let mut out = prefix;
    push_all(&mut out, &step2);
    proof {
        assert(out@ =~= complete_line_spec(line@, crate::agenda::view_opt_string(*keyword)));
    }
    out
}

fn trim_start_only(v: &Vec<char>) -> (r: Vec<char>)
    ensures
        r@ == trim_start_s(v@),
{
    let n = v.len();
    let mut i: usize = 0;
    while i < n && (v[i] == ' ' || v[i] == '\t' || v[i] == '\r' || v[i] == '\n')
        invariant
            0 <= i <= n,
            n == v@.len(),
            forall|j: int| 0 <= j < i ==> is_ws(v@[j]),
        decreases n - i,
    {
        i = i + 1;
    }
    proof {
        lemma_trim_start_skip(v@, i as int);
    }
    slice_to_vec_chars(v, i, n)
}

/// The whole document with line `idx` rewritten by `f`; the other lines
/// kept and joined by newlines.
pub open spec fn complete_text_spec(text: Seq<char>, idx: int, keyword: Option<Seq<char>>) -> Result<
    Seq<char>,
    EditError,
> {
    let ls = lines_of(text);
    if idx < 0 || idx >= ls.len() {
        Err(EditError::HeadlineNotFound)
    } else {
        Ok(join_lines(ls.update(idx, complete_line_spec(ls[idx], keyword))))
    }
}

/// Rewrites the heading at line `headline_line` to DONE and returns the
/// new full document text.
pub fn complete_headline_text(text: &str, headline_line: usize, keyword: &Option<String>) -> (r:
    Result<String, EditError>)
    ensures
        (match r {
            Ok(out) => complete_text_spec(
                text@,
                headline_line as int,
                crate::agenda::view_opt_string(*keyword),
            ) == Ok::<Seq<char>, EditError>(out@),
            Err(e) => complete_text_spec(
                text@,
                headline_line as int,
                crate::agenda::view_opt_string(*keyword),
            ) == Err::<Seq<char>, EditError>(e),
        }),
{
    let textv = str_chars(text);
    let lines = split_lines(&textv);
    let ghost linesv = lines@.map_values(|l: Vec<char>| l@);
    if headline_line >= lines.len() {
        return Err(EditError::HeadlineNotFound);
    }
    let new_line = complete_line(&lines[headline_line], keyword);
    let ghost updated = linesv.update(
        headline_line as int,
        complete_line_spec(linesv[headline_line as int], crate::agenda::view_opt_string(*keyword)),
    );
    let mut out: Vec<char> = Vec::new();
    let n = lines.len();
    let mut i: usize = 0;
    proof {
        assert(out@ =~= join_lines(updated.take(0)));
    }
    while i < n
        invariant
            0 <= i <= n,
            n == linesv.len(),
            n == lines@.len(),
            linesv == lines@.map_values(|l: Vec<char>| l@),
            headline_line < n,
            new_line@ == complete_line_spec(
                linesv[headline_line as int],
                crate::agenda::view_opt_string(*keyword),
            ),
            updated == linesv.update(
                headline_line as int,
                complete_line_spec(
                    linesv[headline_line as int],
                    crate::agenda::view_opt_string(*keyword),
                ),
            ),
            out@ =~= join_lines(updated.take(i as int)),
        decreases n - i,
    {
        proof {
            assert(updated.take(i + 1) =~= updated.take(i as int).push(updated[i as int]));
            lemma_join_lines_push(updated.take(i as int), updated[i as int]);
            assert(updated.take(i as int).len() == i);
        }
        if i > 0 {
            out.push('\n');
        }
        if i == headline_line {
            push_all(&mut out, &new_line);
        } else {
            push_all(&mut out, &lines[i]);
            proof {
                assert(updated[i as int] == linesv[i as int]);
            }
        }
        i = i + 1;
    }
    proof {
        assert(updated.take(n as int) =~= updated);
    }
    Ok(chars_string(&out))
}

/// A heading's first status word replaced by `status`: kept as it stands
/// when it already equals `status` (case-insensitively), else `status`
/// followed by what came after the first space.
pub open spec fn set_status_line_spec(line: Seq<char>, status: Seq<char>) -> Seq<char> {
    let stars = scan_len(line, |c: char| c != '*');
    let prefix = line.take(stars);
    let rest = trim_start_s(line.skip(stars));
    let sp = scan_len(rest, |c: char| c == ' ');
    let first = rest.take(sp);
    let remainder = if sp >= rest.len() {
        Seq::<char>::empty()
    } else {
        rest.skip(sp + 1)
    };
    let new_rest = if eq_icase_s(first, status) {
        rest
    } else {
        let tail = trim_start_s(remainder);
        if tail.len() == 0 {
            trim_s(status)
        } else {
            trim_s(status) + seq![' '] + tail
        }
    };
    prefix + new_rest
}

/// The whole document with line `idx`'s status keyword rewritten.
pub open spec fn set_status_text_spec(text: Seq<char>, idx: int, status: Seq<char>) -> Result<
    Seq<char>,
    EditError,
> {
    let ls = lines_of(text);
    if idx < 0 || idx >= ls.len() {
        Err(EditError::HeadlineNotFound)
    } else {
        Ok(join_lines(ls.update(idx, set_status_line_spec(ls[idx], status))))
    }
}

/// Rewrites the status keyword of the heading at `headline_line`.
pub fn set_headline_status_text(text: &str, headline_line: usize, status: &str) -> (r: Result<
    String,
    EditError,
>)
    ensures
        (match r {
            Ok(out) => set_status_text_spec(text@, headline_line as int, status@) == Ok::<
                Seq<char>,
                EditError,
            >(out@),
            Err(e) => set_status_text_spec(text@, headline_line as int, status@) == Err::<
                Seq<char>,
                EditError,
            >(e),
        }),
{
    let textv = str_chars(text);
    let lines = split_lines(&textv);
    let ghost linesv = lines@.map_values(|l: Vec<char>| l@);
    if headline_line >= lines.len() {
        return Err(EditError::HeadlineNotFound);
    }
    let new_line = set_status_line(&lines[headline_line], status);
    let ghost updated = linesv.update(
        headline_line as int,
        set_status_line_spec(linesv[headline_line as int], status@),
    );
    let mut out: Vec<char> = Vec::new();
    let n = lines.len();
    let mut i: usize = 0;
    proof {
        assert(out@ =~= join_lines(updated.take(0)));
    }
    while i < n
        invariant
            0 <= i <= n,
            n == linesv.len(),
            n == lines@.len(),
            linesv == lines@.map_values(|l: Vec<char>| l@),
            headline_line < n,
            new_line@ == set_status_line_spec(linesv[headline_line as int], status@),
            updated == linesv.update(
                headline_line as int,
                set_status_line_spec(linesv[headline_line as int], status@),
            ),
            out@ =~= join_lines(updated.take(i as int)),
        decreases n - i,
    {
        proof {
            assert(updated.take(i + 1) =~= updated.take(i as int).push(updated[i as int]));
            lemma_join_lines_push(updated.take(i as int), updated[i as int]);
            assert(updated.take(i as int).len() == i);
        }
        if i > 0 {
            out.push('\n');
        }
        if i == headline_line {
            push_all(&mut out, &new_line);
        } else {
            push_all(&mut out, &lines[i]);
            proof {
                assert(updated[i as int] == linesv[i as int]);
            }
        }
        i = i + 1;
    }
    proof {
        assert(updated.take(n as int) =~= updated);
    }
    Ok(chars_string(&out))
}

fn set_status_line(line: &Vec<char>, status: &str) -> (r: Vec<char>)
    ensures
        r@ == set_status_line_spec(line@, status@),
{
    let n = line.len();
    let mut stars: usize = 0;
    while stars < n && line[stars] == '*'
        invariant
            0 <= stars <= n,
            n == line@.len(),
            forall|j: int| 0 <= j < stars ==> line@[j] == '*',
        decreases n - stars,
    {
        stars = stars + 1;
    }
    proof {
        lemma_scan_len(line@, |c: char| c != '*', stars as int);
    }
    let prefix = slice_to_vec_chars(line, 0, stars);
    let mut k: usize = stars;
    while k < n && (line[k] == ' ' || line[k] == '\t' || line[k] == '\r' || line[k] == '\n')
        invariant
            stars <= k <= n,
            n == line@.len(),
            forall|j: int| stars <= j < k ==> is_ws(line@[j]),
        decreases n - k,
    {
        k = k + 1;
    }
    proof {
        let after = line@.skip(stars as int);
        assert(forall|j: int| 0 <= j < k - stars ==> is_ws(after[j]));
        lemma_trim_start_skip(after, k - stars);
        assert(after.skip(k - stars) =~= line@.subrange(k as int, n as int));
    }
    let rest = slice_to_vec_chars(line, k, n);
    let ghost restv = trim_start_s(line@.skip(stars as int));
    let m = rest.len();
    let mut sp: usize = 0;
    while sp < m && rest[sp] != ' '
        invariant
            0 <= sp <= m,
            m == rest@.len(),
            forall|j: int| 0 <= j < sp ==> rest@[j] != ' ',
        decreases m - sp,
    {
        sp = sp + 1;
    }
    proof {
        lemma_scan_len(rest@, |c: char| c == ' ', sp as int);
    }
    let first = slice_to_vec_chars(&rest, 0, sp);
    let remainder: Vec<char> = if sp >= m {
        Vec::new()
    } else {
        slice_to_vec_chars(&rest, sp + 1, m)
    };
    proof {
        assert(first@ =~= rest@.take(sp as int));
        if sp < m {
            assert(remainder@ =~= rest@.skip(sp + 1));
        } else {
            assert(remainder@ =~= Seq::<char>::empty());
        }
    }
    let statusv = str_chars(status);
    let new_rest: Vec<char>;
    if eq_icase(&first, &statusv) {
        new_rest = rest;
    } else {
        let tail = trim_start_only(&remainder);
        let st = crate::text::trim(&statusv);
        if tail.len() == 0 {
            new_rest = st;
        } else {
            let mut s = st;
            s.push(' ');
            push_all(&mut s, &tail);
            proof {
                assert(s@ =~= trim_s(status@) + seq![' '] + trim_start_s(remainder@));
            }
            new_rest = s;
        }
    }
    let mut out = prefix;
    push_all(&mut out, &new_rest);
    proof {
        assert(out@ =~= set_status_line_spec(line@, status@));
    }
    out
}

/// The capture payload with a final newline guaranteed.
pub fn ensure_trailing_newline(content: &str) -> (r: String)
    ensures
        r@ == (if content@.len() > 0 && content@.last() == '\n' {
            content@
        } else {
            content@ + seq!['\n']
        }),
{
    let v = str_chars(content);
    let n = v.len();
    if n > 0 && v[n - 1] == '\n' {
        chars_string(&v)
    } else {
        let mut out = slice_to_vec_chars(&v, 0, n);
        out.push('\n');
        proof {
            assert(out@ =~= content@ + seq!['\n']);
        }
        chars_string(&out)
    }
}

} // verus!
