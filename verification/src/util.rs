//! Text primitives shared by every stage: line splitting and joining,
//! whitespace trimming, tokenisation, substring search and replacement,
//! and the indentation measure of a source line.
//!
//! Stages work on `Vec<char>` buffers; the two conversions to and from
//! `String` stand at the boundary.
use vstd::prelude::*;

verus! {

/// Relies on `str::chars`: yields exactly the characters of the string,
/// in order. Collecting them gives the string's character sequence.
#[verifier::external_body]
pub fn str_to_chars(s: &str) -> (r: Vec<char>)
    ensures
        r@ == s@,
{
    s.chars().collect()
}

/// Relies on `String::from_iter` over characters: the built string holds
/// exactly the given characters, in order.
#[verifier::external_body]
pub fn chars_to_string(v: &Vec<char>) -> (r: String)
    ensures
        r@ == v@,
{
    v.iter().collect()
}

/// The whitespace characters that trimming removes inside one line.
pub open spec fn is_ws(c: char) -> bool {
    c == ' ' || c == '\t' || c == '\r'
}

pub fn is_ws_exec(c: char) -> (r: bool)
    ensures
        r == is_ws(c),
{
    c == ' ' || c == '\t' || c == '\r'
}

/// Index of the first occurrence of `c` in `s`; `s.len()` if absent.
pub open spec fn index_of(s: Seq<char>, c: char) -> int
    decreases s.len(),
{
    if s.len() == 0 {
        0
    } else if s[0] == c {
        0
    } else {
        1 + index_of(s.skip(1), c)
    }
}

pub proof fn lemma_index_of(s: Seq<char>, c: char)
    ensures
        0 <= index_of(s, c) <= s.len(),
        index_of(s, c) < s.len() ==> s[index_of(s, c)] == c,
        forall|j: int| 0 <= j < index_of(s, c) ==> s[j] != c,
    decreases s.len(),
{
    if s.len() == 0 {
    } else if s[0] == c {
    } else {
        lemma_index_of(s.skip(1), c);
        assert forall|j: int| 0 <= j < index_of(s, c) implies s[j] != c by {
            if j > 0 {
                assert(s.skip(1)[j - 1] == s[j]);
            }
        }
    }
}

/// First index at or after which `c` occurs, as executable code.
pub fn find_char(v: &[char], c: char) -> (i: usize)
    ensures
        i == index_of(v@, c),
    decreases v@.len(),
{
    if v.len() == 0 {
        0
    } else if v[0] == c {
        0
    } else {
        let rest = vstd::slice::slice_subrange(v, 1, v.len());
        assert(rest@ == v@.skip(1));
        let r = find_char(rest, c);
        proof {
            lemma_index_of(v@.skip(1), c);
        }
        1 + r
    }
}

/// The sequences of views of a sequence of character buffers.
pub open spec fn views_of(vs: Seq<Vec<char>>) -> Seq<Seq<char>> {
    vs.map_values(|x: Vec<char>| x@)
}

/// Splits at every `'\n'`; a trailing newline yields a trailing empty segment.
pub open spec fn split_all(s: Seq<char>) -> Seq<Seq<char>>
    decreases s.len(),
{
    let i = index_of(s, '\n');
    if 0 <= i < s.len() {
        seq![s.take(i)] + split_all(s.skip(i + 1))
    } else {
        seq![s]
    }
}

pub proof fn lemma_split_all_len(s: Seq<char>)
    ensures
        split_all(s).len() >= 1,
    decreases s.len(),
{
    let i = index_of(s, '\n');
    if 0 <= i < s.len() {
        lemma_split_all_len(s.skip(i + 1));
    }
}

/// The newline-separated segments of a text: split at each newline, one
/// trailing empty segment dropped, the empty text giving no segments.
pub open spec fn newline_segments(s: Seq<char>) -> Seq<Seq<char>> {
    if s.len() == 0 {
        Seq::empty()
    } else {
        let p = split_all(s);
        if p.last().len() == 0 {
            p.drop_last()
        } else {
            p
        }
    }
}

/// A segment without its single trailing carriage return, if it has one.
pub open spec fn strip_cr(l: Seq<char>) -> Seq<char> {
    if l.len() > 0 && l.last() == '\r' {
        l.drop_last()
    } else {
        l
    }
}

/// The line decomposition of a text, as `str::lines` sees it: split at each
/// newline, one trailing carriage return stripped from each line, one
/// trailing empty segment dropped, the empty text giving no lines.
pub open spec fn spec_lines(s: Seq<char>) -> Seq<Seq<char>> {
    newline_segments(s).map_values(|l: Seq<char>| strip_cr(l))
}

/// Splits a text into its lines.
pub fn lines_of(v: &[char]) -> (r: Vec<Vec<char>>)
    ensures
        views_of(r@) == spec_lines(v@),
{
    let segments = newline_segments_exec(v);
    let ghost segs = views_of(segments@);
    let mut r: Vec<Vec<char>> = Vec::new();
    let n = segments.len();
    let mut i: usize = 0;
    while i < n
        invariant
            0 <= i <= n,
            n == segments@.len(),
            segs == views_of(segments@),
            r@.len() == i,
            forall|j: int| 0 <= j < i ==> r@[j]@ == strip_cr(segs[j]),
        decreases n - i,
    {
        let line = vstd::slice::slice_index_get(segments.as_slice(), i);
        assert(line@ == segs[i as int]);
        let llen = line.len();
        if llen > 0 && line[llen - 1] == '\r' {
            let stripped = vstd::slice::slice_to_vec(
                vstd::slice::slice_subrange(line.as_slice(), 0, llen - 1),
            );
            assert(stripped@ =~= segs[i as int].drop_last());
            r.push(stripped);
        } else {
            r.push(vstd::slice::slice_to_vec(line.as_slice()));
        }
        i += 1;
    }
    assert(views_of(r@) =~= spec_lines(v@));
    r
}

fn newline_segments_exec(v: &[char]) -> (r: Vec<Vec<char>>)
    ensures
        views_of(r@) == newline_segments(v@),
{
    let mut r = split_lines_raw(v);
    proof {
        lemma_split_all_len(v@);
    }
    if v.len() == 0 {
        let rr: Vec<Vec<char>> = Vec::new();
        assert(views_of(rr@) =~= newline_segments(v@));
        rr
    } else if r[r.len() - 1].len() == 0 {
        let ghost before = r@;
        let _ = r.pop();
        assert(views_of(r@) =~= views_of(before).drop_last());
        assert(views_of(before).drop_last() =~= split_all(v@).drop_last());
        r
    } else {
        assert(views_of(r@) =~= newline_segments(v@));
        r
    }
}

fn split_lines_raw(v: &[char]) -> (r: Vec<Vec<char>>)
    ensures
        views_of(r@) == split_all(v@),
    decreases v@.len(),
{
    let i = find_char(v, '\n');
    proof {
        lemma_index_of(v@, '\n');
    }
    if i < v.len() {
        let first = vstd::slice::slice_to_vec(vstd::slice::slice_subrange(v, 0, i));
        let mut rest = split_lines_raw(vstd::slice::slice_subrange(v, i + 1, v.len()));
        let ghost rest0 = rest@;
        let mut r: Vec<Vec<char>> = Vec::new();
        r.push(first);
        r.append(&mut rest);
        proof {
            assert(first@ =~= v@.take(i as int));
            assert(views_of(r@) =~= seq![first@] + views_of(rest0));
            assert(views_of(r@) =~= split_all(v@));
        }
        r
    } else {
        let mut r: Vec<Vec<char>> = Vec::new();
        r.push(vstd::slice::slice_to_vec(v));
        proof {
            assert(views_of(r@) =~= split_all(v@));
        }
        r
    }
}

/// Joins segments with a single `'\n'` between them, none at the end.
pub open spec fn join_lines(ls: Seq<Seq<char>>) -> Seq<char>
    decreases ls.len(),
{
    if ls.len() == 0 {
        Seq::empty()
    } else if ls.len() == 1 {
        ls[0]
    } else {
        ls[0] + seq!['\n'] + join_lines(ls.skip(1))
    }
}

/// Joins lines with newline separators.
pub fn join_lines_exec(ls: &[Vec<char>]) -> (r: Vec<char>)
    ensures
        r@ == join_lines(views_of(ls@)),
    decreases ls@.len(),
{
    if ls.len() == 0 {
        Vec::new()
    } else if ls.len() == 1 {
        let r = vstd::slice::slice_to_vec(vstd::slice::slice_index_get(ls, 0).as_slice());
        assert(r@ == views_of(ls@)[0]);
        r
    } else {
        let mut r = vstd::slice::slice_to_vec(vstd::slice::slice_index_get(ls, 0).as_slice());
        r.push('\n');
        let mut rest = join_lines_exec(vstd::slice::slice_subrange(ls, 1, ls.len()));
        proof {
            assert(views_of(ls@.skip(1)) =~= views_of(ls@).skip(1));
        }
        r.append(&mut rest);
        assert(r@ =~= views_of(ls@)[0] + seq!['\n'] + join_lines(views_of(ls@).skip(1)));
        r
    }
}

/// `s` without its leading whitespace.
pub open spec fn trim_start(s: Seq<char>) -> Seq<char>
    decreases s.len(),
{
    if s.len() > 0 && is_ws(s[0]) {
        trim_start(s.skip(1))
    } else {
        s
    }
}

/// `s` without its trailing whitespace.
pub open spec fn trim_end(s: Seq<char>) -> Seq<char>
    decreases s.len(),
{
    if s.len() > 0 && is_ws(s.last()) {
        trim_end(s.drop_last())
    } else {
        s
    }
}

/// `s` without leading and trailing whitespace.
pub open spec fn spec_trim(s: Seq<char>) -> Seq<char> {
    trim_end(trim_start(s))
}

pub proof fn lemma_trim_start(s: Seq<char>)
    ensures
        trim_start(s).len() <= s.len(),
        trim_start(s).len() > 0 ==> !is_ws(trim_start(s)[0]),
    decreases s.len(),
{
    if s.len() > 0 && is_ws(s[0]) {
        lemma_trim_start(s.skip(1));
    }
}

pub fn trim_start_exec<'a>(v: &'a [char]) -> (r: &'a [char])
    ensures
        r@ == trim_start(v@),
    decreases v@.len(),
{
    if v.len() > 0 && is_ws_exec(v[0]) {
        trim_start_exec(vstd::slice::slice_subrange(v, 1, v.len()))
    } else {
        v
    }
}

pub fn trim_end_exec<'a>(v: &'a [char]) -> (r: &'a [char])
    ensures
        r@ == trim_end(v@),
    decreases v@.len(),
{
    if v.len() > 0 && is_ws_exec(v[v.len() - 1]) {
        let r = trim_end_exec(vstd::slice::slice_subrange(v, 0, v.len() - 1));
        assert(v@.subrange(0, v@.len() - 1) =~= v@.drop_last());
        r
    } else {
        v
    }
}

pub fn trim_exec<'a>(v: &'a [char]) -> (r: &'a [char])
    ensures
        r@ == spec_trim(v@),
{
    trim_end_exec(trim_start_exec(v))
}

/// The maximal whitespace-free prefix of `s`.
pub open spec fn take_until_ws(s: Seq<char>) -> Seq<char>
    decreases s.len(),
{
    if s.len() > 0 && !is_ws(s[0]) {
        seq![s[0]] + take_until_ws(s.skip(1))
    } else {
        Seq::empty()
    }
}

pub fn take_until_ws_exec(v: &[char]) -> (r: Vec<char>)
    ensures
        r@ == take_until_ws(v@),
    decreases v@.len(),
{
    if v.len() > 0 && !is_ws_exec(v[0]) {
        let mut r: Vec<char> = Vec::new();
        r.push(v[0]);
        let mut rest = take_until_ws_exec(vstd::slice::slice_subrange(v, 1, v.len()));
        r.append(&mut rest);
        assert(r@ =~= seq![v@[0]] + take_until_ws(v@.skip(1)));
        r
    } else {
        Vec::new()
    }
}

pub proof fn lemma_take_until_ws(s: Seq<char>)
    ensures
        take_until_ws(s).len() <= s.len(),
    decreases s.len(),
{
    if s.len() > 0 && !is_ws(s[0]) {
        lemma_take_until_ws(s.skip(1));
    }
}

/// The whitespace-delimited words of `s`, in order.
pub open spec fn tokens(s: Seq<char>) -> Seq<Seq<char>>
    decreases s.len(),
    via tokens_decreases
{
    let t = trim_start(s);
    if t.len() == 0 {
        Seq::empty()
    } else {
        seq![take_until_ws(t)] + tokens(t.skip(take_until_ws(t).len() as int))
    }
}

#[via_fn]
proof fn tokens_decreases(s: Seq<char>) {
    lemma_trim_start(s);
    let t = trim_start(s);
    if t.len() > 0 {
        lemma_take_until_ws(t);
        assert(take_until_ws(t).len() >= 1);
    }
}

pub fn tokens_exec(v: &[char]) -> (r: Vec<Vec<char>>)
    ensures
        views_of(r@) == tokens(v@),
    decreases v@.len(),
{
    proof {
        lemma_trim_start(v@);
    }
    let t = trim_start_exec(v);
    if t.len() == 0 {
        let r: Vec<Vec<char>> = Vec::new();
        assert(views_of(r@) =~= tokens(v@));
        r
    } else {
        let w = take_until_ws_exec(t);
        proof {
            lemma_take_until_ws(t@);
            assert(w@.len() >= 1);
        }
        let mut rest = tokens_exec(vstd::slice::slice_subrange(t, w.len(), t.len()));
        let ghost rest0 = rest@;
        let mut r: Vec<Vec<char>> = Vec::new();
        r.push(w);
        r.append(&mut rest);
        proof {
            assert(views_of(r@) =~= seq![w@] + views_of(rest0));
            assert(views_of(r@) =~= tokens(v@));
        }
        r
    }
}

/// Words joined by single spaces, none at the ends.
pub open spec fn join_spaces(ts: Seq<Seq<char>>) -> Seq<char>
    decreases ts.len(),
{
    if ts.len() == 0 {
        Seq::empty()
    } else if ts.len() == 1 {
        ts[0]
    } else {
        ts[0] + seq![' '] + join_spaces(ts.skip(1))
    }
}

pub fn join_spaces_exec(ts: &[Vec<char>]) -> (r: Vec<char>)
    ensures
        r@ == join_spaces(views_of(ts@)),
    decreases ts@.len(),
{
    if ts.len() == 0 {
        Vec::new()
    } else if ts.len() == 1 {
        let r = vstd::slice::slice_to_vec(vstd::slice::slice_index_get(ts, 0).as_slice());
        assert(r@ == views_of(ts@)[0]);
        r
    } else {
        let mut r = vstd::slice::slice_to_vec(vstd::slice::slice_index_get(ts, 0).as_slice());
        r.push(' ');
        let mut rest = join_spaces_exec(vstd::slice::slice_subrange(ts, 1, ts.len()));
        proof {
            assert(views_of(ts@.skip(1)) =~= views_of(ts@).skip(1));
        }
        r.append(&mut rest);
        assert(r@ =~= views_of(ts@)[0] + seq![' '] + join_spaces(views_of(ts@).skip(1)));
        r
    }
}

/// Index of the last occurrence of `c` in `s`, `-1` if there is none.
pub open spec fn last_index_of(s: Seq<char>, c: char) -> int
    decreases s.len(),
{
    if s.len() == 0 {
        -1
    } else if s.last() == c {
        s.len() - 1
    } else {
        last_index_of(s.drop_last(), c)
    }
}

pub proof fn lemma_last_index_of(s: Seq<char>, c: char)
    ensures
        -1 <= last_index_of(s, c) < s.len(),
        last_index_of(s, c) >= 0 ==> s[last_index_of(s, c)] == c,
    decreases s.len(),
{
    if s.len() > 0 && s.last() != c {
        lemma_last_index_of(s.drop_last(), c);
    }
}

/// The scope name a source file's relative path yields: the path with its
/// final `.` and everything after it removed; a path without a `.` yields
/// the empty name.
pub open spec fn spec_scope_name_of_path(s: Seq<char>) -> Seq<char> {
    if last_index_of(s, '.') < 0 {
        Seq::empty()
    } else {
        s.take(last_index_of(s, '.'))
    }
}

/// The scope name of a source file's relative path, its extension dropped.
pub fn scope_name_of_path(path: &str) -> (r: String)
    ensures
        r@ == spec_scope_name_of_path(path@),
{
    let v = str_to_chars(path);
    proof {
        lemma_last_index_of(v@, '.');
    }
    let i = last_index_of_exec(v.as_slice(), '.');
    match i {
        Some(k) => {
            let kept = vstd::slice::slice_to_vec(vstd::slice::slice_subrange(v.as_slice(), 0, k));
            assert(kept@ =~= v@.take(k as int));
            chars_to_string(&kept)
        },
        None => String::new(),
    }
}

fn last_index_of_exec(v: &[char], c: char) -> (r: Option<usize>)
    ensures
        r.is_none() ==> last_index_of(v@, c) == -1,
        r.is_some() ==> last_index_of(v@, c) == r.unwrap() as int,
    decreases v@.len(),
{
    proof {
        lemma_last_index_of(v@, c);
    }
    if v.len() == 0 {
        None
    } else if v[v.len() - 1] == c {
        Some(v.len() - 1)
    } else {
        let head = vstd::slice::slice_subrange(v, 0, v.len() - 1);
        assert(head@ =~= v@.drop_last());
        last_index_of_exec(head, c)
    }
}

/// Whether `pat` occurs in `s` starting at index `i`.
pub open spec fn is_match(s: Seq<char>, pat: Seq<char>, i: int) -> bool {
    0 <= i && i + pat.len() <= s.len() && s.subrange(i, i + pat.len()) =~= pat
}

/// Index of the leftmost occurrence of `pat` in `s`, `-1` if there is none.
pub open spec fn find_sub(s: Seq<char>, pat: Seq<char>) -> int
    decreases s.len(),
{
    if pat.len() == 0 {
        0
    } else if s.len() < pat.len() {
        -1
    } else if s.take(pat.len() as int) =~= pat {
        0
    } else {
        let r = find_sub(s.skip(1), pat);
        if r < 0 {
            -1
        } else {
            1 + r
        }
    }
}

pub open spec fn contains_sub(s: Seq<char>, pat: Seq<char>) -> bool {
    find_sub(s, pat) >= 0
}

pub proof fn lemma_find_sub(s: Seq<char>, pat: Seq<char>)
    ensures
        find_sub(s, pat) >= 0 ==> find_sub(s, pat) + pat.len() <= s.len(),
        find_sub(s, pat) >= 0 ==> is_match(s, pat, find_sub(s, pat)),
        forall|j: int| 0 <= j < find_sub(s, pat) ==> !is_match(s, pat, j),
        find_sub(s, pat) == -1 ==> forall|j: int| !is_match(s, pat, j),
    decreases s.len(),
{
    if pat.len() == 0 {
    } else if s.len() < pat.len() {
    } else if s.take(pat.len() as int) =~= pat {
        assert(s.subrange(0, pat.len() as int) =~= s.take(pat.len() as int));
    } else {
        lemma_find_sub(s.skip(1), pat);
        assert forall|j: int| 1 <= j implies is_match(s, pat, j) == is_match(
            s.skip(1),
            pat,
            j - 1,
        ) by {
            if 0 <= j - 1 && j - 1 + pat.len() <= s.skip(1).len() {
                assert(s.subrange(j, j + pat.len() as int) =~= s.skip(1).subrange(
                    j - 1,
                    j - 1 + pat.len() as int,
                ));
            }
        }
        assert(!is_match(s, pat, 0)) by {
            assert(s.subrange(0, pat.len() as int) =~= s.take(pat.len() as int));
        }
    }
}

/// Whether the two buffers hold the same characters.
pub fn eq_chars(a: &[char], b: &[char]) -> (r: bool)
    ensures
        r == (a@ == b@),
{
    if a.len() != b.len() {
        assert(a@.len() != b@.len());
        return false;
    }
    let mut i: usize = 0;
    while i < a.len()
        invariant
            0 <= i <= a.len(),
            a@.len() == b@.len(),
            forall|j: int| 0 <= j < i ==> a@[j] == b@[j],
        decreases a.len() - i,
    {
        if a[i] != b[i] {
            return false;
        }
        i += 1;
    }
    assert(a@ =~= b@);
    true
}

/// Leftmost occurrence of `pat` in `v`, if any.
pub fn find_sub_exec(v: &[char], pat: &[char]) -> (r: Option<usize>)
    ensures
        r.is_none() ==> find_sub(v@, pat@) == -1,
        r.is_some() ==> find_sub(v@, pat@) == r.unwrap() as int,
    decreases v@.len(),
{
    proof {
        lemma_find_sub(v@, pat@);
    }
    if pat.len() == 0 {
        Some(0)
    } else if v.len() < pat.len() {
        None
    } else if eq_chars(vstd::slice::slice_subrange(v, 0, pat.len()), pat) {
        assert(v@.subrange(0, pat@.len() as int) =~= v@.take(pat@.len() as int));
        Some(0)
    } else {
        assert(!(v@.take(pat@.len() as int) =~= pat@)) by {
            assert(v@.subrange(0, pat@.len() as int) =~= v@.take(pat@.len() as int));
        }
        let rec = find_sub_exec(vstd::slice::slice_subrange(v, 1, v.len()), pat);
        proof {
            lemma_find_sub(v@.skip(1), pat@);
        }
        match rec {
            None => None,
            Some(k) => Some(k + 1),
        }
    }
}

/// `s` with every occurrence of `pat` replaced by `rep`, scanning left to
/// right, matches never overlapping, replacements never rescanned.
pub open spec fn replace_all(s: Seq<char>, pat: Seq<char>, rep: Seq<char>) -> Seq<char>
    decreases s.len(),
{
    if pat.len() == 0 {
        s
    } else if s.len() < pat.len() {
        s
    } else if s.take(pat.len() as int) =~= pat {
        rep + replace_all(s.skip(pat.len() as int), pat, rep)
    } else {
        seq![s[0]] + replace_all(s.skip(1), pat, rep)
    }
}

pub fn replace_all_exec(v: &[char], pat: &[char], rep: &[char]) -> (r: Vec<char>)
    ensures
        r@ == replace_all(v@, pat@, rep@),
    decreases v@.len(),
{
    if pat.len() == 0 || v.len() < pat.len() {
        vstd::slice::slice_to_vec(v)
    } else if eq_chars(vstd::slice::slice_subrange(v, 0, pat.len()), pat) {
        assert(v@.subrange(0, pat@.len() as int) =~= v@.take(pat@.len() as int));
        let mut r = vstd::slice::slice_to_vec(rep);
        let mut rest = replace_all_exec(
            vstd::slice::slice_subrange(v, pat.len(), v.len()),
            pat,
            rep,
        );
        r.append(&mut rest);
        assert(r@ =~= rep@ + replace_all(v@.skip(pat@.len() as int), pat@, rep@));
        r
    } else {
        assert(!(v@.take(pat@.len() as int) =~= pat@)) by {
            assert(v@.subrange(0, pat@.len() as int) =~= v@.take(pat@.len() as int));
        }
        let mut r: Vec<char> = Vec::new();
        r.push(v[0]);
        let mut rest = replace_all_exec(vstd::slice::slice_subrange(v, 1, v.len()), pat, rep);
        r.append(&mut rest);
        assert(r@ =~= seq![v@[0]] + replace_all(v@.skip(1), pat@, rep@));
        r
    }
}

/// The number of `'\t'` characters that open the line.
pub open spec fn leading_tabs(s: Seq<char>) -> int
    decreases s.len(),
{
    if s.len() > 0 && s[0] == '\t' {
        1 + leading_tabs(s.skip(1))
    } else {
        0
    }
}

pub proof fn lemma_leading_tabs(s: Seq<char>)
    ensures
        0 <= leading_tabs(s) <= s.len(),
        forall|j: int| 0 <= j < leading_tabs(s) ==> s[j] == '\t',
        leading_tabs(s) < s.len() ==> s[leading_tabs(s)] != '\t',
    decreases s.len(),
{
    if s.len() > 0 && s[0] == '\t' {
        lemma_leading_tabs(s.skip(1));
        assert forall|j: int| 0 <= j < leading_tabs(s) implies s[j] == '\t' by {
            if j > 0 {
                assert(s.skip(1)[j - 1] == s[j]);
            }
        }
    }
}

pub fn leading_tabs_exec(v: &[char]) -> (r: usize)
    ensures
        r as int == leading_tabs(v@),
    decreases v@.len(),
{
    proof {
        lemma_leading_tabs(v@);
    }
    if v.len() > 0 && v[0] == '\t' {
        let rec = leading_tabs_exec(vstd::slice::slice_subrange(v, 1, v.len()));
        proof {
            lemma_leading_tabs(v@.skip(1));
        }
        1 + rec
    } else {
        0
    }
}

/// The indentation measure of a line: one more than the number of leading
/// tab characters, or zero for a line of nothing but tabs.
pub open spec fn spec_get_indent(s: Seq<char>) -> int {
    if leading_tabs(s) == s.len() {
        0
    } else {
        leading_tabs(s) + 1
    }
}

/// The indentation measure of a line; an empty or all-tab line measures zero.
pub fn get_indent(line: &str) -> (r: usize)
    ensures
        r as int == spec_get_indent(line@),
{
    let v = str_to_chars(line);
    proof {
        lemma_leading_tabs(v@);
    }
    let lt = leading_tabs_exec(v.as_slice());
    if lt == v.len() {
        0
    } else {
        lt + 1
    }
}

} // verus!
