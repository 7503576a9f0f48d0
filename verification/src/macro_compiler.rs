//! The macro-expansion stage: `generate function` blocks declare macros,
//! `call` lines invoke them. A call inlines the macro's body, or — for a
//! separate-scope macro or a forward reference — emits a `function` call to
//! a generated scope minted from a descending 32-bit counter. Identical
//! calls are memoized to one generated artifact; scopes whose expansion
//! spliced new text are reprocessed until a pass finds no further call.
use vstd::prelude::*;
use crate::CompileError;
use crate::namespace::Namespace;
use crate::scope::{Scope, spec_anonymous_name, spec_reference_name, anonymous_name};
use crate::util::{
    is_ws, spec_lines, join_lines, views_of, lines_of, join_lines_exec, tokens, tokens_exec,
    join_spaces, join_spaces_exec, leading_tabs, leading_tabs_exec, lemma_leading_tabs, find_sub,
    find_sub_exec, lemma_find_sub, eq_chars, str_to_chars, chars_to_string,
};

verus! {

/// A whitespace character for token purposes, the line break included.
pub open spec fn is_token_ws(c: char) -> bool {
    is_ws(c) || c == '\n'
}

fn is_token_ws_exec(c: char) -> (r: bool)
    ensures
        r == is_token_ws(c),
{
    c == ' ' || c == '\t' || c == '\r' || c == '\n'
}

/// The length of the maximal token (non-whitespace run) opening `s`.
pub open spec fn token_run(s: Seq<char>) -> int
    decreases s.len(),
{
    if s.len() > 0 && !is_token_ws(s[0]) {
        1 + token_run(s.skip(1))
    } else {
        0
    }
}

pub proof fn lemma_token_run(s: Seq<char>)
    ensures
        0 <= token_run(s) <= s.len(),
    decreases s.len(),
{
    if s.len() > 0 && !is_token_ws(s[0]) {
        lemma_token_run(s.skip(1));
    }
}

fn token_run_exec(v: &[char]) -> (r: usize)
    ensures
        r as int == token_run(v@),
    decreases v@.len(),
{
    proof {
        lemma_token_run(v@);
    }
    if v.len() > 0 && !is_token_ws_exec(v[0]) {
        let rec = token_run_exec(vstd::slice::slice_subrange(v, 1, v.len()));
        proof {
            lemma_token_run(v@.skip(1));
        }
        1 + rec
    } else {
        0
    }
}

/// `s` with every whole token equal to `param` replaced by `value`;
/// whitespace, and every other token, stand unchanged.
pub open spec fn token_subst(s: Seq<char>, param: Seq<char>, value: Seq<char>) -> Seq<char>
    decreases s.len(),
    via token_subst_decreases
{
    if s.len() == 0 {
        s
    } else if is_token_ws(s[0]) {
        seq![s[0]] + token_subst(s.skip(1), param, value)
    } else {
        let w = token_run(s);
        (if s.take(w) == param {
            value
        } else {
            s.take(w)
        }) + token_subst(s.skip(w), param, value)
    }
}

#[via_fn]
proof fn token_subst_decreases(s: Seq<char>, param: Seq<char>, value: Seq<char>) {
    if s.len() > 0 && !is_token_ws(s[0]) {
        lemma_token_run(s);
        lemma_token_run(s.skip(1));
    }
}

fn token_subst_exec(v: &[char], param: &[char], value: &[char]) -> (r: Vec<char>)
    ensures
        r@ == token_subst(v@, param@, value@),
    decreases v@.len(),
{
    let n = v.len();
    if n == 0 {
        return Vec::new();
    }
    if is_token_ws_exec(v[0]) {
        let mut r: Vec<char> = Vec::new();
        r.push(v[0]);
        let mut rest = token_subst_exec(vstd::slice::slice_subrange(v, 1, n), param, value);
        r.append(&mut rest);
        assert(r@ =~= seq![v@[0]] + token_subst(v@.skip(1), param@, value@));
        r
    } else {
        proof {
            lemma_token_run(v@);
            lemma_token_run(v@.skip(1));
        }
        let w = token_run_exec(v);
        let head = vstd::slice::slice_subrange(v, 0, w);
        assert(head@ =~= v@.take(w as int));
        let mut r: Vec<char> = if eq_chars(head, param) {
            vstd::slice::slice_to_vec(value)
        } else {
            vstd::slice::slice_to_vec(head)
        };
        let mut rest = token_subst_exec(vstd::slice::slice_subrange(v, w, n), param, value);
        r.append(&mut rest);
        assert(r@ =~= (if v@.take(w as int) == param@ {
            value@
        } else {
            v@.take(w as int)
        }) + token_subst(v@.skip(w as int), param@, value@));
        r
    }
}

/// The views of a sequence of strings.
pub open spec fn string_views(ss: Seq<String>) -> Seq<Seq<char>> {
    ss.map_values(|s: String| s@)
}

/// `body` with each parameter replaced by the matching argument, first
/// parameter first; parameters and arguments pair positionally, whichever
/// list is longer losing its tail.
pub open spec fn subst_params_from(
    body: Seq<char>,
    params: Seq<Seq<char>>,
    args: Seq<Seq<char>>,
    i: int,
) -> Seq<char>
    decreases params.len() - i,
{
    if i < 0 || i >= params.len() || i >= args.len() {
        body
    } else {
        subst_params_from(token_subst(body, params[i], args[i]), params, args, i + 1)
    }
}

/// The expansion of a macro body for one argument list.
pub open spec fn subst_params(body: Seq<char>, params: Seq<Seq<char>>, args: Seq<Seq<char>>) -> Seq<
    char,
> {
    subst_params_from(body, params, args, 0)
}

/// Performs the positional parameter substitution on a body.
fn subst_params_exec(body: Vec<char>, params: &Vec<String>, args: &Vec<Vec<char>>) -> (r: Vec<char>)
    ensures
        r@ == subst_params(body@, string_views(params@), views_of(args@)),
{
    let mut current = body;
    let ghost body0 = current@;
    let ghost pv = string_views(params@);
    let ghost av = views_of(args@);
    let mut i: usize = 0;
    while i < params.len() && i < args.len()
        invariant
            0 <= i <= pv.len(),
            pv.len() == params@.len(),
            av.len() == args@.len(),
            pv == string_views(params@),
            av == views_of(args@),
            subst_params_from(current@, pv, av, i as int) == subst_params_from(body0, pv, av, 0),
        decreases params@.len() - i,
    {
        let p = str_to_chars(params[i].as_str());
        assert(p@ == pv[i as int]);
        let a = vstd::slice::slice_index_get(args.as_slice(), i);
        assert(a@ == av[i as int]);
        current = token_subst_exec(current.as_slice(), p.as_slice(), a.as_slice());
        i += 1;
    }
    assert(subst_params_from(current@, pv, av, i as int) == current@);
    current
}

/// What one `generate function` block declares.
pub struct DefView {
    pub name: Seq<char>,
    pub params: Seq<Seq<char>>,
    pub body: Seq<char>,
    pub sep: bool,
}

/// Whether a line opens a macro definition: its first two words are
/// `generate` and `function` and a macro name follows.
pub open spec fn is_def_header(l: Seq<char>) -> bool {
    tokens(l).len() >= 3 && tokens(l)[0] == "generate"@ && tokens(l)[1] == "function"@
}

/// The number of leading lines indented deeper than `d` tab levels.
pub open spec fn body_run(ls: Seq<Seq<char>>, d: int) -> int
    decreases ls.len(),
{
    if ls.len() > 0 && leading_tabs(ls[0]) > d {
        1 + body_run(ls.skip(1), d)
    } else {
        0
    }
}

pub proof fn lemma_body_run(ls: Seq<Seq<char>>, d: int)
    ensures
        0 <= body_run(ls, d) <= ls.len(),
        forall|j: int| 0 <= j < body_run(ls, d) ==> leading_tabs(ls[j]) > d,
        body_run(ls, d) < ls.len() ==> !(leading_tabs(ls[body_run(ls, d)]) > d),
    decreases ls.len(),
{
    if ls.len() > 0 && leading_tabs(ls[0]) > d {
        lemma_body_run(ls.skip(1), d);
        assert forall|j: int| 0 <= j < body_run(ls, d) implies leading_tabs(ls[j]) > d by {
            if j > 0 {
                assert(ls.skip(1)[j - 1] == ls[j]);
            }
        }
    }
}

/// Each line with its first `k` characters removed.
pub open spec fn dedent_by(ls: Seq<Seq<char>>, k: int) -> Seq<Seq<char>> {
    ls.map_values(|l: Seq<char>| l.skip(k))
}

/// The definition a header line and its dedented body lines declare: the
/// third word names the macro, the remaining words are its parameters; a
/// first body line of exactly `with scope` sets the separate-scope flag and
/// is not stored.
pub open spec fn parse_def(header: Seq<char>, body_lines: Seq<Seq<char>>) -> DefView {
    let sep = body_lines.len() > 0 && body_lines[0] == "with scope"@;
    let stored = if sep {
        body_lines.skip(1)
    } else {
        body_lines
    };
    DefView {
        name: tokens(header)[2],
        params: tokens(header).skip(3),
        body: join_lines(stored),
        sep: sep,
    }
}

/// The definition declared at the head of `ls`, `ls[0]` being its header.
pub open spec fn def_at(ls: Seq<Seq<char>>) -> DefView {
    let d = leading_tabs(ls[0]);
    let b = body_run(ls.skip(1), d);
    parse_def(ls[0], dedent_by(ls.skip(1).take(b), d + 1))
}

/// How many lines the definition at the head of `ls` spans.
pub open spec fn def_consumed(ls: Seq<Seq<char>>) -> int {
    1 + body_run(ls.skip(1), leading_tabs(ls[0]))
}

/// A macro declared by a `generate function` block: its name, its ordered
/// parameter names, its body text dedented by one level, and whether every
/// call of it compiles to a scope of its own.
pub struct MacroDefinition {
    pub namespace: Namespace,
    pub name: String,
    pub parameters: Vec<String>,
    pub body: String,
    pub has_separate_scope: bool,
}

/// The view of a stored definition.
pub open spec fn def_view(d: &MacroDefinition) -> DefView {
    DefView {
        name: d.name@,
        params: string_views(d.parameters@),
        body: d.body@,
        sep: d.has_separate_scope,
    }
}

fn body_run_exec(ls: &[Vec<char>], d: usize) -> (r: usize)
    ensures
        r as int == body_run(views_of(ls@), d as int),
    decreases ls@.len(),
{
    proof {
        lemma_body_run(views_of(ls@), d as int);
    }
    if ls.len() > 0 {
        let first = vstd::slice::slice_index_get(ls, 0);
        let lt = leading_tabs_exec(first.as_slice());
        if lt > d {
            let rec = body_run_exec(vstd::slice::slice_subrange(ls, 1, ls.len()), d);
            proof {
                assert(views_of(ls@.skip(1)) =~= views_of(ls@).skip(1));
                lemma_body_run(views_of(ls@).skip(1), d as int);
            }
            return 1 + rec;
        }
    }
    0
}

impl MacroDefinition {
    /// Reads the definition whose header is `lines[0]`: its body is the run
    /// of following lines indented deeper than the header, stored dedented
    /// by one level. Returns the definition and how many lines it spanned.
    pub fn new(namespace: &Namespace, lines: &[Vec<char>]) -> (r: (MacroDefinition, usize))
        requires
            lines@.len() > 0,
            is_def_header(views_of(lines@)[0]),
        ensures
            def_view(&r.0) == def_at(views_of(lines@)),
            r.0.namespace == *namespace,
            r.1 as int == def_consumed(views_of(lines@)),
            1 <= r.1 <= lines@.len(),
    {
        let ghost lsv = views_of(lines@);
        let header = vstd::slice::slice_index_get(lines, 0);
        assert(header@ == lsv[0]);
        let d = leading_tabs_exec(header.as_slice());
        let ts = tokens_exec(header.as_slice());
        assert(views_of(ts@) == tokens(lsv[0]));
        let name = chars_to_string(vstd::slice::slice_index_get(ts.as_slice(), 2));
        let mut parameters: Vec<String> = Vec::new();
        let mut i: usize = 3;
        while i < ts.len()
            invariant
                3 <= i <= ts@.len(),
                views_of(ts@) == tokens(lsv[0]),
                tokens(lsv[0]).len() >= 3,
                string_views(parameters@) =~= tokens(lsv[0]).subrange(3, i as int),
            decreases ts@.len() - i,
        {
            let ghost before = parameters@;
            parameters.push(chars_to_string(vstd::slice::slice_index_get(ts.as_slice(), i)));
            proof {
                assert(string_views(parameters@) =~= string_views(before).push(
                    views_of(ts@)[i as int],
                ));
                assert(string_views(parameters@) =~= tokens(lsv[0]).subrange(3, i + 1));
            }
            i += 1;
        }
        assert(string_views(parameters@) =~= tokens(lsv[0]).skip(3));
        let rest = vstd::slice::slice_subrange(lines, 1, lines.len());
        proof {
            assert(views_of(rest@) =~= lsv.skip(1));
            lemma_body_run(lsv.skip(1), d as int);
        }
        let b = body_run_exec(rest, d);
        let mut dedented: Vec<Vec<char>> = Vec::new();
        let mut j: usize = 0;
        while j < b
            invariant
                0 <= j <= b,
                b as int == body_run(lsv.skip(1), d as int),
                b < lines@.len(),
                lsv == views_of(lines@),
                lines@.len() > 0,
                forall|m: int| 0 <= m < b ==> leading_tabs(lsv.skip(1)[m]) > d,
                dedented@.len() == j,
                forall|m: int| 0 <= m < j ==> dedented@[m]@ == lsv.skip(1)[m].skip(d + 1),
            decreases b - j,
        {
            let line = vstd::slice::slice_index_get(lines, j + 1);
            assert(line@ == lsv.skip(1)[j as int]);
            let llen = line.len();
            proof {
                lemma_leading_tabs(line@);
                assert(leading_tabs(line@) > d);
                assert(d + 1 <= llen);
            }
            dedented.push(
                vstd::slice::slice_to_vec(
                    vstd::slice::slice_subrange(line.as_slice(), d + 1, llen),
                ),
            );
            j += 1;
        }
        proof {
            assert(views_of(dedented@) =~= dedent_by(lsv.skip(1).take(b as int), d + 1));
        }
        let ws = str_to_chars("with scope");
        let sep = dedented.len() > 0 && eq_chars(
            vstd::slice::slice_index_get(dedented.as_slice(), 0).as_slice(),
            ws.as_slice(),
        );
        let stored = if sep {
            vstd::slice::slice_subrange(dedented.as_slice(), 1, dedented.len())
        } else {
            vstd::slice::slice_subrange(dedented.as_slice(), 0, dedented.len())
        };
        proof {
            if sep {
                assert(views_of(stored@) =~= views_of(dedented@).skip(1));
            } else {
                assert(views_of(stored@) =~= views_of(dedented@));
            }
        }
        let body = chars_to_string(&join_lines_exec(stored));
        let def = MacroDefinition {
            namespace: namespace.duplicate(),
            name,
            parameters,
            body,
            has_separate_scope: sep,
        };
        (def, 1 + b)
    }

    /// The expansion of one call as a single text: the substituted body,
    /// every line closed by a newline.
    pub fn call_into_string(&self, parameters: &Vec<String>) -> (r: String)
        ensures
            r@ == concat_with_newlines(
                spec_lines(subst_params(self.body@, string_views(self.parameters@), string_views(parameters@))),
            ),
    {
        let mut out: Vec<String> = Vec::new();
        self.call_into_code(parameters, &mut out, 0);
        let mut r: Vec<char> = Vec::new();
        let ghost outv = out@;
        let mut i: usize = 0;
        proof {
            lemma_tabs_zero();
        }
        while i < out.len()
            invariant
                0 <= i <= outv.len(),
                out@ == outv,
                r@ =~= concat_all(string_views(outv).take(i as int)),
            decreases outv.len() - i,
        {
            let mut piece = str_to_chars(out[i].as_str());
            r.append(&mut piece);
            proof {
                lemma_concat_all_extend(string_views(outv), i as int);
            }
            i += 1;
        }
        proof {
            assert(string_views(outv).take(outv.len() as int) =~= string_views(outv));
            lemma_concat_indented_zero(
                spec_lines(subst_params(self.body@, string_views(self.parameters@), string_views(parameters@))),
            );
        }
        chars_to_string(&r)
    }

    /// Pushes the expansion of one call line by line onto `out`, each line
    /// prefixed by `indent` tabs and closed by a newline.
    pub fn call_into_code(&self, parameters: &Vec<String>, out: &mut Vec<String>, indent: usize)
        ensures
            string_views(final(out)@) == string_views(old(out)@) + indented_nl_lines(
                spec_lines(subst_params(self.body@, string_views(self.parameters@), string_views(parameters@))),
                indent as int,
            ),
    {
        let body_chars = str_to_chars(self.body.as_str());
        let mut args: Vec<Vec<char>> = Vec::new();
        let mut i: usize = 0;
        while i < parameters.len()
            invariant
                0 <= i <= parameters@.len(),
                views_of(args@) =~= string_views(parameters@).take(i as int),
            decreases parameters@.len() - i,
        {
            let ghost before = args@;
            args.push(str_to_chars(parameters[i].as_str()));
            proof {
                assert(views_of(args@) =~= views_of(before).push(parameters@[i as int]@));
            }
            i += 1;
        }
        assert(views_of(args@) =~= string_views(parameters@));
        let substituted = subst_params_exec(body_chars, &self.parameters, &args);
        let ls = lines_of(substituted.as_slice());
        let mut tabs_exec: Vec<char> = Vec::new();
        let mut t: usize = 0;
        while t < indent
            invariant
                0 <= t <= indent,
                tabs_exec@ =~= tabs(t as int),
            decreases indent - t,
        {
            tabs_exec.push('\t');
            proof {
                lemma_tabs_snoc(t as int);
            }
            t += 1;
        }
        let ghost lsv = views_of(ls@);
        let ghost out0 = out@;
        let mut j: usize = 0;
        while j < ls.len()
            invariant
                0 <= j <= lsv.len(),
                lsv == views_of(ls@),
                tabs_exec@ == tabs(indent as int),
                string_views(out@) =~= string_views(out0) + indented_nl_lines(
                    lsv.take(j as int),
                    indent as int,
                ),
            decreases lsv.len() - j,
        {
            let mut piece = vstd::slice::slice_to_vec(tabs_exec.as_slice());
            let mut line = vstd::slice::slice_to_vec(
                vstd::slice::slice_index_get(ls.as_slice(), j).as_slice(),
            );
            assert(line@ == lsv[j as int]);
            piece.append(&mut line);
            piece.push('\n');
            assert(piece@ =~= tabs(indent as int) + lsv[j as int] + seq!['\n']);
            let ghost outb = out@;
            out.push(chars_to_string(&piece));
            proof {
                assert(string_views(out@) =~= string_views(outb).push(
                    tabs(indent as int) + lsv[j as int] + seq!['\n'],
                ));
                lemma_indented_nl_lines_extend(lsv, indent as int, j as int);
            }
            j += 1;
        }
        assert(lsv.take(lsv.len() as int) =~= lsv);
    }
}

/// `n` tab characters.
pub open spec fn tabs(n: int) -> Seq<char>
    decreases n,
{
    if n <= 0 {
        Seq::empty()
    } else {
        seq!['\t'] + tabs(n - 1)
    }
}

proof fn lemma_tabs_zero()
    ensures
        tabs(0) == Seq::<char>::empty(),
{
}

proof fn lemma_tabs_snoc(n: int)
    requires
        n >= 0,
    ensures
        tabs(n + 1) == tabs(n) + seq!['\t'],
    decreases n,
{
    if n == 0 {
        assert(tabs(1) =~= tabs(0) + seq!['\t']);
    } else {
        lemma_tabs_snoc(n - 1);
        assert(tabs(n + 1) =~= seq!['\t'] + tabs(n));
        assert(tabs(n) + seq!['\t'] =~= seq!['\t'] + (tabs(n - 1) + seq!['\t']));
    }
}

/// Each line prefixed by `ind` tabs and closed by a newline.
pub open spec fn indented_nl_lines(ls: Seq<Seq<char>>, ind: int) -> Seq<Seq<char>> {
    ls.map_values(|l: Seq<char>| tabs(ind) + l + seq!['\n'])
}

proof fn lemma_indented_nl_lines_extend(ls: Seq<Seq<char>>, ind: int, j: int)
    requires
        0 <= j < ls.len(),
    ensures
        indented_nl_lines(ls.take(j + 1), ind) == indented_nl_lines(ls.take(j), ind).push(
            tabs(ind) + ls[j] + seq!['\n'],
        ),
{
    assert(indented_nl_lines(ls.take(j + 1), ind) =~= indented_nl_lines(ls.take(j), ind).push(
        tabs(ind) + ls[j] + seq!['\n'],
    ));
}

/// The concatenation of the pieces, in order.
pub open spec fn concat_all(ls: Seq<Seq<char>>) -> Seq<char>
    decreases ls.len(),
{
    if ls.len() == 0 {
        Seq::empty()
    } else {
        concat_all(ls.take(ls.len() - 1)) + ls.last()
    }
}

proof fn lemma_concat_all_extend(ls: Seq<Seq<char>>, j: int)
    requires
        0 <= j < ls.len(),
    ensures
        concat_all(ls.take(j + 1)) == concat_all(ls.take(j)) + ls[j],
{
    assert(ls.take(j + 1).take(j) =~= ls.take(j));
    assert(concat_all(ls.take(j + 1)) == concat_all(ls.take(j + 1).take(j)) + ls.take(j + 1).last());
}

/// Every line closed by a newline, concatenated.
pub open spec fn concat_with_newlines(ls: Seq<Seq<char>>) -> Seq<char> {
    concat_all(ls.map_values(|l: Seq<char>| l + seq!['\n']))
}

proof fn lemma_concat_indented_zero(ls: Seq<Seq<char>>)
    ensures
        concat_all(indented_nl_lines(ls, 0)) == concat_with_newlines(ls),
{
    assert(indented_nl_lines(ls, 0) =~= ls.map_values(|l: Seq<char>| l + seq!['\n'])) by {
        assert forall|i: int| 0 <= i < ls.len() implies indented_nl_lines(ls, 0)[i] == (
        ls.map_values(|l: Seq<char>| l + seq!['\n']))[i] by {
            assert(tabs(0) + ls[i] + seq!['\n'] =~= ls[i] + seq!['\n']);
        }
    }
}

/// One memoized call, as contracts see it: the key is the macro's name with
/// the argument text joined by single spaces; the entry owns the counter
/// value its generated reference is named from, the namespace that
/// reference lives in, the argument list, and whether the generated scope
/// has been materialized yet.
pub struct MemoView {
    pub name: Seq<char>,
    pub args: Seq<char>,
    pub arg_list: Seq<Seq<char>>,
    pub id: u32,
    pub ns: Seq<char>,
    pub generated: bool,
}

/// The reference a memoized call resolves to.
pub open spec fn memo_ref(m: MemoView) -> Seq<char> {
    spec_reference_name(m.ns, spec_anonymous_name(m.id))
}

/// Index of the first memo entry for `(name, args)`, `-1` if there is none.
pub open spec fn find_memo(memo: Seq<MemoView>, name: Seq<char>, args: Seq<char>) -> int
    decreases memo.len(),
{
    if memo.len() == 0 {
        -1
    } else if memo[0].name == name && memo[0].args == args {
        0
    } else {
        let r = find_memo(memo.skip(1), name, args);
        if r < 0 {
            -1
        } else {
            1 + r
        }
    }
}

pub proof fn lemma_find_memo(memo: Seq<MemoView>, name: Seq<char>, args: Seq<char>)
    ensures
        -1 <= find_memo(memo, name, args) < memo.len(),
        find_memo(memo, name, args) >= 0 ==> memo[find_memo(memo, name, args)].name == name
            && memo[find_memo(memo, name, args)].args == args,
        forall|j: int|
            0 <= j < find_memo(memo, name, args) ==> !(memo[j].name == name && memo[j].args
                == args),
        find_memo(memo, name, args) == -1 ==> forall|j: int|
            0 <= j < memo.len() ==> !(memo[j].name == name && memo[j].args == args),
    decreases memo.len(),
{
    if memo.len() == 0 {
    } else if memo[0].name == name && memo[0].args == args {
    } else {
        lemma_find_memo(memo.skip(1), name, args);
        assert forall|j: int| 1 <= j < memo.len() implies memo[j] == memo.skip(1)[j - 1] by {}
    }
}

/// Index of the first definition named `name`, `-1` if there is none.
pub open spec fn find_def(defs: Seq<DefView>, name: Seq<char>) -> int
    decreases defs.len(),
{
    if defs.len() == 0 {
        -1
    } else if defs[0].name == name {
        0
    } else {
        let r = find_def(defs.skip(1), name);
        if r < 0 {
            -1
        } else {
            1 + r
        }
    }
}

pub proof fn lemma_find_def(defs: Seq<DefView>, name: Seq<char>)
    ensures
        -1 <= find_def(defs, name) < defs.len(),
        find_def(defs, name) >= 0 ==> defs[find_def(defs, name)].name == name,
        forall|j: int| 0 <= j < find_def(defs, name) ==> defs[j].name != name,
        find_def(defs, name) == -1 ==> forall|j: int| 0 <= j < defs.len() ==> defs[j].name != name,
    decreases defs.len(),
{
    if defs.len() == 0 {
    } else if defs[0].name == name {
    } else {
        lemma_find_def(defs.skip(1), name);
        assert forall|j: int| 1 <= j < defs.len() implies defs[j] == defs.skip(1)[j - 1] by {}
    }
}

/// No two memo entries share a key.
pub open spec fn memo_keys_unique(memo: Seq<MemoView>) -> bool {
    forall|i: int, j: int|
        0 <= i < j < memo.len() ==> !(memo[i].name == memo[j].name && memo[i].args
            == memo[j].args)
}

/// Every memoized counter value lies strictly above the counter itself:
/// the descending allocator hands out each next value below everything it
/// has already recorded.
pub open spec fn memo_ids_fresh(memo: Seq<MemoView>, next: int) -> bool {
    forall|m: int| 0 <= m < memo.len() ==> #[trigger] memo[m].id as int > next
}

/// No two memo entries share a counter value, so no two generated
/// references share a name: every generated scope of the stage is named
/// from its own entry's value.
pub open spec fn memo_ids_distinct(memo: Seq<MemoView>) -> bool {
    forall|i: int, j: int|
        #![trigger memo[i].id, memo[j].id]
        0 <= i < j < memo.len() ==> memo[i].id != memo[j].id
}

/// A scope the expansion minted, as contracts see it.
pub struct PushedScope {
    pub name: Seq<char>,
    pub ns: Seq<char>,
    pub content: Seq<char>,
}

/// What resolving one line leaves behind.
pub struct LineOut {
    pub out_lines: Seq<Seq<char>>,
    pub memo: Seq<MemoView>,
    pub next_id: int,
    pub pushed: Seq<PushedScope>,
    pub polluted: bool,
}

/// The macro name a call line invokes: the first word of the payload after
/// the first occurrence of `call`.
pub open spec fn call_name(payload: Seq<char>) -> Seq<char> {
    if tokens(payload).len() > 0 {
        tokens(payload)[0]
    } else {
        Seq::empty()
    }
}

/// The positional arguments of a call line: the remaining payload words.
pub open spec fn call_args(payload: Seq<char>) -> Seq<Seq<char>> {
    if tokens(payload).len() > 0 {
        tokens(payload).skip(1)
    } else {
        Seq::empty()
    }
}

/// Resolving one line against the known definitions and the memo table.
/// A line without the substring `call` passes through. Otherwise the line
/// splits at the first `call` into a kept prefix and a payload naming the
/// macro and its arguments; a memoized key resolves to its recorded
/// reference; a known separate-scope macro mints a scope and memoizes it; a
/// known inline macro splices its substituted body, each line behind the
/// prefix's leading tabs, and marks the scope polluted; an unknown macro is
/// a forward reference: it is memoized to a fresh reference, materialized
/// only by the closing pass.
pub open spec fn process_line(
    line: Seq<char>,
    defs: Seq<DefView>,
    memo: Seq<MemoView>,
    next: int,
    ns: Seq<char>,
) -> LineOut {
    let f = find_sub(line, "call"@);
    if f < 0 {
        LineOut {
            out_lines: seq![line],
            memo,
            next_id: next,
            pushed: Seq::empty(),
            polluted: false,
        }
    } else {
        let prefix = line.take(f);
        let payload = line.skip(f + 4);
        let nm = call_name(payload);
        let args = call_args(payload);
        let argstr = join_spaces(args);
        let m = find_memo(memo, nm, argstr);
        if m >= 0 {
            LineOut {
                out_lines: seq![prefix + "function "@ + memo_ref(memo[m])],
                memo,
                next_id: next,
                pushed: Seq::empty(),
                polluted: false,
            }
        } else {
            let d = find_def(defs, nm);
            if d >= 0 && defs[d].sep {
                let entry = MemoView {
                    name: nm,
                    args: argstr,
                    arg_list: args,
                    id: next as u32,
                    ns,
                    generated: true,
                };
                LineOut {
                    out_lines: seq![prefix + "function "@ + memo_ref(entry)],
                    memo: memo.push(entry),
                    next_id: next - 1,
                    pushed: seq![
                        PushedScope {
                            name: spec_anonymous_name(next as u32),
                            ns,
                            content: subst_params(defs[d].body, defs[d].params, args),
                        },
                    ],
                    polluted: false,
                }
            } else if d >= 0 {
                let ind = prefix.take(leading_tabs(prefix));
                LineOut {
                    out_lines: spec_lines(subst_params(defs[d].body, defs[d].params, args))
                        .map_values(|l: Seq<char>| ind + l),
                    memo,
                    next_id: next,
                    pushed: Seq::empty(),
                    polluted: true,
                }
            } else {
                let entry = MemoView {
                    name: nm,
                    args: argstr,
                    arg_list: args,
                    id: next as u32,
                    ns,
                    generated: false,
                };
                LineOut {
                    out_lines: seq![prefix + "function "@ + memo_ref(entry)],
                    memo: memo.push(entry),
                    next_id: next - 1,
                    pushed: Seq::empty(),
                    polluted: false,
                }
            }
        }
    }
}

/// What one pass over a scope's kept lines leaves behind.
pub struct PassOut {
    pub out_lines: Seq<Seq<char>>,
    pub memo: Seq<MemoView>,
    pub next_id: int,
    pub pushed: Seq<PushedScope>,
    pub polluted: bool,
}

/// Resolving the lines in order, the memo table and the counter threading
/// through.
pub open spec fn process_lines(
    ls: Seq<Seq<char>>,
    defs: Seq<DefView>,
    memo: Seq<MemoView>,
    next: int,
    ns: Seq<char>,
) -> PassOut
    decreases ls.len(),
{
    if ls.len() == 0 {
        PassOut { out_lines: Seq::empty(), memo, next_id: next, pushed: Seq::empty(), polluted: false }
    } else {
        let h = process_line(ls[0], defs, memo, next, ns);
        let rest = process_lines(ls.skip(1), defs, h.memo, h.next_id, ns);
        PassOut {
            out_lines: h.out_lines + rest.out_lines,
            memo: rest.memo,
            next_id: rest.next_id,
            pushed: h.pushed + rest.pushed,
            polluted: h.polluted || rest.polluted,
        }
    }
}

/// Memoization, the single-artifact half: resolving a line adds at most one
/// entry, only for a key the table does not hold yet, so the table never
/// maps one key twice, and each key owns exactly one generated reference.
pub proof fn lemma_memo_stays_unique(
    line: Seq<char>,
    defs: Seq<DefView>,
    memo: Seq<MemoView>,
    next: int,
    ns: Seq<char>,
)
    requires
        memo_keys_unique(memo),
    ensures
        memo_keys_unique(process_line(line, defs, memo, next, ns).memo),
{
    let lo = process_line(line, defs, memo, next, ns);
    let f = find_sub(line, "call"@);
    if f >= 0 {
        let payload = line.skip(f + 4);
        let nm = call_name(payload);
        let argstr = join_spaces(call_args(payload));
        let m = find_memo(memo, nm, argstr);
        lemma_find_memo(memo, nm, argstr);
        if m < 0 {
            assert forall|i: int, j: int|
                0 <= i < j < lo.memo.len() implies !(lo.memo[i].name == lo.memo[j].name
                && lo.memo[i].args == lo.memo[j].args) by {
                if j == memo.len() && lo.memo.len() == memo.len() + 1 {
                    assert(!(memo[i].name == nm && memo[i].args == argstr));
                }
            }
        }
    }
}

/// The uniqueness law lifted over a whole pass: the table that leaves a
/// pass of the stage maps each key once, as the table that entered it did.
pub proof fn lemma_pass_keeps_memo_unique(
    ls: Seq<Seq<char>>,
    defs: Seq<DefView>,
    memo: Seq<MemoView>,
    next: int,
    ns: Seq<char>,
)
    requires
        memo_keys_unique(memo),
    ensures
        memo_keys_unique(process_lines(ls, defs, memo, next, ns).memo),
    decreases ls.len(),
{
    if ls.len() > 0 {
        let h = process_line(ls[0], defs, memo, next, ns);
        lemma_memo_stays_unique(ls[0], defs, memo, next, ns);
        lemma_pass_keeps_memo_unique(ls.skip(1), defs, h.memo, h.next_id, ns);
    }
}

/// Anonymous-id uniqueness at the descending allocator: resolving one line
/// keeps every recorded counter value above the counter and all values
/// pairwise distinct, and the scope it may mint is named from the value
/// the counter held.
pub proof fn lemma_line_keeps_ids_fresh(
    line: Seq<char>,
    defs: Seq<DefView>,
    memo: Seq<MemoView>,
    next: int,
    ns: Seq<char>,
)
    requires
        memo_ids_fresh(memo, next),
        memo_ids_distinct(memo),
        0 <= next <= u32::MAX,
    ensures
        ({
            let lo = process_line(line, defs, memo, next, ns);
            &&& memo_ids_fresh(lo.memo, lo.next_id)
            &&& memo_ids_distinct(lo.memo)
            &&& lo.pushed.len() <= 1
            &&& lo.pushed.len() == 1 ==> lo.pushed[0].name == spec_anonymous_name(next as u32)
        }),
{
    let lo = process_line(line, defs, memo, next, ns);
    if lo.memo.len() == memo.len() + 1 {
        assert(lo.memo[memo.len() as int].id == next as u32);
        assert forall|i: int, j: int|
            #![trigger lo.memo[i].id, lo.memo[j].id]
            0 <= i < j < lo.memo.len() implies lo.memo[i].id != lo.memo[j].id by {
            if j == memo.len() {
                assert(memo[i].id as int > next);
            }
        }
    }
}

/// The freshness law lifted over a whole pass.
pub proof fn lemma_pass_keeps_ids_fresh(
    ls: Seq<Seq<char>>,
    defs: Seq<DefView>,
    memo: Seq<MemoView>,
    next: int,
    ns: Seq<char>,
)
    requires
        memo_ids_fresh(memo, next),
        memo_ids_distinct(memo),
        next <= u32::MAX,
        process_lines(ls, defs, memo, next, ns).next_id >= 0,
    ensures
        memo_ids_fresh(
            process_lines(ls, defs, memo, next, ns).memo,
            process_lines(ls, defs, memo, next, ns).next_id,
        ),
        memo_ids_distinct(process_lines(ls, defs, memo, next, ns).memo),
    decreases ls.len(),
{
    if ls.len() > 0 {
        let h = process_line(ls[0], defs, memo, next, ns);
        lemma_lines_next_monotone(ls.skip(1), defs, h.memo, h.next_id, ns);
        assert(h.next_id >= 0);
        lemma_line_keeps_ids_fresh(ls[0], defs, memo, next, ns);
        lemma_pass_keeps_ids_fresh(ls.skip(1), defs, h.memo, h.next_id, ns);
    }
}

/// The counter only ever descends: resolving lines never raises it, and
/// one line lowers it by at most one.
pub proof fn lemma_lines_next_monotone(
    ls: Seq<Seq<char>>,
    defs: Seq<DefView>,
    memo: Seq<MemoView>,
    next: int,
    ns: Seq<char>,
)
    ensures
        process_lines(ls, defs, memo, next, ns).next_id <= next,
    decreases ls.len(),
{
    if ls.len() > 0 {
        let h = process_line(ls[0], defs, memo, next, ns);
        assert(h.next_id <= next);
        lemma_lines_next_monotone(ls.skip(1), defs, h.memo, h.next_id, ns);
    }
}

/// The definitions declared in a line sequence, and the lines that remain
/// once every definition block is removed.
pub struct Extracted {
    pub defs: Seq<DefView>,
    pub kept: Seq<Seq<char>>,
}

/// Separates definition blocks from the line stream, in order. A line whose
/// first two words are not `generate function` (a bare `generate` line
/// included) passes through.
pub open spec fn extract_definitions(ls: Seq<Seq<char>>) -> Extracted
    decreases ls.len(),
    via extract_definitions_decreases
{
    if ls.len() == 0 {
        Extracted { defs: Seq::empty(), kept: Seq::empty() }
    } else if is_def_header(ls[0]) {
        let c = def_consumed(ls);
        let rest = extract_definitions(ls.skip(c));
        Extracted { defs: seq![def_at(ls)] + rest.defs, kept: rest.kept }
    } else {
        let rest = extract_definitions(ls.skip(1));
        Extracted { defs: rest.defs, kept: seq![ls[0]] + rest.kept }
    }
}

#[via_fn]
proof fn extract_definitions_decreases(ls: Seq<Seq<char>>) {
    if ls.len() > 0 && is_def_header(ls[0]) {
        lemma_body_run(ls.skip(1), leading_tabs(ls[0]));
    }
}

/// What one whole pass over a scope leaves behind.
pub struct ScopePassOut {
    pub content: Seq<char>,
    pub defs: Seq<DefView>,
    pub memo: Seq<MemoView>,
    pub next_id: int,
    pub pushed: Seq<PushedScope>,
    pub polluted: bool,
}

/// One pass of the stage over one scope: definitions are extracted first,
/// so a call resolves against every definition of its own scope wherever
/// the block stands; the remaining lines are then resolved in order.
#[verifier::opaque]
pub open spec fn spec_process_scope(
    content: Seq<char>,
    defs: Seq<DefView>,
    memo: Seq<MemoView>,
    next: int,
    ns: Seq<char>,
) -> ScopePassOut {
    let ex = extract_definitions(spec_lines(content));
    let defs2 = defs + ex.defs;
    let pl = process_lines(ex.kept, defs2, memo, next, ns);
    ScopePassOut {
        content: join_lines(pl.out_lines),
        defs: defs2,
        memo: pl.memo,
        next_id: pl.next_id,
        pushed: pl.pushed,
        polluted: pl.polluted,
    }
}

/// The uniqueness law over one whole scope pass.
pub proof fn lemma_scope_pass_keeps_memo_unique(
    content: Seq<char>,
    defs: Seq<DefView>,
    memo: Seq<MemoView>,
    next: int,
    ns: Seq<char>,
)
    requires
        memo_keys_unique(memo),
    ensures
        memo_keys_unique(spec_process_scope(content, defs, memo, next, ns).memo),
{
    reveal(spec_process_scope);
    let ex = extract_definitions(spec_lines(content));
    lemma_pass_keeps_memo_unique(ex.kept, defs + ex.defs, memo, next, ns);
}

/// The freshness law over one whole scope pass.
pub proof fn lemma_scope_pass_keeps_ids_fresh(
    content: Seq<char>,
    defs: Seq<DefView>,
    memo: Seq<MemoView>,
    next: int,
    ns: Seq<char>,
)
    requires
        memo_ids_fresh(memo, next),
        memo_ids_distinct(memo),
        0 <= next <= u32::MAX,
        spec_process_scope(content, defs, memo, next, ns).next_id >= 0,
    ensures
        memo_ids_fresh(
            spec_process_scope(content, defs, memo, next, ns).memo,
            spec_process_scope(content, defs, memo, next, ns).next_id,
        ),
        memo_ids_distinct(spec_process_scope(content, defs, memo, next, ns).memo),
{
    reveal(spec_process_scope);
    let ex = extract_definitions(spec_lines(content));
    lemma_pass_keeps_ids_fresh(ex.kept, defs + ex.defs, memo, next, ns);
}

/// A scope as the drain relation sees it: its name, its owning namespace's
/// name, and its content.
pub struct ScRec {
    pub name: Seq<char>,
    pub ns: Seq<char>,
    pub content: Seq<char>,
}

/// The record of one scope value.
pub open spec fn sc_rec(s: Scope) -> ScRec {
    ScRec { name: s.name@, ns: s.namespace.name@, content: s.content@ }
}

/// The records of a scope sequence.
pub open spec fn sc_recs(ss: Seq<Scope>) -> Seq<ScRec> {
    ss.map_values(|s: Scope| sc_rec(s))
}

/// The records of the scopes a pass minted.
pub open spec fn pushed_recs(ps: Seq<PushedScope>) -> Seq<ScRec> {
    ps.map_values(|p: PushedScope| ScRec { name: p.name, ns: p.ns, content: p.content })
}

/// Index of the first memo entry whose scope was never materialized, `-1`
/// if every entry was.
pub open spec fn first_ungenerated(memo: Seq<MemoView>) -> int
    decreases memo.len(),
{
    if memo.len() == 0 {
        -1
    } else if !memo[0].generated {
        0
    } else {
        let r = first_ungenerated(memo.skip(1));
        if r < 0 {
            -1
        } else {
            1 + r
        }
    }
}

pub proof fn lemma_first_ungenerated(memo: Seq<MemoView>)
    ensures
        -1 <= first_ungenerated(memo) < memo.len(),
        first_ungenerated(memo) >= 0 ==> !memo[first_ungenerated(memo)].generated,
        forall|j: int| 0 <= j < first_ungenerated(memo) ==> memo[j].generated,
        first_ungenerated(memo) == -1 ==> forall|j: int|
            0 <= j < memo.len() ==> memo[j].generated,
    decreases memo.len(),
{
    if memo.len() == 0 {
    } else if !memo[0].generated {
    } else {
        lemma_first_ungenerated(memo.skip(1));
        assert forall|j: int| 1 <= j < memo.len() implies memo[j] == memo.skip(1)[j - 1] by {}
    }
}

/// The whole state of the macro stage mid-drain: the upstream scopes still
/// unread (top of `stack` next), the pending buffer, the accumulated
/// definitions and memo table, the descending counter, and the scopes
/// already yielded downstream.
pub struct DrainState {
    pub stack: Seq<ScRec>,
    pub buffer: Seq<ScRec>,
    pub defs: Seq<DefView>,
    pub memo: Seq<MemoView>,
    pub next_id: int,
    pub finished: Seq<ScRec>,
}

/// How a drain of the stage ends.
pub enum DrainEnd {
    /// Every scope settled: the yielded scopes, in order, and the value
    /// the descending counter ends at — every counter value the stage
    /// handed out lies strictly above it.
    Finished(Seq<ScRec>, int),
    /// A call named this macro and no definition ever arrived.
    Missing(Seq<char>),
    /// The work budget ran out before the expansion settled.
    OutOfBudget,
    /// The descending counter ran out of 32-bit values.
    OutOfIds,
}

/// The drain relation: what the macro stage leaves behind, given its state
/// and a work budget. One unit of budget pays for one pass over one scope,
/// or for one closing replay of the definitions. Upstream scopes are pulled
/// first, then the pending buffer, newest first; an unpolluted scope is
/// yielded, a polluted one goes back to the buffer; when everything is
/// drained, the closing pass materializes what forward references left
/// behind, until it produces nothing — any entry still unmaterialized then
/// names a macro that was never defined, which is fatal.
#[verifier::opaque]
pub open spec fn drain(st: DrainState, fuel: nat) -> DrainEnd
    decreases fuel,
{
    if fuel == 0 {
        DrainEnd::OutOfBudget
    } else if st.stack.len() > 0 || st.buffer.len() > 0 {
        let from_stack = st.stack.len() > 0;
        let sc = if from_stack {
            st.stack.last()
        } else {
            st.buffer.last()
        };
        let sp = spec_process_scope(sc.content, st.defs, st.memo, st.next_id, sc.ns);
        if sp.next_id < 0 {
            DrainEnd::OutOfIds
        } else {
            let stack2 = if from_stack {
                st.stack.drop_last()
            } else {
                st.stack
            };
            let buffer1 = if from_stack {
                st.buffer
            } else {
                st.buffer.drop_last()
            };
            let buffer2 = buffer1 + pushed_recs(sp.pushed);
            let processed = ScRec { name: sc.name, ns: sc.ns, content: sp.content };
            let st2 = DrainState {
                stack: stack2,
                buffer: if sp.polluted {
                    buffer2.push(processed)
                } else {
                    buffer2
                },
                defs: sp.defs,
                memo: sp.memo,
                next_id: sp.next_id,
                finished: if sp.polluted {
                    st.finished
                } else {
                    st.finished.push(processed)
                },
            };
            drain(st2, (fuel - 1) as nat)
        }
    } else {
        let cl = spec_closing(st.defs, st.memo, 0);
        if cl.pushed.len() > 0 {
            let st2 = DrainState {
                stack: st.stack,
                buffer: st.buffer + pushed_recs(cl.pushed),
                defs: st.defs,
                memo: cl.memo,
                next_id: st.next_id,
                finished: st.finished,
            };
            drain(st2, (fuel - 1) as nat)
        } else if first_ungenerated(st.memo) >= 0 {
            DrainEnd::Missing(st.memo[first_ungenerated(st.memo)].name)
        } else {
            DrainEnd::Finished(st.finished, st.next_id)
        }
    }
}

/// What replaying the definitions against the memo table leaves behind.
pub struct CloseOut {
    pub memo: Seq<MemoView>,
    pub pushed: Seq<PushedScope>,
}

/// The closing pass from entry `i` on: each entry whose scope was never
/// materialized, and whose macro is defined by now, is generated under its
/// memoized reference and marked; the rest stand.
pub open spec fn spec_closing(defs: Seq<DefView>, memo: Seq<MemoView>, i: int) -> CloseOut
    decreases memo.len() - i,
{
    if i < 0 || i >= memo.len() {
        CloseOut { memo, pushed: Seq::empty() }
    } else {
        let e = memo[i];
        let d = find_def(defs, e.name);
        if !e.generated && d >= 0 {
            let e2 = MemoView {
                name: e.name,
                args: e.args,
                arg_list: e.arg_list,
                id: e.id,
                ns: e.ns,
                generated: true,
            };
            let rest = spec_closing(defs, memo.update(i, e2), i + 1);
            CloseOut {
                memo: rest.memo,
                pushed: seq![
                    PushedScope {
                        name: spec_anonymous_name(e.id),
                        ns: e.ns,
                        content: subst_params(defs[d].body, defs[d].params, e.arg_list),
                    },
                ] + rest.pushed,
            }
        } else {
            spec_closing(defs, memo, i + 1)
        }
    }
}

/// A closing pass that generated nothing leaves the table as it stands,
/// and then every entry still unmaterialized names a macro that has no
/// definition anywhere in the run.
pub proof fn lemma_closing_done(defs: Seq<DefView>, memo: Seq<MemoView>, i: int)
    requires
        i >= 0,
        spec_closing(defs, memo, i).pushed.len() == 0,
    ensures
        spec_closing(defs, memo, i).memo == memo,
        forall|j: int|
            i <= j < memo.len() && !memo[j].generated ==> find_def(defs, memo[j].name) == -1,
    decreases memo.len() - i,
{
    if 0 <= i < memo.len() {
        let e = memo[i];
        let d = find_def(defs, e.name);
        if !e.generated && d >= 0 {
            assert(spec_closing(defs, memo, i).pushed.len() >= 1);
        } else {
            lemma_closing_done(defs, memo, i + 1);
            lemma_find_def(defs, e.name);
            assert forall|j: int|
                i <= j < memo.len() && !memo[j].generated implies find_def(defs, memo[j].name)
                == -1 by {
                if j == i {
                    assert(find_def(defs, memo[i].name) < 0);
                }
            }
        }
    }
}

/// The closing pass only flips `generated` marks: every entry keeps its
/// key and its counter value, so a table that mapped each key once still
/// does, and the recorded values stay pairwise distinct and fresh.
pub proof fn lemma_closing_keeps_memo_unique(defs: Seq<DefView>, memo: Seq<MemoView>, i: int)
    ensures
        spec_closing(defs, memo, i).memo.len() == memo.len(),
        forall|j: int|
            0 <= j < memo.len() ==> #[trigger] spec_closing(defs, memo, i).memo[j].name
                == memo[j].name && spec_closing(defs, memo, i).memo[j].args == memo[j].args
                && spec_closing(defs, memo, i).memo[j].id == memo[j].id,
        memo_keys_unique(memo) ==> memo_keys_unique(spec_closing(defs, memo, i).memo),
        memo_ids_distinct(memo) ==> memo_ids_distinct(spec_closing(defs, memo, i).memo),
        forall|n: int|
            #![trigger memo_ids_fresh(memo, n)]
            memo_ids_fresh(memo, n) ==> memo_ids_fresh(spec_closing(defs, memo, i).memo, n),
    decreases memo.len() - i,
{
    if 0 <= i < memo.len() {
        let e = memo[i];
        let d = find_def(defs, e.name);
        if !e.generated && d >= 0 {
            let e2 = MemoView {
                name: e.name,
                args: e.args,
                arg_list: e.arg_list,
                id: e.id,
                ns: e.ns,
                generated: true,
            };
            let updated = memo.update(i, e2);
            lemma_closing_keeps_memo_unique(defs, updated, i + 1);
            assert forall|j: int|
                0 <= j < memo.len() implies #[trigger] updated[j].name == memo[j].name
                && updated[j].args == memo[j].args && updated[j].id == memo[j].id by {}
            if memo_keys_unique(memo) {
                assert(memo_keys_unique(updated));
            }
            if memo_ids_distinct(memo) {
                assert(memo_ids_distinct(updated));
            }
            assert forall|n: int|
                #![trigger memo_ids_fresh(memo, n)]
                memo_ids_fresh(memo, n) implies memo_ids_fresh(updated, n) by {
                if memo_ids_fresh(memo, n) {
                    assert forall|m: int|
                        0 <= m < updated.len() implies #[trigger] updated[m].id as int > n by {
                        assert(memo[m].id as int > n);
                    }
                }
            }
        } else {
            lemma_closing_keeps_memo_unique(defs, memo, i + 1);
        }
    }
}

/// One recorded invocation of a macro: the counter value its generated
/// scope is named from, and the argument list it was made with.
pub struct MacroCall {
    pub scope_id: u32,
    pub parameters: Vec<String>,
}

impl MacroCall {
    /// A record of one invocation.
    pub fn new(scope_id: u32, parameters: Vec<String>) -> (r: MacroCall)
        ensures
            r.scope_id == scope_id,
            r.parameters == parameters,
    {
        MacroCall { scope_id, parameters }
    }

    /// The definition's body with this call's arguments substituted for the
    /// parameters, positionally.
    pub fn get_content(&self, definition: &MacroDefinition) -> (r: String)
        ensures
            r@ == subst_params(
                definition.body@,
                string_views(definition.parameters@),
                string_views(self.parameters@),
            ),
    {
        let body_chars = str_to_chars(definition.body.as_str());
        let mut args: Vec<Vec<char>> = Vec::new();
        let mut i: usize = 0;
        while i < self.parameters.len()
            invariant
                0 <= i <= self.parameters@.len(),
                views_of(args@) =~= string_views(self.parameters@).take(i as int),
            decreases self.parameters@.len() - i,
        {
            let ghost before = args@;
            args.push(str_to_chars(self.parameters[i].as_str()));
            proof {
                assert(views_of(args@) =~= views_of(before).push(self.parameters@[i as int]@));
            }
            i += 1;
        }
        assert(views_of(args@) =~= string_views(self.parameters@));
        let substituted = subst_params_exec(body_chars, &definition.parameters, &args);
        chars_to_string(&substituted)
    }
}

/// One memoized call as stored: key strings, the argument list, the
/// namespace of the generated reference, the counter value, and whether
/// the artifact exists yet.
pub struct MemoEntry {
    pub name: String,
    pub args: String,
    pub parameters: Vec<String>,
    pub namespace: Namespace,
    pub id: u32,
    pub generated: bool,
}

/// The view of a stored memo entry.
pub open spec fn memo_view(e: MemoEntry) -> MemoView {
    MemoView {
        name: e.name@,
        args: e.args@,
        arg_list: string_views(e.parameters@),
        id: e.id,
        ns: e.namespace.name@,
        generated: e.generated,
    }
}

/// The views of the stored memo table.
pub open spec fn memo_views(s: Seq<MemoEntry>) -> Seq<MemoView> {
    s.map_values(|e: MemoEntry| memo_view(e))
}

/// The views of the stored definitions.
pub open spec fn def_views(s: Seq<MacroDefinition>) -> Seq<DefView> {
    s.map_values(
        |d: MacroDefinition|
            DefView {
                name: d.name@,
                params: string_views(d.parameters@),
                body: d.body@,
                sep: d.has_separate_scope,
            },
    )
}

/// The reference name `<ns>:<anonymous path of id>`, as characters.
fn reference_chars(ns: &Namespace, id: u32) -> (r: Vec<char>)
    ensures
        r@ == spec_reference_name(ns.name@, spec_anonymous_name(id)),
{
    let mut r = str_to_chars(ns.name.as_str());
    r.push(':');
    let anon = anonymous_name(id);
    let mut tail = str_to_chars(anon.as_str());
    r.append(&mut tail);
    assert(r@ =~= spec_reference_name(ns.name@, spec_anonymous_name(id)));
    r
}

/// `<prefix>function <reference>`, the rewritten form of a resolved call.
fn emit_call_line(prefix: &[char], reference: &[char]) -> (r: Vec<char>)
    ensures
        r@ == prefix@ + "function "@ + reference@,
{
    let mut r = vstd::slice::slice_to_vec(prefix);
    let mut kw = str_to_chars("function ");
    r.append(&mut kw);
    let mut rc = vstd::slice::slice_to_vec(reference);
    r.append(&mut rc);
    assert(r@ =~= prefix@ + "function "@ + reference@);
    r
}

fn find_memo_exec(calls: &Vec<MemoEntry>, name: &[char], args: &[char]) -> (r: Option<usize>)
    ensures
        r.is_none() ==> find_memo(memo_views(calls@), name@, args@) == -1,
        r.is_some() ==> find_memo(memo_views(calls@), name@, args@) == r.unwrap() as int,
{
    proof {
        lemma_find_memo(memo_views(calls@), name@, args@);
    }
    let mut i: usize = 0;
    while i < calls.len()
        invariant
            0 <= i <= calls@.len(),
            forall|j: int|
                0 <= j < i ==> !(memo_views(calls@)[j].name == name@ && memo_views(calls@)[j].args
                    == args@),
        decreases calls@.len() - i,
    {
        let e = vstd::slice::slice_index_get(calls.as_slice(), i);
        let nm = str_to_chars(e.name.as_str());
        let ag = str_to_chars(e.args.as_str());
        if eq_chars(nm.as_slice(), name) && eq_chars(ag.as_slice(), args) {
            proof {
                lemma_find_memo(memo_views(calls@), name@, args@);
                let f = find_memo(memo_views(calls@), name@, args@);
                assert(memo_views(calls@)[i as int].name == name@);
                assert(f >= 0);
                assert(f == i as int);
            }
            return Some(i);
        }
        i += 1;
    }
    proof {
        let f = find_memo(memo_views(calls@), name@, args@);
        if f >= 0 {
            assert(!(memo_views(calls@)[f].name == name@ && memo_views(calls@)[f].args == args@));
        }
    }
    None
}

fn find_def_exec(defs: &Vec<MacroDefinition>, name: &[char]) -> (r: Option<usize>)
    ensures
        r.is_none() ==> find_def(def_views(defs@), name@) == -1,
        r.is_some() ==> find_def(def_views(defs@), name@) == r.unwrap() as int,
{
    proof {
        lemma_find_def(def_views(defs@), name@);
    }
    let mut i: usize = 0;
    while i < defs.len()
        invariant
            0 <= i <= defs@.len(),
            forall|j: int| 0 <= j < i ==> def_views(defs@)[j].name != name@,
        decreases defs@.len() - i,
    {
        let d = vstd::slice::slice_index_get(defs.as_slice(), i);
        let nm = str_to_chars(d.name.as_str());
        if eq_chars(nm.as_slice(), name) {
            proof {
                lemma_find_def(def_views(defs@), name@);
                let f = find_def(def_views(defs@), name@);
                assert(def_views(defs@)[i as int].name == name@);
                assert(f >= 0);
                assert(f == i as int);
            }
            return Some(i);
        }
        i += 1;
    }
    proof {
        let f = find_def(def_views(defs@), name@);
        if f >= 0 {
            assert(def_views(defs@)[f].name != name@);
        }
    }
    None
}

/// Turns token buffers into owned strings.
fn strings_of(ts: &[Vec<char>]) -> (r: Vec<String>)
    ensures
        string_views(r@) == views_of(ts@),
{
    let mut r: Vec<String> = Vec::new();
    let mut i: usize = 0;
    while i < ts.len()
        invariant
            0 <= i <= ts@.len(),
            string_views(r@) =~= views_of(ts@).take(i as int),
        decreases ts@.len() - i,
    {
        let ghost before = r@;
        r.push(chars_to_string(vstd::slice::slice_index_get(ts, i)));
        proof {
            assert(string_views(r@) =~= string_views(before).push(views_of(ts@)[i as int]));
        }
        i += 1;
    }
    assert(string_views(r@) =~= views_of(ts@));
    r
}

/// The macro-expansion stage: the pending scopes it still owes downstream,
/// every definition seen so far, the call memo table, and the descending
/// counter generated scopes are named from.
pub struct MacroCompiler {
    pub buffered: Vec<Scope>,
    pub definitions: Vec<MacroDefinition>,
    pub calls: Vec<MemoEntry>,
    pub next_scope_id: u32,
}

impl MacroCompiler {
    /// A fresh expansion stage: nothing seen, the counter at the top of the
    /// 32-bit space.
    pub fn new() -> (r: MacroCompiler)
        ensures
            r.buffered@.len() == 0,
            r.definitions@.len() == 0,
            r.calls@.len() == 0,
            r.next_scope_id == u32::MAX,
            memo_keys_unique(memo_views(r.calls@)),
            memo_ids_distinct(memo_views(r.calls@)),
    {
        let r = MacroCompiler {
            buffered: Vec::new(),
            definitions: Vec::new(),
            calls: Vec::new(),
            next_scope_id: u32::MAX,
        };
        proof {
            assert(memo_views(r.calls@) =~= Seq::<MemoView>::empty());
        }
        r
    }

    /// Resolves one line. Fails only when the descending counter is spent;
    /// nothing is changed then.
    fn process_line_exec(&mut self, line: &[char], ns: &Namespace) -> (r: Result<
        (Vec<Vec<char>>, bool),
        CompileError,
    >)
        ensures
            ({
                let lo = process_line(
                    line@,
                    def_views(old(self).definitions@),
                    memo_views(old(self).calls@),
                    old(self).next_scope_id as int,
                    ns.name@,
                );
                &&& final(self).definitions == old(self).definitions
                &&& r.is_ok() ==> {
                    &&& views_of(r.unwrap().0@) == lo.out_lines
                    &&& r.unwrap().1 == lo.polluted
                    &&& memo_views(final(self).calls@) == lo.memo
                    &&& final(self).next_scope_id as int == lo.next_id
                    &&& final(self).buffered@.len() == old(self).buffered@.len()
                        + lo.pushed.len()
                    &&& (forall|i: int|
                        0 <= i < old(self).buffered@.len() ==> final(self).buffered@[i] == old(
                            self,
                        ).buffered@[i])
                    &&& (forall|i: int|
                        0 <= i < lo.pushed.len() ==> {
                            &&& final(self).buffered@[old(self).buffered@.len() + i].name@
                                == lo.pushed[i].name
                            &&& final(self).buffered@[old(self).buffered@.len() + i].content@
                                == lo.pushed[i].content
                            &&& final(self).buffered@[old(self).buffered@.len()
                                + i].namespace.name@ == lo.pushed[i].ns
                        })
                }
                &&& r.is_err() ==> *final(self) == *old(self) && lo.next_id < 0 && (r matches Err(
                    CompileError::IdSpaceExhausted,
                ))
            }),
    {
        let ghost lo = process_line(
            line@,
            def_views(self.definitions@),
            memo_views(self.calls@),
            self.next_scope_id as int,
            ns.name@,
        );
        let callpat = str_to_chars("call");
        proof {
            reveal_strlit("call");
            assert(callpat@ =~= "call"@);
        }
        let llen = line.len();
        match find_sub_exec(line, callpat.as_slice()) {
            None => {
                let mut out: Vec<Vec<char>> = Vec::new();
                out.push(vstd::slice::slice_to_vec(line));
                assert(views_of(out@) =~= seq![line@]);
                Ok((out, false))
            },
            Some(f) => {
                proof {
                    lemma_find_sub(line@, "call"@);
                    assert(f + 4 <= llen);
                }
                let prefix = vstd::slice::slice_subrange(line, 0, f);
                let payload = vstd::slice::slice_subrange(line, f + 4, llen);
                assert(prefix@ =~= line@.take(f as int));
                assert(payload@ =~= line@.skip(f as int + 4));
                let ws = tokens_exec(payload);
                let mut args = ws;
                let namec: Vec<char> = if args.len() > 0 {
                    args.remove(0)
                } else {
                    Vec::new()
                };
                proof {
                    if tokens(payload@).len() > 0 {
                        assert(namec@ == call_name(payload@));
                        assert(views_of(args@) =~= call_args(payload@));
                    } else {
                        assert(namec@ =~= call_name(payload@));
                        assert(views_of(args@) =~= call_args(payload@));
                    }
                }
                let argstr = join_spaces_exec(args.as_slice());
                match find_memo_exec(&self.calls, namec.as_slice(), argstr.as_slice()) {
                    Some(m) => {
                        proof {
                            lemma_find_memo(memo_views(self.calls@), namec@, argstr@);
                        }
                        let entry = vstd::slice::slice_index_get(self.calls.as_slice(), m);
                        let refc = reference_chars(&entry.namespace, entry.id);
                        let mut out: Vec<Vec<char>> = Vec::new();
                        out.push(emit_call_line(prefix, refc.as_slice()));
                        proof {
                            assert(memo_view(self.calls@[m as int]) == memo_views(self.calls@)[m as int]);
                            assert(views_of(out@) =~= lo.out_lines);
                        }
                        Ok((out, false))
                    },
                    None => {
                        match find_def_exec(&self.definitions, namec.as_slice()) {
                            Some(d) => {
                                proof {
                                    lemma_find_def(def_views(self.definitions@), namec@);
                                }
                                let defn = vstd::slice::slice_index_get(
                                    self.definitions.as_slice(),
                                    d,
                                );
                                let body_chars = str_to_chars(defn.body.as_str());
                                let substituted = subst_params_exec(
                                    body_chars,
                                    &defn.parameters,
                                    &args,
                                );
                                if defn.has_separate_scope {
                                    if self.next_scope_id == 0 {
                                        return Err(CompileError::IdSpaceExhausted);
                                    }
                                    let id = self.next_scope_id;
                                    self.next_scope_id = id - 1;
                                    let mut sc = Scope::new_unnamed(id, ns);
                                    sc.content = chars_to_string(&substituted);
                                    self.buffered.push(sc);
                                    let entry = MemoEntry {
                                        name: chars_to_string(&namec),
                                        args: chars_to_string(&argstr),
                                        parameters: strings_of(args.as_slice()),
                                        namespace: ns.duplicate(),
                                        id,
                                        generated: true,
                                    };
                                    let ghost calls_before = self.calls@;
                                    self.calls.push(entry);
                                    let refc = reference_chars(ns, id);
                                    let mut out: Vec<Vec<char>> = Vec::new();
                                    out.push(emit_call_line(prefix, refc.as_slice()));
                                    proof {
                                        assert(memo_views(self.calls@) =~= memo_views(
                                            calls_before,
                                        ).push(
                                            MemoView {
                                                name: namec@,
                                                args: argstr@,
                                                arg_list: views_of(args@),
                                                id,
                                                ns: ns.name@,
                                                generated: true,
                                            },
                                        ));
                                        assert(views_of(out@) =~= lo.out_lines);
                                    }
                                    Ok((out, false))
                                } else {
                                    let ls = lines_of(substituted.as_slice());
                                    let plen = prefix.len();
                                    proof {
                                        lemma_leading_tabs(prefix@);
                                    }
                                    let lt = leading_tabs_exec(prefix);
                                    let ind = vstd::slice::slice_subrange(prefix, 0, lt);
                                    assert(ind@ =~= prefix@.take(leading_tabs(prefix@)));
                                    let mut out: Vec<Vec<char>> = Vec::new();
                                    let mut i: usize = 0;
                                    let ghost lsv = views_of(ls@);
                                    while i < ls.len()
                                        invariant
                                            0 <= i <= lsv.len(),
                                            lsv == views_of(ls@),
                                            ind@ == prefix@.take(leading_tabs(prefix@)),
                                            views_of(out@) =~= lsv.take(i as int).map_values(
                                                |l: Seq<char>| ind@ + l,
                                            ),
                                        decreases lsv.len() - i,
                                    {
                                        let mut piece = vstd::slice::slice_to_vec(ind);
                                        let mut lc = vstd::slice::slice_to_vec(
                                            vstd::slice::slice_index_get(ls.as_slice(), i)
                                                .as_slice(),
                                        );
                                        piece.append(&mut lc);
                                        let ghost outb = out@;
                                        out.push(piece);
                                        proof {
                                            assert(views_of(out@) =~= views_of(outb).push(
                                                ind@ + lsv[i as int],
                                            ));
                                            assert(lsv.take(i + 1).map_values(
                                                |l: Seq<char>| ind@ + l,
                                            ) =~= lsv.take(i as int).map_values(
                                                |l: Seq<char>| ind@ + l,
                                            ).push(ind@ + lsv[i as int]));
                                        }
                                        i += 1;
                                    }
                                    proof {
                                        assert(lsv.take(lsv.len() as int) =~= lsv);
                                        assert(views_of(out@) =~= lo.out_lines);
                                    }
                                    Ok((out, true))
                                }
                            },
                            None => {
                                if self.next_scope_id == 0 {
                                    return Err(CompileError::IdSpaceExhausted);
                                }
                                let id = self.next_scope_id;
                                self.next_scope_id = id - 1;
                                let entry = MemoEntry {
                                    name: chars_to_string(&namec),
                                    args: chars_to_string(&argstr),
                                    parameters: strings_of(args.as_slice()),
                                    namespace: ns.duplicate(),
                                    id,
                                    generated: false,
                                };
                                let ghost calls_before = self.calls@;
                                self.calls.push(entry);
                                let refc = reference_chars(ns, id);
                                let mut out: Vec<Vec<char>> = Vec::new();
                                out.push(emit_call_line(prefix, refc.as_slice()));
                                proof {
                                    assert(memo_views(self.calls@) =~= memo_views(
                                        calls_before,
                                    ).push(
                                        MemoView {
                                            name: namec@,
                                            args: argstr@,
                                            arg_list: views_of(args@),
                                            id,
                                            ns: ns.name@,
                                            generated: false,
                                        },
                                    ));
                                    assert(views_of(out@) =~= lo.out_lines);
                                }
                                Ok((out, false))
                            },
                        }
                    },
                }
            },
        }
    }
}

fn is_def_header_exec(l: &[char]) -> (r: bool)
    ensures
        r == is_def_header(l@),
{
    let ts = tokens_exec(l);
    if ts.len() < 3 {
        return false;
    }
    let g = str_to_chars("generate");
    let f = str_to_chars("function");
    eq_chars(vstd::slice::slice_index_get(ts.as_slice(), 0).as_slice(), g.as_slice()) && eq_chars(
        vstd::slice::slice_index_get(ts.as_slice(), 1).as_slice(),
        f.as_slice(),
    )
}

impl MacroCompiler {
    /// One pass over one scope: its definition blocks join the stage's
    /// list, its remaining lines are resolved in order, and the flag says
    /// whether an inline splice polluted the scope, which must then be
    /// reprocessed. Generated scopes land in the pending buffer. Fails only
    /// when the descending counter is spent.
    #[verifier::rlimit(100)]
    #[verifier::spinoff_prover]
    pub fn process_scope(&mut self, scope: Scope) -> (r: Result<(Scope, bool), CompileError>)
        ensures
            ({
                let sp = spec_process_scope(
                    scope.content@,
                    def_views(old(self).definitions@),
                    memo_views(old(self).calls@),
                    old(self).next_scope_id as int,
                    scope.namespace.name@,
                );
                &&& (forall|i: int|
                    0 <= i < old(self).buffered@.len() ==> final(self).buffered@[i] == old(
                        self,
                    ).buffered@[i])
                &&& (memo_keys_unique(memo_views(old(self).calls@)) ==> memo_keys_unique(
                    memo_views(final(self).calls@),
                ))
                &&& r.is_ok() ==> {
                    &&& r.unwrap().0.name == scope.name
                    &&& r.unwrap().0.namespace == scope.namespace
                    &&& r.unwrap().0.content@ == sp.content
                    &&& r.unwrap().1 == sp.polluted
                    &&& def_views(final(self).definitions@) == sp.defs
                    &&& memo_views(final(self).calls@) == sp.memo
                    &&& final(self).next_scope_id as int == sp.next_id
                    &&& final(self).buffered@.len() == old(self).buffered@.len() + sp.pushed.len()
                    &&& (forall|i: int|
                        0 <= i < sp.pushed.len() ==> {
                            &&& final(self).buffered@[old(self).buffered@.len() + i].name@
                                == sp.pushed[i].name
                            &&& final(self).buffered@[old(self).buffered@.len() + i].content@
                                == sp.pushed[i].content
                            &&& final(self).buffered@[old(self).buffered@.len()
                                + i].namespace.name@ == sp.pushed[i].ns
                        })
                }
                &&& r.is_err() ==> (r matches Err(CompileError::IdSpaceExhausted)) && sp.next_id
                    < 0
            }),
    {
        let chars = str_to_chars(scope.content.as_str());
        let ls = lines_of(chars.as_slice());
        let ghost lsv = views_of(ls@);
        let ghost ex_full = extract_definitions(lsv);
        let ghost defs0 = self.definitions@;
        let mut kept: Vec<Vec<char>> = Vec::new();
        let n = ls.len();
        let mut i: usize = 0;
        proof {
            assert(lsv.skip(0) =~= lsv);
            assert(def_views(self.definitions@).skip(defs0.len() as int) =~= Seq::<
                DefView,
            >::empty());
            assert(views_of(kept@) =~= Seq::<Seq<char>>::empty());
            assert(ex_full.defs =~= def_views(self.definitions@).skip(defs0.len() as int)
                + extract_definitions(lsv.skip(0)).defs);
            assert(ex_full.kept =~= views_of(kept@) + extract_definitions(lsv.skip(0)).kept);
        }
        while i < n
            invariant
                0 <= i <= n,
                n == ls@.len(),
                lsv == views_of(ls@),
                ex_full == extract_definitions(lsv),
                self.definitions@.len() >= defs0.len(),
                forall|j: int| 0 <= j < defs0.len() ==> self.definitions@[j] == defs0[j],
                ex_full.defs =~= def_views(self.definitions@).skip(defs0.len() as int)
                    + extract_definitions(lsv.skip(i as int)).defs,
                ex_full.kept =~= views_of(kept@) + extract_definitions(lsv.skip(i as int)).kept,
                self.calls == old(self).calls,
                self.buffered == old(self).buffered,
                self.next_scope_id == old(self).next_scope_id,
            decreases n - i,
        {
            let line = vstd::slice::slice_index_get(ls.as_slice(), i);
            assert(line@ == lsv.skip(i as int)[0]);
            if is_def_header_exec(line.as_slice()) {
                let tail = vstd::slice::slice_subrange(ls.as_slice(), i, n);
                proof {
                    assert(views_of(tail@) =~= lsv.skip(i as int));
                    lemma_body_run(lsv.skip(i as int).skip(1), leading_tabs(lsv.skip(i as int)[0]));
                }
                let (defn, consumed) = MacroDefinition::new(&scope.namespace, tail);
                let ghost defs_before = self.definitions@;
                self.definitions.push(defn);
                proof {
                    assert(def_views(self.definitions@) =~= def_views(defs_before).push(
                        def_at(lsv.skip(i as int)),
                    ));
                    assert(lsv.skip(i as int).skip(consumed as int) =~= lsv.skip(
                        i as int + consumed as int,
                    ));
                    assert(ex_full.defs =~= def_views(self.definitions@).skip(defs0.len() as int)
                        + extract_definitions(lsv.skip(i as int + consumed as int)).defs);
                    assert(ex_full.kept =~= views_of(kept@) + extract_definitions(
                        lsv.skip(i as int + consumed as int),
                    ).kept);
                }
                i += consumed;
            } else {
                let ghost kept_before = kept@;
                kept.push(vstd::slice::slice_to_vec(line.as_slice()));
                proof {
                    assert(views_of(kept@) =~= views_of(kept_before).push(lsv.skip(i as int)[0]));
                    assert(lsv.skip(i as int).skip(1) =~= lsv.skip(i as int + 1));
                    assert(ex_full.kept =~= views_of(kept@) + extract_definitions(
                        lsv.skip(i as int + 1),
                    ).kept);
                }
                i += 1;
            }
        }
        proof {
            assert(lsv.skip(n as int) =~= Seq::<Seq<char>>::empty());
            assert(ex_full.defs =~= def_views(self.definitions@).skip(defs0.len() as int));
            assert(ex_full.kept =~= views_of(kept@));
            assert(def_views(self.definitions@) =~= def_views(defs0) + ex_full.defs);
        }
        let ghost defs2 = def_views(self.definitions@);
        let ghost keptv = views_of(kept@);
        let ghost pl_full = process_lines(
            keptv,
            defs2,
            memo_views(self.calls@),
            self.next_scope_id as int,
            scope.namespace.name@,
        );
        let ghost buf_start = self.buffered@;
        let mut out_lines: Vec<Vec<char>> = Vec::new();
        let mut polluted = false;
        let kn = kept.len();
        let mut j: usize = 0;
        proof {
            assert(keptv.skip(0) =~= keptv);
            assert(views_of(out_lines@) =~= Seq::<Seq<char>>::empty());
            assert(pl_full.pushed.skip(0) =~= pl_full.pushed);
        }
        while j < kn
            invariant
                0 <= j <= kn,
                kn == kept@.len(),
                keptv == views_of(kept@),
                self.definitions@.len() == defs0.len() + ex_full.defs.len(),
                defs2 == def_views(self.definitions@),
                buf_start == old(self).buffered@,
                defs0 == old(self).definitions@,
                defs2 == def_views(old(self).definitions@) + ex_full.defs,
                lsv == spec_lines(scope.content@),
                ex_full == extract_definitions(lsv),
                keptv == ex_full.kept,
                pl_full == process_lines(
                    keptv,
                    defs2,
                    memo_views(old(self).calls@),
                    old(self).next_scope_id as int,
                    scope.namespace.name@,
                ),
                ({
                    let rem = process_lines(
                        keptv.skip(j as int),
                        defs2,
                        memo_views(self.calls@),
                        self.next_scope_id as int,
                        scope.namespace.name@,
                    );
                    &&& pl_full.out_lines =~= views_of(out_lines@) + rem.out_lines
                    &&& pl_full.memo == rem.memo
                    &&& pl_full.next_id == rem.next_id
                    &&& pl_full.pushed.len() == self.buffered@.len() - buf_start.len()
                        + rem.pushed.len()
                    &&& rem.pushed =~= pl_full.pushed.skip(
                        self.buffered@.len() - buf_start.len(),
                    )
                    &&& pl_full.polluted == (polluted || rem.polluted)
                }),
                memo_keys_unique(memo_views(old(self).calls@)) ==> memo_keys_unique(
                    memo_views(self.calls@),
                ),
                self.buffered@.len() >= buf_start.len(),
                forall|m: int| 0 <= m < buf_start.len() ==> self.buffered@[m] == buf_start[m],
                forall|m: int|
                    0 <= m < self.buffered@.len() - buf_start.len() ==> {
                        &&& self.buffered@[buf_start.len() + m].name@ == pl_full.pushed[m].name
                        &&& self.buffered@[buf_start.len() + m].content@ == pl_full.pushed[m].content
                        &&& self.buffered@[buf_start.len() + m].namespace.name@
                            == pl_full.pushed[m].ns
                    },
            decreases kn - j,
        {
            let ghost rem_before = process_lines(
                keptv.skip(j as int),
                defs2,
                memo_views(self.calls@),
                self.next_scope_id as int,
                scope.namespace.name@,
            );
            let ghost h = process_line(
                keptv.skip(j as int)[0],
                defs2,
                memo_views(self.calls@),
                self.next_scope_id as int,
                scope.namespace.name@,
            );
            let line = vstd::slice::slice_index_get(kept.as_slice(), j);
            assert(line@ == keptv.skip(j as int)[0]);
            let ghost out_before = out_lines@;
            let ghost buf_before = self.buffered@;
            let ghost memo_cur = memo_views(self.calls@);
            let ghost next_cur = self.next_scope_id as int;
            match self.process_line_exec(line.as_slice(), &scope.namespace) {
                Ok((mut outl, poll)) => {
                    proof {
                        if memo_keys_unique(memo_cur) {
                            lemma_memo_stays_unique(
                                keptv.skip(j as int)[0],
                                defs2,
                                memo_cur,
                                next_cur,
                                scope.namespace.name@,
                            );
                        }
                    }
                    let ghost outlv = views_of(outl@);
                    out_lines.append(&mut outl);
                    polluted = polluted || poll;
                    proof {
                        assert(views_of(out_lines@) =~= views_of(out_before) + outlv);
                        assert(keptv.skip(j as int).skip(1) =~= keptv.skip(j as int + 1));
                        let rem_after = process_lines(
                            keptv.skip(j as int + 1),
                            defs2,
                            memo_views(self.calls@),
                            self.next_scope_id as int,
                            scope.namespace.name@,
                        );
                        assert(rem_before.out_lines =~= h.out_lines + rem_after.out_lines);
                        assert(pl_full.out_lines =~= views_of(out_lines@) + rem_after.out_lines);
                        assert(rem_before.pushed =~= h.pushed + rem_after.pushed);
                        let kdelta: int = buf_before.len() - buf_start.len();
                        assert(rem_before.pushed =~= pl_full.pushed.skip(kdelta));
                        assert((h.pushed + rem_after.pushed).skip(h.pushed.len() as int)
                            =~= rem_after.pushed);
                        assert(pl_full.pushed.skip(kdelta).skip(h.pushed.len() as int)
                            =~= pl_full.pushed.skip(kdelta + h.pushed.len()));
                        assert(rem_after.pushed =~= pl_full.pushed.skip(
                            self.buffered@.len() - buf_start.len(),
                        ));
                        assert forall|t: int|
                            0 <= t < self.buffered@.len() - buf_start.len() implies {
                            &&& self.buffered@[buf_start.len() + t].name@ == pl_full.pushed[t].name
                            &&& self.buffered@[buf_start.len() + t].content@
                                == pl_full.pushed[t].content
                            &&& self.buffered@[buf_start.len() + t].namespace.name@
                                == pl_full.pushed[t].ns
                        } by {
                            if t >= kdelta {
                                assert(pl_full.pushed[t] == rem_before.pushed[t - kdelta]);
                                assert(h.pushed[t - kdelta] == rem_before.pushed[t - kdelta]);
                            }
                        }
                    }
                },
                Err(e) => {
                    proof {
                        reveal(spec_process_scope);
                        assert(h.next_id < 0);
                        assert(keptv.skip(j as int).skip(1) =~= keptv.skip(j as int + 1));
                        lemma_lines_next_monotone(
                            keptv.skip(j as int + 1),
                            defs2,
                            h.memo,
                            h.next_id,
                            scope.namespace.name@,
                        );
                        assert(rem_before.next_id < 0);
                        let sp = spec_process_scope(
                            scope.content@,
                            def_views(old(self).definitions@),
                            memo_views(old(self).calls@),
                            old(self).next_scope_id as int,
                            scope.namespace.name@,
                        );
                        assert(sp.next_id == pl_full.next_id);
                        assert(sp.next_id < 0);
                    }
                    return Err(e);
                },
            }
            j += 1;
        }
        proof {
            reveal(spec_process_scope);
            assert(keptv.skip(kn as int) =~= Seq::<Seq<char>>::empty());
            assert(pl_full.out_lines =~= views_of(out_lines@));
            let sp = spec_process_scope(
                scope.content@,
                def_views(old(self).definitions@),
                memo_views(old(self).calls@),
                old(self).next_scope_id as int,
                scope.namespace.name@,
            );
            assert(sp.defs == defs2);
            assert(sp.memo == pl_full.memo);
            assert(sp.next_id == pl_full.next_id);
            assert(sp.pushed == pl_full.pushed);
            assert(sp.polluted == pl_full.polluted);
            assert(sp.content == join_lines(pl_full.out_lines));
        }
        let joined = join_lines_exec(out_lines.as_slice());
        let mut result = scope;
        result.content = chars_to_string(&joined);
        Ok((result, polluted))
    }

    /// Replays every stored definition against the memo table: each call
    /// memoized before its macro was known is materialized now, under the
    /// reference it was already resolved to. Returns how many scopes this
    /// pass minted.
    #[verifier::rlimit(100)]
    #[verifier::spinoff_prover]
    pub fn generate_scopes(&mut self) -> (r: usize)
        ensures
            ({
                let cl = spec_closing(
                    def_views(old(self).definitions@),
                    memo_views(old(self).calls@),
                    0,
                );
                &&& final(self).definitions@ == old(self).definitions@
                &&& final(self).next_scope_id == old(self).next_scope_id
                &&& memo_views(final(self).calls@) == cl.memo
                &&& final(self).calls@.len() == old(self).calls@.len()
                &&& final(self).buffered@.len() == old(self).buffered@.len() + cl.pushed.len()
                &&& r == cl.pushed.len()
                &&& (forall|i: int|
                    0 <= i < old(self).buffered@.len() ==> final(self).buffered@[i] == old(
                        self,
                    ).buffered@[i])
                &&& (forall|i: int|
                    0 <= i < cl.pushed.len() ==> {
                        &&& final(self).buffered@[old(self).buffered@.len() + i].name@
                            == cl.pushed[i].name
                        &&& final(self).buffered@[old(self).buffered@.len() + i].content@
                            == cl.pushed[i].content
                        &&& final(self).buffered@[old(self).buffered@.len() + i].namespace.name@
                            == cl.pushed[i].ns
                    })
            }),
    {
        let ghost defsv = def_views(self.definitions@);
        let ghost cl_full = spec_closing(defsv, memo_views(self.calls@), 0);
        let ghost buf_start = self.buffered@;
        let cn = self.calls.len();
        let buf_start_len = self.buffered.len();
        let mut produced: usize = 0;
        let mut m: usize = 0;
        proof {
            assert(cl_full.pushed.skip(0) =~= cl_full.pushed);
        }
        while m < cn
            invariant
                0 <= m <= cn,
                cn == self.calls@.len(),
                cn == old(self).calls@.len(),
                buf_start_len == buf_start.len(),
                buf_start == old(self).buffered@,
                self.definitions@ == old(self).definitions@,
                self.next_scope_id == old(self).next_scope_id,
                defsv == def_views(self.definitions@),
                cl_full == spec_closing(defsv, memo_views(old(self).calls@), 0),
                ({
                    let rem = spec_closing(defsv, memo_views(self.calls@), m as int);
                    &&& cl_full.memo == rem.memo
                    &&& cl_full.pushed.len() == produced + rem.pushed.len()
                    &&& rem.pushed =~= cl_full.pushed.skip(produced as int)
                    &&& produced == self.buffered@.len() - buf_start.len()
                }),
                self.buffered@.len() >= buf_start.len(),
                forall|i: int| 0 <= i < buf_start.len() ==> self.buffered@[i] == buf_start[i],
                forall|i: int|
                    0 <= i < self.buffered@.len() - buf_start.len() ==> {
                        &&& self.buffered@[buf_start.len() + i].name@ == cl_full.pushed[i].name
                        &&& self.buffered@[buf_start.len() + i].content@ == cl_full.pushed[i].content
                        &&& self.buffered@[buf_start.len() + i].namespace.name@
                            == cl_full.pushed[i].ns
                    },
            decreases cn - m,
        {
            let ghost memo_before = memo_views(self.calls@);
            let ghost rem_before = spec_closing(defsv, memo_before, m as int);
            let ghost e = memo_before[m as int];
            proof {
                assert(e == memo_view(self.calls@[m as int]));
            }
            let entry_generated = self.calls[m].generated;
            let entry_name = str_to_chars(self.calls[m].name.as_str());
            assert(entry_name@ == e.name);
            assert(entry_generated == e.generated);
            if !entry_generated {
                match find_def_exec(&self.definitions, entry_name.as_slice()) {
                    Some(d) => {
                        proof {
                            lemma_find_def(defsv, e.name);
                            assert(find_def(defsv, e.name) == d as int);
                        }
                        let defn = vstd::slice::slice_index_get(self.definitions.as_slice(), d);
                        proof {
                            assert(def_views(self.definitions@)[d as int] == DefView {
                                name: defn.name@,
                                params: string_views(defn.parameters@),
                                body: defn.body@,
                                sep: defn.has_separate_scope,
                            });
                        }
                        let body_chars = str_to_chars(defn.body.as_str());
                        let mut arg_bufs: Vec<Vec<char>> = Vec::new();
                        let entry_params_len = self.calls[m].parameters.len();
                        let mut q: usize = 0;
                        while q < entry_params_len
                            invariant
                                0 <= q <= entry_params_len,
                                m < self.calls@.len(),
                                entry_params_len == self.calls@[m as int].parameters@.len(),
                                views_of(arg_bufs@) =~= string_views(
                                    self.calls@[m as int].parameters@,
                                ).take(q as int),
                            decreases entry_params_len - q,
                        {
                            let ghost before = arg_bufs@;
                            arg_bufs.push(str_to_chars(self.calls[m].parameters[q].as_str()));
                            proof {
                                assert(views_of(arg_bufs@) =~= views_of(before).push(
                                    self.calls@[m as int].parameters@[q as int]@,
                                ));
                            }
                            q += 1;
                        }
                        proof {
                            assert(views_of(arg_bufs@) =~= string_views(
                                self.calls@[m as int].parameters@,
                            ));
                            assert(views_of(arg_bufs@) =~= e.arg_list);
                        }
                        let substituted = subst_params_exec(body_chars, &defn.parameters, &arg_bufs);
                        let entry_id = self.calls[m].id;
                        assert(entry_id == e.id);
                        let mut sc = Scope::new_unnamed(entry_id, &self.calls[m].namespace);
                        sc.content = chars_to_string(&substituted);
                        let ghost buf_before = self.buffered@;
                        self.buffered.push(sc);
                        let blen = self.buffered.len();
                        let old_entry = self.calls.remove(m);
                        let new_entry = MemoEntry {
                            name: old_entry.name,
                            args: old_entry.args,
                            parameters: old_entry.parameters,
                            namespace: old_entry.namespace,
                            id: old_entry.id,
                            generated: true,
                        };
                        self.calls.insert(m, new_entry);
                        proof {
                            assert(produced as int + 1 <= blen as int - buf_start.len());
                        }
                        produced += 1;
                        proof {
                            let e2 = MemoView {
                                name: e.name,
                                args: e.args,
                                arg_list: e.arg_list,
                                id: e.id,
                                ns: e.ns,
                                generated: true,
                            };
                            assert(memo_views(self.calls@) =~= memo_before.update(m as int, e2));
                            let pushed_scope = PushedScope {
                                name: spec_anonymous_name(e.id),
                                ns: e.ns,
                                content: subst_params(
                                    defsv[find_def(defsv, e.name)].body,
                                    defsv[find_def(defsv, e.name)].params,
                                    e.arg_list,
                                ),
                            };
                            let rem_after = spec_closing(
                                defsv,
                                memo_before.update(m as int, e2),
                                m as int + 1,
                            );
                            assert(rem_before.pushed =~= seq![pushed_scope] + rem_after.pushed);
                            assert(rem_before.pushed =~= cl_full.pushed.skip(produced as int - 1));
                            assert((seq![pushed_scope] + rem_after.pushed)[0] == pushed_scope);
                            assert(cl_full.pushed.skip(produced as int - 1)[0] == cl_full.pushed[
                                produced as int - 1
                            ]);
                            assert(cl_full.pushed[produced - 1] == pushed_scope);
                            assert((seq![pushed_scope] + rem_after.pushed).skip(1)
                                =~= rem_after.pushed);
                            assert(cl_full.pushed.skip(produced as int - 1).skip(1)
                                =~= cl_full.pushed.skip(produced as int));
                            assert(rem_after.pushed =~= cl_full.pushed.skip(produced as int));
                            assert(sc.name@ == pushed_scope.name && sc.content@
                                == pushed_scope.content && sc.namespace.name@ == pushed_scope.ns);
                            assert forall|i: int|
                                0 <= i < self.buffered@.len() - buf_start.len() implies {
                                &&& self.buffered@[buf_start.len() + i].name@
                                    == cl_full.pushed[i].name
                                &&& self.buffered@[buf_start.len() + i].content@
                                    == cl_full.pushed[i].content
                                &&& self.buffered@[buf_start.len() + i].namespace.name@
                                    == cl_full.pushed[i].ns
                            } by {
                                if i == produced - 1 {
                                    assert(self.buffered@[buf_start.len() + i] == sc);
                                } else {
                                    assert(self.buffered@[buf_start.len() + i]
                                        == buf_before[buf_start.len() + i]);
                                }
                            }
                        }
                    },
                    None => {
                        proof {
                            assert(find_def(defsv, e.name) == -1);
                            assert(rem_before == spec_closing(defsv, memo_before, m as int + 1));
                        }
                    },
                }
            } else {
                proof {
                    assert(rem_before == spec_closing(defsv, memo_before, m as int + 1));
                }
            }
            m += 1;
        }
        proof {
            let rem_end = spec_closing(defsv, memo_views(self.calls@), cn as int);
            assert(rem_end.pushed.len() == 0);
            assert(cl_full.pushed.len() == produced);
            assert(rem_end.memo == memo_views(self.calls@));
            assert(cl_full.memo == memo_views(self.calls@));
            assert(cl_full == spec_closing(
                def_views(old(self).definitions@),
                memo_views(old(self).calls@),
                0,
            ));
            let cl = spec_closing(def_views(old(self).definitions@), memo_views(old(self).calls@), 0);
            assert(self.next_scope_id == old(self).next_scope_id);
            assert(memo_views(self.calls@) == cl.memo);
            assert(self.calls@.len() == old(self).calls@.len());
            assert(self.buffered@.len() == old(self).buffered@.len() + cl.pushed.len());
            assert(produced == cl.pushed.len());
            assert(forall|i: int|
                0 <= i < old(self).buffered@.len() ==> self.buffered@[i] == old(self).buffered@[i]);
            assert(forall|i: int|
                0 <= i < cl.pushed.len() ==> self.buffered@[old(self).buffered@.len() + i].name@
                    == cl.pushed[i].name);
            assert(forall|i: int|
                0 <= i < cl.pushed.len() ==> self.buffered@[old(self).buffered@.len() + i].content@
                    == cl.pushed[i].content);
            assert(forall|i: int|
                0 <= i < cl.pushed.len() ==> self.buffered@[old(self).buffered@.len()
                    + i].namespace.name@ == cl.pushed[i].ns);
        }
        produced
    }

    /// Drains the stage: pulls each upstream scope in order, then works the
    /// pending buffer, reprocessing polluted scopes until each pass settles,
    /// and closes by materializing every call whose macro was defined after
    /// the call was first seen. Each pass over one scope, and each closing
    /// replay, spends one unit of `budget`.
    ///
    /// On success every memoized call has its generated artifact. A call
    /// whose macro is never defined is fatal: the run reports the macro's
    /// name. A budget too small for the expansion to settle, or a spent
    /// counter, is reported rather than looped on.
    #[verifier::rlimit(100)]
    #[verifier::spinoff_prover]
    pub fn run(&mut self, input: Vec<Scope>, budget: u64) -> (r: Result<Vec<Scope>, CompileError>)
        ensures
            ({
                let dr = drain(
                    DrainState {
                        stack: sc_recs(input@).reverse(),
                        buffer: sc_recs(old(self).buffered@),
                        defs: def_views(old(self).definitions@),
                        memo: memo_views(old(self).calls@),
                        next_id: old(self).next_scope_id as int,
                        finished: Seq::empty(),
                    },
                    budget as nat,
                );
                &&& r.is_ok() ==> dr == DrainEnd::Finished(
                    sc_recs(r.unwrap()@),
                    final(self).next_scope_id as int,
                )
                &&& (r matches Err(CompileError::MissingMacro(n)) ==> dr == DrainEnd::Missing(n@))
                &&& (r matches Err(CompileError::ExpansionLimitReached)) ==> dr
                    == DrainEnd::OutOfBudget
                &&& (r matches Err(CompileError::IdSpaceExhausted)) ==> dr == DrainEnd::OutOfIds
            }),
            !(r matches Err(CompileError::InvalidName)),
            memo_keys_unique(memo_views(old(self).calls@)) ==> memo_keys_unique(
                memo_views(final(self).calls@),
            ),
            r.is_ok() && memo_ids_fresh(memo_views(old(self).calls@), old(self).next_scope_id as int)
                && memo_ids_distinct(memo_views(old(self).calls@)) ==> memo_ids_distinct(
                memo_views(final(self).calls@),
            ) && memo_ids_fresh(memo_views(final(self).calls@), final(self).next_scope_id as int),
            r.is_ok() ==> (forall|m: int|
                0 <= m < final(self).calls@.len() ==> memo_views(final(self).calls@)[m].generated),
            r matches Err(CompileError::MissingMacro(n)) ==> exists|m: int|
                0 <= m < final(self).calls@.len() && !memo_views(final(self).calls@)[m].generated
                    && memo_views(final(self).calls@)[m].name == n@ && find_def(
                    def_views(final(self).definitions@),
                    n@,
                ) == -1,
    {
        let ghost init = DrainState {
            stack: sc_recs(input@).reverse(),
            buffer: sc_recs(self.buffered@),
            defs: def_views(self.definitions@),
            memo: memo_views(self.calls@),
            next_id: self.next_scope_id as int,
            finished: Seq::empty(),
        };
        let mut pending = input;
        let mut stack: Vec<Scope> = Vec::new();
        while pending.len() > 0
            invariant
                pending@ + stack@.reverse() =~= input@,
            decreases pending@.len(),
        {
            let ghost stack_before = stack@;
            let ghost pending_before = pending@;
            let s = pending.pop().unwrap();
            stack.push(s);
            proof {
                assert(stack@.reverse() =~= seq![pending_before.last()]
                    + stack_before.reverse());
                assert(pending@ + stack@.reverse() =~= input@);
            }
        }
        let mut finished: Vec<Scope> = Vec::new();
        let mut steps: u64 = budget;
        proof {
            assert(stack@.reverse() =~= input@);
            assert(stack@ =~= input@.reverse());
            assert(sc_recs(stack@) =~= sc_recs(input@).reverse());
            assert(sc_recs(finished@) =~= Seq::<ScRec>::empty());
        }
        loop
            invariant
                init == (DrainState {
                    stack: sc_recs(input@).reverse(),
                    buffer: sc_recs(old(self).buffered@),
                    defs: def_views(old(self).definitions@),
                    memo: memo_views(old(self).calls@),
                    next_id: old(self).next_scope_id as int,
                    finished: Seq::empty(),
                }),
                drain(
                    DrainState {
                        stack: sc_recs(stack@),
                        buffer: sc_recs(self.buffered@),
                        defs: def_views(self.definitions@),
                        memo: memo_views(self.calls@),
                        next_id: self.next_scope_id as int,
                        finished: sc_recs(finished@),
                    },
                    steps as nat,
                ) == drain(init, budget as nat),
                memo_keys_unique(memo_views(old(self).calls@)) ==> memo_keys_unique(
                    memo_views(self.calls@),
                ),
                (memo_ids_fresh(memo_views(old(self).calls@), old(self).next_scope_id as int)
                    && memo_ids_distinct(memo_views(old(self).calls@))) ==> (memo_ids_fresh(
                    memo_views(self.calls@),
                    self.next_scope_id as int,
                ) && memo_ids_distinct(memo_views(self.calls@))),
            decreases steps,
        {
            let ghost cur = DrainState {
                stack: sc_recs(stack@),
                buffer: sc_recs(self.buffered@),
                defs: def_views(self.definitions@),
                memo: memo_views(self.calls@),
                next_id: self.next_scope_id as int,
                finished: sc_recs(finished@),
            };
            let ghost fuel_now = steps as nat;
            if steps == 0 {
                assert(drain(cur, 0) == DrainEnd::OutOfBudget) by {
                    reveal(drain);
                }
                return Err(CompileError::ExpansionLimitReached);
            }
            steps = steps - 1;
            let from_stack = stack.len() > 0;
            let next_scope: Option<Scope> = if from_stack {
                Some(stack.pop().unwrap())
            } else if self.buffered.len() > 0 {
                Some(self.buffered.pop().unwrap())
            } else {
                None
            };
            match next_scope {
                Some(scope) => {
                    let ghost sc = sc_rec(scope);
                    proof {
                        if from_stack {
                            assert(sc == cur.stack.last());
                            assert(sc_recs(stack@) =~= cur.stack.drop_last());
                        } else {
                            assert(sc == cur.buffer.last());
                            assert(sc_recs(self.buffered@) =~= cur.buffer.drop_last());
                        }
                    }
                    let ghost buf_after_pop = sc_recs(self.buffered@);
                    let ghost stack_after_pop = sc_recs(stack@);
                    let ghost sp = spec_process_scope(
                        scope.content@,
                        def_views(self.definitions@),
                        memo_views(self.calls@),
                        self.next_scope_id as int,
                        scope.namespace.name@,
                    );
                    match self.process_scope(scope) {
                        Ok((s2, poll)) => {
                            proof {
                                if memo_keys_unique(cur.memo) {
                                    lemma_scope_pass_keeps_memo_unique(
                                        sc.content,
                                        cur.defs,
                                        cur.memo,
                                        cur.next_id,
                                        sc.ns,
                                    );
                                }
                                assert(sp.next_id == self.next_scope_id as int);
                                if memo_ids_fresh(cur.memo, cur.next_id) && memo_ids_distinct(
                                    cur.memo,
                                ) {
                                    lemma_scope_pass_keeps_ids_fresh(
                                        sc.content,
                                        cur.defs,
                                        cur.memo,
                                        cur.next_id,
                                        sc.ns,
                                    );
                                }
                                assert(sp.next_id >= 0);
                                assert(sc_recs(self.buffered@) =~= buf_after_pop + pushed_recs(
                                    sp.pushed,
                                ));
                            }
                            let ghost processed = ScRec {
                                name: sc.name,
                                ns: sc.ns,
                                content: sp.content,
                            };
                            proof {
                                assert(sc_rec(s2) == processed);
                            }
                            if poll {
                                self.buffered.push(s2);
                                proof {
                                    assert(sc_recs(self.buffered@) =~= (buf_after_pop
                                        + pushed_recs(sp.pushed)).push(processed));
                                }
                            } else {
                                let ghost fin_before = sc_recs(finished@);
                                finished.push(s2);
                                proof {
                                    assert(sc_recs(finished@) =~= fin_before.push(processed));
                                }
                            }
                            proof {
                                let st2 = DrainState {
                                    stack: sc_recs(stack@),
                                    buffer: sc_recs(self.buffered@),
                                    defs: def_views(self.definitions@),
                                    memo: memo_views(self.calls@),
                                    next_id: self.next_scope_id as int,
                                    finished: sc_recs(finished@),
                                };
                                assert(drain(cur, fuel_now) == drain(st2, (fuel_now - 1) as nat))
                                    by {
                                    reveal(drain);
                                }
                            }
                        },
                        Err(e) => {
                            proof {
                                assert(sp.next_id < 0);
                                assert(drain(cur, fuel_now) == DrainEnd::OutOfIds) by {
                                    reveal(drain);
                                }
                            }
                            return Err(e);
                        },
                    }
                },
                None => {
                    let ghost defsv = def_views(self.definitions@);
                    let ghost memo0 = memo_views(self.calls@);
                    let ghost cl = spec_closing(defsv, memo0, 0);
                    let ghost buf_before = sc_recs(self.buffered@);
                    let produced = self.generate_scopes();
                    proof {
                        lemma_closing_keeps_memo_unique(defsv, memo0, 0);
                        assert(cur.stack.len() == 0 && cur.buffer.len() == 0);
                        assert(sc_recs(self.buffered@) =~= buf_before + pushed_recs(cl.pushed));
                    }
                    if produced == 0 {
                        proof {
                            lemma_closing_done(defsv, memo0, 0);
                            lemma_first_ungenerated(memo0);
                        }
                        let cn = self.calls.len();
                        let mut missing: Option<usize> = None;
                        let mut m: usize = 0;
                        while m < cn
                            invariant
                                0 <= m <= cn,
                                cn == self.calls@.len(),
                                memo_views(self.calls@) == memo0,
                                missing.is_none() ==> forall|j: int|
                                    0 <= j < m ==> memo0[j].generated,
                                missing matches Some(k) ==> 0 <= k < cn && !memo0[
                                    k as int
                                ].generated && forall|j: int| 0 <= j < k ==> memo0[j].generated,
                            decreases cn - m,
                        {
                            if missing.is_none() {
                                let gen = self.calls[m].generated;
                                if !gen {
                                    assert(memo0[m as int] == memo_view(self.calls@[m as int]));
                                    missing = Some(m);
                                }
                            }
                            m += 1;
                        }
                        match missing {
                            Some(idx) => {
                                let name = self.calls[idx].name.clone();
                                proof {
                                    assert(name@ == memo0[idx as int].name);
                                    assert(first_ungenerated(memo0) == idx as int) by {
                                        lemma_first_ungenerated(memo0);
                                        if first_ungenerated(memo0) < idx as int
                                            && first_ungenerated(memo0) >= 0 {
                                            assert(memo0[first_ungenerated(memo0)].generated);
                                        }
                                        if first_ungenerated(memo0) > idx as int
                                            || first_ungenerated(memo0) == -1 {
                                            assert(memo0[idx as int].generated);
                                        }
                                    }
                                    assert(drain(cur, fuel_now) == DrainEnd::Missing(
                                        memo0[idx as int].name,
                                    )) by {
                                        reveal(drain);
                                    }
                                }
                                return Err(CompileError::MissingMacro(name));
                            },
                            None => {
                                proof {
                                    assert(first_ungenerated(memo0) == -1) by {
                                        lemma_first_ungenerated(memo0);
                                        if first_ungenerated(memo0) >= 0 {
                                            assert(memo0[first_ungenerated(memo0)].generated);
                                        }
                                    }
                                    assert(drain(cur, fuel_now) == DrainEnd::Finished(
                                        cur.finished,
                                        cur.next_id,
                                    )) by {
                                        reveal(drain);
                                    }
                                }
                                return Ok(finished);
                            },
                        }
                    }
                    proof {
                        let st2 = DrainState {
                            stack: sc_recs(stack@),
                            buffer: sc_recs(self.buffered@),
                            defs: def_views(self.definitions@),
                            memo: memo_views(self.calls@),
                            next_id: self.next_scope_id as int,
                            finished: sc_recs(finished@),
                        };
                        assert(sc_recs(stack@) =~= cur.stack);
                        assert(drain(cur, fuel_now) == drain(st2, (fuel_now - 1) as nat)) by {
                            reveal(drain);
                        }
                    }
                },
            }
        }
    }
}

} // verus!
