//! The laws the pipeline's stages obey, stated and proved over the same
//! spec functions their contracts use. The allocator and memoization laws
//! that speak of one stage's own tables stand beside that stage instead:
//! `memo_keys_unique` and the counter-freshness laws in the macro stage,
//! the minted-name uniqueness laws in the indentation stage.
use vstd::prelude::*;
use crate::util::{
    spec_lines, join_lines, join_spaces, find_sub, lemma_find_sub, contains_sub, is_match,
    leading_tabs,
};
use crate::scope::{
    hex_digit, spec_anonymous_name, spec_reference_name, lemma_anonymous_name_injective,
};
use crate::comment_remover::spec_remove_comments;
use crate::back_compiler::spec_join_back;
use crate::substitutions_compiler::spec_substitute;
use crate::scopes_compiler::{Lowered, lower_lines};
use crate::macro_compiler::{
    DefView, MemoView, ScopePassOut, DrainState, DrainEnd, drain, process_line, process_lines,
    spec_process_scope, extract_definitions, find_memo, lemma_find_memo, find_def, memo_ref,
    call_name, call_args, is_def_header, def_at, def_consumed, body_run, lemma_body_run,
    memo_ids_distinct,
};

verus! {

/// Determinism: every stage's contract pins its output to a function of the
/// stage's input and its counters and tables alone — the whole macro drain
/// included, through the `drain` relation. Two runs over the same input,
/// with the allocators and tables reset alike, can only produce one
/// result: whatever two values the contracts allow for one input are equal.
pub proof fn lemma_compilation_deterministic(
    content: Seq<char>,
    ns: Seq<char>,
    name: Seq<char>,
    defs: Seq<DefView>,
    memo: Seq<MemoView>,
    next_desc: int,
    lines: Seq<Seq<char>>,
    next_asc: int,
    st: DrainState,
    fuel: nat,
    m1: ScopePassOut,
    m2: ScopePassOut,
    d1: DrainEnd,
    d2: DrainEnd,
    l1: Lowered,
    l2: Lowered,
    c1: Seq<char>,
    c2: Seq<char>,
    s1: Seq<char>,
    s2: Seq<char>,
    b1: Seq<char>,
    b2: Seq<char>,
)
    requires
        m1 == spec_process_scope(content, defs, memo, next_desc, ns),
        m2 == spec_process_scope(content, defs, memo, next_desc, ns),
        d1 == drain(st, fuel),
        d2 == drain(st, fuel),
        l1 == lower_lines(lines, ns, next_asc),
        l2 == lower_lines(lines, ns, next_asc),
        c1 == spec_remove_comments(content),
        c2 == spec_remove_comments(content),
        s1 == spec_substitute(content, ns, name),
        s2 == spec_substitute(content, ns, name),
        b1 == spec_join_back(content),
        b2 == spec_join_back(content),
    ensures
        m1 == m2,
        d1 == d2,
        l1 == l2,
        c1 == c2,
        s1 == s2,
        b1 == b2,
{
}

/// Memoization, the reuse half: a call whose key the table already maps is
/// rewritten to the recorded reference, and nothing else happens — no new
/// table entry, no fresh counter value, no new scope.
pub proof fn lemma_memoized_call_reuses(
    line: Seq<char>,
    defs: Seq<DefView>,
    memo: Seq<MemoView>,
    next: int,
    ns: Seq<char>,
)
    requires
        find_sub(line, "call"@) >= 0,
        ({
            let payload = line.skip(find_sub(line, "call"@) + 4);
            find_memo(memo, call_name(payload), join_spaces(call_args(payload))) >= 0
        }),
    ensures
        ({
            let f = find_sub(line, "call"@);
            let payload = line.skip(f + 4);
            let m = find_memo(memo, call_name(payload), join_spaces(call_args(payload)));
            let lo = process_line(line, defs, memo, next, ns);
            &&& lo.memo == memo
            &&& lo.next_id == next
            &&& lo.pushed.len() == 0
            &&& lo.out_lines == seq![line.take(f) + "function "@ + memo_ref(memo[m])]
        }),
{
}

/// Anonymous-id uniqueness at the descending allocator: two memo entries
/// holding distinct counter values resolve to distinct anonymous paths, so
/// with `memo_ids_distinct` — which `MacroCompiler::new` establishes and
/// `run` preserves — no two generated references of one run share a name.
pub proof fn lemma_macro_references_distinct(memo: Seq<MemoView>, i: int, j: int)
    requires
        memo_ids_distinct(memo),
        0 <= i < j < memo.len(),
    ensures
        spec_anonymous_name(memo[i].id) != spec_anonymous_name(memo[j].id),
{
    assert(memo[i].id != memo[j].id);
    if spec_anonymous_name(memo[i].id) == spec_anonymous_name(memo[j].id) {
        lemma_anonymous_name_injective(memo[i].id, memo[j].id);
    }
}

/// The two allocators of one run cannot collide: every value the ascending
/// counter has handed out lies below every value the descending counter
/// has, so a scope the indentation stage minted and one the macro stage
/// minted never share a name — distinct counter values render to distinct
/// paths.
pub proof fn lemma_two_counters_never_collide(a: int, d: int, asc_end: int, desc_end: int)
    requires
        0 <= a < asc_end,
        desc_end < d <= u32::MAX,
        asc_end <= desc_end + 1,
    ensures
        spec_anonymous_name(a as u32) != spec_anonymous_name(d as u32),
{
    assert(a != d);
    if spec_anonymous_name(a as u32) == spec_anonymous_name(d as u32) {
        lemma_anonymous_name_injective(a as u32, d as u32);
    }
}

proof fn lemma_body_run_full(ls: Seq<Seq<char>>, d: int)
    requires
        forall|j: int| 0 <= j < ls.len() ==> leading_tabs(ls[j]) > d,
    ensures
        body_run(ls, d) == ls.len(),
{
    lemma_body_run(ls, d);
    if body_run(ls, d) < ls.len() {
        assert(leading_tabs(ls[body_run(ls, d)]) > d);
    }
}

proof fn lemma_body_run_stops(ls: Seq<Seq<char>>, d: int, k: int)
    requires
        0 <= k <= ls.len(),
        forall|j: int| 0 <= j < k ==> leading_tabs(ls[j]) > d,
        k < ls.len() ==> !(leading_tabs(ls[k]) > d),
    ensures
        body_run(ls, d) == k,
{
    lemma_body_run(ls, d);
    let r = body_run(ls, d);
    if r < k {
        assert(leading_tabs(ls[r]) > d);
    }
    if r > k {
        assert(k < ls.len());
        assert(leading_tabs(ls[k]) > d);
    }
}

/// Forward/backward call symmetry: a scope holding a call line and a
/// macro's definition block compiles the same whether the call stands
/// before the block or after it. Definitions are hoisted before any line is
/// resolved, so the expansion of the call line cannot depend on the order.
pub proof fn lemma_call_definition_symmetry(
    call_line: Seq<char>,
    header: Seq<char>,
    body: Seq<Seq<char>>,
    defs0: Seq<DefView>,
    memo: Seq<MemoView>,
    next: int,
    ns: Seq<char>,
)
    requires
        !is_def_header(call_line),
        is_def_header(header),
        leading_tabs(header) == 0,
        leading_tabs(call_line) == 0,
        forall|j: int| 0 <= j < body.len() ==> leading_tabs(body[j]) >= 1,
    ensures
        extract_definitions(seq![call_line] + seq![header] + body) == extract_definitions(
            seq![header] + body + seq![call_line],
        ),
        ({
            let e1 = extract_definitions(seq![call_line] + seq![header] + body);
            let e2 = extract_definitions(seq![header] + body + seq![call_line]);
            process_lines(e1.kept, defs0 + e1.defs, memo, next, ns) == process_lines(
                e2.kept,
                defs0 + e2.defs,
                memo,
                next,
                ns,
            )
        }),
{
    let fwd = seq![call_line] + seq![header] + body;
    let bwd = seq![header] + body + seq![call_line];

    // The forward order: the call line passes, the block follows.
    assert(fwd[0] == call_line);
    let hb = fwd.skip(1);
    assert(hb =~= seq![header] + body);
    assert(hb[0] == header);
    assert(hb.skip(1) =~= body);
    lemma_body_run_full(body, 0);
    assert(def_consumed(hb) == 1 + body.len());
    assert(hb.skip(1 + body.len() as int) =~= Seq::<Seq<char>>::empty());
    assert(hb.skip(def_consumed(hb)) =~= Seq::<Seq<char>>::empty());
    assert(hb.skip(def_consumed(hb)).len() == 0);
    let e_rest = extract_definitions(hb.skip(def_consumed(hb)));
    assert(e_rest.defs =~= Seq::<DefView>::empty());
    assert(e_rest.kept =~= Seq::<Seq<char>>::empty());
    let e_hb = extract_definitions(hb);
    assert(e_hb.defs == seq![def_at(hb)] + e_rest.defs);
    assert(e_hb.defs =~= seq![def_at(hb)]);
    assert(e_hb.kept =~= Seq::<Seq<char>>::empty());
    let e1 = extract_definitions(fwd);
    assert(e1.defs =~= seq![def_at(hb)]);
    assert(e1.kept =~= seq![call_line]);

    // The backward order: the block leads, the call line survives it.
    assert(bwd[0] == header);
    let tail = bwd.skip(1);
    assert(tail =~= body + seq![call_line]);
    assert forall|j: int| 0 <= j < body.len() implies leading_tabs(tail[j]) > 0 by {
        assert(tail[j] == body[j]);
    }
    assert(tail[body.len() as int] == call_line);
    lemma_body_run_stops(tail, 0, body.len() as int);
    assert(def_consumed(bwd) == 1 + body.len());
    assert(bwd.skip(1 + body.len() as int) =~= seq![call_line]);
    assert(bwd.skip(def_consumed(bwd)) =~= seq![call_line]);
    let e_call = extract_definitions(seq![call_line]);
    assert(seq![call_line].skip(1) =~= Seq::<Seq<char>>::empty());
    assert(e_call.defs =~= Seq::<DefView>::empty());
    assert(e_call.kept =~= seq![call_line]);
    let e2 = extract_definitions(bwd);
    assert(e2.defs =~= seq![def_at(bwd)]);
    assert(e2.kept =~= seq![call_line]);

    // The one definition parses identically from either arrangement.
    assert(def_at(hb) == def_at(bwd)) by {
        assert(hb[0] == bwd[0]);
        lemma_body_run_full(body, leading_tabs(header));
        assert(hb.skip(1).take(body_run(hb.skip(1), 0)) =~= body);
        lemma_body_run_stops(tail, leading_tabs(header), body.len() as int);
        assert(bwd.skip(1).take(body_run(bwd.skip(1), 0)) =~= body);
    }
    assert(e1 == e2);
}

/// The text holds no occurrence of the reserved `call` token.
pub open spec fn no_call(s: Seq<char>) -> bool {
    !contains_sub(s, "call"@)
}

proof fn lemma_contains_iff(s: Seq<char>, pat: Seq<char>)
    ensures
        contains_sub(s, pat) <==> exists|i: int| is_match(s, pat, i),
{
    lemma_find_sub(s, pat);
    if find_sub(s, pat) >= 0 {
        assert(is_match(s, pat, find_sub(s, pat)));
    }
}

proof fn lemma_short_no_call(s: Seq<char>)
    requires
        s.len() < 4,
    ensures
        no_call(s),
{
    proof_strlit_call();
    lemma_contains_iff(s, "call"@);
}

proof fn proof_strlit_call()
    ensures
        "call"@.len() == 4,
        "call"@[0] == 'c',
        "call"@[1] == 'a',
        "call"@[2] == 'l',
        "call"@[3] == 'l',
{
    reveal_strlit("call");
}

proof fn lemma_no_call_without_l(s: Seq<char>)
    requires
        forall|i: int| 0 <= i < s.len() ==> s[i] != 'l',
    ensures
        no_call(s),
{
    proof_strlit_call();
    lemma_contains_iff(s, "call"@);
    if contains_sub(s, "call"@) {
        let i = choose|i: int| is_match(s, "call"@, i);
        assert(s.subrange(i, i + 4)[2] == s[i + 2]);
    }
}

proof fn lemma_no_call_without_a(s: Seq<char>)
    requires
        forall|i: int| 0 <= i < s.len() ==> s[i] != 'a',
    ensures
        no_call(s),
{
    proof_strlit_call();
    lemma_contains_iff(s, "call"@);
    if contains_sub(s, "call"@) {
        let i = choose|i: int| is_match(s, "call"@, i);
        assert(s.subrange(i, i + 4)[1] == s[i + 1]);
    }
}

/// A `call` token cannot appear in a concatenation whose halves are clean,
/// unless one could span the seam; the boundary characters rule that out.
proof fn lemma_concat_no_call(a: Seq<char>, b: Seq<char>)
    requires
        no_call(a),
        no_call(b),
        a.len() == 0 || b.len() == 0 || !(a.last() == 'c' || a.last() == 'a' || a.last() == 'l')
            || !(b[0] == 'a' || b[0] == 'l'),
    ensures
        no_call(a + b),
{
    proof_strlit_call();
    lemma_contains_iff(a + b, "call"@);
    lemma_contains_iff(a, "call"@);
    lemma_contains_iff(b, "call"@);
    if contains_sub(a + b, "call"@) {
        let p = choose|p: int| is_match(a + b, "call"@, p);
        let w = (a + b).subrange(p, p + 4);
        if p + 4 <= a.len() {
            assert(a.subrange(p, p + 4) =~= w);
            assert(is_match(a, "call"@, p));
        } else if p >= a.len() {
            assert(b.subrange(p - a.len(), p - a.len() + 4) =~= w);
            assert(is_match(b, "call"@, p - a.len()));
        } else {
            let k = a.len() - 1 - p;
            assert(0 <= k < 3);
            assert(w[k] == a.last());
            assert(w[k + 1] == b[0]);
            assert(a.last() == "call"@[k]);
            assert(b[0] == "call"@[k + 1]);
        }
    }
}

/// An anonymous path never holds the `call` token: its alphabet has no `l`.
proof fn lemma_anonymous_name_no_call(id: u32)
    ensures
        no_call(spec_anonymous_name(id)),
{
    let sa = spec_anonymous_name(id);
    assert forall|i: int| 0 <= i < sa.len() implies sa[i] != 'l' by {
        assert(sa =~= seq![
            '_',
            '/',
            hex_digit((((id >> 24u32) & 0xffu32) >> 4u32) as int),
            hex_digit((((id >> 24u32) & 0xffu32) & 0xfu32) as int),
            '/',
            hex_digit((((id >> 16u32) & 0xffu32) >> 4u32) as int),
            hex_digit((((id >> 16u32) & 0xffu32) & 0xfu32) as int),
            '/',
            hex_digit((((id >> 8u32) & 0xffu32) >> 4u32) as int),
            hex_digit((((id >> 8u32) & 0xffu32) & 0xfu32) as int),
            '/',
            hex_digit(((id & 0xffu32) >> 4u32) as int),
            hex_digit(((id & 0xffu32) & 0xfu32) as int),
        ]);
    }
    lemma_no_call_without_l(sa);
}

/// A reference into a namespace whose name is clean is itself clean.
proof fn lemma_reference_no_call(ns: Seq<char>, id: u32)
    requires
        no_call(ns),
    ensures
        no_call(spec_reference_name(ns, spec_anonymous_name(id))),
{
    lemma_anonymous_name_no_call(id);
    lemma_short_no_call(seq![':']);
    lemma_concat_no_call(seq![':'], spec_anonymous_name(id));
    assert((seq![':'] + spec_anonymous_name(id))[0] == ':');
    lemma_concat_no_call(ns, seq![':'] + spec_anonymous_name(id));
    assert(ns + (seq![':'] + spec_anonymous_name(id)) =~= spec_reference_name(
        ns,
        spec_anonymous_name(id),
    ));
}

/// A rewritten call line is clean: the kept prefix stops before the first
/// `call`, the keyword `function ` has no `a`, and the reference is clean.
proof fn lemma_emitted_line_no_call(prefix: Seq<char>, reference: Seq<char>)
    requires
        no_call(prefix),
        no_call(reference),
    ensures
        no_call(prefix + "function "@ + reference),
{
    proof_strlit_call();
    reveal_strlit("function ");
    assert forall|i: int| 0 <= i < "function "@.len() implies "function "@[i] != 'a' by {}
    lemma_no_call_without_a("function "@);
    lemma_concat_no_call("function "@, reference);
    assert(("function "@ + reference).len() > 0);
    assert(("function "@ + reference)[0] == 'f');
    lemma_concat_no_call(prefix, "function "@ + reference);
    assert(prefix + ("function "@ + reference) =~= prefix + "function "@ + reference);
}

/// The text before the first occurrence of a pattern holds no occurrence.
proof fn lemma_prefix_no_call(line: Seq<char>)
    requires
        find_sub(line, "call"@) >= 0,
    ensures
        no_call(line.take(find_sub(line, "call"@))),
{
    proof_strlit_call();
    let f = find_sub(line, "call"@);
    lemma_find_sub(line, "call"@);
    let prefix = line.take(f);
    lemma_contains_iff(prefix, "call"@);
    if contains_sub(prefix, "call"@) {
        let j = choose|j: int| is_match(prefix, "call"@, j);
        assert(line.subrange(j, j + 4) =~= prefix.subrange(j, j + 4));
        assert(is_match(line, "call"@, j));
    }
}

/// Resolving one line of a scope leaves only clean lines, unless the line
/// spliced a macro body — which marks the scope polluted and sends it back
/// through the stage. Every memo entry the resolution adds lives in the
/// scope's own namespace.
proof fn lemma_line_leaves_no_call(
    line: Seq<char>,
    defs: Seq<DefView>,
    memo: Seq<MemoView>,
    next: int,
    ns: Seq<char>,
)
    requires
        no_call(ns),
        forall|m: int| 0 <= m < memo.len() ==> no_call(memo[m].ns),
    ensures
        ({
            let lo = process_line(line, defs, memo, next, ns);
            &&& !lo.polluted ==> forall|k: int| 0 <= k < lo.out_lines.len() ==> no_call(
                lo.out_lines[k],
            )
            &&& forall|m: int| 0 <= m < lo.memo.len() ==> no_call(lo.memo[m].ns)
        }),
{
    proof_strlit_call();
    let lo = process_line(line, defs, memo, next, ns);
    let f = find_sub(line, "call"@);
    if f < 0 {
        assert(lo.out_lines[0] == line);
        assert(no_call(line));
    } else {
        let prefix = line.take(f);
        let payload = line.skip(f + 4);
        let nm = call_name(payload);
        let args = call_args(payload);
        let argstr = join_spaces(args);
        let m = find_memo(memo, nm, argstr);
        lemma_prefix_no_call(line);
        if m >= 0 {
            lemma_find_memo(memo, nm, argstr);
            lemma_reference_no_call(memo[m].ns, memo[m].id);
            lemma_emitted_line_no_call(prefix, memo_ref(memo[m]));
        } else {
            let d = find_def(defs, nm);
            if d >= 0 && defs[d].sep {
                lemma_reference_no_call(ns, next as u32);
                lemma_emitted_line_no_call(
                    prefix,
                    spec_reference_name(ns, spec_anonymous_name(next as u32)),
                );
            } else if d >= 0 {
            } else {
                lemma_reference_no_call(ns, next as u32);
                lemma_emitted_line_no_call(
                    prefix,
                    spec_reference_name(ns, spec_anonymous_name(next as u32)),
                );
            }
        }
    }
}

proof fn lemma_pass_leaves_no_call(
    ls: Seq<Seq<char>>,
    defs: Seq<DefView>,
    memo: Seq<MemoView>,
    next: int,
    ns: Seq<char>,
)
    requires
        no_call(ns),
        forall|m: int| 0 <= m < memo.len() ==> no_call(memo[m].ns),
    ensures
        ({
            let pl = process_lines(ls, defs, memo, next, ns);
            &&& !pl.polluted ==> forall|k: int| 0 <= k < pl.out_lines.len() ==> no_call(
                pl.out_lines[k],
            )
            &&& forall|m: int| 0 <= m < pl.memo.len() ==> no_call(pl.memo[m].ns)
        }),
    decreases ls.len(),
{
    if ls.len() > 0 {
        let h = process_line(ls[0], defs, memo, next, ns);
        lemma_line_leaves_no_call(ls[0], defs, memo, next, ns);
        lemma_pass_leaves_no_call(ls.skip(1), defs, h.memo, h.next_id, ns);
        let rest = process_lines(ls.skip(1), defs, h.memo, h.next_id, ns);
        let pl = process_lines(ls, defs, memo, next, ns);
        if !pl.polluted {
            assert forall|k: int| 0 <= k < pl.out_lines.len() implies no_call(
                pl.out_lines[k],
            ) by {
                if k < h.out_lines.len() {
                    assert(pl.out_lines[k] == h.out_lines[k]);
                } else {
                    assert(pl.out_lines[k] == rest.out_lines[k - h.out_lines.len()]);
                }
            }
        }
    }
}

proof fn lemma_join_no_call(ls: Seq<Seq<char>>)
    requires
        forall|k: int| 0 <= k < ls.len() ==> no_call(ls[k]),
    ensures
        no_call(join_lines(ls)),
    decreases ls.len(),
{
    proof_strlit_call();
    if ls.len() == 0 {
        lemma_short_no_call(join_lines(ls));
    } else if ls.len() == 1 {
    } else {
        assert forall|k: int| 0 <= k < ls.skip(1).len() implies no_call(ls.skip(1)[k]) by {
            assert(ls.skip(1)[k] == ls[k + 1]);
        }
        lemma_join_no_call(ls.skip(1));
        lemma_short_no_call(seq!['\n']);
        lemma_concat_no_call(seq!['\n'], join_lines(ls.skip(1)));
        lemma_concat_no_call(ls[0], seq!['\n'] + join_lines(ls.skip(1)));
        assert((seq!['\n'] + join_lines(ls.skip(1)))[0] == '\n');
        assert(ls[0] + (seq!['\n'] + join_lines(ls.skip(1))) =~= join_lines(ls));
    }
}

/// Fixpoint settlement: a pass of the macro stage that did not pollute its
/// scope leaves no occurrence of the `call` token in the scope's content —
/// every call line was rewritten to a plain `function` reference. The
/// namespace names must themselves be free of the token: a namespace such
/// as `recall` smuggles it back in through every reference.
pub proof fn lemma_settled_scope_has_no_call(
    content: Seq<char>,
    defs: Seq<DefView>,
    memo: Seq<MemoView>,
    next: int,
    ns: Seq<char>,
)
    requires
        no_call(ns),
        forall|m: int| 0 <= m < memo.len() ==> no_call(memo[m].ns),
        !spec_process_scope(content, defs, memo, next, ns).polluted,
    ensures
        no_call(spec_process_scope(content, defs, memo, next, ns).content),
{
    reveal(spec_process_scope);
    let ex = extract_definitions(spec_lines(content));
    let defs2 = defs + ex.defs;
    lemma_pass_leaves_no_call(ex.kept, defs2, memo, next, ns);
    let pl = process_lines(ex.kept, defs2, memo, next, ns);
    lemma_join_no_call(pl.out_lines);
}

} // verus!
