//! The indentation-lowering stage: extracts each maximal run of tab-indented
//! lines into a freshly named scope of its own, leaves a `function` call to
//! it behind, and recurses into the extracted block, so that nesting depth
//! becomes a chain of flat scopes.
use vstd::prelude::*;
use crate::CompileError;
use crate::namespace::Namespace;
use crate::scope::{Scope, spec_anonymous_name, spec_reference_name};
use crate::util::{
    spec_lines, join_lines, views_of, lines_of, join_lines_exec, str_to_chars, chars_to_string,
};

verus! {

/// A scope the lowering minted: its anonymous name and its content.
pub struct GenScope {
    pub name: Seq<char>,
    pub content: Seq<char>,
}

/// What lowering one line sequence yields: the rewritten content, the
/// minted scopes in the order they were finished, and the counter after.
pub struct Lowered {
    pub content: Seq<char>,
    pub generated: Seq<GenScope>,
    pub next_id: int,
}

/// The total number of characters over all lines.
pub open spec fn total_chars(ls: Seq<Seq<char>>) -> int
    decreases ls.len(),
{
    if ls.len() == 0 {
        0
    } else {
        ls[0].len() + total_chars(ls.skip(1))
    }
}

pub proof fn lemma_total_chars_nonneg(ls: Seq<Seq<char>>)
    ensures
        total_chars(ls) >= 0,
    decreases ls.len(),
{
    if ls.len() > 0 {
        lemma_total_chars_nonneg(ls.skip(1));
    }
}

pub proof fn lemma_total_chars_split(ls: Seq<Seq<char>>, k: int)
    requires
        0 <= k <= ls.len(),
    ensures
        total_chars(ls) == total_chars(ls.take(k)) + total_chars(ls.skip(k)),
    decreases k,
{
    if k == 0 {
        assert(ls.take(0) =~= Seq::<Seq<char>>::empty());
        assert(ls.skip(0) =~= ls);
    } else {
        lemma_total_chars_split(ls.skip(1), k - 1);
        assert(ls.skip(1).take(k - 1) =~= ls.take(k).skip(1));
        assert(ls.skip(1).skip(k - 1) =~= ls.skip(k));
        assert(total_chars(ls.take(k)) == ls.take(k)[0].len() + total_chars(ls.take(k).skip(1)));
    }
}

/// Whether a line opens with a tab: the mark of one further nesting level.
pub open spec fn is_tab_line(l: Seq<char>) -> bool {
    l.len() > 0 && l[0] == '\t'
}

/// The number of leading lines that do not open with a tab.
pub open spec fn nontab_run(ls: Seq<Seq<char>>) -> int
    decreases ls.len(),
{
    if ls.len() > 0 && !is_tab_line(ls[0]) {
        1 + nontab_run(ls.skip(1))
    } else {
        0
    }
}

/// The number of leading lines that do open with a tab.
pub open spec fn tab_run(ls: Seq<Seq<char>>) -> int
    decreases ls.len(),
{
    if ls.len() > 0 && is_tab_line(ls[0]) {
        1 + tab_run(ls.skip(1))
    } else {
        0
    }
}

pub proof fn lemma_nontab_run(ls: Seq<Seq<char>>)
    ensures
        0 <= nontab_run(ls) <= ls.len(),
        forall|j: int| 0 <= j < nontab_run(ls) ==> !is_tab_line(ls[j]),
        nontab_run(ls) < ls.len() ==> is_tab_line(ls[nontab_run(ls)]),
    decreases ls.len(),
{
    if ls.len() > 0 && !is_tab_line(ls[0]) {
        lemma_nontab_run(ls.skip(1));
        assert forall|j: int| 0 <= j < nontab_run(ls) implies !is_tab_line(ls[j]) by {
            if j > 0 {
                assert(ls.skip(1)[j - 1] == ls[j]);
            }
        }
    }
}

pub proof fn lemma_tab_run(ls: Seq<Seq<char>>)
    ensures
        0 <= tab_run(ls) <= ls.len(),
        forall|j: int| 0 <= j < tab_run(ls) ==> is_tab_line(ls[j]),
        tab_run(ls) < ls.len() ==> !is_tab_line(ls[tab_run(ls)]),
    decreases ls.len(),
{
    if ls.len() > 0 && is_tab_line(ls[0]) {
        lemma_tab_run(ls.skip(1));
        assert forall|j: int| 0 <= j < tab_run(ls) implies is_tab_line(ls[j]) by {
            if j > 0 {
                assert(ls.skip(1)[j - 1] == ls[j]);
            }
        }
    }
}

/// Each line with its single leading indent level removed.
pub open spec fn dedent(ls: Seq<Seq<char>>) -> Seq<Seq<char>> {
    ls.map_values(|l: Seq<char>| l.skip(1))
}

proof fn lemma_dedent_chars(ls: Seq<Seq<char>>)
    requires
        forall|j: int| 0 <= j < ls.len() ==> is_tab_line(ls[j]),
    ensures
        total_chars(dedent(ls)) == total_chars(ls) - ls.len(),
    decreases ls.len(),
{
    if ls.len() > 0 {
        lemma_dedent_chars(ls.skip(1));
        assert(dedent(ls.skip(1)) =~= dedent(ls).skip(1));
        assert(total_chars(dedent(ls)) == dedent(ls)[0].len() + total_chars(dedent(ls).skip(1)));
    }
}

/// The lowering of a line sequence under namespace `ns`, counting minted
/// scopes from `next`: leading non-tab lines stand as they are; a maximal
/// tab-indented run becomes a fresh scope, dedented by one level and itself
/// lowered, and the line before the run gains ` function <reference>`.
pub open spec fn lower_lines(ls: Seq<Seq<char>>, ns: Seq<char>, next: int) -> Lowered
    decreases total_chars(ls), ls.len(),
    via lower_lines_decreases
{
    let p = nontab_run(ls);
    let prefix = join_lines(ls.take(p));
    let rest = ls.skip(p);
    if rest.len() == 0 {
        Lowered { content: prefix, generated: Seq::empty(), next_id: next }
    } else {
        let t = tab_run(rest);
        let child_name = spec_anonymous_name(next as u32);
        let sub = lower_lines(dedent(rest.take(t)), ns, next + 1);
        let after = lower_lines(ls.skip(p + t), ns, sub.next_id);
        Lowered {
            content: prefix + seq![' '] + "function "@ + spec_reference_name(ns, child_name)
                + seq!['\n'] + after.content,
            generated: sub.generated + seq![
                GenScope { name: child_name, content: sub.content },
            ] + after.generated,
            next_id: after.next_id,
        }
    }
}

#[via_fn]
proof fn lower_lines_decreases(ls: Seq<Seq<char>>, ns: Seq<char>, next: int) {
    lemma_lower_strictness(ls);
    let p = nontab_run(ls);
    let rest = ls.skip(p);
    if rest.len() > 0 {
        let t = tab_run(rest);
        lemma_total_chars_nonneg(dedent(rest.take(t)));
        lemma_total_chars_nonneg(ls.skip(p + t));
    }
}

/// The facts the recursion in `lower_lines` rests on: both recursive
/// arguments hold strictly fewer characters than `ls`.
proof fn lemma_lower_strictness(ls: Seq<Seq<char>>)
    ensures
        ls.skip(nontab_run(ls)).len() > 0 ==> total_chars(
            dedent(ls.skip(nontab_run(ls)).take(tab_run(ls.skip(nontab_run(ls))))),
        ) < total_chars(ls),
        ls.skip(nontab_run(ls)).len() > 0 ==> total_chars(
            ls.skip(nontab_run(ls) + tab_run(ls.skip(nontab_run(ls)))),
        ) < total_chars(ls),
{
    let p = nontab_run(ls);
    lemma_nontab_run(ls);
    let rest = ls.skip(p);
    if rest.len() > 0 {
        let t = tab_run(rest);
        lemma_tab_run(rest);
        assert(is_tab_line(rest[0]));
        assert(t >= 1);
        lemma_total_chars_split(ls, p);
        lemma_total_chars_split(rest, t);
        lemma_total_chars_nonneg(ls.take(p));
        lemma_total_chars_nonneg(rest.skip(t));
        lemma_dedent_chars(rest.take(t));
        lemma_total_chars_nonneg(dedent(rest.take(t)));
        assert(ls.skip(p + t) =~= rest.skip(t));
        assert(total_chars(rest.take(t)) >= t) by {
            lemma_total_chars_nonneg(dedent(rest.take(t)));
        }
    }
}

/// The final counter never falls below the starting one.
pub proof fn lemma_lower_monotonic(ls: Seq<Seq<char>>, ns: Seq<char>, next: int)
    ensures
        lower_lines(ls, ns, next).next_id >= next,
    decreases total_chars(ls), ls.len(),
{
    lemma_total_chars_nonneg(ls);
    let p = nontab_run(ls);
    let rest = ls.skip(p);
    if rest.len() > 0 {
        let t = tab_run(rest);
        lemma_lower_strictness(ls);
        lemma_total_chars_nonneg(dedent(rest.take(t)));
        lemma_total_chars_nonneg(ls.skip(p + t));
        lemma_lower_monotonic(dedent(rest.take(t)), ns, next + 1);
        let sub = lower_lines(dedent(rest.take(t)), ns, next + 1);
        lemma_lower_monotonic(ls.skip(p + t), ns, sub.next_id);
    }
}

/// The counter values the lowering mints, in the order the scopes are
/// finished: the values of a block's own sub-blocks, then the block's, then
/// those of the blocks after it.
pub open spec fn minted_ids(ls: Seq<Seq<char>>, ns: Seq<char>, next: int) -> Seq<int>
    decreases total_chars(ls), ls.len(),
    via minted_ids_decreases
{
    let p = nontab_run(ls);
    let rest = ls.skip(p);
    if rest.len() == 0 {
        Seq::empty()
    } else {
        let t = tab_run(rest);
        let sub = lower_lines(dedent(rest.take(t)), ns, next + 1);
        minted_ids(dedent(rest.take(t)), ns, next + 1) + seq![next] + minted_ids(
            ls.skip(p + t),
            ns,
            sub.next_id,
        )
    }
}

#[via_fn]
proof fn minted_ids_decreases(ls: Seq<Seq<char>>, ns: Seq<char>, next: int) {
    lemma_lower_strictness(ls);
    let p = nontab_run(ls);
    let rest = ls.skip(p);
    if rest.len() > 0 {
        let t = tab_run(rest);
        lemma_total_chars_nonneg(dedent(rest.take(t)));
        lemma_total_chars_nonneg(ls.skip(p + t));
    }
}

/// Each minted scope is named from its own counter value, in the order
/// the values stand in `minted_ids`.
#[verifier::rlimit(60)]
#[verifier::spinoff_prover]
pub proof fn lemma_minted_names(ls: Seq<Seq<char>>, ns: Seq<char>, next: int)
    ensures
        minted_ids(ls, ns, next).len() == lower_lines(ls, ns, next).generated.len(),
        forall|k: int|
            0 <= k < minted_ids(ls, ns, next).len() ==> #[trigger] lower_lines(
                ls,
                ns,
                next,
            ).generated[k].name == spec_anonymous_name(minted_ids(ls, ns, next)[k] as u32),
    decreases total_chars(ls), ls.len(),
{
    lemma_lower_strictness(ls);
    lemma_total_chars_nonneg(ls);
    let p = nontab_run(ls);
    let rest = ls.skip(p);
    let lo = lower_lines(ls, ns, next);
    let ids = minted_ids(ls, ns, next);
    if rest.len() > 0 {
        let t = tab_run(rest);
        let ded = dedent(rest.take(t));
        lemma_total_chars_nonneg(ded);
        lemma_total_chars_nonneg(ls.skip(p + t));
        let sub = lower_lines(ded, ns, next + 1);
        let after = lower_lines(ls.skip(p + t), ns, sub.next_id);
        lemma_minted_names(ded, ns, next + 1);
        lemma_minted_names(ls.skip(p + t), ns, sub.next_id);
        let sub_ids = minted_ids(ded, ns, next + 1);
        let after_ids = minted_ids(ls.skip(p + t), ns, sub.next_id);
        assert forall|k: int|
            0 <= k < ids.len() implies #[trigger] lo.generated[k].name == spec_anonymous_name(
            ids[k] as u32,
        ) by {
            if k < sub_ids.len() {
                assert(ids[k] == sub_ids[k]);
                assert(lo.generated[k] == sub.generated[k]);
            } else if k == sub_ids.len() {
                assert(ids[k] == next);
                assert(lo.generated[k].name == spec_anonymous_name(next as u32));
            } else {
                assert(ids[k] == after_ids[k - sub_ids.len() - 1]);
                assert(lo.generated[k] == after.generated[k - sub_ids.len() - 1]);
            }
        }
    }
}

/// Every minted counter value lies between the starting counter and the
/// final one.
pub proof fn lemma_minted_range(ls: Seq<Seq<char>>, ns: Seq<char>, next: int)
    ensures
        forall|k: int|
            0 <= k < minted_ids(ls, ns, next).len() ==> next <= #[trigger] minted_ids(
                ls,
                ns,
                next,
            )[k] < lower_lines(ls, ns, next).next_id,
    decreases total_chars(ls), ls.len(),
{
    lemma_lower_strictness(ls);
    lemma_total_chars_nonneg(ls);
    let p = nontab_run(ls);
    let rest = ls.skip(p);
    let lo = lower_lines(ls, ns, next);
    let ids = minted_ids(ls, ns, next);
    if rest.len() > 0 {
        let t = tab_run(rest);
        let ded = dedent(rest.take(t));
        lemma_total_chars_nonneg(ded);
        lemma_total_chars_nonneg(ls.skip(p + t));
        let sub = lower_lines(ded, ns, next + 1);
        lemma_minted_range(ded, ns, next + 1);
        lemma_minted_range(ls.skip(p + t), ns, sub.next_id);
        lemma_lower_monotonic(ded, ns, next + 1);
        lemma_lower_monotonic(ls.skip(p + t), ns, sub.next_id);
        let sub_ids = minted_ids(ded, ns, next + 1);
        let after_ids = minted_ids(ls.skip(p + t), ns, sub.next_id);
        assert forall|k: int|
            0 <= k < ids.len() implies next <= #[trigger] ids[k] < lo.next_id by {
            if k < sub_ids.len() {
                assert(ids[k] == sub_ids[k]);
            } else if k == sub_ids.len() {
                assert(ids[k] == next);
            } else {
                assert(ids[k] == after_ids[k - sub_ids.len() - 1]);
            }
        }
    }
}

/// No counter value is minted twice.
pub proof fn lemma_minted_distinct(ls: Seq<Seq<char>>, ns: Seq<char>, next: int)
    ensures
        forall|k1: int, k2: int|
            #![trigger minted_ids(ls, ns, next)[k1], minted_ids(ls, ns, next)[k2]]
            0 <= k1 < k2 < minted_ids(ls, ns, next).len() ==> minted_ids(ls, ns, next)[k1]
                != minted_ids(ls, ns, next)[k2],
    decreases total_chars(ls), ls.len(),
{
    lemma_lower_strictness(ls);
    lemma_total_chars_nonneg(ls);
    let p = nontab_run(ls);
    let rest = ls.skip(p);
    let ids = minted_ids(ls, ns, next);
    if rest.len() > 0 {
        let t = tab_run(rest);
        let ded = dedent(rest.take(t));
        lemma_total_chars_nonneg(ded);
        lemma_total_chars_nonneg(ls.skip(p + t));
        let sub = lower_lines(ded, ns, next + 1);
        lemma_minted_distinct(ded, ns, next + 1);
        lemma_minted_distinct(ls.skip(p + t), ns, sub.next_id);
        lemma_minted_range(ded, ns, next + 1);
        lemma_minted_range(ls.skip(p + t), ns, sub.next_id);
        lemma_lower_monotonic(ded, ns, next + 1);
        lemma_lower_monotonic(ls.skip(p + t), ns, sub.next_id);
        let sub_ids = minted_ids(ded, ns, next + 1);
        let after_ids = minted_ids(ls.skip(p + t), ns, sub.next_id);
        assert forall|k1: int, k2: int|
            #![trigger ids[k1], ids[k2]]
            0 <= k1 < k2 < ids.len() implies ids[k1] != ids[k2] by {
            if k1 < sub_ids.len() {
                assert(ids[k1] == sub_ids[k1]);
                assert(next + 1 <= ids[k1] < sub.next_id);
            } else if k1 == sub_ids.len() {
                assert(ids[k1] == next);
            } else {
                assert(ids[k1] == after_ids[k1 - sub_ids.len() - 1]);
                assert(sub.next_id <= ids[k1]);
            }
            if k2 < sub_ids.len() {
                assert(ids[k2] == sub_ids[k2]);
                assert(next + 1 <= ids[k2] < sub.next_id);
            } else if k2 == sub_ids.len() {
                assert(ids[k2] == next);
            } else {
                assert(ids[k2] == after_ids[k2 - sub_ids.len() - 1]);
                assert(sub.next_id <= ids[k2]);
            }
        }
    }
}

/// Anonymous-id uniqueness: within the 32-bit counter space, no two scopes
/// the lowering mints share a name — each is named from its own counter
/// value, and distinct values render to distinct paths.
pub proof fn lemma_lowering_names_unique(ls: Seq<Seq<char>>, ns: Seq<char>, next: int)
    requires
        0 <= next,
        lower_lines(ls, ns, next).next_id <= u32::MAX + 1,
    ensures
        forall|k1: int, k2: int|
            0 <= k1 < k2 < lower_lines(ls, ns, next).generated.len() ==> lower_lines(
                ls,
                ns,
                next,
            ).generated[k1].name != lower_lines(ls, ns, next).generated[k2].name,
{
    let lo = lower_lines(ls, ns, next);
    let ids = minted_ids(ls, ns, next);
    lemma_minted_names(ls, ns, next);
    lemma_minted_range(ls, ns, next);
    lemma_minted_distinct(ls, ns, next);
    assert forall|k1: int, k2: int|
        0 <= k1 < k2 < lo.generated.len() implies lo.generated[k1].name
        != lo.generated[k2].name by {
        assert(ids[k1] != ids[k2]);
        assert(0 <= ids[k1] <= u32::MAX && 0 <= ids[k2] <= u32::MAX);
        if lo.generated[k1].name == lo.generated[k2].name {
            crate::scope::lemma_anonymous_name_injective(ids[k1] as u32, ids[k2] as u32);
        }
    }
}

/// Anonymous-id uniqueness across the stage's whole life: two lowerings
/// whose counter ranges do not overlap — as consecutive passes of one
/// instance never do, each starting where the previous ended — mint no
/// name twice between them. With `lemma_lowering_names_unique` inside each
/// pass, every name one instance ever mints is distinct.
pub proof fn lemma_lowering_names_unique_across_runs(
    ls1: Seq<Seq<char>>,
    ns1: Seq<char>,
    n1: int,
    ls2: Seq<Seq<char>>,
    ns2: Seq<char>,
    n2: int,
)
    requires
        0 <= n1,
        lower_lines(ls1, ns1, n1).next_id <= n2,
        lower_lines(ls2, ns2, n2).next_id <= u32::MAX + 1,
    ensures
        forall|k1: int, k2: int|
            0 <= k1 < lower_lines(ls1, ns1, n1).generated.len() && 0 <= k2 < lower_lines(
                ls2,
                ns2,
                n2,
            ).generated.len() ==> lower_lines(ls1, ns1, n1).generated[k1].name != lower_lines(
                ls2,
                ns2,
                n2,
            ).generated[k2].name,
{
    let lo1 = lower_lines(ls1, ns1, n1);
    let lo2 = lower_lines(ls2, ns2, n2);
    let ids1 = minted_ids(ls1, ns1, n1);
    let ids2 = minted_ids(ls2, ns2, n2);
    lemma_minted_names(ls1, ns1, n1);
    lemma_minted_range(ls1, ns1, n1);
    lemma_minted_names(ls2, ns2, n2);
    lemma_minted_range(ls2, ns2, n2);
    lemma_lower_monotonic(ls1, ns1, n1);
    assert forall|k1: int, k2: int|
        0 <= k1 < lo1.generated.len() && 0 <= k2 < lo2.generated.len() implies lo1.generated[
        k1
    ].name != lo2.generated[k2].name by {
        assert(n1 <= ids1[k1] < lo1.next_id);
        assert(n2 <= ids2[k2] < lo2.next_id);
        assert(ids1[k1] != ids2[k2]);
        if lo1.generated[k1].name == lo2.generated[k2].name {
            crate::scope::lemma_anonymous_name_injective(ids1[k1] as u32, ids2[k2] as u32);
        }
    }
}

fn nontab_run_exec(ls: &[Vec<char>]) -> (r: usize)
    ensures
        r as int == nontab_run(views_of(ls@)),
    decreases ls@.len(),
{
    proof {
        lemma_nontab_run(views_of(ls@));
    }
    if ls.len() > 0 {
        let first = vstd::slice::slice_index_get(ls, 0);
        if first.len() == 0 || first[0] != '\t' {
            let rec = nontab_run_exec(vstd::slice::slice_subrange(ls, 1, ls.len()));
            proof {
                assert(views_of(ls@.skip(1)) =~= views_of(ls@).skip(1));
                lemma_nontab_run(views_of(ls@).skip(1));
            }
            return 1 + rec;
        }
    }
    assert(ls@.len() == 0 || is_tab_line(views_of(ls@)[0]));
    0
}

fn tab_run_exec(ls: &[Vec<char>]) -> (r: usize)
    ensures
        r as int == tab_run(views_of(ls@)),
    decreases ls@.len(),
{
    proof {
        lemma_tab_run(views_of(ls@));
    }
    if ls.len() > 0 {
        let first = vstd::slice::slice_index_get(ls, 0);
        if first.len() > 0 && first[0] == '\t' {
            let rec = tab_run_exec(vstd::slice::slice_subrange(ls, 1, ls.len()));
            proof {
                assert(views_of(ls@.skip(1)) =~= views_of(ls@).skip(1));
                lemma_tab_run(views_of(ls@).skip(1));
            }
            return 1 + rec;
        }
    }
    0
}

fn dedent_exec(ls: &[Vec<char>]) -> (r: Vec<Vec<char>>)
    requires
        forall|j: int| 0 <= j < ls@.len() ==> is_tab_line(views_of(ls@)[j]),
    ensures
        views_of(r@) == dedent(views_of(ls@)),
{
    let mut r: Vec<Vec<char>> = Vec::new();
    let mut i: usize = 0;
    while i < ls.len()
        invariant
            0 <= i <= ls@.len(),
            forall|j: int| 0 <= j < ls@.len() ==> is_tab_line(views_of(ls@)[j]),
            r@.len() == i,
            forall|j: int| 0 <= j < i ==> r@[j]@ == views_of(ls@)[j].skip(1),
        decreases ls@.len() - i,
    {
        let line = vstd::slice::slice_index_get(ls, i);
        assert(line@ == views_of(ls@)[i as int]);
        assert(is_tab_line(line@));
        r.push(vstd::slice::slice_to_vec(vstd::slice::slice_subrange(line.as_slice(), 1, line.len())));
        i += 1;
    }
    assert(views_of(r@) =~= dedent(views_of(ls@)));
    r
}

/// The stage that lowers indentation into a forest of flat scopes.
pub struct ScopesCompiler {
    /// The ascending counter the next minted scope is named from.
    pub next_anonymous_scope_name: u32,
}

impl ScopesCompiler {
    /// A fresh lowering stage, counting anonymous names from zero.
    pub fn new() -> (r: ScopesCompiler)
        ensures
            r.next_anonymous_scope_name == 0,
    {
        ScopesCompiler { next_anonymous_scope_name: 0 }
    }

    /// Rewrites `scope` to its lowered content and pushes every scope the
    /// lowering minted onto `new_scopes`, deepest first, in finishing order.
    /// Fails only when the 32-bit counter would run out.
    pub fn generate_scopes(
        &mut self,
        scope: &mut Scope,
        lines: &[Vec<char>],
        new_scopes: &mut Vec<Scope>,
    ) -> (r: Result<(), CompileError>)
        ensures
            ({
                let lo = lower_lines(
                    views_of(lines@),
                    old(scope).namespace.name@,
                    old(self).next_anonymous_scope_name as int,
                );
                &&& final(scope).name == old(scope).name
                &&& final(scope).namespace == old(scope).namespace
                &&& final(new_scopes)@.len() >= old(new_scopes)@.len()
                &&& (forall|i: int|
                    0 <= i < old(new_scopes)@.len() ==> final(new_scopes)@[i] == old(
                        new_scopes,
                    )@[i])
                &&& r.is_ok() ==> {
                    &&& final(scope).content@ == lo.content
                    &&& final(self).next_anonymous_scope_name as int == lo.next_id
                    &&& final(new_scopes)@.len() == old(new_scopes)@.len() + lo.generated.len()
                    &&& (forall|i: int|
                        0 <= i < lo.generated.len() ==> {
                            &&& final(new_scopes)@[old(new_scopes)@.len() + i].name@
                                == lo.generated[i].name
                            &&& final(new_scopes)@[old(new_scopes)@.len() + i].content@
                                == lo.generated[i].content
                            &&& final(new_scopes)@[old(new_scopes)@.len() + i].namespace == old(
                                scope,
                            ).namespace
                        })
                }
                &&& r.is_err() ==> lo.next_id > u32::MAX && (r matches Err(
                    CompileError::IdSpaceExhausted,
                )) && final(scope).content == old(scope).content
            }),
    {
        let ns = scope.namespace.duplicate();
        match self.lower_exec(lines, &ns, new_scopes) {
            Ok(content) => {
                scope.content = chars_to_string(&content);
                Ok(())
            },
            Err(e) => Err(e),
        }
    }

    #[verifier::rlimit(100)]
    #[verifier::spinoff_prover]
    fn lower_exec(
        &mut self,
        lines: &[Vec<char>],
        ns: &Namespace,
        out: &mut Vec<Scope>,
    ) -> (r: Result<Vec<char>, CompileError>)
        ensures
            ({
                let lo = lower_lines(
                    views_of(lines@),
                    ns.name@,
                    old(self).next_anonymous_scope_name as int,
                );
                &&& final(out)@.len() >= old(out)@.len()
                &&& (forall|i: int| 0 <= i < old(out)@.len() ==> final(out)@[i] == old(out)@[i])
                &&& r.is_ok() ==> {
                    &&& r.unwrap()@ == lo.content
                    &&& final(self).next_anonymous_scope_name as int == lo.next_id
                    &&& final(out)@.len() == old(out)@.len() + lo.generated.len()
                    &&& (forall|i: int|
                        0 <= i < lo.generated.len() ==> {
                            &&& final(out)@[old(out)@.len() + i].name@ == lo.generated[i].name
                            &&& final(out)@[old(out)@.len() + i].content@
                                == lo.generated[i].content
                            &&& final(out)@[old(out)@.len() + i].namespace == *ns
                        })
                }
                &&& r.is_err() ==> lo.next_id > u32::MAX && (r matches Err(
                    CompileError::IdSpaceExhausted,
                ))
            }),
        decreases total_chars(views_of(lines@)),
    {
        let ghost lsv = views_of(lines@);
        proof {
            lemma_nontab_run(lsv);
            lemma_total_chars_nonneg(lsv);
        }
        let n = lines.len();
        let p = nontab_run_exec(lines);
        let mut prefix = join_lines_exec(vstd::slice::slice_subrange(lines, 0, p));
        proof {
            assert(views_of(lines@.take(p as int)) =~= lsv.take(p as int));
        }
        if p == n {
            assert(lsv.skip(p as int).len() == 0);
            return Ok(prefix);
        }
        proof {
            assert(views_of(lines@.skip(p as int)) =~= lsv.skip(p as int));
            lemma_tab_run(lsv.skip(p as int));
        }
        let t = tab_run_exec(vstd::slice::slice_subrange(lines, p, n));
        assert(t >= 1);
        let ghost lo = lower_lines(lsv, ns.name@, old(self).next_anonymous_scope_name as int);
        proof {
            lemma_lower_strictness(lsv);
        }
        if self.next_anonymous_scope_name == u32::MAX {
            proof {
                let sub = lower_lines(
                    dedent(lsv.skip(p as int).take(t as int)),
                    ns.name@,
                    old(self).next_anonymous_scope_name as int + 1,
                );
                lemma_lower_monotonic(
                    dedent(lsv.skip(p as int).take(t as int)),
                    ns.name@,
                    old(self).next_anonymous_scope_name as int + 1,
                );
                lemma_lower_monotonic(
                    lsv.skip(p as int + t as int),
                    ns.name@,
                    sub.next_id,
                );
            }
            return Err(CompileError::IdSpaceExhausted);
        }
        let id = self.next_anonymous_scope_name;
        self.next_anonymous_scope_name = id + 1;
        let mut child = Scope::new_unnamed(id, ns);
        let reference = child.get_reference_name();
        let ref_chars = str_to_chars(reference.as_str());
        let tab_slice = vstd::slice::slice_subrange(lines, p, p + t);
        proof {
            assert(views_of(tab_slice@) =~= lsv.skip(p as int).take(t as int));
            assert forall|j: int| 0 <= j < tab_slice@.len() implies is_tab_line(
                views_of(tab_slice@)[j],
            ) by {
                assert(views_of(tab_slice@)[j] == lsv.skip(p as int)[j]);
            }
        }
        let ded = dedent_exec(tab_slice);
        proof {
            assert(views_of(ded@) =~= dedent(lsv.skip(p as int).take(t as int)));
            lemma_total_chars_nonneg(views_of(ded@));
            lemma_total_chars_nonneg(lsv.skip(p as int + t as int));
        }
        let ghost out_before_sub = out@;
        let sub_content = match self.lower_exec(ded.as_slice(), ns, out) {
            Ok(c) => c,
            Err(e) => {
                proof {
                    let sub = lower_lines(
                        dedent(lsv.skip(p as int).take(t as int)),
                        ns.name@,
                        id as int + 1,
                    );
                    lemma_lower_monotonic(lsv.skip(p as int + t as int), ns.name@, sub.next_id);
                }
                return Err(e);
            },
        };
        child.content = chars_to_string(&sub_content);
        out.push(child);
        let ghost out_mid = out@;
        let after_slice = vstd::slice::slice_subrange(lines, p + t, n);
        proof {
            assert(views_of(after_slice@) =~= lsv.skip(p as int + t as int));
            lemma_total_chars_nonneg(views_of(after_slice@));
        }
        let after_content = match self.lower_exec(after_slice, ns, out) {
            Ok(c) => c,
            Err(e) => {
                return Err(e);
            },
        };
        let function_kw = str_to_chars("function ");
        let mut content = prefix;
        content.push(' ');
        let mut kw = function_kw;
        content.append(&mut kw);
        let mut rc = ref_chars;
        content.append(&mut rc);
        content.push('\n');
        let mut ac = after_content;
        content.append(&mut ac);
        proof {
            let sub = lower_lines(
                dedent(lsv.skip(p as int).take(t as int)),
                ns.name@,
                id as int + 1,
            );
            let after = lower_lines(lsv.skip(p as int + t as int), ns.name@, sub.next_id);
            assert(content@ =~= join_lines(lsv.take(p as int)) + seq![' '] + "function "@
                + spec_reference_name(ns.name@, spec_anonymous_name(id)) + seq!['\n']
                + after.content);
            assert(lo.generated =~= sub.generated + seq![
                GenScope { name: spec_anonymous_name(id), content: sub.content },
            ] + after.generated);
        }
        Ok(content)
    }

    /// Lowers one scope: the rewritten scope itself comes first, then every
    /// minted scope, each finished before the next, shallowest first.
    pub fn process(&mut self, scope: Scope) -> (r: Result<Vec<Scope>, CompileError>)
        ensures
            ({
                let lo = lower_lines(
                    spec_lines(scope.content@),
                    scope.namespace.name@,
                    old(self).next_anonymous_scope_name as int,
                );
                &&& r.is_ok() ==> {
                    &&& r.unwrap()@.len() == 1 + lo.generated.len()
                    &&& r.unwrap()@[0].name == scope.name
                    &&& r.unwrap()@[0].namespace == scope.namespace
                    &&& r.unwrap()@[0].content@ == lo.content
                    &&& final(self).next_anonymous_scope_name as int == lo.next_id
                    &&& (forall|i: int|
                        1 <= i < r.unwrap()@.len() ==> {
                            &&& r.unwrap()@[i].name@ == lo.generated[lo.generated.len()
                                - i].name
                            &&& r.unwrap()@[i].content@ == lo.generated[lo.generated.len()
                                - i].content
                            &&& r.unwrap()@[i].namespace == scope.namespace
                        })
                }
                &&& r.is_err() ==> lo.next_id > u32::MAX && (r matches Err(
                    CompileError::IdSpaceExhausted,
                ))
            }),
    {
        let chars = str_to_chars(scope.content.as_str());
        let ls = lines_of(chars.as_slice());
        let mut root = scope;
        let mut minted: Vec<Scope> = Vec::new();
        match self.generate_scopes(&mut root, ls.as_slice(), &mut minted) {
            Ok(()) => {},
            Err(e) => {
                return Err(e);
            },
        }
        let ghost minted0 = minted@;
        let ghost rootv = root;
        let mut out: Vec<Scope> = Vec::new();
        out.push(root);
        while minted.len() > 0
            invariant
                out@.len() >= 1,
                out@.len() == 1 + minted0.len() - minted@.len(),
                minted@ =~= minted0.take(minted@.len() as int),
                out@[0] == rootv,
                forall|i: int| 1 <= i < out@.len() ==> out@[i] == minted0[minted0.len() - i],
            decreases minted@.len(),
        {
            let s = minted.pop().unwrap();
            out.push(s);
        }
        Ok(out)
    }
}

} // verus!
