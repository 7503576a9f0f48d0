//! The continuation-joining stage: collapses physical lines whose first
//! word is the literal `back` onto the logical line they continue.
use vstd::prelude::*;
use crate::scope::Scope;
use crate::util::{
    spec_lines, join_lines, views_of, lines_of, join_lines_exec, tokens, tokens_exec, find_sub,
    find_sub_exec, eq_chars, str_to_chars, chars_to_string,
};

verus! {

/// Whether a line continues the previous one: its first whitespace-delimited
/// word is exactly `back`.
pub open spec fn is_continuation(l: Seq<char>) -> bool {
    tokens(l).len() > 0 && tokens(l)[0] == "back"@
}

/// What a continuation line contributes: everything after the first
/// occurrence of `back`, with no separator.
pub open spec fn continuation_tail(l: Seq<char>) -> Seq<char> {
    if find_sub(l, "back"@) >= 0 {
        l.skip(find_sub(l, "back"@) + 4)
    } else {
        Seq::empty()
    }
}

/// The number of continuation lines opening `ls`.
pub open spec fn continuation_run(ls: Seq<Seq<char>>) -> int
    decreases ls.len(),
{
    if ls.len() > 0 && is_continuation(ls[0]) {
        1 + continuation_run(ls.skip(1))
    } else {
        0
    }
}

pub proof fn lemma_continuation_run(ls: Seq<Seq<char>>)
    ensures
        0 <= continuation_run(ls) <= ls.len(),
    decreases ls.len(),
{
    if ls.len() > 0 && is_continuation(ls[0]) {
        lemma_continuation_run(ls.skip(1));
    }
}

/// The tails of the first `k` lines, concatenated in order.
pub open spec fn glued_tails(ls: Seq<Seq<char>>, k: int) -> Seq<char>
    decreases k,
{
    if k <= 0 || ls.len() == 0 {
        Seq::empty()
    } else {
        continuation_tail(ls[0]) + glued_tails(ls.skip(1), k - 1)
    }
}

/// The logical lines: each physical line that is not itself a continuation,
/// extended by the tails of the continuation run that follows it.
pub open spec fn join_continuations(ls: Seq<Seq<char>>) -> Seq<Seq<char>>
    decreases ls.len(),
    via join_continuations_decreases
{
    if ls.len() == 0 {
        Seq::empty()
    } else {
        let k = continuation_run(ls.skip(1));
        seq![ls[0] + glued_tails(ls.skip(1), k)] + join_continuations(ls.skip(1 + k))
    }
}

#[via_fn]
proof fn join_continuations_decreases(ls: Seq<Seq<char>>) {
    if ls.len() > 0 {
        lemma_continuation_run(ls.skip(1));
    }
}

/// What the stage leaves of a text.
pub open spec fn spec_join_back(content: Seq<char>) -> Seq<char> {
    join_lines(join_continuations(spec_lines(content)))
}

fn is_continuation_exec(l: &Vec<char>) -> (r: bool)
    ensures
        r == is_continuation(l@),
{
    let ts = tokens_exec(l.as_slice());
    if ts.len() == 0 {
        false
    } else {
        let back = str_to_chars("back");
        eq_chars(ts[0].as_slice(), back.as_slice())
    }
}

fn continuation_tail_exec(l: &Vec<char>) -> (r: Vec<char>)
    ensures
        r@ == continuation_tail(l@),
{
    let back = str_to_chars("back");
    match find_sub_exec(l.as_slice(), back.as_slice()) {
        Some(i) => {
            let n = l.len();
            proof {
                reveal_strlit("back");
                assert(back@ =~= "back"@);
                crate::util::lemma_find_sub(l@, "back"@);
                assert(i + 4 <= n);
            }
            vstd::slice::slice_to_vec(vstd::slice::slice_subrange(l.as_slice(), i + 4, n))
        },
        None => Vec::new(),
    }
}

fn join_continuations_exec(ls: &[Vec<char>]) -> (r: Vec<Vec<char>>)
    ensures
        views_of(r@) == join_continuations(views_of(ls@)),
    decreases ls@.len(),
{
    if ls.len() == 0 {
        let r: Vec<Vec<char>> = Vec::new();
        assert(views_of(r@) =~= join_continuations(views_of(ls@)));
        r
    } else {
        proof {
            assert(views_of(ls@).skip(1) =~= views_of(ls@.skip(1)));
            lemma_continuation_run(views_of(ls@).skip(1));
        }
        let mut logical = vstd::slice::slice_to_vec(
            vstd::slice::slice_index_get(ls, 0).as_slice(),
        );
        let mut i: usize = 1;
        while i < ls.len() && is_continuation_exec(vstd::slice::slice_index_get(ls, i))
            invariant
                1 <= i <= ls@.len(),
                forall|j: int| 1 <= j < i ==> is_continuation(views_of(ls@)[j]),
                logical@ == views_of(ls@)[0] + glued_tails(views_of(ls@).skip(1), i - 1),
            decreases ls@.len() - i,
        {
            let mut tail = continuation_tail_exec(vstd::slice::slice_index_get(ls, i));
            proof {
                lemma_glued_tails_extend(views_of(ls@).skip(1), i - 1);
            }
            logical.append(&mut tail);
            i += 1;
        }
        proof {
            lemma_continuation_run_exact(views_of(ls@).skip(1), i - 1);
        }
        let mut rest = join_continuations_exec(vstd::slice::slice_subrange(ls, i, ls.len()));
        let ghost rest0 = rest@;
        proof {
            assert(views_of(ls@.skip(i as int)) =~= views_of(ls@).skip(i as int));
        }
        let mut r: Vec<Vec<char>> = Vec::new();
        r.push(logical);
        r.append(&mut rest);
        proof {
            let lv = views_of(ls@);
            let k = continuation_run(lv.skip(1));
            assert(k == i - 1);
            assert(views_of(r@) =~= seq![lv[0] + glued_tails(lv.skip(1), k)] + views_of(rest0));
            assert(views_of(r@) =~= join_continuations(lv));
        }
        r
    }
}

proof fn lemma_glued_tails_extend(ls: Seq<Seq<char>>, k: int)
    requires
        0 <= k < ls.len(),
        forall|j: int| 0 <= j < k ==> is_continuation(ls[j]),
    ensures
        glued_tails(ls, k + 1) == glued_tails(ls, k) + continuation_tail(ls[k]),
    decreases k,
{
    if k == 0 {
        assert(glued_tails(ls, 1) =~= continuation_tail(ls[0]) + glued_tails(ls.skip(1), 0));
        assert(glued_tails(ls, 1) =~= glued_tails(ls, 0) + continuation_tail(ls[0]));
    } else {
        lemma_glued_tails_extend(ls.skip(1), k - 1);
        assert(ls.skip(1)[k - 1] == ls[k]);
        assert(glued_tails(ls, k + 1) =~= continuation_tail(ls[0]) + glued_tails(ls.skip(1), k));
        assert(glued_tails(ls, k) + continuation_tail(ls[k]) =~= continuation_tail(ls[0]) + (
        glued_tails(ls.skip(1), k - 1) + continuation_tail(ls.skip(1)[k - 1])));
    }
}

proof fn lemma_continuation_run_exact(ls: Seq<Seq<char>>, k: int)
    requires
        0 <= k <= ls.len(),
        forall|j: int| 0 <= j < k ==> is_continuation(ls[j]),
        k < ls.len() ==> !is_continuation(ls[k]),
    ensures
        continuation_run(ls) == k,
    decreases k,
{
    if k == 0 {
    } else {
        assert(is_continuation(ls[0]));
        assert forall|j: int| 0 <= j < k - 1 implies is_continuation(ls.skip(1)[j]) by {
            assert(ls.skip(1)[j] == ls[j + 1]);
        }
        if k - 1 < ls.skip(1).len() {
            assert(ls.skip(1)[k - 1] == ls[k]);
        }
        lemma_continuation_run_exact(ls.skip(1), k - 1);
    }
}

/// The stage that joins continuation lines onto their logical line.
pub struct BackCompiler {}

impl BackCompiler {
    /// A fresh continuation-joining stage.
    pub fn new() -> (r: BackCompiler) {
        BackCompiler {  }
    }

    /// Rewrites one scope, collapsing its continuation lines.
    pub fn process(&self, scope: Scope) -> (r: Scope)
        ensures
            r.name == scope.name,
            r.namespace == scope.namespace,
            r.content@ == spec_join_back(scope.content@),
    {
        let chars = str_to_chars(scope.content.as_str());
        let ls = lines_of(chars.as_slice());
        let joined_lines = join_continuations_exec(ls.as_slice());
        let joined = join_lines_exec(joined_lines.as_slice());
        Scope { name: scope.name, namespace: scope.namespace, content: chars_to_string(&joined) }
    }
}

} // verus!
