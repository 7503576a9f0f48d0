//! The comment-stripping stage: drops every line whose first non-whitespace
//! character is `#`, and blank lines with it.
use vstd::prelude::*;
use crate::scope::Scope;
use crate::util::{
    spec_lines, join_lines, spec_trim, views_of, lines_of, join_lines_exec, trim_exec,
    str_to_chars, chars_to_string,
};

verus! {

/// Whether the stage keeps a line: its trimmed form is non-empty and does
/// not open with `#`.
pub open spec fn keeps_line(l: Seq<char>) -> bool {
    spec_trim(l).len() > 0 && spec_trim(l)[0] != '#'
}

/// The lines that survive comment stripping, in order.
pub open spec fn strip_comments(ls: Seq<Seq<char>>) -> Seq<Seq<char>>
    decreases ls.len(),
{
    if ls.len() == 0 {
        Seq::empty()
    } else if keeps_line(ls[0]) {
        seq![ls[0]] + strip_comments(ls.skip(1))
    } else {
        strip_comments(ls.skip(1))
    }
}

/// What the stage leaves of a text.
pub open spec fn spec_remove_comments(content: Seq<char>) -> Seq<char> {
    join_lines(strip_comments(spec_lines(content)))
}

fn strip_comments_exec(ls: &[Vec<char>]) -> (r: Vec<Vec<char>>)
    ensures
        views_of(r@) == strip_comments(views_of(ls@)),
    decreases ls@.len(),
{
    if ls.len() == 0 {
        let r: Vec<Vec<char>> = Vec::new();
        assert(views_of(r@) =~= strip_comments(views_of(ls@)));
        r
    } else {
        let first = vstd::slice::slice_index_get(ls, 0);
        let t = trim_exec(first.as_slice());
        let keep = t.len() > 0 && t[0] != '#';
        assert(keep == keeps_line(views_of(ls@)[0]));
        let mut rest = strip_comments_exec(vstd::slice::slice_subrange(ls, 1, ls.len()));
        let ghost rest0 = rest@;
        proof {
            assert(views_of(ls@.skip(1)) =~= views_of(ls@).skip(1));
        }
        if keep {
            let mut r: Vec<Vec<char>> = Vec::new();
            r.push(vstd::slice::slice_to_vec(first.as_slice()));
            r.append(&mut rest);
            proof {
                assert(views_of(r@) =~= seq![views_of(ls@)[0]] + views_of(rest0));
            }
            r
        } else {
            rest
        }
    }
}

/// The stage that strips comment lines from each scope it is handed.
pub struct CommentRemover {}

impl CommentRemover {
    /// A fresh comment-stripping stage.
    pub fn new() -> (r: CommentRemover) {
        CommentRemover {  }
    }

    /// Rewrites one scope, dropping its comment lines and blank lines.
    pub fn process(&self, scope: Scope) -> (r: Scope)
        ensures
            r.name == scope.name,
            r.namespace == scope.namespace,
            r.content@ == spec_remove_comments(scope.content@),
    {
        let chars = str_to_chars(scope.content.as_str());
        let ls = lines_of(chars.as_slice());
        let kept = strip_comments_exec(ls.as_slice());
        let joined = join_lines_exec(kept.as_slice());
        Scope { name: scope.name, namespace: scope.namespace, content: chars_to_string(&joined) }
    }
}

} // verus!
