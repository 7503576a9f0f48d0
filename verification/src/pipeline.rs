//! The pipeline composition: one strictly ordered chain pulling every
//! source scope through comment stripping, macro expansion, indentation
//! lowering, token substitution and continuation joining, in that order.
use vstd::prelude::*;
use crate::CompileError;
use crate::scope::Scope;
use crate::comment_remover::{CommentRemover, spec_remove_comments};
use crate::back_compiler::{BackCompiler, spec_join_back};
use crate::substitutions_compiler::{SubstitutionsCompiler, spec_substitute};
use crate::scopes_compiler::{ScopesCompiler, GenScope, lower_lines, lemma_lower_monotonic};
use crate::macro_compiler::{
    MacroCompiler, DrainState, DrainEnd, DefView, MemoView, def_views, memo_views, drain, ScRec,
    sc_rec, sc_recs,
};
use crate::util::spec_lines;

verus! {

/// A scope record after the comment stage.
pub open spec fn strip_rec(sc: ScRec) -> ScRec {
    ScRec { name: sc.name, ns: sc.ns, content: spec_remove_comments(sc.content) }
}

/// The records after the comment stage, in order.
pub open spec fn strip_recs(ss: Seq<ScRec>) -> Seq<ScRec> {
    ss.map_values(|sc: ScRec| strip_rec(sc))
}

/// What lowering a run of scopes yields: the flattened output, in order,
/// and the ascending counter after.
pub struct LoweredRun {
    pub scopes: Seq<ScRec>,
    pub next_id: int,
}

/// The lowering of one scope: the rewritten root first, then the minted
/// scopes, shallowest first.
pub open spec fn lower_rec(sc: ScRec, next: int) -> LoweredRun {
    let lo = lower_lines(spec_lines(sc.content), sc.ns, next);
    LoweredRun {
        scopes: seq![ScRec { name: sc.name, ns: sc.ns, content: lo.content }]
            + lo.generated.reverse().map_values(
            |g: GenScope| ScRec { name: g.name, ns: sc.ns, content: g.content },
        ),
        next_id: lo.next_id,
    }
}

/// The lowering of the scopes in order, the counter threading through.
pub open spec fn lower_run(ss: Seq<ScRec>, next: int) -> LoweredRun
    decreases ss.len(),
{
    if ss.len() == 0 {
        LoweredRun { scopes: Seq::empty(), next_id: next }
    } else {
        let h = lower_rec(ss[0], next);
        let rest = lower_run(ss.skip(1), h.next_id);
        LoweredRun { scopes: h.scopes + rest.scopes, next_id: rest.next_id }
    }
}

pub proof fn lemma_lower_run_monotonic(ss: Seq<ScRec>, next: int)
    ensures
        lower_run(ss, next).next_id >= next,
    decreases ss.len(),
{
    if ss.len() > 0 {
        lemma_lower_monotonic(spec_lines(ss[0].content), ss[0].ns, next);
        lemma_lower_run_monotonic(ss.skip(1), lower_rec(ss[0], next).next_id);
    }
}

/// A scope record after substitutions and continuation joining.
pub open spec fn finish_rec(sc: ScRec) -> ScRec {
    ScRec { name: sc.name, ns: sc.ns, content: spec_join_back(spec_substitute(sc.content, sc.ns, sc.name)) }
}

/// The records after the two final stages, in order.
pub open spec fn finish_recs(ss: Seq<ScRec>) -> Seq<ScRec> {
    ss.map_values(|sc: ScRec| finish_rec(sc))
}

/// How a whole compilation run ends.
pub enum CompileOutcome {
    /// Every scope settled; these are the compiled scopes, in order.
    Done(Seq<ScRec>),
    /// A call named this macro and no definition ever arrived.
    Missing(Seq<char>),
    /// The macro expansion did not settle within the budget.
    OutOfBudget,
    /// One of the 32-bit counters ran out.
    OutOfIds,
}

/// The whole pipeline over the input scopes: comments stripped, the macro
/// stage drained under the budget with both tables empty and the
/// descending counter at the top of its space, indentation lowered with
/// the ascending counter at zero, and each surviving scope substituted and
/// continuation-joined. The lowering's counter must stay representable and
/// must not reach the range the descending counter consumed: the two
/// allocators of one run then provably never mint one name twice.
pub open spec fn spec_compile(input: Seq<ScRec>, budget: nat) -> CompileOutcome {
    let dr = drain(
        DrainState {
            stack: strip_recs(input).reverse(),
            buffer: Seq::empty(),
            defs: Seq::empty(),
            memo: Seq::empty(),
            next_id: u32::MAX as int,
            finished: Seq::empty(),
        },
        budget,
    );
    match dr {
        DrainEnd::Finished(expanded, desc_final) => {
            let lr = lower_run(expanded, 0);
            if lr.next_id > u32::MAX || lr.next_id > desc_final + 1 {
                CompileOutcome::OutOfIds
            } else {
                CompileOutcome::Done(finish_recs(lr.scopes))
            }
        },
        DrainEnd::Missing(n) => CompileOutcome::Missing(n),
        DrainEnd::OutOfBudget => CompileOutcome::OutOfBudget,
        DrainEnd::OutOfIds => CompileOutcome::OutOfIds,
    }
}

/// Compiles the source scopes, in order, through the whole pipeline. The
/// budget bounds the macro stage's passes; a run over sources whose macros
/// all settle succeeds given a budget and counter space large enough, and
/// a run that fails says why: the macro a call never found, a budget spent
/// before the expansion settled, or a spent counter.
pub fn compile(input: Vec<Scope>, budget: u64) -> (r: Result<Vec<Scope>, CompileError>)
    ensures
        ({
            let oc = spec_compile(sc_recs(input@), budget as nat);
            &&& r.is_ok() ==> oc == CompileOutcome::Done(sc_recs(r.unwrap()@))
            &&& (r matches Err(CompileError::MissingMacro(n)) ==> oc == CompileOutcome::Missing(
                n@,
            ))
            &&& (r matches Err(CompileError::ExpansionLimitReached)) ==> oc
                == CompileOutcome::OutOfBudget
            &&& (r matches Err(CompileError::IdSpaceExhausted)) ==> oc == CompileOutcome::OutOfIds
            &&& !(r matches Err(CompileError::InvalidName))
        }),
{
    let ghost input0 = sc_recs(input@);
    let comment = CommentRemover::new();
    let mut pending = input;
    let mut stripped: Vec<Scope> = Vec::new();
    while pending.len() > 0
        invariant
            input0.len() == stripped@.len() + pending@.len(),
            sc_recs(pending@) =~= input0.skip(stripped@.len() as int),
            sc_recs(stripped@) =~= strip_recs(input0).take(stripped@.len() as int),
        decreases pending@.len(),
    {
        let ghost stripped_before = sc_recs(stripped@);
        let ghost pending_before = sc_recs(pending@);
        let scope = pending.remove(0);
        proof {
            assert(sc_rec(scope) == pending_before[0]);
            assert(pending_before[0] == input0.skip(stripped_before.len() as int)[0]);
            assert(sc_rec(scope) == input0[stripped_before.len() as int]);
            assert(sc_recs(pending@) =~= pending_before.skip(1));
            assert(sc_recs(pending@) =~= input0.skip(stripped_before.len() as int + 1));
        }
        let s2 = comment.process(scope);
        stripped.push(s2);
        proof {
            assert(sc_recs(stripped@) =~= stripped_before.push(sc_rec(s2)));
            assert(sc_rec(s2) == strip_rec(input0[stripped_before.len() as int]));
            assert(sc_recs(stripped@) =~= strip_recs(input0).take(stripped@.len() as int));
        }
    }
    let ghost strippedv = sc_recs(stripped@);
    proof {
        assert(strippedv =~= strip_recs(input0));
    }
    let ghost st0 = DrainState {
        stack: strip_recs(input0).reverse(),
        buffer: Seq::empty(),
        defs: Seq::empty(),
        memo: Seq::empty(),
        next_id: u32::MAX as int,
        finished: Seq::empty(),
    };
    let mut macros = MacroCompiler::new();
    let ghost mbuf = sc_recs(macros.buffered@);
    let ghost mdefs = def_views(macros.definitions@);
    let ghost mmemo = memo_views(macros.calls@);
    proof {
        assert(mbuf =~= Seq::<ScRec>::empty());
        assert(mdefs =~= Seq::<DefView>::empty());
        assert(mmemo =~= Seq::<MemoView>::empty());
        assert(strippedv.reverse() =~= strip_recs(input0).reverse());
    }
    let run_result = macros.run(stripped, budget);
    proof {
        assert(st0 == (DrainState {
            stack: strippedv.reverse(),
            buffer: mbuf,
            defs: mdefs,
            memo: mmemo,
            next_id: u32::MAX as int,
            finished: Seq::empty(),
        }));
    }
    let desc_final = macros.next_scope_id;
    let expanded = match run_result {
        Ok(v) => {
            proof {
                assert(drain(st0, budget as nat) == DrainEnd::Finished(
                    sc_recs(v@),
                    desc_final as int,
                ));
            }
            v
        },
        Err(e) => {
            proof {
                let oc = spec_compile(input0, budget as nat);
                assert(e matches CompileError::MissingMacro(n) ==> drain(st0, budget as nat)
                    == DrainEnd::Missing(n@) && oc == CompileOutcome::Missing(n@));
                assert((e matches CompileError::ExpansionLimitReached) ==> drain(
                    st0,
                    budget as nat,
                ) == DrainEnd::OutOfBudget && oc == CompileOutcome::OutOfBudget);
                assert((e matches CompileError::IdSpaceExhausted) ==> drain(st0, budget as nat)
                    == DrainEnd::OutOfIds && oc == CompileOutcome::OutOfIds);
            }
            return Err(e);
        },
    };
    let ghost expanded0 = sc_recs(expanded@);
    proof {
        assert(drain(st0, budget as nat) == DrainEnd::Finished(expanded0, desc_final as int));
    }
    let mut scopes_stage = ScopesCompiler::new();
    let mut remaining = expanded;
    let mut lowered: Vec<Scope> = Vec::new();
    while remaining.len() > 0
        invariant
            input0 == sc_recs(input@),
            st0 == (DrainState {
                stack: strip_recs(input0).reverse(),
                buffer: Seq::empty(),
                defs: Seq::empty(),
                memo: Seq::empty(),
                next_id: u32::MAX as int,
                finished: Seq::empty(),
            }),
            drain(st0, budget as nat) == DrainEnd::Finished(expanded0, desc_final as int),
            expanded0.len() >= sc_recs(remaining@).len(),
            sc_recs(remaining@) =~= expanded0.skip(expanded0.len() - remaining@.len()),
            ({
                let rest = lower_run(sc_recs(remaining@), scopes_stage.next_anonymous_scope_name as int);
                let total = lower_run(expanded0, 0);
                &&& total.scopes =~= sc_recs(lowered@) + rest.scopes
                &&& total.next_id == rest.next_id
            }),
        decreases remaining@.len(),
    {
        let ghost rem_before = sc_recs(remaining@);
        let ghost next_before = scopes_stage.next_anonymous_scope_name as int;
        let ghost h = lower_rec(rem_before[0], next_before);
        let scope = remaining.remove(0);
        proof {
            assert(sc_rec(scope) == rem_before[0]);
            assert(sc_recs(remaining@) =~= rem_before.skip(1));
        }
        let ghost lowered_before = sc_recs(lowered@);
        match scopes_stage.process(scope) {
            Ok(mut pieces) => {
                proof {
                    let lo = lower_lines(spec_lines(rem_before[0].content), rem_before[0].ns, next_before);
                    assert(sc_recs(pieces@) =~= h.scopes) by {
                        assert forall|i: int| 0 <= i < pieces@.len() implies sc_rec(
                            pieces@[i],
                        ) == h.scopes[i] by {
                            if i >= 1 {
                                assert(h.scopes[i] == ScRec {
                                    name: lo.generated.reverse()[i - 1].name,
                                    ns: rem_before[0].ns,
                                    content: lo.generated.reverse()[i - 1].content,
                                });
                                assert(lo.generated.reverse()[i - 1] == lo.generated[
                                    lo.generated.len() - i
                                ]);
                            }
                        }
                    }
                }
                lowered.append(&mut pieces);
                proof {
                    assert(sc_recs(lowered@) =~= lowered_before + h.scopes);
                    let rest_after = lower_run(sc_recs(remaining@), scopes_stage.next_anonymous_scope_name as int);
                    let total = lower_run(expanded0, 0);
                    assert(lower_run(rem_before, next_before).scopes =~= h.scopes
                        + rest_after.scopes);
                    assert(total.scopes =~= sc_recs(lowered@) + rest_after.scopes);
                }
            },
            Err(e) => {
                proof {
                    let lo = lower_lines(spec_lines(rem_before[0].content), rem_before[0].ns, next_before);
                    assert(lo.next_id > u32::MAX);
                    lemma_lower_run_monotonic(rem_before.skip(1), h.next_id);
                    assert(lower_run(rem_before, next_before).next_id > u32::MAX);
                    assert(lower_run(expanded0, 0).next_id > u32::MAX);
                    let oc = spec_compile(input0, budget as nat);
                    assert(oc == CompileOutcome::OutOfIds);
                }
                return Err(e);
            },
        }
    }
    proof {
        assert(sc_recs(remaining@).len() == 0);
        let rest = lower_run(sc_recs(remaining@), scopes_stage.next_anonymous_scope_name as int);
        let total = lower_run(expanded0, 0);
        assert(total.scopes =~= sc_recs(lowered@));
        assert(total.next_id == scopes_stage.next_anonymous_scope_name as int);
        assert(total.next_id <= u32::MAX);
    }
    // The ascending counter must not reach the range the descending one
    // consumed; past this check the two allocators provably share no name.
    if (scopes_stage.next_anonymous_scope_name as u64) > (desc_final as u64) + 1 {
        proof {
            let total = lower_run(expanded0, 0);
            assert(total.next_id > desc_final as int + 1);
            let oc = spec_compile(input0, budget as nat);
            assert(oc == CompileOutcome::OutOfIds);
        }
        return Err(CompileError::IdSpaceExhausted);
    }
    let substitutions = SubstitutionsCompiler::new();
    let back = BackCompiler::new();
    let ghost lowered0 = sc_recs(lowered@);
    let mut rem2 = lowered;
    let mut out: Vec<Scope> = Vec::new();
    while rem2.len() > 0
        invariant
            lowered0.len() == out@.len() + rem2@.len(),
            sc_recs(rem2@) =~= lowered0.skip(out@.len() as int),
            sc_recs(out@) =~= finish_recs(lowered0).take(out@.len() as int),
        decreases rem2@.len(),
    {
        let ghost out_before = sc_recs(out@);
        let ghost rem2_before = sc_recs(rem2@);
        let scope = rem2.remove(0);
        proof {
            assert(sc_rec(scope) == rem2_before[0]);
            assert(rem2_before[0] == lowered0.skip(out_before.len() as int)[0]);
            assert(sc_rec(scope) == lowered0[out_before.len() as int]);
            assert(sc_recs(rem2@) =~= rem2_before.skip(1));
            assert(sc_recs(rem2@) =~= lowered0.skip(out_before.len() as int + 1));
        }
        let s2 = back.process(substitutions.process(scope));
        out.push(s2);
        proof {
            assert(sc_recs(out@) =~= out_before.push(sc_rec(s2)));
            assert(sc_rec(s2) == finish_rec(lowered0[out_before.len() as int]));
            assert(sc_recs(out@) =~= finish_recs(lowered0).take(out@.len() as int));
        }
    }
    proof {
        assert(sc_recs(out@) =~= finish_recs(lowered0));
        let oc = spec_compile(input0, budget as nat);
        let lr = lower_run(expanded0, 0);
        assert(lr.scopes == lowered0);
        assert(lr.next_id <= u32::MAX);
        assert(lr.next_id <= desc_final as int + 1);
        assert(oc == CompileOutcome::Done(finish_recs(lowered0)));
        assert(oc == CompileOutcome::Done(sc_recs(out@)));
    }
    Ok(out)
}

} // verus!
