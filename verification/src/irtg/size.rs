//! How large a grammar's description is.
use super::draft;
use super::lowering;
use crate::alto_ast;
use crate::alto_ast::{AstHomTerm, AstIrtg, HomAst};
use vstd::prelude::*;

verus! {

/// Whether `r` is what is left of a budget after some cost, if the cost is within it.
pub open spec fn is_rest(budget: u32, cost: nat, r: Option<u32>) -> bool {
    match r {
        Some(rest) => rest + cost == budget,
        None => cost > budget,
    }
}

/// Terms in front cost no more than all.
proof fn lemma_list_size_part(ts: Seq<HomAst>, k: int)
    requires
        0 <= k <= ts.len(),
    ensures
        lowering::list_size(ts.take(k)) <= lowering::list_size(ts),
    decreases ts.len() - k,
{
    if k == ts.len() {
        assert(ts.take(k) =~= ts);
    } else {
        lemma_list_size_part(ts, k + 1);
        assert(ts.take(k + 1).drop_last() =~= ts.take(k));
    }
}

/// What the nodes of a term leave of a budget.
fn rest_of_term(term: &AstHomTerm, budget: u32) -> (r: Option<u32>)
    ensures
        is_rest(budget, lowering::term_size(term@), r),
    decreases term,
{
    match term {
        AstHomTerm::Variable(_) => if budget == 0 {
            None
        } else {
            Some(budget - 1)
        },
        AstHomTerm::Symbol(label, children) => {
            let ghost all = alto_ast::hom_asts(children@);
            proof {
                alto_ast::lemma_hom_symbol(*label, *children);
                assert(all.take(0) =~= Seq::<HomAst>::empty());
            }
            if budget == 0 {
                return None;
            }
            let mut left: u32 = budget - 1;
            let mut i: usize = 0;
            while i < children.len()
                invariant
                    i <= children@.len(),
                    *term == AstHomTerm::Symbol(*label, *children),
                    all == alto_ast::hom_asts(children@),
                    term@ == HomAst::Symbol(label@, all),
                    left + 1 + lowering::list_size(all.take(i as int)) == budget,
                decreases children@.len() - i,
            {
                proof {
                    assert(all.take(i + 1).drop_last() =~= all.take(i as int));
                    assert(all.take(i + 1).last() == children@[i as int]@);
                    lemma_list_size_part(all, i + 1);
                }
                match rest_of_term(&children[i], left) {
                    Some(rest) => {
                        left = rest;
                    },
                    None => {
                        return None;
                    },
                }
                i += 1;
            }
            assert(all.take(i as int) =~= all);
            Some(left)
        },
    }
}

proof fn lemma_homs_size_part(homs: Seq<(Seq<char>, HomAst)>, k: int)
    requires
        0 <= k <= homs.len(),
    ensures
        draft::homs_size(homs.take(k)) <= draft::homs_size(homs),
    decreases homs.len() - k,
{
    if k == homs.len() {
        assert(homs.take(k) =~= homs);
    } else {
        lemma_homs_size_part(homs, k + 1);
        assert(homs.take(k + 1).drop_last() =~= homs.take(k));
    }
}

proof fn lemma_rules_size_part(rules: Seq<alto_ast::RuleAst>, k: int)
    requires
        0 <= k <= rules.len(),
    ensures
        draft::rules_size(rules.take(k)) <= draft::rules_size(rules),
    decreases rules.len() - k,
{
    if k == rules.len() {
        assert(rules.take(k) =~= rules);
    } else {
        lemma_rules_size_part(rules, k + 1);
        assert(rules.take(k + 1).drop_last() =~= rules.take(k));
    }
}

/// What a rule leaves of a budget.
fn rest_of_rule(rule: &alto_ast::AstRule, budget: u32) -> (r: Option<u32>)
    ensures
        is_rest(budget, draft::rule_size(rule@), r),
{
    let ghost homs = rule@.homs;
    let count: usize = rule.auto.children.len();
    assert(rule@.children.len() == count);
    if budget < 2 || count > (budget - 2) as usize {
        return None;
    }
    let mut left: u32 = budget - 2 - count as u32;
    let mut i: usize = 0;
    assert(homs.take(0) =~= Seq::empty());
    while i < rule.homs.len()
        invariant
            i <= rule.homs@.len(),
            homs == rule@.homs,
            homs.len() == rule.homs@.len(),
            rule@.children.len() == count,
            left + 2 + count + draft::homs_size(homs.take(i as int)) == budget,
        decreases rule.homs@.len() - i,
    {
        proof {
            assert(homs.take(i + 1).drop_last() =~= homs.take(i as int));
            assert(homs.take(i + 1).last() == rule.homs@[i as int]@);
            lemma_homs_size_part(homs, i + 1);
        }
        match rest_of_term(&rule.homs[i].term, left) {
            Some(rest) => {
                left = rest;
            },
            None => {
                return None;
            },
        }
        i += 1;
    }
    assert(homs.take(i as int) =~= homs);
    Some(left)
}

/// Whether all states, symbols and nodes that the rules of a grammar mention can be
/// numbered.
pub fn can_number(ast: &AstIrtg) -> (b: bool)
    ensures
        b == (draft::rules_size(ast@.rules) < u32::MAX),
{
    let ghost rules = ast@.rules;
    let budget: u32 = 0xffff_fffe;
    let mut left: u32 = budget;
    let mut i: usize = 0;
    assert(rules.take(0) =~= Seq::empty());
    while i < ast.rules.len()
        invariant
            i <= ast.rules@.len(),
            rules == ast@.rules,
            rules.len() == ast.rules@.len(),
            budget == 0xffff_fffe,
            left + draft::rules_size(rules.take(i as int)) == budget,
        decreases ast.rules@.len() - i,
    {
        proof {
            assert(rules.take(i + 1).drop_last() =~= rules.take(i as int));
            assert(rules.take(i + 1).last() == ast.rules@[i as int]@);
            lemma_rules_size_part(rules, i + 1);
        }
        match rest_of_rule(&ast.rules[i], left) {
            Some(rest) => {
                left = rest;
            },
            None => {
                return false;
            },
        }
        i += 1;
    }
    assert(rules.take(i as int) =~= rules);
    true
}

} // verus!
