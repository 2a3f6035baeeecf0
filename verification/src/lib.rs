//! A command-line interpreter core: a lexer for command lines, a parser for
//! the flat left-associative pipeline/redirection grammar, a validator for
//! the structural rule the grammar does not enforce, and an executor that
//! lowers a validated tree into an explicit plan of pipe creations, spawns,
//! descriptor releases, waits and built-in effects, and then runs that plan.
//! Forking a child is the one effect the runtime hands back to its caller.

use vstd::prelude::*;

pub mod ast;
pub mod eval;
pub mod lex;
pub mod num;
pub mod run;

use crate::ast::spec_parse;
use crate::eval::{spec_eval, spec_valid, steps_view, Interrupt, SpecPlanIn, SpecPlanOut, Step};
use crate::lex::spec_lex;

verus! {

/// Turns one line of text into its execution plan: tokenize, parse,
/// validate, lower. A lexer error, a parse error and an invalid tree are
/// each reported as a syntax error; an empty line yields the empty plan.
pub fn execute(line: &String) -> (r: Result<Vec<Step>, Interrupt>)
    ensures
        match r {
            Ok(steps) => ({
                &&& crate::run::plan_ok(steps_view(steps@))
                &&& spec_lex(line@) is Some
                &&& (spec_lex(line@)->0.len() == 0 ==> steps@.len() == 0)
                &&& (spec_lex(line@)->0.len() > 0 ==> ({
                    let ts = spec_lex(line@)->0;
                    &&& spec_parse(ts) is Some
                    &&& spec_valid(spec_parse(ts)->0)
                    &&& steps_view(steps@) == spec_eval(
                        spec_parse(ts)->0,
                        SpecPlanIn::Outer,
                        SpecPlanOut::Outer,
                        false,
                        0,
                    ).0
                }))
            }),
            Err(e) => ({
                &&& e is SyntaxError
                &&& (spec_lex(line@) is None || spec_parse(spec_lex(line@)->0) is None || (
                spec_parse(spec_lex(line@)->0) matches Some(p) && !spec_valid(p)))
            }),
        },
{
    let toks = match crate::lex::lex(line) {
        Some(toks) => toks,
        None => {
            return Err(Interrupt::SyntaxError("Syntax error".to_owned()));
        },
    };
    if toks.len() == 0 {
        proof {
            assert(steps_view(Seq::<Step>::empty()) =~= Seq::<crate::eval::SpecStep>::empty());
        }
        return Ok(Vec::new());
    }
    let ast = match crate::ast::parse(toks) {
        Some(ast) => ast,
        None => {
            return Err(Interrupt::SyntaxError("Syntax error".to_owned()));
        },
    };
    match crate::eval::check_prog(&ast) {
        Ok(_) => {},
        Err(e) => {
            return Err(e);
        },
    }
    let steps = crate::eval::eval(
        &ast,
        &crate::eval::PlanIn::Outer,
        &crate::eval::PlanOut::Outer,
        false,
    );
    proof {
        crate::run::lemma_eval_plan_ok(ast@, SpecPlanIn::Outer, SpecPlanOut::Outer, false, 0);
    }
    Ok(steps)
}

} // verus!
