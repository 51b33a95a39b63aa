//! Expressions as `syn` parses them.
use quote::ToTokens;
use syn::visit::Visit;
use vstd::prelude::*;

use crate::visit::{Argument, ExprStep, Shape};

verus! {

/// The paths of `syn`.
#[verifier::external_type_specification]
#[verifier::external_body]
pub struct ExPath(syn::Path);

/// The expressions of `syn`.
#[verifier::external_type_specification]
#[verifier::external_body]
pub struct ExExpr(syn::Expr);

/// The match arms of `syn`.
#[verifier::external_type_specification]
#[verifier::external_body]
pub struct ExArm(syn::Arm);

/// The `if` expressions of `syn`.
#[verifier::external_type_specification]
#[verifier::external_body]
pub struct ExExprIf(syn::ExprIf);

/// The calls of `syn`.
#[verifier::external_type_specification]
#[verifier::external_body]
pub struct ExExprCall(syn::ExprCall);

/// Notes the steps of a walk that `syn::visit::Visit` makes through an expression.
struct StepCollector {
    steps: Vec<ExprStep>,
}

/// The texts of the identifiers of the segments of a `syn::Path`. Nothing is claimed of them.
#[verifier::external_body]
fn segments_of(path: &syn::Path) -> (r: Vec<String>) {
    path.segments.iter().map(|s| s.ident.to_string()).collect()
}

/// A `syn::Expr` as an argument: the path of a path, of a struct literal or of a call, or the
/// text of anything else. Nothing is claimed of it.
#[verifier::external_body]
fn argument_of(e: &syn::Expr) -> (r: Argument) {
    match e {
        syn::Expr::Path(p) => Argument::Named(segments_of(&p.path)),
        syn::Expr::Struct(s) => Argument::Named(segments_of(&s.path)),
        syn::Expr::Call(c) => match &*c.func {
            syn::Expr::Path(p) => Argument::Named(segments_of(&p.path)),
            _ => Argument::Computed,
        },
        _ => Argument::Written(e.to_token_stream().to_string()),
    }
}

impl<'ast> Visit<'ast> for StepCollector {
    /// Called by `syn::visit::Visit` for an arm: notes its pattern and its guard, and goes on
    /// with `syn::visit::visit_arm`. Nothing is claimed of the steps.
    #[verifier::external_body]
    fn visit_arm(&mut self, i: &'ast syn::Arm) {
        let pattern = i.pat.to_token_stream().to_string();
        let guard = i.guard.as_ref().map(|g| g.1.to_token_stream().to_string());
        self.steps.push(ExprStep::Enter(Shape::Arm(pattern, guard)));
        syn::visit::visit_arm(self, i);
        self.steps.push(ExprStep::Leave);
    }

    /// Called by `syn::visit::Visit` for an `if`: notes its condition, and goes on with
    /// `syn::visit::visit_expr_if`. Nothing is claimed of the steps.
    #[verifier::external_body]
    fn visit_expr_if(&mut self, i: &'ast syn::ExprIf) {
        self.steps.push(ExprStep::Enter(Shape::If(i.cond.to_token_stream().to_string())));
        syn::visit::visit_expr_if(self, i);
        self.steps.push(ExprStep::Leave);
    }

    /// Called by `syn::visit::Visit` for a call: notes the text of the function, if it is a
    /// path, and the first argument, and goes on with `syn::visit::visit_expr_call`. Nothing
    /// is claimed of the steps.
    #[verifier::external_body]
    fn visit_expr_call(&mut self, i: &'ast syn::ExprCall) {
        let function = match &*i.func {
            syn::Expr::Path(p) => Some(p.to_token_stream().to_string()),
            _ => None,
        };
        let argument = i.args.first().map(argument_of);
        self.steps.push(ExprStep::Enter(Shape::Call(function, argument)));
        syn::visit::visit_expr_call(self, i);
        self.steps.push(ExprStep::Leave);
    }

    /// Called by `syn::visit::Visit` for a path: notes its segments, and goes on with
    /// `syn::visit::visit_path`. Nothing is claimed of the steps.
    #[verifier::external_body]
    fn visit_path(&mut self, i: &'ast syn::Path) {
        self.steps.push(ExprStep::Enter(Shape::Path(segments_of(i))));
        syn::visit::visit_path(self, i);
        self.steps.push(ExprStep::Leave);
    }
}

/// Calls `syn::parse::Parser::parse_str` with the parser of `syn::Expr`, and then of the
/// tokens behind the expression, and walks the expression with `syn::visit::Visit::visit_expr`.
/// Returns how many tokens and groups stand behind the expression and the steps of the walk,
/// or the message of the error. Nothing is claimed of the answer: it rests on the lexer that
/// `proc_macro2` uses, which inside a procedural macro is the one of the compiler.
#[verifier::external_body]
pub(crate) fn parse_expr(text: &str) -> (r: Result<(usize, Vec<ExprStep>), String>) {
    let parser = |input: syn::parse::ParseStream| -> syn::Result<_> {
        Ok((input.parse::<syn::Expr>()?, input.parse::<proc_macro2::TokenStream>()?))
    };
    match syn::parse::Parser::parse_str(parser, text) {
        Ok((e, rest)) => {
            let mut collector = StepCollector { steps: Vec::new() };
            collector.visit_expr(&e);
            Ok((rest.into_iter().count(), collector.steps))
        },
        Err(e) => Err(e.to_string()),
    }
}

} // verus!
