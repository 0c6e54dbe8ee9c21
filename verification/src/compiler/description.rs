use vstd::prelude::*;

use crate::ast::{Member, UnOp};

verus! {

/// Why a register was allocated: a chain of descriptions, innermost first.
#[derive(Debug)]
pub enum Description {
    LocalBinding(String),
    Rebinding(Box<Description>),
    UnopTarget(UnOp, Box<Description>),
    UnopArgument(UnOp, Box<Description>),
    TupleInitLeftHandSide(usize, Box<Description>),
    TupleInitRightHandSide(usize, Box<Description>),
    StructInitLeftHandSide(Member, Box<Description>),
    StructInitRightHandSide(Member, Box<Description>),
    TupleStructInitLeftHandSide(usize, Box<Description>),
    TupleStructInitRightHandSide(usize, Box<Description>),
    SliceInitLeftHandSide(usize, Box<Description>),
    SliceInitRightHandSide(usize, Box<Description>),
    Statement(String, Box<Description>),
    IfStatementResult(Box<Description>),
    IfStatementCondition(Box<Description>),
    IfStatementThenBranch(Box<Description>),
    IfStatementElseBranch(Box<Description>),
    IfStatementResultOfThenBranch(Box<Description>),
    IfStatementResultOfElseBranch(Box<Description>),
    ExpressionListItem(usize, Box<Description>),
    TupleLeftHandSide(Box<Description>),
    TupleRightHandSide(Box<Description>),
    IndexExpressionLeftHandSide(Box<Description>),
    IndexExpressionTarget(Box<Description>),
    IndexExpressionIndex(Box<Description>),
    ArrayExpressionLeftHandSide(Box<Description>),
    ArrayExpressionRightHandSide(Box<Description>),
    StructFieldExpressionLeftHandSide(Member, Box<Description>),
    StructFieldExpressionTarget(Member, Box<Description>),
}

/// A copy of a description chain.
pub fn clone_description(d: &Description) -> (r: Description)
    ensures
        r == *d,
    decreases d,
{
    match d {
        Description::LocalBinding(s) => Description::LocalBinding(s.clone()),
        Description::Rebinding(d) => Description::Rebinding(Box::new(clone_description(d))),
        Description::UnopTarget(o, d) => Description::UnopTarget(*o, Box::new(clone_description(d))),
        Description::UnopArgument(o, d) => Description::UnopArgument(*o, Box::new(clone_description(d))),
        Description::TupleInitLeftHandSide(i, d) => Description::TupleInitLeftHandSide(*i, Box::new(clone_description(d))),
        Description::TupleInitRightHandSide(i, d) => Description::TupleInitRightHandSide(*i, Box::new(clone_description(d))),
        Description::StructInitLeftHandSide(m, d) => Description::StructInitLeftHandSide(m.copy(), Box::new(clone_description(d))),
        Description::StructInitRightHandSide(m, d) => Description::StructInitRightHandSide(m.copy(), Box::new(clone_description(d))),
        Description::TupleStructInitLeftHandSide(i, d) => Description::TupleStructInitLeftHandSide(*i, Box::new(clone_description(d))),
        Description::TupleStructInitRightHandSide(i, d) => Description::TupleStructInitRightHandSide(*i, Box::new(clone_description(d))),
        Description::SliceInitLeftHandSide(i, d) => Description::SliceInitLeftHandSide(*i, Box::new(clone_description(d))),
        Description::SliceInitRightHandSide(i, d) => Description::SliceInitRightHandSide(*i, Box::new(clone_description(d))),
        Description::Statement(s, d) => Description::Statement(s.clone(), Box::new(clone_description(d))),
        Description::IfStatementResult(d) => Description::IfStatementResult(Box::new(clone_description(d))),
        Description::IfStatementCondition(d) => Description::IfStatementCondition(Box::new(clone_description(d))),
        Description::IfStatementThenBranch(d) => Description::IfStatementThenBranch(Box::new(clone_description(d))),
        Description::IfStatementElseBranch(d) => Description::IfStatementElseBranch(Box::new(clone_description(d))),
        Description::IfStatementResultOfThenBranch(d) => Description::IfStatementResultOfThenBranch(Box::new(clone_description(d))),
        Description::IfStatementResultOfElseBranch(d) => Description::IfStatementResultOfElseBranch(Box::new(clone_description(d))),
        Description::ExpressionListItem(i, d) => Description::ExpressionListItem(*i, Box::new(clone_description(d))),
        Description::TupleLeftHandSide(d) => Description::TupleLeftHandSide(Box::new(clone_description(d))),
        Description::TupleRightHandSide(d) => Description::TupleRightHandSide(Box::new(clone_description(d))),
        Description::IndexExpressionLeftHandSide(d) => Description::IndexExpressionLeftHandSide(Box::new(clone_description(d))),
        Description::IndexExpressionTarget(d) => Description::IndexExpressionTarget(Box::new(clone_description(d))),
        Description::IndexExpressionIndex(d) => Description::IndexExpressionIndex(Box::new(clone_description(d))),
        Description::ArrayExpressionLeftHandSide(d) => Description::ArrayExpressionLeftHandSide(Box::new(clone_description(d))),
        Description::ArrayExpressionRightHandSide(d) => Description::ArrayExpressionRightHandSide(Box::new(clone_description(d))),
        Description::StructFieldExpressionLeftHandSide(m, d) => Description::StructFieldExpressionLeftHandSide(m.copy(), Box::new(clone_description(d))),
        Description::StructFieldExpressionTarget(m, d) => Description::StructFieldExpressionTarget(m.copy(), Box::new(clone_description(d))),
    }
}

/// The description of a local variable called `name`.
pub fn describe_local_binding(name: &str) -> (r: Description)
    ensures
        r matches Description::LocalBinding(s) && s@ == name@,
{
    proof {
        broadcast use vstd::string::to_string_from_display_ensures_for_str;
    }
    Description::LocalBinding(name.to_string())
}

/// Wraps `description` as `Rebinding`.
pub fn describe_rebinding(description: &Description) -> (r: Description)
    ensures
        r == Description::Rebinding(Box::new(*description)),
{
    Description::Rebinding(Box::new(clone_description(description)))
}

/// Wraps `description` as `UnopTarget` of the operator `op`.
pub fn describe_unop_target(op: UnOp, description: &Description) -> (r: Description)
    ensures
        r == Description::UnopTarget(op, Box::new(*description)),
{
    Description::UnopTarget(op, Box::new(clone_description(description)))
}

/// Wraps `description` as `UnopArgument` of the operator `op`.
pub fn describe_unop_argument(op: UnOp, description: &Description) -> (r: Description)
    ensures
        r == Description::UnopArgument(op, Box::new(*description)),
{
    Description::UnopArgument(op, Box::new(clone_description(description)))
}

/// Wraps `description` as `TupleInitLeftHandSide` at position `index`.
pub fn describe_tuple_init_left_hand_side(index: usize, description: &Description) -> (r: Description)
    ensures
        r == Description::TupleInitLeftHandSide(index, Box::new(*description)),
{
    Description::TupleInitLeftHandSide(index, Box::new(clone_description(description)))
}

/// Wraps `description` as `TupleInitRightHandSide` at position `index`.
pub fn describe_tuple_init_right_hand_side(index: usize, description: &Description) -> (r: Description)
    ensures
        r == Description::TupleInitRightHandSide(index, Box::new(*description)),
{
    Description::TupleInitRightHandSide(index, Box::new(clone_description(description)))
}

/// Wraps `description` as `StructInitLeftHandSide` of the member `member`.
pub fn describe_struct_init_left_hand_side(member: &Member, description: &Description) -> (r: Description)
    ensures
        r == Description::StructInitLeftHandSide(*member, Box::new(*description)),
{
    Description::StructInitLeftHandSide(member.copy(), Box::new(clone_description(description)))
}

/// Wraps `description` as `StructInitRightHandSide` of the member `member`.
pub fn describe_struct_init_right_hand_side(member: &Member, description: &Description) -> (r: Description)
    ensures
        r == Description::StructInitRightHandSide(*member, Box::new(*description)),
{
    Description::StructInitRightHandSide(member.copy(), Box::new(clone_description(description)))
}

/// Wraps `description` as `TupleStructInitLeftHandSide` at position `index`.
pub fn describe_tuple_struct_init_left_hand_side(index: usize, description: &Description) -> (r: Description)
    ensures
        r == Description::TupleStructInitLeftHandSide(index, Box::new(*description)),
{
    Description::TupleStructInitLeftHandSide(index, Box::new(clone_description(description)))
}

/// Wraps `description` as `TupleStructInitRightHandSide` at position `index`.
pub fn describe_tuple_struct_init_right_hand_side(index: usize, description: &Description) -> (r: Description)
    ensures
        r == Description::TupleStructInitRightHandSide(index, Box::new(*description)),
{
    Description::TupleStructInitRightHandSide(index, Box::new(clone_description(description)))
}

/// Wraps `description` as `SliceInitLeftHandSide` at position `index`.
pub fn describe_slice_init_left_hand_side(index: usize, description: &Description) -> (r: Description)
    ensures
        r == Description::SliceInitLeftHandSide(index, Box::new(*description)),
{
    Description::SliceInitLeftHandSide(index, Box::new(clone_description(description)))
}

/// Wraps `description` as `SliceInitRightHandSide` at position `index`.
pub fn describe_slice_init_right_hand_side(index: usize, description: &Description) -> (r: Description)
    ensures
        r == Description::SliceInitRightHandSide(index, Box::new(*description)),
{
    Description::SliceInitRightHandSide(index, Box::new(clone_description(description)))
}

/// Wraps `description` as the statement with source text `statement`.
pub fn describe_statement(statement: &str, description: &Description) -> (r: Description)
    ensures
        r matches Description::Statement(s, d) && s@ == statement@ && *d == *description,
{
    proof {
        broadcast use vstd::string::to_string_from_display_ensures_for_str;
    }
    Description::Statement(statement.to_string(), Box::new(clone_description(description)))
}

/// Wraps `description` as `IfStatementResult`.
pub fn describe_if_statement_result(description: &Description) -> (r: Description)
    ensures
        r == Description::IfStatementResult(Box::new(*description)),
{
    Description::IfStatementResult(Box::new(clone_description(description)))
}

/// Wraps `description` as `IfStatementCondition`.
pub fn describe_if_statement_condition(description: &Description) -> (r: Description)
    ensures
        r == Description::IfStatementCondition(Box::new(*description)),
{
    Description::IfStatementCondition(Box::new(clone_description(description)))
}

/// Wraps `description` as `IfStatementThenBranch`.
pub fn describe_if_statement_then_branch(description: &Description) -> (r: Description)
    ensures
        r == Description::IfStatementThenBranch(Box::new(*description)),
{
    Description::IfStatementThenBranch(Box::new(clone_description(description)))
}

/// Wraps `description` as `IfStatementElseBranch`.
pub fn describe_if_statement_else_branch(description: &Description) -> (r: Description)
    ensures
        r == Description::IfStatementElseBranch(Box::new(*description)),
{
    Description::IfStatementElseBranch(Box::new(clone_description(description)))
}

/// Wraps `description` as `IfStatementResultOfThenBranch`.
pub fn describe_if_statement_result_of_then_branch(description: &Description) -> (r: Description)
    ensures
        r == Description::IfStatementResultOfThenBranch(Box::new(*description)),
{
    Description::IfStatementResultOfThenBranch(Box::new(clone_description(description)))
}

/// Wraps `description` as `IfStatementResultOfElseBranch`.
pub fn describe_if_statement_result_of_else_branch(description: &Description) -> (r: Description)
    ensures
        r == Description::IfStatementResultOfElseBranch(Box::new(*description)),
{
    Description::IfStatementResultOfElseBranch(Box::new(clone_description(description)))
}

/// Wraps `description` as `ExpressionListItem` at position `index`.
pub fn describe_expression_list_item(index: usize, description: &Description) -> (r: Description)
    ensures
        r == Description::ExpressionListItem(index, Box::new(*description)),
{
    Description::ExpressionListItem(index, Box::new(clone_description(description)))
}

/// Wraps `description` as `TupleLeftHandSide`.
pub fn describe_tuple_left_hand_side(description: &Description) -> (r: Description)
    ensures
        r == Description::TupleLeftHandSide(Box::new(*description)),
{
    Description::TupleLeftHandSide(Box::new(clone_description(description)))
}

/// Wraps `description` as `TupleRightHandSide`.
pub fn describe_tuple_right_hand_side(description: &Description) -> (r: Description)
    ensures
        r == Description::TupleRightHandSide(Box::new(*description)),
{
    Description::TupleRightHandSide(Box::new(clone_description(description)))
}

/// Wraps `description` as `IndexExpressionLeftHandSide`.
pub fn describe_index_expression_left_hand_side(description: &Description) -> (r: Description)
    ensures
        r == Description::IndexExpressionLeftHandSide(Box::new(*description)),
{
    Description::IndexExpressionLeftHandSide(Box::new(clone_description(description)))
}

/// Wraps `description` as `IndexExpressionTarget`.
pub fn describe_index_expression_target(description: &Description) -> (r: Description)
    ensures
        r == Description::IndexExpressionTarget(Box::new(*description)),
{
    Description::IndexExpressionTarget(Box::new(clone_description(description)))
}

/// Wraps `description` as `IndexExpressionIndex`.
pub fn describe_index_expression_index(description: &Description) -> (r: Description)
    ensures
        r == Description::IndexExpressionIndex(Box::new(*description)),
{
    Description::IndexExpressionIndex(Box::new(clone_description(description)))
}

/// Wraps `description` as `ArrayExpressionLeftHandSide`.
pub fn describe_array_expression_left_hand_side(description: &Description) -> (r: Description)
    ensures
        r == Description::ArrayExpressionLeftHandSide(Box::new(*description)),
{
    Description::ArrayExpressionLeftHandSide(Box::new(clone_description(description)))
}

/// Wraps `description` as `ArrayExpressionRightHandSide`.
pub fn describe_array_expression_right_hand_side(description: &Description) -> (r: Description)
    ensures
        r == Description::ArrayExpressionRightHandSide(Box::new(*description)),
{
    Description::ArrayExpressionRightHandSide(Box::new(clone_description(description)))
}

/// Wraps `description` as `StructFieldExpressionLeftHandSide` of the member `member`.
pub fn describe_struct_field_expression_left_hand_side(member: &Member, description: &Description) -> (r: Description)
    ensures
        r == Description::StructFieldExpressionLeftHandSide(*member, Box::new(*description)),
{
    Description::StructFieldExpressionLeftHandSide(member.copy(), Box::new(clone_description(description)))
}

/// Wraps `description` as `StructFieldExpressionTarget` of the member `member`.
pub fn describe_struct_field_expression_target(member: &Member, description: &Description) -> (r: Description)
    ensures
        r == Description::StructFieldExpressionTarget(*member, Box::new(*description)),
{
    Description::StructFieldExpressionTarget(member.copy(), Box::new(clone_description(description)))
}

} // verus!
