//! The parser of the query language: from tokens to the syntax tree.
//!
//! ```text
//! query        := '{' (operation)* ('return' expression)? '}'
//! operation    := path '=' expression | 'delete' path
//! expression   := primary ('where' condition (('&&' | '||') condition)*)?
//! condition    := primary COMP primary
//! primary      := literal | path | their_path | IDENT '(' (primary (',' primary)*)? ')'
//! ```

use crate::errors::{invalid_operation, ErrorModel, StoreError};
use crate::number::{number_integer, read_finite, Number};
use crate::path::{parse_text, Path};
use crate::ql::ast::{
    expr_model, ComparisonOperator, Condition, ExprModel, Expression, LogicalOperator, Operation,
    OperationModel, Query, QueryModel, WhereClause,
};
use crate::ql::lexer::{lex, tokenize, tokens_model, Token, TokenModel};
use crate::text::{chars_of, split_chars, split_text, text_of};
use crate::value::{Value, ValueModel};
use vstd::prelude::*;

verus! {

/// The expression that a word stands for: `true`, `false` and `null` are
/// literals; the notation of a finite number is an integer where the
/// number is one and a float otherwise; a word that begins with `their.`
/// is a `their` path with the segments that follow, parted at each `.`;
/// any other word is a path.
pub open spec fn word_primary(w: Seq<char>) -> Option<ExprModel> {
    if w == "true"@ {
        Some(ExprModel::Literal(ValueModel::Boolean(true)))
    } else if w == "false"@ {
        Some(ExprModel::Literal(ValueModel::Boolean(false)))
    } else if w == "null"@ {
        Some(ExprModel::Literal(ValueModel::Null))
    } else if read_finite(w) is Some {
        match number_integer(read_finite(w)->0) {
            Some(i) => Some(ExprModel::Literal(ValueModel::Integer(i))),
            None => Some(ExprModel::Literal(ValueModel::Float(read_finite(w)->0))),
        }
    } else if w.len() > 6 && w.take(6) == "their."@ {
        Some(ExprModel::TheirPath(split_text(w.skip(6), '.')))
    } else {
        match parse_text(w) {
            Some(p) => Some(ExprModel::Path(p)),
            None => None,
        }
    }
}

/// The primary expression that begins at token `i`, and the position
/// behind it.
pub open spec fn parse_primary(tokens: Seq<TokenModel>, i: int) -> Option<(ExprModel, int)>
    decreases tokens.len() - i, 1nat,
{
    if i < 0 || i >= tokens.len() {
        None
    } else {
        match tokens[i] {
            TokenModel::Text(s) => Some((ExprModel::Literal(ValueModel::String(s)), i + 1)),
            TokenModel::Word(w) => if i + 1 < tokens.len() && tokens[i + 1] is LeftParen {
                if i + 2 < tokens.len() && tokens[i + 2] is RightParen {
                    Some((ExprModel::FunctionCall { name: w, arguments: Seq::empty() }, i + 3))
                } else {
                    match parse_arguments(tokens, i + 2) {
                        Some((arguments, j)) => Some(
                            (ExprModel::FunctionCall { name: w, arguments }, j),
                        ),
                        None => None,
                    }
                }
            } else {
                match word_primary(w) {
                    Some(e) => Some((e, i + 1)),
                    None => None,
                }
            },
            _ => None,
        }
    }
}

/// The arguments that begin at token `i`, one primary expression behind
/// the other with a `,` between them, up to the `)` that ends them, and
/// the position behind that `)`.
pub open spec fn parse_arguments(tokens: Seq<TokenModel>, i: int) -> Option<(Seq<ExprModel>, int)>
    decreases tokens.len() - i, 2nat,
{
    match parse_primary(tokens, i) {
        Some((first, j)) => if i < j < tokens.len() {
            if tokens[j] is RightParen {
                Some((seq![first], j + 1))
            } else if tokens[j] is Comma {
                match parse_arguments(tokens, j + 1) {
                    Some((rest, k)) => Some((seq![first] + rest, k)),
                    None => None,
                }
            } else {
                None
            }
        } else {
            None
        },
        None => None,
    }
}

/// The condition that begins at token `i`: a primary expression, a
/// comparison operator and a primary expression.
pub open spec fn parse_condition(tokens: Seq<TokenModel>, i: int) -> Option<
    ((ExprModel, ComparisonOperator, ExprModel), int),
> {
    match parse_primary(tokens, i) {
        Some((left, j)) => if 0 <= j < tokens.len() && tokens[j] is Compare {
            match parse_primary(tokens, j + 1) {
                Some((right, k)) => Some(((left, tokens[j]->Compare_0, right), k)),
                None => None,
            }
        } else {
            None
        },
        None => None,
    }
}

/// The conditions that follow the first one: as long as a logical operator
/// stands at the position, the operator and a condition.
pub open spec fn parse_more_conditions(tokens: Seq<TokenModel>, i: int) -> Option<
    (Seq<(LogicalOperator, ExprModel, ComparisonOperator, ExprModel)>, int),
>
    decreases tokens.len() - i,
{
    if 0 <= i < tokens.len() && tokens[i] is Logic {
        match parse_condition(tokens, i + 1) {
            Some((condition, j)) => if i < j <= tokens.len() {
                match parse_more_conditions(tokens, j) {
                    Some((rest, k)) => Some(
                        (
                            seq![(tokens[i]->Logic_0, condition.0, condition.1, condition.2)]
                                + rest,
                            k,
                        ),
                    ),
                    None => None,
                }
            } else {
                None
            },
            None => None,
        }
    } else {
        Some((Seq::empty(), i))
    }
}

/// The expression that begins at token `i`: a primary expression, and
/// behind it, where the word `where` follows, the conditions of a filter.
pub open spec fn parse_expression(tokens: Seq<TokenModel>, i: int) -> Option<(ExprModel, int)> {
    match parse_primary(tokens, i) {
        Some((base, j)) => if 0 <= j < tokens.len() && tokens[j] == TokenModel::Word("where"@) {
            match parse_condition(tokens, j + 1) {
                Some((first, k)) => match parse_more_conditions(tokens, k) {
                    Some((additional, m)) => Some(
                        (
                            ExprModel::Filtered {
                                base: Box::new(base),
                                first_left: Box::new(first.0),
                                first_operator: first.1,
                                first_right: Box::new(first.2),
                                additional,
                            },
                            m,
                        ),
                    ),
                    None => None,
                },
                None => None,
            }
        } else {
            Some((base, j))
        },
        None => None,
    }
}

/// The operations that begin at token `i`, the expression to return if
/// there is one, and the position behind the `}` that ends the query.
pub open spec fn parse_operations(tokens: Seq<TokenModel>, i: int) -> Option<
    (Seq<OperationModel>, Option<ExprModel>, int),
>
    decreases tokens.len() - i,
{
    if i < 0 || i >= tokens.len() {
        None
    } else {
        match tokens[i] {
            TokenModel::RightBrace => Some((Seq::empty(), None, i + 1)),
            TokenModel::Word(w) => if w == "return"@ {
                match parse_expression(tokens, i + 1) {
                    Some((e, j)) => if 0 <= j < tokens.len() && tokens[j] is RightBrace {
                        Some((Seq::empty(), Some(e), j + 1))
                    } else {
                        None
                    },
                    None => None,
                }
            } else if w == "delete"@ {
                if i + 1 < tokens.len() && tokens[i + 1] is Word && parse_text(
                    tokens[i + 1]->Word_0,
                ) is Some {
                    match parse_operations(tokens, i + 2) {
                        Some((rest, returned, k)) => Some(
                            (
                                seq![
                                    OperationModel::Delete {
                                        path: parse_text(tokens[i + 1]->Word_0)->0,
                                    },
                                ] + rest,
                                returned,
                                k,
                            ),
                        ),
                        None => None,
                    }
                } else {
                    None
                }
            } else if parse_text(w) is Some && i + 1 < tokens.len() && tokens[i + 1] is Assign {
                match parse_expression(tokens, i + 2) {
                    Some((e, j)) => if i < j <= tokens.len() {
                        match parse_operations(tokens, j) {
                            Some((rest, returned, k)) => Some(
                                (
                                    seq![
                                        OperationModel::Assignment {
                                            path: parse_text(w)->0,
                                            expression: e,
                                        },
                                    ] + rest,
                                    returned,
                                    k,
                                ),
                            ),
                            None => None,
                        }
                    } else {
                        None
                    },
                    None => None,
                }
            } else {
                None
            },
            _ => None,
        }
    }
}

/// The query that the tokens write: a `{`, the operations, the expression
/// to return if there is one, and a `}` that ends the tokens. A query
/// without operations returns an expression.
pub open spec fn parse_tokens(tokens: Seq<TokenModel>) -> Option<QueryModel> {
    if tokens.len() > 0 && tokens[0] is LeftBrace {
        match parse_operations(tokens, 1) {
            Some((operations, return_expr, j)) => if j == tokens.len() && (operations.len() > 0
                || return_expr is Some) {
                Some(QueryModel { operations, return_expr })
            } else {
                None
            },
            None => None,
        }
    } else {
        None
    }
}

/// The query that a text writes; nothing where it writes none.
pub open spec fn parse_query_text(t: Seq<char>) -> Option<QueryModel> {
    match lex(t) {
        Some(tokens) => parse_tokens(tokens),
        None => None,
    }
}

/// The models of a list of expressions, in order.
pub open spec fn exprs_model(v: Seq<Expression>) -> Seq<ExprModel> {
    Seq::new(v.len(), |i: int| v[i]@)
}

/// The model of a function call is the call of the models.
pub proof fn lemma_call_view(name: String, arguments: Vec<Expression>)
    ensures
        (Expression::FunctionCall { name, arguments })@ == (ExprModel::FunctionCall {
            name: name@,
            arguments: exprs_model(arguments@),
        }),
{
    let e = Expression::FunctionCall { name, arguments };
    let listed = e@->FunctionCall_arguments;
    assert(listed.len() == arguments@.len());
    assert forall|i: int| 0 <= i < listed.len() implies listed[i] == exprs_model(arguments@)[i] by {
        assert(listed[i] == expr_model(arguments@[i]));
    }
    assert(listed =~= exprs_model(arguments@));
}

/// The models of the conditions that follow the first one, in order.
pub open spec fn conditions_model(v: Seq<(LogicalOperator, Condition)>) -> Seq<
    (LogicalOperator, ExprModel, ComparisonOperator, ExprModel),
> {
    Seq::new(v.len(), |i: int| (v[i].0, (*v[i].1.left)@, v[i].1.operator, (*v[i].1.right)@))
}

/// The model of a filtered expression is the filter of the models.
pub proof fn lemma_filtered_view(base: Box<Expression>, where_clause: WhereClause)
    ensures
        (Expression::Filtered { base, where_clause })@ == (ExprModel::Filtered {
            base: Box::new((*base)@),
            first_left: Box::new((*where_clause.first_condition.left)@),
            first_operator: where_clause.first_condition.operator,
            first_right: Box::new((*where_clause.first_condition.right)@),
            additional: conditions_model(where_clause.additional_conditions@),
        }),
{
    let e = Expression::Filtered { base, where_clause };
    let listed = e@->Filtered_additional;
    let want = conditions_model(where_clause.additional_conditions@);
    assert(listed.len() == want.len());
    assert forall|i: int| 0 <= i < listed.len() implies listed[i] == want[i] by {
        let c = where_clause.additional_conditions@[i];
        assert(listed[i] == (c.0, expr_model(*c.1.left), c.1.operator, expr_model(*c.1.right)));
    }
    assert(listed =~= want);
}

/// The error for a text that is no query.
fn parse_error(message: &str) -> (e: StoreError)
    ensures
        e@ == ErrorModel::InvalidOperation(message@),
{
    invalid_operation(message)
}

/// The expression that a word stands for.
pub fn primary_of_word(word: &String) -> (r: Result<Expression, StoreError>)
    ensures
        match r {
            Ok(e) => word_primary(word@) == Some(e@),
            Err(e) => word_primary(word@) is None && e@ is InvalidOperation,
        },
{
    proof {
        reveal_strlit("true");
        reveal_strlit("false");
        reveal_strlit("null");
        reveal_strlit("their.");
    }
    if *word == text_of("true") {
        return Ok(Expression::Literal(Value::Boolean(true)));
    }
    if *word == text_of("false") {
        return Ok(Expression::Literal(Value::Boolean(false)));
    }
    if *word == text_of("null") {
        return Ok(Expression::Literal(Value::Null));
    }
    let v = chars_of(word.as_str());
    assert(v@.subrange(0, v.len() as int) == v@);
    match Number::read_finite(&v, 0, v.len()) {
        Some(n) => {
            return match n.to_integer() {
                Some(i) => Ok(Expression::Literal(Value::Integer(i))),
                None => Ok(Expression::Literal(Value::Float(n))),
            };
        },
        None => {},
    }
    if v.len() > 6 && v[0] == 't' && v[1] == 'h' && v[2] == 'e' && v[3] == 'i' && v[4] == 'r'
        && v[5] == '.' {
        assert(v@.take(6) =~= "their."@);
        let segments = split_chars(&v, 6, '.');
        return Ok(Expression::TheirPath(segments));
    }
    proof {
        if v@.len() > 6 && v@.take(6) == "their."@ {
            let head = v@.take(6);
            assert(head[0] == 't' && head[1] == 'h' && head[2] == 'e' && head[3] == 'i' && head[4]
                == 'r' && head[5] == '.');
        }
    }
    match Path::parse(word.as_str()) {
        Ok(path) => Ok(Expression::Path(path)),
        Err(_) => Err(parse_error("Parse error: empty word")),
    }
}

/// The primary expression that begins at token `at`, and the position
/// behind it.
pub fn parse_primary_expression(tokens: &Vec<Token>, at: usize) -> (r: Result<
    (Expression, usize),
    StoreError,
>)
    ensures
        match r {
            Ok(found) => parse_primary(tokens_model(tokens@), at as int) == Some(
                (found.0@, found.1 as int),
            ) && at < found.1 <= tokens.len(),
            Err(e) => parse_primary(tokens_model(tokens@), at as int) is None && e@
                is InvalidOperation,
        },
    decreases tokens.len() - at,
{
    let ghost all = tokens_model(tokens@);
    if at >= tokens.len() {
        return Err(parse_error("Parse error: unexpected end of query"));
    }
    assert(all[at as int] == tokens@[at as int]@);
    match &tokens[at] {
        Token::Text(s) => Ok((Expression::Literal(Value::String(s.clone())), at + 1)),
        Token::Word(w) => {
            let call = at + 1 < tokens.len() && matches!(tokens[at + 1], Token::LeftParen);
            proof {
                if at + 1 < tokens.len() {
                    assert(all[at + 1] == tokens@[at + 1]@);
                }
                if at + 2 < tokens.len() {
                    assert(all[at + 2] == tokens@[at + 2]@);
                }
            }
            if !call {
                return match primary_of_word(w) {
                    Ok(e) => Ok((e, at + 1)),
                    Err(e) => Err(e),
                };
            }
            let mut arguments: Vec<Expression> = Vec::new();
            if at + 2 < tokens.len() && matches!(tokens[at + 2], Token::RightParen) {
                proof {
                    lemma_call_view(*w, arguments);
                    assert(exprs_model(arguments@) =~= Seq::<ExprModel>::empty());
                }
                return Ok((Expression::FunctionCall { name: w.clone(), arguments }, at + 3));
            }
            let mut i: usize = at + 2;
            assert(exprs_model(arguments@) =~= Seq::<ExprModel>::empty());
            proof {
                match parse_arguments(all, i as int) {
                    Some((rest, k)) => {
                        assert(exprs_model(arguments@) + rest == rest);
                    },
                    None => {},
                }
            }
            loop
                invariant
                    at + 2 <= i <= tokens.len(),
                    all == tokens_model(tokens@),
                    parse_primary(all, at as int) == (match parse_arguments(all, at + 2) {
                        Some((found, j)) => Some(
                            (ExprModel::FunctionCall { name: w@, arguments: found }, j),
                        ),
                        None => None,
                    }),
                    parse_arguments(all, at + 2) == (match parse_arguments(all, i as int) {
                        Some((rest, k)) => Some((exprs_model(arguments@) + rest, k)),
                        None => None,
                    }),
                decreases tokens.len() - i,
            {
                let ghost listed = exprs_model(arguments@);
                let (argument, j) = match parse_primary_expression(tokens, i) {
                    Ok(found) => found,
                    Err(e) => {
                        return Err(e);
                    },
                };
                if j >= tokens.len() {
                    return Err(parse_error("Parse error: unexpected end of arguments"));
                }
                assert(all[j as int] == tokens@[j as int]@);
                let ghost first = argument@;
                arguments.push(argument);
                proof {
                    assert(exprs_model(arguments@) =~= listed.push(first));
                    if all[j as int] is Comma {
                        match parse_arguments(all, j + 1) {
                            Some((rest, k)) => {
                                assert(listed + (seq![first] + rest) == listed.push(first) + rest);
                            },
                            None => {},
                        }
                    }
                    if all[j as int] is RightParen {
                        assert(listed + seq![first] == listed.push(first));
                    }
                }
                match &tokens[j] {
                    Token::RightParen => {
                        proof {
                            lemma_call_view(*w, arguments);
                        }
                        return Ok(
                            (Expression::FunctionCall { name: w.clone(), arguments }, j + 1),
                        );
                    },
                    Token::Comma => {
                        i = j + 1;
                    },
                    _ => {
                        return Err(parse_error("Parse error: expected ',' or ')'"));
                    },
                }
            }
        },
        _ => Err(parse_error("Parse error: expected an expression")),
    }
}

/// The condition that begins at token `at`, and the position behind it.
pub fn parse_condition_at(tokens: &Vec<Token>, at: usize) -> (r: Result<
    (Condition, usize),
    StoreError,
>)
    ensures
        match r {
            Ok(found) => parse_condition(tokens_model(tokens@), at as int) == Some(
                (((*found.0.left)@, found.0.operator, (*found.0.right)@), found.1 as int),
            ) && at < found.1 <= tokens.len(),
            Err(e) => parse_condition(tokens_model(tokens@), at as int) is None && e@
                is InvalidOperation,
        },
{
    let ghost all = tokens_model(tokens@);
    let (left, j) = match parse_primary_expression(tokens, at) {
        Ok(found) => found,
        Err(e) => {
            return Err(e);
        },
    };
    if j >= tokens.len() {
        return Err(parse_error("Parse error: expected a comparison operator"));
    }
    assert(all[j as int] == tokens@[j as int]@);
    let operator = match &tokens[j] {
        Token::Compare(op) => *op,
        _ => {
            return Err(parse_error("Parse error: expected a comparison operator"));
        },
    };
    let (right, k) = match parse_primary_expression(tokens, j + 1) {
        Ok(found) => found,
        Err(e) => {
            return Err(e);
        },
    };
    Ok((Condition { left: Box::new(left), operator, right: Box::new(right) }, k))
}

/// The expression that begins at token `at`, and the position behind it.
pub fn parse_expression_at(tokens: &Vec<Token>, at: usize) -> (r: Result<
    (Expression, usize),
    StoreError,
>)
    ensures
        match r {
            Ok(found) => parse_expression(tokens_model(tokens@), at as int) == Some(
                (found.0@, found.1 as int),
            ) && at < found.1 <= tokens.len(),
            Err(e) => parse_expression(tokens_model(tokens@), at as int) is None && e@
                is InvalidOperation,
        },
{
    proof {
        reveal_strlit("where");
    }
    let ghost all = tokens_model(tokens@);
    let (base, j) = match parse_primary_expression(tokens, at) {
        Ok(found) => found,
        Err(e) => {
            return Err(e);
        },
    };
    let filtered = j < tokens.len() && match &tokens[j] {
        Token::Word(w) => *w == text_of("where"),
        _ => false,
    };
    proof {
        if j < tokens.len() {
            assert(all[j as int] == tokens@[j as int]@);
        }
    }
    if !filtered {
        return Ok((base, j));
    }
    let (first_condition, k) = match parse_condition_at(tokens, j + 1) {
        Ok(found) => found,
        Err(e) => {
            return Err(e);
        },
    };
    let ghost base_model = base@;
    let ghost first_left = (*first_condition.left)@;
    let ghost first_operator = first_condition.operator;
    let ghost first_right = (*first_condition.right)@;
    let mut additional_conditions: Vec<(LogicalOperator, Condition)> = Vec::new();
    let mut i: usize = k;
    assert(conditions_model(additional_conditions@) =~= Seq::<
        (LogicalOperator, ExprModel, ComparisonOperator, ExprModel),
    >::empty());
    proof {
        match parse_more_conditions(all, i as int) {
            Some((rest, m)) => {
                assert(conditions_model(additional_conditions@) + rest == rest);
            },
            None => {},
        }
    }
    loop
        invariant
            at < k <= i <= tokens.len(),
            all == tokens_model(tokens@),
            parse_expression(all, at as int) == (match parse_more_conditions(all, k as int) {
                Some((additional, m)) => Some(
                    (
                        ExprModel::Filtered {
                            base: Box::new(base_model),
                            first_left: Box::new(first_left),
                            first_operator,
                            first_right: Box::new(first_right),
                            additional,
                        },
                        m,
                    ),
                ),
                None => None,
            }),
            parse_more_conditions(all, k as int) == (match parse_more_conditions(all, i as int) {
                Some((rest, m)) => Some((conditions_model(additional_conditions@) + rest, m)),
                None => None,
            }),
        ensures
            parse_more_conditions(all, k as int) == Some(
                (conditions_model(additional_conditions@), i as int),
            ),
        decreases tokens.len() - i,
    {
        let ghost listed = conditions_model(additional_conditions@);
        let operator = if i < tokens.len() {
            assert(all[i as int] == tokens@[i as int]@);
            match &tokens[i] {
                Token::Logic(op) => Some(*op),
                _ => None,
            }
        } else {
            None
        };
        match operator {
            None => {
                proof {
                    assert(listed + Seq::<
                        (LogicalOperator, ExprModel, ComparisonOperator, ExprModel),
                    >::empty() == listed);
                }
                break ;
            },
            Some(op) => {
                let (condition, j2) = match parse_condition_at(tokens, i + 1) {
                    Ok(found) => found,
                    Err(e) => {
                        return Err(e);
                    },
                };
                let ghost made = (op, (*condition.left)@, condition.operator, (*condition.right)@);
                additional_conditions.push((op, condition));
                proof {
                    assert(conditions_model(additional_conditions@) =~= listed.push(made));
                    match parse_more_conditions(all, j2 as int) {
                        Some((rest, m)) => {
                            assert(listed + (seq![made] + rest) == listed.push(made) + rest);
                        },
                        None => {},
                    }
                }
                i = j2;
            },
        }
    }
    let where_clause = WhereClause { first_condition, additional_conditions };
    let boxed = Box::new(base);
    proof {
        lemma_filtered_view(boxed, where_clause);
    }
    Ok((Expression::Filtered { base: boxed, where_clause }, i))
}

/// The models of a list of operations, in order.
pub open spec fn operations_model(v: Seq<Operation>) -> Seq<OperationModel> {
    v.map_values(|o: Operation| o@)
}

/// The query that the tokens write.
pub fn parse_query_ast(tokens: &Vec<Token>) -> (r: Result<Query, StoreError>)
    ensures
        match r {
            Ok(query) => parse_tokens(tokens_model(tokens@)) == Some(query@),
            Err(e) => parse_tokens(tokens_model(tokens@)) is None && e@ is InvalidOperation,
        },
{
    proof {
        reveal_strlit("return");
        reveal_strlit("delete");
    }
    let ghost all = tokens_model(tokens@);
    if tokens.len() == 0 {
        return Err(parse_error("Empty query"));
    }
    assert(all[0] == tokens@[0]@);
    match &tokens[0] {
        Token::LeftBrace => {},
        _ => {
            return Err(parse_error("Parse error: expected '{'"));
        },
    }
    let mut operations: Vec<Operation> = Vec::new();
    let mut return_expr: Option<Expression> = None;
    let mut i: usize = 1;
    let mut end: usize = 0;
    assert(operations_model(operations@) =~= Seq::<OperationModel>::empty());
    proof {
        match parse_operations(all, 1) {
            Some((rest, returned, k)) => {
                assert(operations_model(operations@) + rest == rest);
            },
            None => {},
        }
    }
    loop
        invariant_except_break
            1 <= i <= tokens.len(),
            all == tokens_model(tokens@),
            return_expr is None,
            parse_operations(all, 1) == (match parse_operations(all, i as int) {
                Some((rest, returned, k)) => Some(
                    (operations_model(operations@) + rest, returned, k),
                ),
                None => None,
            }),
        ensures
            all == tokens_model(tokens@),
            parse_operations(all, 1) == Some(
                (
                    operations_model(operations@),
                    match return_expr {
                        Some(e) => Some(e@),
                        None => None,
                    },
                    end as int,
                ),
            ),
        decreases tokens.len() - i,
    {
        let ghost listed = operations_model(operations@);
        if i >= tokens.len() {
            return Err(parse_error("Parse error: expected '}'"));
        }
        assert(all[i as int] == tokens@[i as int]@);
        match &tokens[i] {
            Token::RightBrace => {
                proof {
                    assert(listed + Seq::<OperationModel>::empty() == listed);
                }
                end = i + 1;
                break ;
            },
            Token::Word(w) => {
                if *w == text_of("return") {
                    let (e, j) = match parse_expression_at(tokens, i + 1) {
                        Ok(found) => found,
                        Err(e) => {
                            return Err(e);
                        },
                    };
                    if j >= tokens.len() {
                        return Err(parse_error("Parse error: expected '}'"));
                    }
                    assert(all[j as int] == tokens@[j as int]@);
                    match &tokens[j] {
                        Token::RightBrace => {},
                        _ => {
                            return Err(parse_error("Parse error: expected '}'"));
                        },
                    }
                    proof {
                        assert(listed + Seq::<OperationModel>::empty() == listed);
                    }
                    return_expr = Some(e);
                    end = j + 1;
                    break ;
                } else if *w == text_of("delete") {
                    if i + 1 >= tokens.len() {
                        return Err(parse_error("Parse error: expected a path"));
                    }
                    assert(all[i + 1] == tokens@[i + 1]@);
                    let path = match &tokens[i + 1] {
                        Token::Word(pw) => match Path::parse(pw.as_str()) {
                            Ok(path) => path,
                            Err(_) => {
                                return Err(parse_error("Parse error: expected a path"));
                            },
                        },
                        _ => {
                            return Err(parse_error("Parse error: expected a path"));
                        },
                    };
                    let ghost made = OperationModel::Delete { path: path@ };
                    operations.push(Operation::Delete { path });
                    proof {
                        assert(operations_model(operations@) =~= listed.push(made));
                        match parse_operations(all, i + 2) {
                            Some((rest, returned, k)) => {
                                assert(listed + (seq![made] + rest) == listed.push(made) + rest);
                            },
                            None => {},
                        }
                    }
                    i = i + 2;
                } else {
                    let path = match Path::parse(w.as_str()) {
                        Ok(path) => path,
                        Err(_) => {
                            return Err(parse_error("Parse error: expected a path"));
                        },
                    };
                    if i + 1 >= tokens.len() {
                        return Err(parse_error("Parse error: expected '='"));
                    }
                    assert(all[i + 1] == tokens@[i + 1]@);
                    match &tokens[i + 1] {
                        Token::Assign => {},
                        _ => {
                            return Err(parse_error("Parse error: expected '='"));
                        },
                    }
                    let (expression, j) = match parse_expression_at(tokens, i + 2) {
                        Ok(found) => found,
                        Err(e) => {
                            return Err(e);
                        },
                    };
                    let ghost made = OperationModel::Assignment {
                        path: path@,
                        expression: expression@,
                    };
                    operations.push(Operation::Assignment { path, expression });
                    proof {
                        assert(operations_model(operations@) =~= listed.push(made));
                        match parse_operations(all, j as int) {
                            Some((rest, returned, k)) => {
                                assert(listed + (seq![made] + rest) == listed.push(made) + rest);
                            },
                            None => {},
                        }
                    }
                    i = j;
                }
            },
            _ => {
                return Err(parse_error("Parse error: expected an operation"));
            },
        }
    }
    if end != tokens.len() {
        return Err(parse_error("Parse error: unexpected text behind the query"));
    }
    if operations.len() == 0 && return_expr.is_none() {
        return Err(
            parse_error("Query must contain at least one operation or a return statement"),
        );
    }
    Ok(Query { operations, return_expr })
}

/// The parser of the query language
pub struct HyperionQLParser;

/// Parse the text of a query.
pub fn parse_query(input: &str) -> (r: Result<Query, StoreError>)
    ensures
        match r {
            Ok(query) => parse_query_text(input@) == Some(query@),
            Err(e) => parse_query_text(input@) is None && e@ is InvalidOperation,
        },
{
    match tokenize(input) {
        Some(tokens) => parse_query_ast(&tokens),
        None => Err(parse_error("Parse error: unexpected character")),
    }
}

} // verus!
