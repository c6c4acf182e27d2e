//! The calls `token_match` and `exact_match` of SQL: matches without a rank.

use vstd::prelude::*;
use vstd::string::StringExecFns;
use crate::supertable::manifest::error::joined;
use crate::supertable::query::BoolMode;
use crate::text::{decimal, push_decimal};

verus! {

/// The name of the call that matches tokens.
pub const TOKEN_MATCH_UDTF: &'static str = "token_match";

/// The name of the call that matches a whole value.
pub const EXACT_MATCH_UDTF: &'static str = "exact_match";

/// What is matched.
#[derive(Debug, Clone, PartialEq, Eq)]
pub enum MatchQuery {
    /// The tokens of the query.
    Token { query: String, mode: BoolMode },
    /// The whole value.
    Exact { value: String },
}

/// A call, with its arguments.
#[derive(Debug, Clone, PartialEq, Eq)]
pub struct MatchCall {
    pub column: String,
    pub query: MatchQuery,
}

/// Why a call fails.
#[derive(Debug, Clone, PartialEq, Eq)]
pub enum MatchError {
    /// The call cannot be planned.
    Plan(String),
    /// The call cannot be executed.
    Execution(String),
    /// The plan was used as it is not meant to be.
    Internal(String),
}

/// [`MatchError`] over sequences of characters.
#[verifier::ext_equal]
pub enum MatchFault {
    Plan(Seq<char>),
    Execution(Seq<char>),
    Internal(Seq<char>),
}

impl View for MatchError {
    type V = MatchFault;

    open spec fn view(&self) -> MatchFault {
        match self {
            MatchError::Plan(text) => MatchFault::Plan(text@),
            MatchError::Execution(text) => MatchFault::Execution(text@),
            MatchError::Internal(text) => MatchFault::Internal(text@),
        }
    }
}

/// Refuses a `token_match` with other than two or three arguments.
pub fn check_token_match_arity(n_args: usize) -> (res: Result<(), MatchError>)
    ensures
        n_args == 2 || n_args == 3 ==> res is Ok,
        n_args != 2 && n_args != 3 ==> (res matches Err(e) && e@ == MatchFault::Plan(
            "token_match expects 2 or 3 arguments (column, query[, mode]), got "@ + decimal(
                n_args as nat,
            ),
        )),
{
    if n_args != 2 && n_args != 3 {
        let mut text =
            "token_match expects 2 or 3 arguments (column, query[, mode]), got ".to_owned();
        push_decimal(&mut text, n_args as u64);
        return Err(MatchError::Plan(text));
    }
    Ok(())
}

/// Refuses an `exact_match` with other than two arguments.
pub fn check_exact_match_arity(n_args: usize) -> (res: Result<(), MatchError>)
    ensures
        n_args == 2 ==> res is Ok,
        n_args != 2 ==> (res matches Err(e) && e@ == MatchFault::Plan(
            "exact_match expects 2 arguments (column, value), got "@ + decimal(n_args as nat),
        )),
{
    if n_args != 2 {
        let mut text = "exact_match expects 2 arguments (column, value), got ".to_owned();
        push_decimal(&mut text, n_args as u64);
        return Err(MatchError::Plan(text));
    }
    Ok(())
}

/// The call `token_match`, from what its arguments read as. Without a mode,
/// any token matches. The table has to be there still.
pub fn token_match_call(
    column: Result<String, MatchError>,
    query: Result<String, MatchError>,
    mode: Option<Result<BoolMode, MatchError>>,
    table_is_there: bool,
) -> (res: Result<MatchCall, MatchError>)
    ensures
        match (column, query, mode) {
            (Err(e), _, _) => res == Err::<MatchCall, MatchError>(e),
            (Ok(_), Err(e), _) => res == Err::<MatchCall, MatchError>(e),
            (Ok(_), Ok(_), Some(Err(e))) => res == Err::<MatchCall, MatchError>(e),
            (Ok(column), Ok(query), mode) => if table_is_there {
                res == Ok::<MatchCall, MatchError>(
                    MatchCall {
                        column,
                        query: MatchQuery::Token {
                            query,
                            mode: match mode {
                                Some(Ok(mode)) => mode,
                                _ => BoolMode::Or,
                            },
                        },
                    },
                )
            } else {
                res matches Err(e) && e@ == MatchFault::Execution(
                    "token_match: supertable consumer dropped before execution"@,
                )
            },
        },
{
    let column = column?;
    let query = query?;
    let mode = match mode {
        Some(read) => read?,
        None => BoolMode::Or,
    };
    if !table_is_there {
        return Err(
            MatchError::Execution(
                "token_match: supertable consumer dropped before execution".to_owned(),
            ),
        );
    }
    Ok(MatchCall { column, query: MatchQuery::Token { query, mode } })
}

/// The call `exact_match`, from what its arguments read as. The table has to
/// be there still.
pub fn exact_match_call(
    column: Result<String, MatchError>,
    value: Result<String, MatchError>,
    table_is_there: bool,
) -> (res: Result<MatchCall, MatchError>)
    ensures
        match (column, value) {
            (Err(e), _) => res == Err::<MatchCall, MatchError>(e),
            (Ok(_), Err(e)) => res == Err::<MatchCall, MatchError>(e),
            (Ok(column), Ok(value)) => if table_is_there {
                res == Ok::<MatchCall, MatchError>(
                    MatchCall { column, query: MatchQuery::Exact { value } },
                )
            } else {
                res matches Err(e) && e@ == MatchFault::Execution(
                    "exact_match: supertable consumer dropped before execution"@,
                )
            },
        },
{
    let column = column?;
    let value = value?;
    if !table_is_there {
        return Err(
            MatchError::Execution(
                "exact_match: supertable consumer dropped before execution".to_owned(),
            ),
        );
    }
    Ok(MatchCall { column, query: MatchQuery::Exact { value } })
}

impl MatchCall {
    pub open spec fn describe_spec(&self) -> Seq<char> {
        match self.query {
            MatchQuery::Token { mode, .. } => "MatchExec: kind=token, column="@ + self.column@
                + match mode {
                BoolMode::And => ", mode=And"@,
                BoolMode::Or => ", mode=Or"@,
            },
            MatchQuery::Exact { .. } => "MatchExec: kind=exact, column="@ + self.column@,
        }
    }

    /// A description of the plan of the call.
    pub fn describe(&self) -> (text: String)
        ensures
            text@ == self.describe_spec(),
    {
        match &self.query {
            MatchQuery::Token { mode, .. } => {
                let mut text = joined("MatchExec: kind=token, column=", &self.column);
                match mode {
                    BoolMode::And => text.append(", mode=And"),
                    BoolMode::Or => text.append(", mode=Or"),
                }
                text
            },
            MatchQuery::Exact { .. } => joined("MatchExec: kind=exact, column=", &self.column),
        }
    }
}

/// Refuses another partition than the only one.
pub fn check_partition(partition: usize) -> (res: Result<(), MatchError>)
    ensures
        partition == 0 ==> res is Ok,
        partition != 0 ==> (res matches Err(e) && e@ == MatchFault::Internal(
            "MatchExec has a single partition; asked for "@ + decimal(partition as nat),
        )),
{
    if partition != 0 {
        let mut text = "MatchExec has a single partition; asked for ".to_owned();
        push_decimal(&mut text, partition as u64);
        return Err(MatchError::Internal(text));
    }
    Ok(())
}

/// A call is planned exactly if each of its arguments reads and the table is
/// there: with its column, its query, and the mode that was given, or with any
/// token matching if none was.
pub proof fn lemma_token_match_is_its_arguments(
    column: Result<String, MatchError>,
    query: Result<String, MatchError>,
    mode: Option<Result<BoolMode, MatchError>>,
    table_is_there: bool,
    res: Result<MatchCall, MatchError>,
)
    requires
        call_ensures(token_match_call, (column, query, mode, table_is_there), res),
    ensures
        res is Ok <==> column is Ok && query is Ok && (mode is Some ==> mode->0 is Ok)
            && table_is_there,
        res matches Ok(call) ==> call.column == column->Ok_0 && call.query is Token
            && call.query->Token_query == query->Ok_0 && call.query->Token_mode == (if mode
            is Some {
            mode->0->Ok_0
        } else {
            BoolMode::Or
        }),
{
}

/// An exact match is planned exactly if both of its arguments read and the
/// table is there.
pub proof fn lemma_exact_match_is_its_arguments(
    column: Result<String, MatchError>,
    value: Result<String, MatchError>,
    table_is_there: bool,
    res: Result<MatchCall, MatchError>,
)
    requires
        call_ensures(exact_match_call, (column, value, table_is_there), res),
    ensures
        res is Ok <==> column is Ok && value is Ok && table_is_there,
        res matches Ok(call) ==> call.column == column->Ok_0 && call.query is Exact
            && call.query->Exact_value == value->Ok_0,
{
}

} // verus!
