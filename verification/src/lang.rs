//! The statement language: SELECT and INSERT.

pub mod insert;
pub mod insert_round_trip;
pub mod query;
pub mod round_trip;
pub mod util;

use vstd::prelude::*;
use vstd::string::StringSliceAdditionalSpecFns;

use crate::lang::insert::{insert_at, read_insert, Insertion, InsertModel};
use crate::lang::query::{read_select, select_at};
use crate::lang::util::{has_prefix, lower_in_place, lower_text, lowered, parse_ascii};
use crate::util::new_timestamp;

verus! {

/// Where in a statement parsing had to give up.
#[derive(Clone, Copy, Debug, PartialEq, Eq, Structural)]
pub struct ParseFailure {
    pub position: usize,
}

/// A parsed statement.
#[derive(Debug, PartialEq)]
pub enum Action {
    Select(SelectQuery),
    Insert(Insertion),
}

/// A query for the rows of a series.
#[derive(Debug, PartialEq)]
pub struct SelectQuery {
    pub series: String,
    pub selections: Vec<Selection>,
    pub start: Option<i64>,
    pub end: Option<i64>,
}

/// A way to condense the values of a field.
#[derive(Clone, Copy, Debug, PartialEq, Eq, Structural)]
pub enum Aggregation {
    Mean,
    Last,
    First,
    Min,
    Max,
}

/// One term of a query: a field, or an aggregate of a selection.
#[derive(Debug, PartialEq)]
pub enum Selection {
    Field(String),
    Expression(Box<SelectExpression>),
}

/// A selection under an aggregator.
#[derive(Debug, PartialEq)]
pub struct SelectExpression {
    pub expression: Selection,
    pub aggregator: Aggregation,
}

/// What the parser says of one term: the aggregator round it, if any, and the field it names.
pub struct SelectionModel {
    pub aggregator: Option<Aggregation>,
    pub field: Seq<char>,
}

/// What the parser says of a SELECT statement.
pub struct SelectModel {
    pub series: Seq<char>,
    pub selections: Seq<SelectionModel>,
    pub start: Option<i64>,
    pub end: Option<i64>,
}

impl Selection {
    /// The selection is the plain field, or the one aggregate of a plain
    /// field, that the model describes.
    pub open spec fn matches_model(&self, model: SelectionModel) -> bool {
        match model.aggregator {
            None => match self {
                Selection::Field(name) => name@ == model.field,
                Selection::Expression(_) => false,
            },
            Some(aggregator) => match self {
                Selection::Field(_) => false,
                Selection::Expression(inner) => inner.aggregator == aggregator && (
                match inner.expression {
                    Selection::Field(name) => name@ == model.field,
                    Selection::Expression(_) => false,
                }),
            },
        }
    }

    /// The field that the selection reads: aggregators pass through.
    pub open spec fn field_name(&self) -> Seq<char>
        decreases self,
    {
        match self {
            Selection::Field(name) => name@,
            Selection::Expression(inner) => inner.expression.field_name(),
        }
    }

    /// The name of the field that the selection reads.
    pub fn field(&self) -> (name: &String)
        ensures
            name@ == self.field_name(),
        decreases self,
    {
        match self {
            Selection::Field(name) => name,
            Selection::Expression(inner) => inner.expression.field(),
        }
    }
}

impl SelectQuery {
    /// The query is the one that the model describes.
    pub open spec fn matches_model(&self, model: SelectModel) -> bool {
        &&& self.series@ == model.series
        &&& self.selections@.len() == model.selections.len()
        &&& forall|i: int|
            0 <= i < self.selections@.len() ==> (#[trigger] self.selections@[i]).matches_model(
                model.selections[i],
            )
        &&& self.start == model.start
        &&& self.end == model.end
    }
}

/// What the parser says of a statement.
pub enum ActionModel {
    Select(SelectModel),
    Insert(InsertModel),
}

impl Action {
    /// The action is the one that the model describes.
    pub open spec fn matches_model(&self, model: ActionModel) -> bool {
        match (self, model) {
            (Action::Select(query), ActionModel::Select(m)) => query.matches_model(m),
            (Action::Insert(insertion), ActionModel::Insert(m)) => insertion.matches_model(m),
            _ => false,
        }
    }
}

/// What the lower-case statement `s` asks for, with `now` for the clock's
/// value, or the position at which it goes wrong: a SELECT statement, an
/// INSERT statement, or a failure at the start.
pub open spec fn statement_at(s: Seq<u8>, now: i64) -> Result<ActionModel, int> {
    if has_prefix(s, 0, "select".spec_bytes()) {
        match select_at(s, now) {
            Ok(model) => Ok(ActionModel::Select(model)),
            Err(p) => Err(p),
        }
    } else if has_prefix(s, 0, "insert".spec_bytes()) {
        match insert_at(s, now) {
            Ok(model) => Ok(ActionModel::Insert(model)),
            Err(p) => Err(p),
        }
    } else {
        Err(0)
    }
}

/// Parses a statement, with `now` for the clock's value: a SELECT or an
/// INSERT statement, told apart by the first word. The statement is first
/// put into lower case, in place, so that letters count without regard to
/// case and the names that come back are in lower case.
pub fn parse_statement_at(statement: &mut String, now: i64) -> (r: Result<Action, ParseFailure>)
    ensures
        final(statement)@ == lower_text(old(statement)@),
        match statement_at(lowered(old(statement)@), now) {
            Ok(model) => r is Ok && r->Ok_0.matches_model(model),
            Err(p) => r == Err::<Action, ParseFailure>(ParseFailure { position: p as usize }),
        },
{
    lower_in_place(statement);
    let input = statement.as_str().as_bytes();
    let mut index: usize = 0;
    if parse_ascii("select", input, &mut index) {
        match read_select(input, now) {
            Ok(query) => Ok(Action::Select(query)),
            Err(failure) => Err(failure),
        }
    } else if parse_ascii("insert", input, &mut index) {
        match read_insert(input, now) {
            Ok(insertion) => Ok(Action::Insert(insertion)),
            Err(failure) => Err(failure),
        }
    } else {
        Err(ParseFailure { position: 0 })
    }
}

/// Parses a statement as `parse_statement_at` does, asking the system clock
/// for the value of `now()` and for the time of a row without a timestamp.
pub fn parse_statement(statement: &mut String) -> (r: Result<Action, ParseFailure>)
    ensures
        final(statement)@ == lower_text(old(statement)@),
        exists|now: i64|
            match #[trigger] statement_at(lowered(old(statement)@), now) {
                Ok(model) => r is Ok && r->Ok_0.matches_model(model),
                Err(p) => r == Err::<Action, ParseFailure>(ParseFailure { position: p as usize }),
            },
{
    let now = new_timestamp();
    let r = parse_statement_at(statement, now);
    assert(match statement_at(lowered(old(statement)@), now) {
        Ok(model) => r is Ok,
        Err(p) => r is Err,
    });
    r
}

} // verus!
