//! Structured queries against the store: the decision core that a
//! line-oriented front end drives. Parsing input lines and formatting
//! results for output are the front end's responsibility.

use crate::todo_list::matching_items;
use crate::todo_list::SearchParams;
use crate::todo_list::TodoList;
use crate::types::Description;
use crate::types::Index;
use crate::types::ItemModel;
use crate::types::Tag;
use crate::types::TodoItem;
use vstd::prelude::*;

verus! {

/// One structured request.
pub enum Query {
    Add(Description, Vec<Tag>),
    Done(Index),
    Search(SearchParams),
}

/// The outcome of one successful query.
pub enum QueryResult {
    Added(TodoItem),
    Done,
    Found(Vec<TodoItem>),
}

/// A recoverable failure; the one kind at this boundary is an unknown index
/// on completion.
#[derive(Debug, PartialEq, Eq)]
pub struct QueryError(pub String);

/// Runs one query against the store: add appends and reports the new
/// record, done completes (idempotently) or reports an unknown index, and
/// search reports the matching not-done items in ascending index order.
pub fn run_query(q: Query, tl: &mut TodoList) -> (r: Result<QueryResult, QueryError>)
    requires
        old(tl).wf(),
        q matches Query::Add(..) ==> old(tl)@.len() < u64::MAX,
    ensures
        final(tl).wf(),
        q matches Query::Add(d, t) ==> {
            &&& r matches Ok(qr)
            &&& qr matches QueryResult::Added(item)
            &&& item@ == (ItemModel {
                index: old(tl)@.len() as u64,
                description: d@,
                tags: t.deep_view(),
                done: false,
            })
            &&& final(tl)@ == old(tl)@.push(item@)
        },
        q matches Query::Done(idx) ==> {
            &&& idx@ >= old(tl)@.len() ==> {
                &&& r matches Err(e)
                &&& e.0@ == "item does not exist"@
                &&& *final(tl) == *old(tl)
            }
            &&& idx@ < old(tl)@.len() ==> r == Ok::<QueryResult, QueryError>(QueryResult::Done)
            &&& idx@ < old(tl)@.len() && old(tl)@[idx@ as int].done ==> *final(tl) == *old(tl)
            &&& idx@ < old(tl)@.len() && !old(tl)@[idx@ as int].done ==> final(tl)@ == old(
                tl,
            )@.update(
                idx@ as int,
                ItemModel {
                    index: old(tl)@[idx@ as int].index,
                    description: old(tl)@[idx@ as int].description,
                    tags: old(tl)@[idx@ as int].tags,
                    done: true,
                },
            )
        },
        q matches Query::Search(sp) ==> {
            &&& r matches Ok(qr)
            &&& qr matches QueryResult::Found(items)
            &&& items.deep_view() == matching_items(old(tl)@, sp@)
            &&& *final(tl) == *old(tl)
        },
{
    match q {
        Query::Add(description, tags) => {
            let item = tl.push(description, tags);
            Ok(QueryResult::Added(item))
        },
        Query::Done(idx) => match tl.done_with_index(idx) {
            Some(_found) => Ok(QueryResult::Done),
            None => Err(QueryError(String::from_str("item does not exist"))),
        },
        Query::Search(sp) => {
            let found = tl.search(&sp);
            Ok(QueryResult::Found(found))
        },
    }
}

} // verus!
