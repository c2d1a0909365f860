use vstd::prelude::*;

use crate::json::{elements_view, lemma_array_view, Json};
use crate::protocol::Response;
use crate::storage::text_values;

verus! {

/// The error of a response that does not have the expected shape.
pub open spec fn unexpected_message() -> Seq<char> {
    "Unexpected response"@
}

fn unexpected() -> (r: String)
    ensures
        r@ == unexpected_message(),
{
    String::from_str("Unexpected response")
}

/// What an insert gives back: the id of a string reply, the message of a
/// failure, or an error for any other reply.
pub fn insert_reply(resp: Response) -> (r: Result<String, String>)
    ensures
        match resp {
            Response::Success { data: Some(Json::Str(id)) } => r matches Ok(x) && x@ == id@,
            Response::Failure { message } => r matches Err(m) && m@ == message@,
            _ => r matches Err(m) && m@ == unexpected_message(),
        },
{
    match resp {
        Response::Success { data: Some(Json::Str(id)) } => Ok(id),
        Response::Failure { message } => Err(message),
        _ => Err(unexpected()),
    }
}

/// What a batch insert gives back: the strings among the items of an array
/// reply, the message of a failure, or an error for any other reply.
pub fn batch_insert_reply(resp: Response) -> (r: Result<Vec<String>, String>)
    ensures
        match resp {
            Response::Success { data: Some(Json::Array(ids)) } => r matches Ok(xs) && xs@.len() == text_values(
                elements_view(ids@),
            ).len() && forall|i: int| 0 <= i < xs@.len() ==> #[trigger] xs@[i]@ == text_values(elements_view(ids@))[i],
            Response::Failure { message } => r matches Err(m) && m@ == message@,
            _ => r matches Err(m) && m@ == unexpected_message(),
        },
{
    match resp {
        Response::Success { data: Some(Json::Array(ids)) } => {
            proof {
                lemma_array_view(ids);
            }
            let ghost av = elements_view(ids@);
            let mut r: Vec<String> = Vec::new();
            let mut i: usize = 0;
            while i < ids.len()
                invariant
                    av == elements_view(ids@),
                    i <= ids.len(),
                    r@.len() == text_values(av.take(i as int)).len(),
                    forall|j: int| 0 <= j < r@.len() ==> #[trigger] r@[j]@ == text_values(av.take(i as int))[j],
                decreases ids.len() - i,
            {
                assert(av.take(i + 1).drop_last() =~= av.take(i as int));
                match &ids[i] {
                    Json::Str(t) => {
                        r.push(t.clone());
                    },
                    _ => {},
                }
                i = i + 1;
            }
            assert(av.take(ids.len() as int) =~= av);
            Ok(r)
        },
        Response::Failure { message } => Err(message),
        _ => Err(unexpected()),
    }
}

/// What a read by id gives back: the data of a success, or the message of a failure.
pub fn get_by_id_reply(resp: Response) -> (r: Result<Option<Json>, String>)
    ensures
        match resp {
            Response::Success { data } => r matches Ok(d) && d == data,
            Response::Failure { message } => r matches Err(m) && m@ == message@,
        },
{
    match resp {
        Response::Success { data } => Ok(data),
        Response::Failure { message } => Err(message),
    }
}

/// What a read of documents gives back: the items of an array reply, nothing
/// for a reply without data, the message of a failure, or an error for any
/// other reply.
pub fn list_reply(resp: Response) -> (r: Result<Vec<Json>, String>)
    ensures
        match resp {
            Response::Success { data: Some(Json::Array(items)) } => r matches Ok(xs) && xs == items,
            Response::Success { data: None } => r matches Ok(xs) && xs@.len() == 0,
            Response::Failure { message } => r matches Err(m) && m@ == message@,
            _ => r matches Err(m) && m@ == unexpected_message(),
        },
{
    match resp {
        Response::Success { data: Some(Json::Array(items)) } => Ok(items),
        Response::Success { data: None } => Ok(Vec::new()),
        Response::Failure { message } => Err(message),
        _ => Err(unexpected()),
    }
}

} // verus!
