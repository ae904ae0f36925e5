//! The models that a build works with, and the limits that come with them.

use crate::text;
use crate::text::Failure;
use vstd::prelude::*;
use vstd::string::StringExecFns;

verus! {

/// How many numbers an embedding has.
pub const DIMENSIONS: usize = 768;

/// What a build is pinned to: its models, the version of the text it embeds, and its own
/// identity.
#[derive(Clone, Debug)]
pub struct ModelPins {
    pub model_name: String,
    pub model_revision: String,
    pub input_version: String,
    pub reranker_name: String,
    pub reranker_revision: String,
    pub build: String,
}

/// How much a reranking request may ask for.
#[derive(Clone, Copy, Debug)]
pub struct RerankBounds {
    pub max_documents: usize,
    pub max_document_bytes: usize,
}

/// The length of a text in bytes.
pub open spec fn byte_len(text: Seq<char>) -> nat {
    vstd::utf8::encode_utf8(text).len()
}

/// What the refusal of an oversized document says.
pub open spec fn document_too_large(index: int, max: usize) -> Seq<char> {
    "rerank_admission: document at index "@ + text::decimal(index as nat) + " exceeds "@
        + text::decimal(max as nat) + " bytes"@
}

/// Whether a reranking request is within its bounds, or why it is not: too many
/// documents, else a query that is too long, else the first document that is.
pub open spec fn rerank_bounds_hold(
    bounds: RerankBounds,
    query: Seq<char>,
    documents: Seq<String>,
    result: Result<(), Failure>,
) -> bool {
    if documents.len() > bounds.max_documents {
        result is Err && text::plain(
            result->Err_0,
            "rerank_admission: at most "@ + text::decimal(bounds.max_documents as nat)
                + " documents per request"@,
        )
    } else if byte_len(query) > bounds.max_document_bytes {
        result is Err && text::plain(
            result->Err_0,
            "rerank_admission: query exceeds "@ + text::decimal(bounds.max_document_bytes as nat)
                + " bytes"@,
        )
    } else {
        match result {
            Ok(_) => forall|i: int|
                0 <= i < documents.len() ==> byte_len((#[trigger] documents[i])@)
                    <= bounds.max_document_bytes,
            Err(failure) => exists|i: int|
                {
                    &&& 0 <= i < documents.len()
                    &&& byte_len((#[trigger] documents[i])@) > bounds.max_document_bytes
                    &&& forall|j: int|
                        0 <= j < i ==> byte_len((#[trigger] documents[j])@)
                            <= bounds.max_document_bytes
                    &&& text::plain(failure, document_too_large(i, bounds.max_document_bytes))
                },
        }
    }
}

/// Checks a reranking request before any model sees it.
pub fn check_rerank_bounds(bounds: &RerankBounds, query: &str, documents: &[String]) -> (result:
    Result<(), Failure>)
    ensures
        rerank_bounds_hold(*bounds, query@, documents@, result),
{
    if documents.len() > bounds.max_documents {
        let mut message = "rerank_admission: at most ".to_owned();
        message.append(text::decimal_text(bounds.max_documents as u64).as_str());
        message.append(" documents per request");
        return Err(Failure::of(message));
    }
    if query.as_bytes().len() > bounds.max_document_bytes {
        let mut message = "rerank_admission: query exceeds ".to_owned();
        message.append(text::decimal_text(bounds.max_document_bytes as u64).as_str());
        message.append(" bytes");
        return Err(Failure::of(message));
    }
    let mut i: usize = 0;
    while i < documents.len()
        invariant
            i <= documents.len(),
            documents.len() <= bounds.max_documents,
            byte_len(query@) <= bounds.max_document_bytes,
            forall|j: int|
                0 <= j < i ==> byte_len((#[trigger] documents@[j])@) <= bounds.max_document_bytes,
        decreases documents.len() - i,
    {
        if documents[i].as_str().as_bytes().len() > bounds.max_document_bytes {
            let mut message = "rerank_admission: document at index ".to_owned();
            message.append(text::decimal_text(i as u64).as_str());
            message.append(" exceeds ");
            message.append(text::decimal_text(bounds.max_document_bytes as u64).as_str());
            message.append(" bytes");
            return Err(Failure::of(message));
        }
        i += 1;
    }
    Ok(())
}

} // verus!
