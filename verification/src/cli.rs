//! What the command line client makes of its arguments and input.

use crate::record::VectorRecord;
use std::collections::HashMap;
use vstd::prelude::*;

verus! {

/// How many records one insert request holds at most.
pub const BATCH_SIZE: usize = 1000;

/// Where the `i`-th batch of `n` records ends.
pub open spec fn batch_end(n: int, i: int) -> int {
    if (i + 1) * BATCH_SIZE < n {
        (i + 1) * BATCH_SIZE
    } else {
        n
    }
}

/// Cuts records into batches: full ones, and the rest in a last one that is not empty.
pub fn batches<T>(records: Vec<T>) -> (r: Vec<Vec<T>>)
    ensures
        forall|i: int|
            0 <= i < r.len() ==> (#[trigger] r@[i])@ == records@.subrange(
                i * BATCH_SIZE,
                batch_end(records@.len() as int, i),
            ) && r@[i]@.len() > 0,
        r.len() == (records@.len() + BATCH_SIZE - 1) / BATCH_SIZE as int,
        Seq::new(r@.len(), |i: int| r@[i]@).flatten() == records@,
        forall|i: int| 0 <= i < r.len() ==> 0 < (#[trigger] r@[i])@.len() <= 1000,
        forall|i: int| 0 <= i < r.len() - 1 ==> (#[trigger] r@[i])@.len() == 1000,
{
    let ghost all = records@;
    let mut rest = records;
    let mut r: Vec<Vec<T>> = Vec::new();
    assert(all.skip(0) =~= all);
    while rest.len() > BATCH_SIZE
        invariant
            r.len() * BATCH_SIZE <= all.len(),
            rest@ == all.skip(r.len() * BATCH_SIZE),
            forall|i: int|
                0 <= i < r.len() ==> (#[trigger] r@[i])@ == all.subrange(
                    i * BATCH_SIZE,
                    batch_end(all.len() as int, i),
                ) && r@[i]@.len() > 0,
            r.len() > 0 ==> rest.len() > 0,
        decreases rest.len(),
    {
        let tail = rest.split_off(BATCH_SIZE);
        let ghost start = r.len() * BATCH_SIZE;
        assert(rest@ =~= all.subrange(start, start + BATCH_SIZE));
        assert(tail@ =~= all.skip(start + BATCH_SIZE));
        r.push(rest);
        rest = tail;
    }
    if rest.len() > 0 {
        let ghost start = r.len() * BATCH_SIZE;
        assert(rest@ =~= all.subrange(start, all.len() as int));
        r.push(rest);
    }
    proof {
        let views = Seq::new(r@.len(), |i: int| r@[i]@);
        lemma_batches_flatten(views, all, r@.len() as int);
        views.lemma_flatten_and_flatten_alt_are_equivalent();
        assert(views.take(r@.len() as int) =~= views);
        assert(all.take(all.len() as int) =~= all);
    }
    r
}

proof fn lemma_batches_flatten<T>(batches: Seq<Seq<T>>, all: Seq<T>, n: int)
    requires
        0 <= n <= batches.len(),
        batches.len() == (all.len() + BATCH_SIZE - 1) / BATCH_SIZE as int,
        forall|i: int|
            0 <= i < batches.len() ==> #[trigger] batches[i] == all.subrange(
                i * BATCH_SIZE,
                batch_end(all.len() as int, i),
            ),
    ensures
        batches.take(n).flatten_alt() == all.take(
            if n * BATCH_SIZE < all.len() {
                n * BATCH_SIZE
            } else {
                all.len() as int
            },
        ),
    decreases n,
{
    if n == 0 {
        assert(batches.take(0) =~= Seq::<Seq<T>>::empty());
        assert(all.take(0) =~= Seq::<T>::empty());
    } else {
        lemma_batches_flatten(batches, all, n - 1);
        let some = batches.take(n);
        assert(some.drop_last() =~= batches.take(n - 1));
        assert(some.last() == batches[n - 1]);
        let from = (n - 1) * BATCH_SIZE;
        assert(from < all.len());
        let to = batch_end(all.len() as int, n - 1);
        assert(all.take(from) + all.subrange(from, to) =~= all.take(to));
    }
}

/// A missing or conflicting argument.
#[derive(Debug, Clone, Copy, PartialEq, Eq, Structural)]
pub enum ArgumentError {
    NoId,
    NoEmbedding,
    /// Not exactly one of a query text and a query vector.
    Query,
}

impl ArgumentError {
    /// The error as a sentence.
    pub fn message(&self) -> (r: &'static str)
        ensures
            r@ == match self {
                ArgumentError::NoId => "--id is required when not using --file"@,
                ArgumentError::NoEmbedding => "--embedding is required when not using --file"@,
                ArgumentError::Query => "pass exactly one of --query or --query-vector"@,
            },
    {
        match self {
            ArgumentError::NoId => "--id is required when not using --file",
            ArgumentError::NoEmbedding => "--embedding is required when not using --file",
            ArgumentError::Query => "pass exactly one of --query or --query-vector",
        }
    }
}

/// The record that an id and an embedding make. The id is asked for first.
pub fn single_record(id: Option<u64>, embedding: Option<Vec<u32>>) -> (r: Result<
    VectorRecord,
    ArgumentError,
>)
    ensures
        match (id, embedding) {
            (None, _) => r == Err::<VectorRecord, ArgumentError>(ArgumentError::NoId),
            (Some(_), None) => r == Err::<VectorRecord, ArgumentError>(ArgumentError::NoEmbedding),
            (Some(id), Some(embedding)) => r matches Ok(record) && record.id == id
                && record.embedding == embedding && record.metadata@ == Map::<
                String,
                String,
            >::empty(),
        },
{
    match id {
        None => Err(ArgumentError::NoId),
        Some(id) => match embedding {
            None => Err(ArgumentError::NoEmbedding),
            Some(embedding) => Ok(VectorRecord::new(id, embedding, HashMap::new())),
        },
    }
}

/// What a search is for.
#[derive(Debug, PartialEq, Eq)]
pub enum Query {
    /// A text, still to be embedded.
    Text(String),
    Vector(Vec<u32>),
}

/// What a search is for: a text or a vector, exactly one of which must be there.
pub fn query_of(query: Option<String>, query_vector: Option<Vec<u32>>) -> (r: Result<
    Query,
    ArgumentError,
>)
    ensures
        r == match (query, query_vector) {
            (Some(text), None) => Ok::<Query, ArgumentError>(Query::Text(text)),
            (None, Some(vector)) => Ok(Query::Vector(vector)),
            _ => Err(ArgumentError::Query),
        },
{
    match (query, query_vector) {
        (Some(text), None) => Ok(Query::Text(text)),
        (None, Some(vector)) => Ok(Query::Vector(vector)),
        _ => Err(ArgumentError::Query),
    }
}

/// The characters of the Unicode property `White_Space`.
pub open spec fn is_white_space(c: char) -> bool {
    ||| '\u{9}' <= c <= '\u{d}'
    ||| c == ' '
    ||| c == '\u{85}'
    ||| c == '\u{a0}'
    ||| c == '\u{1680}'
    ||| '\u{2000}' <= c <= '\u{200a}'
    ||| c == '\u{2028}'
    ||| c == '\u{2029}'
    ||| c == '\u{202f}'
    ||| c == '\u{205f}'
    ||| c == '\u{3000}'
}

fn white_space(c: char) -> (r: bool)
    ensures
        r == is_white_space(c),
{
    ('\u{9}' <= c && c <= '\u{d}') || c == ' ' || c == '\u{85}' || c == '\u{a0}' || c == '\u{1680}'
        || ('\u{2000}' <= c && c <= '\u{200a}') || c == '\u{2028}' || c == '\u{2029}' || c
        == '\u{202f}' || c == '\u{205f}' || c == '\u{3000}'
}

/// Whether a line holds white space only, and with it no record.
pub fn is_blank(line: &str) -> (r: bool)
    ensures
        r == forall|i: int| 0 <= i < line@.len() ==> is_white_space(#[trigger] line@[i]),
{
    let text = crate::text::chars_of(line);
    let n: usize = text.len();
    for i in 0..n
        invariant
            n == text.len(),
            text@ == line@,
            forall|j: int| 0 <= j < i ==> is_white_space(#[trigger] line@[j]),
    {
        if !white_space(text[i]) {
            assert(!is_white_space(line@[i as int]));
            return false;
        }
    }
    true
}

/// The number, counted from one, under which a line's record is reported, where the line holds
/// one. Lines before it are `before`.
pub fn record_line(before: u64, line: &str) -> (r: Option<u64>)
    requires
        before < u64::MAX,
    ensures
        r == (if forall|i: int| 0 <= i < line@.len() ==> is_white_space(#[trigger] line@[i]) {
            None
        } else {
            Some((before + 1) as u64)
        }),
{
    if is_blank(line) {
        None
    } else {
        Some(before + 1)
    }
}

/// The message for a line of a file that holds no valid record.
pub fn invalid_line(path: &str, line: u64) -> (r: String)
    ensures
        r@ == path@ + ":"@ + crate::text::decimal(line as nat) + ": invalid JSON record"@,
{
    let number = crate::text::decimal_text(line);
    let place = crate::text::joined3(path, ":", number.as_str());
    crate::text::joined(place.as_str(), ": invalid JSON record")
}

} // verus!
