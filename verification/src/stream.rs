use vstd::prelude::*;

verus! {

use crate::errors::ScrapeError;
use crate::reviews::{
    Review,
    ReviewResult,
    ReviewResultModel,
    err_matches,
    parse_logged_reviews,
    review_models,
    spec_parse_logged,
};

/// What the stream asks of its caller next.
pub enum IterStep {
    /// A batch is ready: yield it.
    Ready(Vec<Review>),
    /// Fetch this URL over plain HTTP and hand the body to `resume`; no
    /// browser is involved any more.
    Fetch(String),
    /// The sequence is exhausted.
    Done,
}

/// A lazy, resumable sequence of review batches: the first batch comes
/// pre-loaded from the browser, every later one is fetched directly over
/// HTTP through the rewritten continuation URL, and the absence of a
/// continuation URL ends the sequence.
pub struct ReviewIter {
    next_result: Option<ReviewResult>,
    next_url: Option<String>,
}

pub struct IterView {
    pub next_result: Option<ReviewResultModel>,
    pub next_url: Option<Seq<char>>,
}

impl View for ReviewIter {
    type V = IterView;

    closed spec fn view(&self) -> IterView {
        IterView {
            next_result: match self.next_result {
                Some(ref rr) => Some(rr@),
                None => None,
            },
            next_url: match self.next_url {
                Some(ref u) => Some(u@),
                None => None,
            },
        }
    }
}

impl ReviewIter {
    /// A stream pre-loaded with its first batch.
    pub fn new(first: ReviewResult) -> (r: Self)
        ensures
            r@.next_result == Some(first@),
            r@.next_url is None,
    {
        ReviewIter { next_result: Some(first), next_url: None }
    }

    /// One step: yield the buffered batch and remember its continuation;
    /// else ask for the known continuation to be fetched, taking it out; else
    /// the sequence is exhausted.
    pub fn next_step(&mut self) -> (r: IterStep)
        ensures
            match old(self)@.next_result {
                Some(rr) => r matches IterStep::Ready(batch) && review_models(batch@) == rr.reviews
                    && final(self)@.next_result is None && final(self)@.next_url == rr.next_url,
                None => match old(self)@.next_url {
                    Some(u) => r matches IterStep::Fetch(url) && url@ == u && final(self)@
                        .next_result is None && final(self)@.next_url is None,
                    None => r is Done && final(self)@ == old(self)@,
                },
            },
    {
        match self.next_result.take() {
            Some(rr) => {
                let ReviewResult { next_url, reviews } = rr;
                self.next_url = next_url;
                IterStep::Ready(reviews)
            },
            None => match self.next_url.take() {
                Some(u) => IterStep::Fetch(u),
                None => IterStep::Done,
            },
        }
    }

    /// Accept the body fetched for a continuation URL: parse it as one
    /// payload, remember the new continuation, and yield the batch.  On a
    /// parse failure the stream stays exhausted: an error ends the sequence.
    pub fn resume(&mut self, url: &str, body: &str) -> (r: Result<Vec<Review>, ScrapeError>)
        ensures
            match spec_parse_logged(url@, body@) {
                Ok(m) => r matches Ok(batch) && review_models(batch@) == m.reviews && final(self)@
                    .next_url == m.next_url && final(self)@.next_result == old(self)@.next_result,
                Err(k) => r matches Err(e) && err_matches(k, e) && final(self)@ == old(self)@,
            },
    {
        match parse_logged_reviews(url, body) {
            Ok(parsed) => {
                let ReviewResult { next_url, reviews } = parsed;
                self.next_url = next_url;
                Ok(reviews)
            },
            Err(e) => Err(e),
        }
    }
}

} // verus!
