//! Decisions around the posting calls: where they go, and how a thread is
//! posted one reply after another.

use crate::text::push_str;
use vstd::prelude::*;

verus! {

broadcast use vstd::string::group_string_axioms;

/// The endpoint for posts.
pub const TWEETS_URL: &'static str = "https://api.x.com/2/tweets";

/// The address of one post, for deleting it.
pub fn tweet_url(id: &str) -> (r: String)
    ensures
        r@ == TWEETS_URL@ + "/"@ + id@,
{
    let mut url = TWEETS_URL.to_owned();
    push_str(&mut url, "/");
    push_str(&mut url, id);
    url
}

/// A thread that stopped part way: what was posted, which post failed, and why.
#[derive(Debug)]
pub struct ThreadError {
    pub posted_ids: Vec<String>,
    pub failed_index: usize,
    pub error: String,
}

/// How far the posting of a thread has come: each post after the first
/// replies to the one before.
pub struct ThreadProgress {
    pub total: usize,
    pub posted_ids: Vec<String>,
}

impl ThreadProgress {
    /// Nothing posted yet of a thread of `total` posts.
    pub fn new(total: usize) -> (r: ThreadProgress)
        ensures
            r.total == total,
            r.posted_ids@.len() == 0,
    {
        ThreadProgress { total, posted_ids: Vec::new() }
    }

    /// The next post to send, if any is left: its index, and the id of the
    /// post it replies to (none for the first).
    pub fn next_post(&self) -> (r: Option<(usize, Option<String>)>)
        ensures
            self.posted_ids@.len() < self.total <==> r is Some,
            r matches Some((i, reply)) ==> {
                &&& i == self.posted_ids@.len()
                &&& (i == 0 <==> reply is None)
                &&& reply matches Some(id) ==> id@ == self.posted_ids@.last()@
            },
    {
        let n = self.posted_ids.len();
        if n >= self.total {
            return None;
        }
        if n == 0 {
            Some((0, None))
        } else {
            Some((n, Some(self.posted_ids[n - 1].clone())))
        }
    }

    /// Takes the outcome of the post that was sent: its id goes on the list,
    /// or the thread stops with what was posted so far.
    pub fn record(self, outcome: Result<String, String>) -> (r: Result<ThreadProgress, ThreadError>)
        ensures
            match outcome {
                Ok(id) => r matches Ok(p) && p.total == self.total && p.posted_ids@
                    == self.posted_ids@.push(id),
                Err(e) => r matches Err(t) && t.posted_ids@ == self.posted_ids@ && t.failed_index
                    == self.posted_ids@.len() && t.error == e,
            },
    {
        let ThreadProgress { total, mut posted_ids } = self;
        match outcome {
            Ok(id) => {
                posted_ids.push(id);
                Ok(ThreadProgress { total, posted_ids })
            },
            Err(error) => {
                let failed_index = posted_ids.len();
                Err(ThreadError { posted_ids, failed_index, error })
            },
        }
    }
}

} // verus!
