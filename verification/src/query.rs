use vstd::prelude::*;

verus! {

use crate::errors::HandlerError;
use crate::strutil::{pair_views, str_eq};

/// The name the trusted query-string decoder's result goes by: the decoded
/// `(name, value)` pairs of a URL query string, a function of the text alone.
pub uninterp spec fn form_decoded(q: Seq<char>) -> Seq<(Seq<char>, Seq<char>)>;

/// Relies on url::form_urlencoded::parse: percent-decodes each `name=value`
/// pair of the query string; an empty input yields no pairs.
#[verifier::external_body]
fn form_pairs(query: &str) -> (r: Vec<(String, String)>)
    ensures
        pair_views(r@) == form_decoded(query@),
        query@.len() == 0 ==> r@.len() == 0,
{
    url::form_urlencoded::parse(query.as_bytes()).into_owned().collect()
}

/// The arguments a sequence of pairs binds: a later pair with the same name
/// wins.
pub open spec fn map_of_pairs(pairs: Seq<(Seq<char>, Seq<char>)>) -> Map<Seq<char>, Seq<char>>
    decreases pairs.len(),
{
    if pairs.len() == 0 {
        Map::empty()
    } else {
        map_of_pairs(pairs.drop_last()).insert(pairs.last().0, pairs.last().1)
    }
}

/// The decoded arguments of one request's query string.
pub struct Query {
    map: Vec<(String, String)>,
}

impl View for Query {
    type V = Map<Seq<char>, Seq<char>>;

    closed spec fn view(&self) -> Map<Seq<char>, Seq<char>> {
        map_of_pairs(pair_views(self.map@))
    }
}

proof fn lemma_map_of_pairs_found(pairs: Seq<(Seq<char>, Seq<char>)>, k: Seq<char>, i: int)
    requires
        0 <= i < pairs.len(),
        pairs[i].0 == k,
        forall|j: int| i < j < pairs.len() ==> (#[trigger] pairs[j]).0 != k,
    ensures
        map_of_pairs(pairs).dom().contains(k),
        map_of_pairs(pairs)[k] == pairs[i].1,
    decreases pairs.len(),
{
    if i == pairs.len() - 1 {
    } else {
        assert(pairs.drop_last()[i] == pairs[i]);
        assert(forall|j: int|
            i < j < pairs.drop_last().len() ==> (#[trigger] pairs.drop_last()[j]).0 != k);
        lemma_map_of_pairs_found(pairs.drop_last(), k, i);
        assert(pairs.last().0 != k);
    }
}

proof fn lemma_map_of_pairs_absent(pairs: Seq<(Seq<char>, Seq<char>)>, k: Seq<char>)
    requires
        forall|j: int| 0 <= j < pairs.len() ==> (#[trigger] pairs[j]).0 != k,
    ensures
        !map_of_pairs(pairs).dom().contains(k),
    decreases pairs.len(),
{
    if pairs.len() > 0 {
        assert(forall|j: int|
            0 <= j < pairs.drop_last().len() ==> (#[trigger] pairs.drop_last()[j]).0 != k);
        lemma_map_of_pairs_absent(pairs.drop_last(), k);
        assert(pairs.last().0 != k);
    }
}

impl Query {
    /// Decode a request's query string; a request without one is a query
    /// error.
    pub fn parse(query: Option<&str>) -> (r: Result<Query, HandlerError>)
        ensures
            match query {
                Some(q) => r matches Ok(v) && v@ == map_of_pairs(form_decoded(q@)),
                None => r matches Err(e) && e matches HandlerError::QueryError(m) && m@
                    == "missing query string"@,
            },
    {
        match query {
            Some(q) => Ok(Query { map: form_pairs(q) }),
            None => Err(HandlerError::QueryError(String::from_str("missing query string"))),
        }
    }

    /// The value bound to argument `k`; a missing argument is a query error.
    pub fn get(&self, k: &str) -> (r: Result<String, HandlerError>)
        ensures
            match r {
                Ok(v) => self@.dom().contains(k@) && v@ == self@[k@],
                Err(e) => !self@.dom().contains(k@) && (e matches HandlerError::QueryError(m) && m@
                    == "no argument: "@ + k@),
            },
    {
        let ghost pv = pair_views(self.map@);
        let mut i: usize = self.map.len();
        while i > 0
            invariant
                i <= self.map@.len(),
                pv == pair_views(self.map@),
                forall|j: int| i <= j < pv.len() ==> (#[trigger] pv[j]).0 != k@,
            decreases i,
        {
            i = i - 1;
            if str_eq(self.map[i].0.as_str(), k) {
                proof {
                    lemma_map_of_pairs_found(pv, k@, i as int);
                }
                return Ok(self.map[i].1.clone());
            }
        }
        proof {
            lemma_map_of_pairs_absent(pv, k@);
        }
        Err(HandlerError::QueryError(String::from_str("no argument: ").concat(k)))
    }
}

} // verus!
