use vstd::prelude::*;

verus! {

use crate::errors::ScrapeError;
use crate::strutil::{contains_seq, contains_sub};

/// A place the search turned up: its display name, its canonical place URL,
/// and any extra lines of text shown beside it.
#[derive(Debug)]
pub struct LocationInfo {
    pub name: String,
    pub url: String,
    pub extra: Vec<String>,
}

pub struct LocationInfoModel {
    pub name: Seq<char>,
    pub url: Seq<char>,
    pub extra: Seq<Seq<char>>,
}

impl View for LocationInfo {
    type V = LocationInfoModel;

    open spec fn view(&self) -> LocationInfoModel {
        LocationInfoModel {
            name: self.name@,
            url: self.url@,
            extra: Seq::new(self.extra@.len(), |i: int| self.extra@[i]@),
        }
    }
}

/// What one search yields: the site picked a single place, listed several,
/// or found none.
#[derive(Debug)]
pub enum SearchResult {
    Singular(LocationInfo),
    Multiple(Vec<LocationInfo>),
    NotFound,
}

pub enum SearchResultModel {
    Singular(LocationInfoModel),
    Multiple(Seq<LocationInfoModel>),
    NotFound,
}

/// The models of a sequence of places.
pub open spec fn location_models(s: Seq<LocationInfo>) -> Seq<LocationInfoModel> {
    Seq::new(s.len(), |i: int| s[i]@)
}

impl View for SearchResult {
    type V = SearchResultModel;

    open spec fn view(&self) -> SearchResultModel {
        match self {
            SearchResult::Singular(x) => SearchResultModel::Singular(x@),
            SearchResult::Multiple(xs) => SearchResultModel::Multiple(location_models(xs@)),
            SearchResult::NotFound => SearchResultModel::NotFound,
        }
    }
}

/// The URL marker of a place page.
pub open spec fn maps_place() -> Seq<char> {
    seq!['/', 'm', 'a', 'p', 's', '/', 'p', 'l', 'a', 'c', 'e']
}

/// The site auto-selected a single result: its URL is a place page.
pub fn url_is_place(url: &str) -> (r: bool)
    ensures
        r == contains_seq(url@, maps_place()),
{
    proof {
        reveal_strlit("/maps/place");
        assert("/maps/place"@ =~= maps_place());
    }
    contains_sub(url, "/maps/place")
}

/// Classify a page that auto-selected one place: the first main region's
/// accessible label is the place name; a region without a label, or no
/// region at all, means the page has not settled yet.
pub fn classify_place_page(current_url: &String, main_labels: &Vec<Option<String>>) -> (r: Result<
    SearchResult,
    ScrapeError,
>)
    ensures
        match r {
            Ok(sr) => main_labels@.len() > 0 && (main_labels@[0] matches Some(name) && (sr@
                matches SearchResultModel::Singular(x) && x.name == name@ && x.url == current_url@
                && x.extra.len() == 0)),
            Err(e) => (main_labels@.len() == 0 || main_labels@[0] is None) && (e
                matches ScrapeError::ParseError(_)),
        },
{
    if main_labels.len() == 0 {
        return Err(ScrapeError::parse_error(String::from_str("no main content was found")));
    }
    match &main_labels[0] {
        Some(name) => Ok(
            SearchResult::Singular(
                LocationInfo { name: name.clone(), url: current_url.clone(), extra: Vec::new() },
            ),
        ),
        None => Err(
            ScrapeError::parse_error(
                String::from_str("missing expected area-label on main content"),
            ),
        ),
    }
}

/// Classify a results page: the "can't find" banner means no results; a
/// non-empty listing means several; anything else has not rendered yet.
pub fn classify_results(cant_find: bool, destinations: Vec<LocationInfo>) -> (r: Result<
    SearchResult,
    ScrapeError,
>)
    ensures
        match r {
            Ok(sr) => if cant_find {
                sr@ is NotFound
            } else {
                destinations@.len() > 0 && sr@ == SearchResultModel::Multiple(
                    location_models(destinations@),
                )
            },
            Err(e) => !cant_find && destinations@.len() == 0 && (e
                matches ScrapeError::ParseError(_)),
        },
{
    if cant_find {
        Ok(SearchResult::NotFound)
    } else if destinations.len() > 0 {
        Ok(SearchResult::Multiple(destinations))
    } else {
        Err(ScrapeError::parse_error(String::from_str("unable to parse search results")))
    }
}

/// The outcome of activating the "more reviews" control: absent means the
/// page has not rendered it yet.
pub fn more_reviews_outcome(found: bool) -> (r: Result<(), ScrapeError>)
    ensures
        found <==> r is Ok,
        !found ==> (r matches Err(e) && (e matches ScrapeError::ParseError(_))),
{
    if found {
        Ok(())
    } else {
        Err(ScrapeError::parse_error(String::from_str("no 'more reviews' button found")))
    }
}

/// The places a search result lists: none, the one, or the many.
pub fn search_result_locations(result: SearchResult) -> (r: Vec<LocationInfo>)
    ensures
        match result@ {
            SearchResultModel::NotFound => r@.len() == 0,
            SearchResultModel::Singular(x) => location_models(r@) =~= seq![x],
            SearchResultModel::Multiple(xs) => location_models(r@) == xs,
        },
{
    match result {
        SearchResult::NotFound => Vec::new(),
        SearchResult::Singular(x) => {
            let mut v = Vec::new();
            v.push(x);
            proof {
                assert(location_models(v@) =~= seq![v@[0]@]);
            }
            v
        },
        SearchResult::Multiple(xs) => xs,
    }
}

} // verus!
