use vstd::prelude::*;

verus! {

use crate::errors::ScrapeError;
use crate::json::{
    JsonModel,
    JsonValue,
    json_model,
    spec_adjusted_index,
    spec_number_value,
    as_array,
    as_number,
    as_optional_string,
    as_string,
    get_array_index,
    json_parse,
    json_value_of,
};
use crate::rational::{
    Rational,
    scaled_den,
    scaled_num,
    scaled_rating,
    seconds_from_micros,
    spec_parse_decimal,
    parse_decimal,
};
use crate::strutil::{
    occurs_at,
    contains_seq,
    find_sub,
    find_char_from,
    pair_views,
    tail_after_last,
    tail_after_last_char,
    last_nonempty_line,
    last_nonempty_line_spec,
};

/// One user review.  The timestamp is seconds since the epoch and the rating
/// lies on the site's one-to-five scale; both are exact fractions.
#[derive(Debug)]
pub struct Review {
    pub timestamp: Rational,
    pub author: String,
    pub content: String,
    pub rating: Rational,
}

pub struct ReviewModel {
    pub timestamp: Rational,
    pub author: Seq<char>,
    pub content: Seq<char>,
    pub rating: Rational,
}

impl View for Review {
    type V = ReviewModel;

    open spec fn view(&self) -> ReviewModel {
        ReviewModel {
            timestamp: self.timestamp,
            author: self.author@,
            content: self.content@,
            rating: self.rating,
        }
    }
}

/// One parsed batch: its reviews, and the URL that yields the next batch,
/// if the payload carried a continuation token.
#[derive(Debug)]
pub struct ReviewResult {
    pub next_url: Option<String>,
    pub reviews: Vec<Review>,
}

pub struct ReviewResultModel {
    pub next_url: Option<Seq<char>>,
    pub reviews: Seq<ReviewModel>,
}

impl View for ReviewResult {
    type V = ReviewResultModel;

    open spec fn view(&self) -> ReviewResultModel {
        ReviewResultModel {
            next_url: match self.next_url {
                Some(u) => Some(u@),
                None => None,
            },
            reviews: Seq::new(self.reviews@.len(), |i: int| self.reviews@[i]@),
        }
    }
}

/// The marker that opens the continuation-token segment of a reviews URL.
pub open spec fn bang2s() -> Seq<char> {
    seq!['!', '2', 's']
}

/// `token` with every `=` written as `%3d`.
pub open spec fn encode_eq_spec(s: Seq<char>) -> Seq<char>
    decreases s.len(),
{
    if s.len() == 0 {
        s
    } else {
        encode_eq_spec(s.drop_last()) + (if s.last() == '=' {
            seq!['%', '3', 'd']
        } else {
            seq![s.last()]
        })
    }
}

fn encode_eq(token: &str) -> (r: String)
    ensures
        r@ == encode_eq_spec(token@),
{
    let n = token.unicode_len();
    let mut out = String::new();
    let mut i: usize = 0;
    while i < n
        invariant
            i <= n,
            n == token@.len(),
            out@ == encode_eq_spec(token@.take(i as int)),
        decreases n - i,
    {
        let c = token.get_char(i);
        if c == '=' {
            out.append("%3d");
            proof {
                reveal_strlit("%3d");
                assert("%3d"@ =~= seq!['%', '3', 'd']);
            }
        } else {
            let piece = token.substring_char(i, i + 1);
            proof {
                assert(piece@ =~= seq![token@[i as int]]);
            }
            out.append(piece);
        }
        proof {
            assert(token@.take(i + 1).drop_last() =~= token@.take(i as int));
            assert(token@.take(i + 1).last() == token@[i as int]);
        }
        i += 1;
    }
    proof {
        assert(token@.take(n as int) =~= token@);
    }
    out
}

/// Position of the first `!2s` in the URL.
pub open spec fn token_seg_start(url: Seq<char>) -> int {
    choose|i: int|
        occurs_at(url, bang2s(), i) && (forall|j: int| 0 <= j < i ==> !occurs_at(url, bang2s(), j))
}

/// `j` is the first `!` strictly after the `!` that opens the token segment.
pub open spec fn first_bang_after(url: Seq<char>, s: int, j: int) -> bool {
    s + 1 <= j < url.len() && url[j] == '!' && (forall|t: int| s + 1 <= t < j ==> url[t] != '!')
}

/// End of the token segment: the next `!`, or the end of the URL.
pub open spec fn token_seg_end(url: Seq<char>) -> int {
    let s = token_seg_start(url);
    if exists|j: int| first_bang_after(url, s, j) {
        choose|j: int| first_bang_after(url, s, j)
    } else {
        url.len() as int
    }
}

/// The URL with its token segment replaced by the percent-encoded token, or
/// nothing when the URL has no `!2s` marker.
pub open spec fn spec_rewrite(url: Seq<char>, token: Seq<char>) -> Option<Seq<char>> {
    if contains_seq(url, bang2s()) {
        Some(
            url.take(token_seg_start(url)) + bang2s() + encode_eq_spec(token) + url.skip(
                token_seg_end(url),
            ),
        )
    } else {
        None
    }
}

/// Substitute a continuation token into the previously fetched URL, replacing
/// the segment that follows the first `!2s` up to the next `!`.  A URL with
/// no `!2s` marker is a fatal parse error.
pub fn rewrite_next_url(url: &str, token: &str) -> (r: Result<String, ScrapeError>)
    ensures
        match r {
            Ok(u) => contains_seq(url@, bang2s()) && Some(u@) == spec_rewrite(url@, token@),
            Err(e) => !contains_seq(url@, bang2s()) && e matches ScrapeError::FatalParseError(_),
        },
{
    proof {
        reveal_strlit("!2s");
        assert("!2s"@ =~= bang2s());
    }
    let idx = match find_sub(url, "!2s") {
        Some(i) => i,
        None => {
            return Err(
                ScrapeError::FatalParseError(
                    String::from_str("failed to replace token in previous url: ").concat(url),
                ),
            );
        },
    };
    proof {
        assert(occurs_at(url@, bang2s(), idx as int));
        assert(token_seg_start(url@) == idx as int) by {
            let i0 = token_seg_start(url@);
            assert(occurs_at(url@, bang2s(), idx as int) && (forall|j: int|
                0 <= j < idx ==> !occurs_at(url@, bang2s(), j)));
            assert(occurs_at(url@, bang2s(), i0) && (forall|j: int|
                0 <= j < i0 ==> !occurs_at(url@, bang2s(), j)));
        }
    }
    let n = url.unicode_len();
    let end = match find_char_from(url, '!', idx + 1) {
        Some(j) => {
            proof {
                assert(first_bang_after(url@, idx as int, j as int));
                assert(token_seg_end(url@) == j as int) by {
                    let j0 = choose|t: int| first_bang_after(url@, idx as int, t);
                    assert(first_bang_after(url@, idx as int, j0));
                }
            }
            j
        },
        None => {
            proof {
                assert(token_seg_end(url@) == url@.len()) by {
                    if exists|t: int| first_bang_after(url@, idx as int, t) {
                        let j0 = choose|t: int| first_bang_after(url@, idx as int, t);
                        assert(url@[j0] == '!');
                    }
                }
            }
            n
        },
    };
    let enc = encode_eq(token);
    let mut out = String::from_str(url.substring_char(0, idx));
    out.append("!2s");
    out.append(enc.as_str());
    out.append(url.substring_char(end, n));
    proof {
        assert(out@ =~= url@.take(idx as int) + bang2s() + encode_eq_spec(token@) + url@.skip(
            end as int,
        ));
    }
    Ok(out)
}

proof fn lemma_first_occ_from(s: Seq<char>, pat: Seq<char>, i0: int)
    requires
        occurs_at(s, pat, i0),
    ensures
        exists|i: int|
            occurs_at(s, pat, i) && (forall|j: int| 0 <= j < i ==> !occurs_at(s, pat, j)),
    decreases i0,
{
    if forall|j: int| 0 <= j < i0 ==> !occurs_at(s, pat, j) {
    } else {
        let j0 = choose|j: int| 0 <= j < i0 && occurs_at(s, pat, j);
        lemma_first_occ_from(s, pat, j0);
    }
}

proof fn lemma_encode_eq_no_bang(token: Seq<char>)
    requires
        forall|i: int| 0 <= i < token.len() ==> token[i] != '!',
    ensures
        forall|k: int|
            0 <= k < encode_eq_spec(token).len() ==> #[trigger] encode_eq_spec(token)[k] != '!',
    decreases token.len(),
{
    if token.len() > 0 {
        assert(forall|i: int|
            0 <= i < token.drop_last().len() ==> #[trigger] token.drop_last()[i] != '!');
        lemma_encode_eq_no_bang(token.drop_last());
        assert(token.last() != '!');
        let pre = encode_eq_spec(token.drop_last());
        let piece = if token.last() == '=' {
            seq!['%', '3', 'd']
        } else {
            seq![token.last()]
        };
        assert(encode_eq_spec(token) == pre + piece);
        assert forall|k: int|
            0 <= k < encode_eq_spec(token).len() implies #[trigger] encode_eq_spec(token)[k]
            != '!' by {
            if k < pre.len() {
                assert(encode_eq_spec(token)[k] == pre[k]);
            } else {
                assert(encode_eq_spec(token)[k] == piece[k - pre.len()]);
            }
        }
    }
}

/// Round trip of the token rewrite: the rewritten URL opens its token
/// segment at the same place, the segment holds exactly the percent-encoded
/// token, no earlier `!2s` appears, and the segment runs to the next `!`
/// (or the end of the URL).
pub proof fn lemma_rewrite_round_trip(url: Seq<char>, token: Seq<char>)
    requires
        contains_seq(url, bang2s()),
        forall|i: int| 0 <= i < token.len() ==> token[i] != '!',
    ensures
        ({
            let r = spec_rewrite(url, token)->Some_0;
            let s = token_seg_start(url);
            let e = s + 3 + encode_eq_spec(token).len();
            &&& occurs_at(r, bang2s(), s)
            &&& forall|j: int| 0 <= j < s ==> !occurs_at(r, bang2s(), j)
            &&& r.subrange(s + 3, e) == encode_eq_spec(token)
            &&& forall|t: int| s + 3 <= t < e ==> r[t] != '!'
            &&& e == r.len() || r[e] == '!'
        }),
{
    let i0 = choose|i: int| occurs_at(url, bang2s(), i);
    lemma_first_occ_from(url, bang2s(), i0);
    let s = token_seg_start(url);
    assert(occurs_at(url, bang2s(), s) && (forall|j: int|
        0 <= j < s ==> !occurs_at(url, bang2s(), j)));
    let e0 = token_seg_end(url);
    let enc = encode_eq_spec(token);
    let r = url.take(s) + bang2s() + enc + url.skip(e0);
    assert(spec_rewrite(url, token) == Some(r));
    assert(url.subrange(s, s + 3) == bang2s());
    assert(url.subrange(s, s + 3)[0] == url[s] && url.subrange(s, s + 3)[1] == url[s + 1]
        && url.subrange(s, s + 3)[2] == url[s + 2]);
    assert(r[s] == '!' && r[s + 1] == '2' && r[s + 2] == 's');
    assert(r.subrange(s, s + 3) =~= bang2s());
    assert(occurs_at(r, bang2s(), s));
    let e = s + 3 + enc.len();
    assert(r.subrange(s + 3, e) =~= enc);
    lemma_encode_eq_no_bang(token);
    assert(forall|t: int| s + 3 <= t < e ==> r[t] == enc[t - s - 3] && #[trigger] r[t] != '!');
    assert forall|j: int| 0 <= j < s implies !occurs_at(r, bang2s(), j) by {
        if occurs_at(r, bang2s(), j) {
            if j + 3 <= s {
                assert(r.subrange(j, j + 3)[0] == url[j] && r.subrange(j, j + 3)[1] == url[j + 1]
                    && r.subrange(j, j + 3)[2] == url[j + 2]);
                assert(url.subrange(j, j + 3) =~= bang2s());
                assert(occurs_at(url, bang2s(), j));
            } else {
                // the supposed occurrence would overlap the `!` that opens
                // the rewritten segment
                assert(r.subrange(j, j + 3)[s - j] == r[s]);
                assert(bang2s()[s - j] == '!');
            }
        }
    }
    if e0 < url.len() {
        assert(first_bang_after(url, s, e0)) by {
            let j0 = choose|j: int| first_bang_after(url, s, j);
            if exists|j: int| first_bang_after(url, s, j) {
                assert(first_bang_after(url, s, j0));
            }
        }
        assert(r[e] == url.skip(e0)[0]);
        assert(r[e] == '!');
    } else {
        assert(url.skip(e0) =~= Seq::<char>::empty());
        assert(e == r.len());
    }
}

/// How a payload parse fails: the line was not JSON, the schema was violated
/// (not retried), or an expected piece was not there yet (retried).
pub enum ParseFail {
    Json,
    Fatal,
    Recoverable,
}

/// The error kind a `ScrapeError` realises.
pub open spec fn err_matches(k: ParseFail, e: ScrapeError) -> bool {
    match k {
        ParseFail::Json => e is JsonError,
        ParseFail::Fatal => e is FatalParseError,
        ParseFail::Recoverable => e is ParseError,
    }
}

/// Look a value up by position, a negative position counting from the end;
/// anything else is a schema violation.
pub open spec fn spec_index(m: JsonModel, index: int) -> Result<JsonModel, ParseFail> {
    match m {
        JsonModel::List(items) => {
            let ai = spec_adjusted_index(index, items.len() as int);
            if 0 <= ai < items.len() {
                Ok(items[ai])
            } else {
                Err(ParseFail::Fatal)
            }
        },
        _ => Err(ParseFail::Fatal),
    }
}

pub open spec fn spec_as_num(m: JsonModel) -> Result<Rational, ParseFail> {
    match m {
        JsonModel::Num(t) => Ok(spec_number_value(t)),
        _ => Err(ParseFail::Fatal),
    }
}

pub open spec fn spec_as_str(m: JsonModel) -> Result<Seq<char>, ParseFail> {
    match m {
        JsonModel::Str(t) => Ok(t),
        _ => Err(ParseFail::Fatal),
    }
}

/// `spec_index` on a value's model, stated over the value itself.
pub proof fn lemma_index_model(val: JsonValue, index: int)
    ensures
        (match val {
            JsonValue::List(items) => {
                let ai = spec_adjusted_index(index, items@.len() as int);
                if 0 <= ai < items@.len() {
                    spec_index(json_model(val), index) == Ok::<JsonModel, ParseFail>(
                        json_model(items@[ai]),
                    )
                } else {
                    spec_index(json_model(val), index) == Err::<JsonModel, ParseFail>(
                        ParseFail::Fatal,
                    )
                }
            },
            _ => spec_index(json_model(val), index) == Err::<JsonModel, ParseFail>(
                ParseFail::Fatal,
            ),
        }),
{
    match val {
        JsonValue::List(items) => {
            assert(json_model(val) matches JsonModel::List(ms) && ms.len() == items@.len());
        },
        _ => {},
    }
}

/// The clamped value of `5 * raw / divisor` (the mirror of `scaled_rating`).
pub open spec fn spec_scaled(raw: Rational, divisor: Rational) -> Rational {
    let sn = scaled_num(raw, divisor);
    let sd = scaled_den(raw, divisor);
    if sn < sd {
        Rational { num: 1, den: 1 }
    } else if sn > 5 * sd {
        Rational { num: 5, den: 1 }
    } else {
        Rational { num: sn as i128, den: sd as i128 }
    }
}

/// The rating of a review that came from another site: the scale is read
/// from the text after the last `/` at position 2 of the block at position 8
/// of the content, the raw value sits at position 1, and the rating is
/// `5 * raw / scale` clamped into `[1, 5]`.
pub open spec fn spec_external_rating(content: JsonModel) -> Result<Rational, ParseFail> {
    match spec_index(content, 8) {
        Err(k) => Err(k),
        Ok(c8) => match spec_index(c8, 2) {
            Err(k) => Err(k),
            Ok(scale_v) => match spec_as_str(scale_v) {
                Err(k) => Err(k),
                Ok(scale_s) => match spec_parse_decimal(tail_after_last(scale_s, '/')) {
                    None => Err(ParseFail::Recoverable),
                    Some(divisor) => if divisor.num == 0 {
                        Err(ParseFail::Recoverable)
                    } else {
                        match spec_index(c8, 1) {
                            Err(k) => Err(k),
                            Ok(rv) => match spec_as_num(rv) {
                                Err(k) => Err(k),
                                Ok(raw) => Ok(spec_scaled(raw, divisor)),
                            },
                        }
                    },
                },
            },
        },
    }
}

/// The review text: the last element of the content holds either a bare
/// string marker (an empty review) or a nested block whose first string is
/// the text; a block of another shape means guided, non-text content, which
/// reads as empty.
pub open spec fn spec_review_text(content: JsonModel) -> Result<Seq<char>, ParseFail> {
    match spec_index(content, -1) {
        Err(k) => Err(k),
        Ok(tc) => match spec_index(tc, 0) {
            Err(k) => Err(k),
            Ok(t0) => match t0 {
                JsonModel::Str(_) => Ok(Seq::empty()),
                _ => match spec_index(t0, 0) {
                    Err(_) => Ok(Seq::empty()),
                    Ok(x) => match x {
                        JsonModel::Str(s) => Ok(s),
                        _ => Ok(Seq::empty()),
                    },
                },
            },
        },
    }
}

/// One review record: `data` at position 0; the timestamp in microseconds at
/// position 2 of `data[1]`; the author at `data[1][4][0][4]`; the rating and
/// text inside `data[2]`.
pub open spec fn spec_review_of_entry(e: JsonModel) -> Result<ReviewModel, ParseFail> {
    match spec_index(e, 0) {
        Err(k) => Err(k),
        Ok(data) => match spec_index(data, 1) {
            Err(k) => Err(k),
            Ok(metadata) => match spec_index(metadata, 2) {
                Err(k) => Err(k),
                Ok(tsv) => match spec_as_num(tsv) {
                    Err(k) => Err(k),
                    Ok(micros) => match spec_index(metadata, 4) {
                        Err(k) => Err(k),
                        Ok(m4) => match spec_index(m4, 0) {
                            Err(k) => Err(k),
                            Ok(m40) => match spec_index(m40, 4) {
                                Err(k) => Err(k),
                                Ok(av) => match spec_as_str(av) {
                                    Err(k) => Err(k),
                                    Ok(author) => match spec_index(data, 2) {
                                        Err(k) => Err(k),
                                        Ok(content) => match spec_index(content, 0) {
                                            Err(k) => Err(k),
                                            Ok(c0) => match (if c0 is Null {
                                                spec_external_rating(content)
                                            } else {
                                                match spec_index(c0, 0) {
                                                    Err(k) => Err(k),
                                                    Ok(rv) => spec_as_num(rv),
                                                }
                                            }) {
                                                Err(k) => Err(k),
                                                Ok(rating) => match spec_review_text(content) {
                                                    Err(k) => Err(k),
                                                    Ok(text) => Ok(
                                                        ReviewModel {
                                                            timestamp: Rational {
                                                                num: micros.num,
                                                                den: (micros.den * 1_000_000) as i128,
                                                            },
                                                            author: author,
                                                            content: text,
                                                            rating: rating,
                                                        },
                                                    ),
                                                },
                                            },
                                        },
                                    },
                                },
                            },
                        },
                    },
                },
            },
        },
    }
}

/// Parse one review record, as `spec_review_of_entry` describes.
fn parse_review_entry(e: &JsonValue) -> (r: Result<Review, ScrapeError>)
    ensures
        match spec_review_of_entry(e@) {
            Ok(m) => r matches Ok(rv) && rv@ == m,
            Err(k) => r matches Err(err) && err_matches(k, err),
        },
{
    proof {
        lemma_index_model(*e, 0);
    }
    let data = match get_array_index("review list entry should be array with a value", e, 0) {
        Ok(v) => v,
        Err(err) => {
            return Err(err);
        },
    };
    proof {
        lemma_index_model(*data, 1);
    }
    let metadata = match get_array_index("review list entry has bad data list", data, 1) {
        Ok(v) => v,
        Err(err) => {
            return Err(err);
        },
    };
    proof {
        lemma_index_model(*metadata, 2);
    }
    let tsv = match get_array_index("review list entry has bad metadata", metadata, 2) {
        Ok(v) => v,
        Err(err) => {
            return Err(err);
        },
    };
    let micros = match as_number("review list entry has bad metadata", tsv) {
        Ok(v) => v,
        Err(err) => {
            return Err(err);
        },
    };
    proof {
        lemma_index_model(*metadata, 4);
    }
    let m4 = match get_array_index("review list entry has bad metadata", metadata, 4) {
        Ok(v) => v,
        Err(err) => {
            return Err(err);
        },
    };
    proof {
        lemma_index_model(*m4, 0);
    }
    let m40 = match get_array_index("review list entry has bad metadata", m4, 0) {
        Ok(v) => v,
        Err(err) => {
            return Err(err);
        },
    };
    proof {
        lemma_index_model(*m40, 4);
    }
    let av = match get_array_index("review list entry has bad metadata", m40, 4) {
        Ok(v) => v,
        Err(err) => {
            return Err(err);
        },
    };
    let author = match as_string("review list entry has bad metadata", av) {
        Ok(v) => v,
        Err(err) => {
            return Err(err);
        },
    };
    proof {
        lemma_index_model(*data, 2);
    }
    let content = match get_array_index("review list entry has bad data list", data, 2) {
        Ok(v) => v,
        Err(err) => {
            return Err(err);
        },
    };
    proof {
        lemma_index_model(*content, 0);
    }
    let c0 = match get_array_index("review list entry invalid stars", content, 0) {
        Ok(v) => v,
        Err(err) => {
            return Err(err);
        },
    };
    let rating = if c0.is_null() {
        match external_rating(content) {
            Ok(v) => v,
            Err(err) => {
                return Err(err);
            },
        }
    } else {
        proof {
            lemma_index_model(*c0, 0);
        }
        let rv = match get_array_index("review list entry invalid stars", c0, 0) {
            Ok(v) => v,
            Err(err) => {
                return Err(err);
            },
        };
        match as_number("review list entry invalid stars", rv) {
            Ok(v) => v,
            Err(err) => {
                return Err(err);
            },
        }
    };
    let text = match review_text(content) {
        Ok(v) => v,
        Err(err) => {
            return Err(err);
        },
    };
    let timestamp = seconds_from_micros(micros);
    Ok(Review { timestamp, author: author.clone(), content: text, rating })
}

/// Parse the rating of a review that came from another site, as
/// `spec_external_rating` describes.
fn external_rating(content: &JsonValue) -> (r: Result<Rational, ScrapeError>)
    ensures
        match spec_external_rating(content@) {
            Ok(q) => r matches Ok(v) && v == q,
            Err(k) => r matches Err(err) && err_matches(k, err),
        },
{
    proof {
        lemma_index_model(*content, 8);
    }
    let c8 = match get_array_index("review list entry invalid stars", content, 8) {
        Ok(v) => v,
        Err(err) => {
            return Err(err);
        },
    };
    proof {
        lemma_index_model(*c8, 2);
    }
    let scale_v = match get_array_index("review list entry invalid stars", c8, 2) {
        Ok(v) => v,
        Err(err) => {
            return Err(err);
        },
    };
    let scale_s = match as_string("review list entry invalid stars", scale_v) {
        Ok(v) => v,
        Err(err) => {
            return Err(err);
        },
    };
    let token = tail_after_last_char(scale_s.as_str(), '/');
    let divisor = match parse_decimal(token) {
        Some(d) => d,
        None => {
            return Err(ScrapeError::parse_error(String::from_str("invalid review scale")));
        },
    };
    if divisor.num == 0 {
        return Err(ScrapeError::parse_error(String::from_str("invalid review scale")));
    }
    proof {
        lemma_index_model(*c8, 1);
    }
    let rv = match get_array_index("review list entry invalid stars", c8, 1) {
        Ok(v) => v,
        Err(err) => {
            return Err(err);
        },
    };
    let raw = match as_number("review list entry invalid stars", rv) {
        Ok(v) => v,
        Err(err) => {
            return Err(err);
        },
    };
    Ok(scaled_rating(raw, divisor))
}

/// Read the review text, as `spec_review_text` describes.
fn review_text(content: &JsonValue) -> (r: Result<String, ScrapeError>)
    ensures
        match spec_review_text(content@) {
            Ok(t) => r matches Ok(v) && v@ == t,
            Err(k) => r matches Err(err) && err_matches(k, err),
        },
{
    proof {
        lemma_index_model(*content, -1);
    }
    let tc = match get_array_index("review list entry invalid text", content, -1) {
        Ok(v) => v,
        Err(err) => {
            return Err(err);
        },
    };
    proof {
        lemma_index_model(*tc, 0);
    }
    let t0 = match get_array_index("review list entry invalid text", tc, 0) {
        Ok(v) => v,
        Err(err) => {
            return Err(err);
        },
    };
    if t0.is_string() {
        // an empty review: the slot holds only a language marker
        return Ok(String::new());
    }
    proof {
        lemma_index_model(*t0, 0);
    }
    match get_array_index("review list entry invalid text", t0, 0) {
        Ok(x) => match as_string("review list entry invalid text", x) {
            Ok(s) => Ok(s.clone()),
            Err(_) => Ok(String::new()),
        },
        Err(_) => Ok(String::new()),
    }
}

/// A rating the payload carries directly (already on the one-to-five scale)
/// indeed lies within it.
pub open spec fn direct_rating_in_range(e: JsonModel) -> bool {
    match spec_index(e, 0) {
        Ok(data) => match spec_index(data, 2) {
            Ok(content) => match spec_index(content, 0) {
                Ok(c0) => if c0 is Null {
                    true
                } else {
                    match spec_index(c0, 0) {
                        Ok(rv) => match rv {
                            JsonModel::Num(t) => spec_number_value(t).in_range(1, 5),
                            _ => true,
                        },
                        _ => true,
                    }
                },
                _ => true,
            },
            _ => true,
        },
        _ => true,
    }
}

/// Rating bounds for one record: a parsed review's rating is a well-formed
/// number within the one-to-five scale — a rating taken from another site is
/// rescaled and clamped, and one the payload carries directly keeps the
/// range it came with.
pub proof fn lemma_entry_rating_bounds(e: JsonModel)
    requires
        spec_review_of_entry(e) is Ok,
        direct_rating_in_range(e),
    ensures
        spec_review_of_entry(e)->Ok_0.rating.wf(),
        spec_review_of_entry(e)->Ok_0.rating.in_range(1, 5),
{
    let data = spec_index(e, 0)->Ok_0;
    let content = spec_index(data, 2)->Ok_0;
    let c0 = spec_index(content, 0)->Ok_0;
    if c0 is Null {
        let c8 = spec_index(content, 8)->Ok_0;
        let scale_s = spec_as_str(spec_index(c8, 2)->Ok_0)->Ok_0;
        let tok = tail_after_last(scale_s, '/');
        let divisor = spec_parse_decimal(tok)->Some_0;
        let raw = spec_as_num(spec_index(c8, 1)->Ok_0)->Ok_0;
        crate::rational::lemma_parse_decimal_wf(tok);
        match spec_index(c8, 1)->Ok_0 {
            JsonModel::Num(t) => {
                crate::json::lemma_number_value_wf(t);
            },
            _ => {},
        }
        crate::rational::lemma_scaled_in_range(raw, divisor);
        assert(spec_review_of_entry(e)->Ok_0.rating == spec_scaled(raw, divisor));
    } else {
        match spec_index(c0, 0)->Ok_0 {
            JsonModel::Num(t) => {
                crate::json::lemma_number_value_wf(t);
            },
            _ => {},
        }
    }
}

/// Every record in the list keeps a directly carried rating in range.
pub open spec fn all_entries_direct_in_range(l: Seq<JsonModel>) -> bool {
    forall|j: int| 0 <= j < l.len() ==> direct_rating_in_range(#[trigger] l[j])
}

/// Every record list in the payload keeps its directly carried ratings in
/// range.
pub open spec fn all_direct_in_range(items: Seq<JsonModel>) -> bool {
    forall|i: int|
        0 <= i < items.len() ==> (match #[trigger] items[i] {
            JsonModel::List(l) => all_entries_direct_in_range(l),
            _ => true,
        })
}

/// Every review in the batch carries a well-formed rating within one to five.
pub open spec fn ratings_in_range(ms: Seq<ReviewModel>) -> bool {
    forall|i: int|
        0 <= i < ms.len() ==> (#[trigger] ms[i]).rating.wf() && ms[i].rating.in_range(1, 5)
}

proof fn lemma_entries_ratings(l: Seq<JsonModel>)
    requires
        all_entries_direct_in_range(l),
        spec_entries(l) is Ok,
    ensures
        ratings_in_range(spec_entries(l)->Ok_0),
    decreases l.len(),
{
    if l.len() > 0 {
        assert(all_entries_direct_in_range(l.drop_last()));
        lemma_entries_ratings(l.drop_last());
        lemma_entry_rating_bounds(l.last());
        let pre = spec_entries(l.drop_last())->Ok_0;
        let whole = spec_entries(l)->Ok_0;
        assert(whole == pre.push(spec_review_of_entry(l.last())->Ok_0));
        assert forall|i: int|
            0 <= i < whole.len() implies (#[trigger] whole[i]).rating.wf() && whole[i].rating
            .in_range(1, 5) by {
            if i < pre.len() {
                assert(whole[i] == pre[i]);
            }
        }
    }
}

proof fn lemma_root_ratings(items: Seq<JsonModel>)
    requires
        all_direct_in_range(items),
        spec_root_reviews(items) is Ok,
    ensures
        ratings_in_range(spec_root_reviews(items)->Ok_0),
    decreases items.len(),
{
    if items.len() > 0 {
        assert(all_direct_in_range(items.drop_last()));
        lemma_root_ratings(items.drop_last());
        let pre = spec_root_reviews(items.drop_last())->Ok_0;
        let whole = spec_root_reviews(items)->Ok_0;
        match items.last() {
            JsonModel::List(el) => {
                assert(all_entries_direct_in_range(el)) by {
                    assert(items[items.len() - 1] matches JsonModel::List(l) && l == el);
                }
                lemma_entries_ratings(el);
                let ms = spec_entries(el)->Ok_0;
                assert(whole == pre + ms);
                assert forall|i: int|
                    0 <= i < whole.len() implies (#[trigger] whole[i]).rating.wf()
                    && whole[i].rating.in_range(1, 5) by {
                    if i < pre.len() {
                        assert(whole[i] == pre[i]);
                    } else {
                        assert(whole[i] == ms[i - pre.len()]);
                    }
                }
            },
            _ => {},
        }
    }
}

/// Rating bounds: every review the parser yields carries a well-formed
/// rating within the one-to-five scale, provided each rating the payload
/// already carries on that scale indeed lies within it (one taken from
/// another site is rescaled and clamped, so it needs no proviso).
pub proof fn lemma_rating_bounds(url: Seq<char>, response: Seq<char>)
    requires
        spec_parse_logged(url, response) is Ok,
        (match json_parse(last_nonempty_line_spec(response)) {
            Some(root) => root matches JsonModel::List(items) ==> all_direct_in_range(items),
            None => true,
        }),
    ensures
        ratings_in_range(spec_parse_logged(url, response)->Ok_0.reviews),
{
    let root = json_parse(last_nonempty_line_spec(response))->Some_0;
    match root {
        JsonModel::List(items) => {
            lemma_root_ratings(items);
        },
        _ => {},
    }
}

/// The models of a sequence of decoded values.
pub open spec fn json_models(s: Seq<JsonValue>) -> Seq<JsonModel> {
    Seq::new(s.len(), |i: int| json_model(s[i]))
}

/// The models of a sequence of reviews.
pub open spec fn review_models(s: Seq<Review>) -> Seq<ReviewModel> {
    Seq::new(s.len(), |i: int| s[i]@)
}

/// The reviews of one record list, in order; the first failing record wins.
pub open spec fn spec_entries(list: Seq<JsonModel>) -> Result<Seq<ReviewModel>, ParseFail>
    decreases list.len(),
{
    if list.len() == 0 {
        Ok(Seq::empty())
    } else {
        match spec_entries(list.drop_last()) {
            Err(k) => Err(k),
            Ok(pre) => match spec_review_of_entry(list.last()) {
                Err(k) => Err(k),
                Ok(m) => Ok(pre.push(m)),
            },
        }
    }
}

/// The reviews of the whole payload: every root slot that is neither null
/// nor a string must be a record list, and their records concatenate.
pub open spec fn spec_root_reviews(items: Seq<JsonModel>) -> Result<Seq<ReviewModel>, ParseFail>
    decreases items.len(),
{
    if items.len() == 0 {
        Ok(Seq::empty())
    } else {
        match spec_root_reviews(items.drop_last()) {
            Err(k) => Err(k),
            Ok(pre) => match items.last() {
                JsonModel::Null => Ok(pre),
                JsonModel::Str(_) => Ok(pre),
                JsonModel::List(l) => match spec_entries(l) {
                    Err(k) => Err(k),
                    Ok(ms) => Ok(pre + ms),
                },
                _ => Err(ParseFail::Fatal),
            },
        }
    }
}

proof fn lemma_entries_err(l: Seq<JsonModel>, i: int)
    requires
        0 <= i < l.len(),
        spec_entries(l.take(i)) is Ok,
        spec_review_of_entry(l[i]) is Err,
    ensures
        spec_entries(l) == Err::<Seq<ReviewModel>, ParseFail>(spec_review_of_entry(l[i])->Err_0),
    decreases l.len(),
{
    if l.len() == i + 1 {
        assert(l.drop_last() =~= l.take(i));
    } else {
        assert(l.drop_last().take(i) =~= l.take(i));
        assert(l.drop_last()[i] == l[i]);
        lemma_entries_err(l.drop_last(), i);
    }
}

proof fn lemma_root_err(l: Seq<JsonModel>, i: int, k: ParseFail)
    requires
        0 <= i < l.len(),
        spec_root_reviews(l.take(i)) is Ok,
        match l[i] {
            JsonModel::Null => false,
            JsonModel::Str(_) => false,
            JsonModel::List(el) => spec_entries(el) == Err::<Seq<ReviewModel>, ParseFail>(k),
            _ => k == ParseFail::Fatal,
        },
    ensures
        spec_root_reviews(l) == Err::<Seq<ReviewModel>, ParseFail>(k),
    decreases l.len(),
{
    if l.len() == i + 1 {
        assert(l.drop_last() =~= l.take(i));
    } else {
        assert(l.drop_last().take(i) =~= l.take(i));
        assert(l.drop_last()[i] == l[i]);
        lemma_root_err(l.drop_last(), i, k);
    }
}

/// Parse one record list, as `spec_entries` describes.
fn parse_entry_list(list: &Vec<JsonValue>) -> (r: Result<Vec<Review>, ScrapeError>)
    ensures
        match spec_entries(json_models(list@)) {
            Ok(ms) => r matches Ok(v) && review_models(v@) == ms,
            Err(k) => r matches Err(err) && err_matches(k, err),
        },
{
    let ghost lm = json_models(list@);
    let mut out: Vec<Review> = Vec::new();
    let mut i: usize = 0;
    proof {
        assert(lm.take(0) =~= Seq::<JsonModel>::empty());
        assert(review_models(out@) =~= Seq::<ReviewModel>::empty());
    }
    while i < list.len()
        invariant
            i <= list@.len(),
            lm == json_models(list@),
            lm.len() == list@.len(),
            spec_entries(lm.take(i as int)) == Ok::<Seq<ReviewModel>, ParseFail>(
                review_models(out@),
            ),
        decreases list@.len() - i,
    {
        match parse_review_entry(&list[i]) {
            Ok(rv) => {
                let ghost pre = review_models(out@);
                out.push(rv);
                proof {
                    assert(lm.take(i + 1).drop_last() =~= lm.take(i as int));
                    assert(lm.take(i + 1).last() == lm[i as int]);
                    assert(review_models(out@) =~= pre.push(rv@));
                }
            },
            Err(err) => {
                proof {
                    lemma_entries_err(lm, i as int);
                }
                return Err(err);
            },
        }
        i += 1;
    }
    proof {
        assert(lm.take(list@.len() as int) =~= lm);
    }
    Ok(out)
}

/// Walk the root slots and parse every record list, as `spec_root_reviews`
/// describes.
fn parse_root_items(items: &Vec<JsonValue>) -> (r: Result<Vec<Review>, ScrapeError>)
    ensures
        match spec_root_reviews(json_models(items@)) {
            Ok(ms) => r matches Ok(v) && review_models(v@) == ms,
            Err(k) => r matches Err(err) && err_matches(k, err),
        },
{
    let ghost im = json_models(items@);
    let mut out: Vec<Review> = Vec::new();
    let mut i: usize = 0;
    proof {
        assert(im.take(0) =~= Seq::<JsonModel>::empty());
        assert(review_models(out@) =~= Seq::<ReviewModel>::empty());
    }
    while i < items.len()
        invariant
            i <= items@.len(),
            im == json_models(items@),
            im.len() == items@.len(),
            spec_root_reviews(im.take(i as int)) == Ok::<Seq<ReviewModel>, ParseFail>(
                review_models(out@),
            ),
        decreases items@.len() - i,
    {
        let x = &items[i];
        proof {
            assert(im.take(i + 1).drop_last() =~= im.take(i as int));
            assert(im.take(i + 1).last() == im[i as int]);
        }
        if x.is_null() || x.is_string() {
            // a root slot that carries no records
        } else {
            let l = match as_array("root index should be array, string, or null", x) {
                Ok(l) => l,
                Err(err) => {
                    proof {
                        lemma_root_err(im, i as int, ParseFail::Fatal);
                    }
                    return Err(err);
                },
            };
            let mut batch = match parse_entry_list(l) {
                Ok(b) => b,
                Err(err) => {
                    proof {
                        assert(im[i as int] matches JsonModel::List(el) && el
                            =~= json_models(l@));
                        lemma_root_err(
                            im,
                            i as int,
                            spec_entries(json_models(l@))->Err_0,
                        );
                    }
                    return Err(err);
                },
            };
            let ghost pre = review_models(out@);
            let ghost bm = review_models(batch@);
            out.append(&mut batch);
            proof {
                assert(im[i as int] matches JsonModel::List(el) && el =~= json_models(l@));
                assert(review_models(out@) =~= pre + bm);
            }
        }
        i += 1;
    }
    proof {
        assert(im.take(items@.len() as int) =~= im);
    }
    Ok(out)
}

/// One decoded payload: the continuation token sits at position 1 of the
/// root list (null ends the stream), the remaining slots carry the records,
/// and a token is substituted into the fetched URL to give the next one.
pub open spec fn spec_parse_payload(url: Seq<char>, root: JsonModel) -> Result<
    ReviewResultModel,
    ParseFail,
> {
    match spec_index(root, 1) {
        Err(k) => Err(k),
        Ok(tokv) => match tokv {
            JsonModel::Str(tok) => match root {
                JsonModel::List(items) => match spec_root_reviews(items) {
                    Err(k) => Err(k),
                    Ok(reviews) => match spec_rewrite(url, tok) {
                        Some(u) => Ok(ReviewResultModel { next_url: Some(u), reviews }),
                        None => Err(ParseFail::Fatal),
                    },
                },
                _ => Err(ParseFail::Fatal),
            },
            JsonModel::Null => match root {
                JsonModel::List(items) => match spec_root_reviews(items) {
                    Err(k) => Err(k),
                    Ok(reviews) => Ok(ReviewResultModel { next_url: None, reviews }),
                },
                _ => Err(ParseFail::Fatal),
            },
            _ => Err(ParseFail::Fatal),
        },
    }
}

/// A recorded response: its last non-empty line decoded as JSON and read as
/// one payload.
pub open spec fn spec_parse_logged(url: Seq<char>, response: Seq<char>) -> Result<
    ReviewResultModel,
    ParseFail,
> {
    match json_parse(last_nonempty_line_spec(response)) {
        None => Err(ParseFail::Json),
        Some(root) => spec_parse_payload(url, root),
    }
}

/// Parse one recorded response: take the last non-empty line, decode it as
/// JSON, collect the review records, and rewrite the continuation token (if
/// any) into `url`, exactly as `spec_parse_logged` describes.
pub fn parse_logged_reviews(url: &str, response: &str) -> (r: Result<ReviewResult, ScrapeError>)
    ensures
        match spec_parse_logged(url@, response@) {
            Ok(m) => r matches Ok(v) && v@ == m,
            Err(k) => r matches Err(err) && err_matches(k, err),
        },
{
    let line = last_nonempty_line(response);
    let root = match json_value_of(line) {
        Ok(v) => v,
        Err(msg) => {
            return Err(ScrapeError::JsonError(msg));
        },
    };
    proof {
        lemma_index_model(root, 1);
    }
    let tokv = match get_array_index("determine next URL", &root, 1) {
        Ok(v) => v,
        Err(err) => {
            return Err(err);
        },
    };
    let token = match as_optional_string("determine next URL", tokv) {
        Ok(t) => t,
        Err(err) => {
            return Err(err);
        },
    };
    let items = match as_array("root list", &root) {
        Ok(l) => l,
        Err(err) => {
            return Err(err);
        },
    };
    proof {
        assert(root@ matches JsonModel::List(ms) && ms =~= json_models(items@));
    }
    let reviews = match parse_root_items(items) {
        Ok(v) => v,
        Err(err) => {
            return Err(err);
        },
    };
    let next_url = match token {
        Some(t) => match rewrite_next_url(url, t.as_str()) {
            Ok(u) => Some(u),
            Err(err) => {
                return Err(err);
            },
        },
        None => None,
    };
    let out = ReviewResult { next_url, reviews };
    proof {
        match spec_parse_logged(url@, response@) {
            Ok(m) => {
                assert(out@.reviews =~= m.reviews);
            },
            Err(_) => {},
        }
    }
    Ok(out)
}

/// Recorded responses parsed in order: their records concatenate, and the
/// last response's continuation stands.
pub open spec fn spec_recorded_fold(rs: Seq<(Seq<char>, Seq<char>)>) -> Result<
    ReviewResultModel,
    ParseFail,
>
    decreases rs.len(),
{
    if rs.len() == 0 {
        Ok(ReviewResultModel { next_url: None, reviews: Seq::empty() })
    } else {
        match spec_recorded_fold(rs.drop_last()) {
            Err(k) => Err(k),
            Ok(pre) => match spec_parse_logged(rs.last().0, rs.last().1) {
                Err(k) => Err(k),
                Ok(m) => Ok(
                    ReviewResultModel { next_url: m.next_url, reviews: pre.reviews + m.reviews },
                ),
            },
        }
    }
}

/// What a set of recorded responses yields: nothing recorded is a
/// recoverable error (the page has not issued the request yet).
pub open spec fn spec_recorded(rs: Seq<(Seq<char>, Seq<char>)>) -> Result<
    ReviewResultModel,
    ParseFail,
> {
    if rs.len() == 0 {
        Err(ParseFail::Recoverable)
    } else {
        spec_recorded_fold(rs)
    }
}

proof fn lemma_recorded_err(rs: Seq<(Seq<char>, Seq<char>)>, i: int, k: ParseFail)
    requires
        0 <= i < rs.len(),
        spec_recorded_fold(rs.take(i)) is Ok,
        spec_parse_logged(rs[i].0, rs[i].1) == Err::<ReviewResultModel, ParseFail>(k),
    ensures
        spec_recorded_fold(rs) == Err::<ReviewResultModel, ParseFail>(k),
    decreases rs.len(),
{
    if rs.len() == i + 1 {
        assert(rs.drop_last() =~= rs.take(i));
    } else {
        assert(rs.drop_last().take(i) =~= rs.take(i));
        assert(rs.drop_last()[i] == rs[i]);
        lemma_recorded_err(rs.drop_last(), i, k);
    }
}

/// Parse every recorded `(url, body)` pair in order, as `spec_recorded`
/// describes: the batches concatenate and the last continuation stands.
pub fn parse_recorded(results: &Vec<(String, String)>) -> (r: Result<ReviewResult, ScrapeError>)
    ensures
        match spec_recorded(pair_views(results@)) {
            Ok(m) => r matches Ok(v) && v@ == m,
            Err(k) => r matches Err(err) && err_matches(k, err),
        },
{
    let ghost pv = pair_views(results@);
    if results.len() == 0 {
        return Err(
            ScrapeError::parse_error(String::from_str("did not find any review HTTP requests")),
        );
    }
    let mut reviews: Vec<Review> = Vec::new();
    let mut next_url: Option<String> = None;
    let mut i: usize = 0;
    proof {
        assert(pv.take(0) =~= Seq::<(Seq<char>, Seq<char>)>::empty());
        assert(review_models(reviews@) =~= Seq::<ReviewModel>::empty());
    }
    while i < results.len()
        invariant
            i <= results@.len(),
            pv == pair_views(results@),
            pv.len() == results@.len(),
            spec_recorded_fold(pv.take(i as int)) == Ok::<ReviewResultModel, ParseFail>(
                ReviewResultModel {
                    next_url: match next_url {
                        Some(u) => Some(u@),
                        None => None,
                    },
                    reviews: review_models(reviews@),
                },
            ),
        decreases results@.len() - i,
    {
        proof {
            assert(pv.take(i + 1).drop_last() =~= pv.take(i as int));
            assert(pv.take(i + 1).last() == pv[i as int]);
        }
        let pair = &results[i];
        match parse_logged_reviews(pair.0.as_str(), pair.1.as_str()) {
            Ok(batch) => {
                let ReviewResult { next_url: nu, reviews: mut rv } = batch;
                let ghost pre = review_models(reviews@);
                let ghost bm = review_models(rv@);
                next_url = nu;
                reviews.append(&mut rv);
                proof {
                    assert(review_models(reviews@) =~= pre + bm);
                }
            },
            Err(err) => {
                proof {
                    lemma_recorded_err(pv, i as int, spec_parse_logged(pv[i as int].0, pv[i as int].1)->Err_0);
                }
                return Err(err);
            },
        }
        i += 1;
    }
    proof {
        assert(pv.take(results@.len() as int) =~= pv);
    }
    Ok(ReviewResult { next_url, reviews })
}

} // verus!
