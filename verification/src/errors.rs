use vstd::prelude::*;

verus! {

/// Errors that the pool reports to a caller asking for a lease.
#[derive(Debug, PartialEq, Eq, Structural)]
pub enum PoolError {
    PoolClosed,
}

impl PoolError {
    /// A human-readable description of the error.
    pub fn message(&self) -> (r: &'static str)
        ensures
            r@ == "client pool is closed"@,
    {
        "client pool is closed"
    }
}

/// Everything that can go wrong while driving a scrape.
///
/// Driver failures are recorded with a flag saying whether they were a
/// stale-reference condition, which the retry loop treats as transient.
#[derive(Debug)]
pub enum ScrapeError {
    /// The browser-automation channel failed or returned an error.
    WebDriverError { stale: bool, message: String },
    /// An expected DOM element or payload shape was not present yet; retried.
    ParseError(String),
    /// The payload shape violates invariants the schema must satisfy; not retried.
    FatalParseError(String),
    /// The retry deadline passed; carries the most recent recoverable error.
    TimeoutError(String, Option<Box<ScrapeError>>),
    /// The payload text was not well-formed JSON.
    JsonError(String),
    /// A continuation fetch over plain HTTP failed.
    ReqwestError(String),
}

/// The description `ScrapeError::message` renders: the variant's name around
/// its message, with a timeout's inner cause spelled out after it.
pub open spec fn spec_scrape_message(e: ScrapeError) -> Seq<char>
    decreases e,
{
    match e {
        ScrapeError::WebDriverError { message, .. } => "WebDriverError("@ + message@ + ")"@,
        ScrapeError::ParseError(m) => "ParseError("@ + m@ + ")"@,
        ScrapeError::FatalParseError(m) => "FatalParseError("@ + m@ + ")"@,
        ScrapeError::TimeoutError(m, None) => "TimeoutError("@ + m@ + ")"@,
        ScrapeError::TimeoutError(m, Some(inner)) => "TimeoutError("@ + m@ + ", "@
            + spec_scrape_message(*inner) + ")"@,
        ScrapeError::JsonError(m) => "JsonError("@ + m@ + ")"@,
        ScrapeError::ReqwestError(m) => "ReqwestError("@ + m@ + ")"@,
    }
}

impl ScrapeError {
    /// True of the one driver error class that the retry loop swallows.
    pub open spec fn is_stale(&self) -> bool {
        match self {
            ScrapeError::WebDriverError { stale, .. } => *stale,
            _ => false,
        }
    }

    /// A human-readable description of the error.
    pub fn message(&self) -> (r: String)
        ensures
            r@ == spec_scrape_message(*self),
        decreases *self,
    {
        match self {
            ScrapeError::WebDriverError { message, .. } => String::from_str("WebDriverError(")
                .concat(message.as_str()).concat(")"),
            ScrapeError::ParseError(m) => String::from_str("ParseError(").concat(m.as_str())
                .concat(")"),
            ScrapeError::FatalParseError(m) => String::from_str("FatalParseError(").concat(
                m.as_str(),
            ).concat(")"),
            ScrapeError::TimeoutError(m, None) => String::from_str("TimeoutError(").concat(
                m.as_str(),
            ).concat(")"),
            ScrapeError::TimeoutError(m, Some(inner)) => {
                let tail = inner.message();
                String::from_str("TimeoutError(").concat(m.as_str()).concat(", ").concat(
                    tail.as_str(),
                ).concat(")")
            },
            ScrapeError::JsonError(m) => String::from_str("JsonError(").concat(m.as_str()).concat(
                ")",
            ),
            ScrapeError::ReqwestError(m) => String::from_str("ReqwestError(").concat(m.as_str())
                .concat(")"),
        }
    }

    pub fn timeout(msg: String, inner: Option<ScrapeError>) -> (r: Self)
        ensures
            r matches ScrapeError::TimeoutError(m, i) && m == msg && match inner {
                Some(e) => i matches Some(b) && *b == e,
                None => i is None,
            },
    {
        match inner {
            Some(e) => ScrapeError::TimeoutError(msg, Some(Box::new(e))),
            None => ScrapeError::TimeoutError(msg, None),
        }
    }

    pub fn parse_error(msg: String) -> (r: Self)
        ensures
            r == ScrapeError::ParseError(msg),
    {
        ScrapeError::ParseError(msg)
    }

    pub fn fatal_parse_error(msg: String) -> (r: Self)
        ensures
            r == ScrapeError::FatalParseError(msg),
    {
        ScrapeError::FatalParseError(msg)
    }
}

/// Errors surfaced by the request handlers.
#[derive(Debug)]
pub enum HandlerError {
    ScrapeError(ScrapeError),
    PoolError(PoolError),
    HttpError(String),
    QueryError(String),
}

/// The description `HandlerError::message` renders.
pub open spec fn spec_handler_message(e: HandlerError) -> Seq<char> {
    match e {
        HandlerError::ScrapeError(inner) => "ScrapeError("@ + spec_scrape_message(inner) + ")"@,
        HandlerError::PoolError(_) => "PoolError(client pool is closed)"@,
        HandlerError::HttpError(m) => "HttpError("@ + m@ + ")"@,
        HandlerError::QueryError(m) => "QueryError("@ + m@ + ")"@,
    }
}

impl HandlerError {
    /// A human-readable description of the error.
    pub fn message(&self) -> (r: String)
        ensures
            r@ == spec_handler_message(*self),
    {
        match self {
            HandlerError::ScrapeError(inner) => {
                let tail = inner.message();
                String::from_str("ScrapeError(").concat(tail.as_str()).concat(")")
            },
            HandlerError::PoolError(inner) => {
                let r = String::from_str("PoolError(").concat(inner.message()).concat(")");
                proof {
                    reveal_strlit("PoolError(");
                    reveal_strlit("client pool is closed");
                    reveal_strlit(")");
                    reveal_strlit("PoolError(client pool is closed)");
                    assert(r@ =~= "PoolError(client pool is closed)"@);
                }
                r
            },
            HandlerError::HttpError(m) => String::from_str("HttpError(").concat(m.as_str()).concat(
                ")",
            ),
            HandlerError::QueryError(m) => String::from_str("QueryError(").concat(m.as_str())
                .concat(")"),
        }
    }
}

impl From<ScrapeError> for HandlerError {
    fn from(value: ScrapeError) -> (r: Self) {
        HandlerError::ScrapeError(value)
    }
}

impl vstd::std_specs::convert::FromSpecImpl<ScrapeError> for HandlerError {
    open spec fn obeys_from_spec() -> bool {
        true
    }

    open spec fn from_spec(value: ScrapeError) -> Self {
        HandlerError::ScrapeError(value)
    }
}

impl From<PoolError> for HandlerError {
    fn from(value: PoolError) -> (r: Self) {
        HandlerError::PoolError(value)
    }
}

impl vstd::std_specs::convert::FromSpecImpl<PoolError> for HandlerError {
    open spec fn obeys_from_spec() -> bool {
        true
    }

    open spec fn from_spec(value: PoolError) -> Self {
        HandlerError::PoolError(value)
    }
}

} // verus!
