//! A source that reads the summaries of encyclopedia articles.

use crate::scrapers::address::{percent_encode, percent_encoded};
use crate::scrapers::providers::basic::DEFAULT_REQUEST_TIMEOUT_SECS;
use crate::scrapers::texts::{titled, titled_text};
use crate::text::chars::tokens_of;
use vstd::prelude::*;
use vstd::string::StringExecFns;
use vstd::utf8::encode_utf8;

verus! {

/// What the source is set up with.
pub struct WikipediaScraper {
    /// The topics whose summaries are read.
    pub topics: Vec<String>,
    /// The seconds that a request may take.
    pub request_timeout_secs: u64,
}

impl WikipediaScraper {
    /// A source for `topics`, with the default time for a request.
    pub fn new(topics: Vec<String>) -> (scraper: Self)
        ensures
            scraper.topics == topics,
            scraper.request_timeout_secs == DEFAULT_REQUEST_TIMEOUT_SECS,
    {
        WikipediaScraper { topics, request_timeout_secs: DEFAULT_REQUEST_TIMEOUT_SECS }
    }

    /// The same source with `timeout_secs` seconds for a request.
    pub fn with_request_timeout(self, timeout_secs: u64) -> (scraper: Self)
        ensures
            scraper.topics == self.topics,
            scraper.request_timeout_secs == timeout_secs,
    {
        WikipediaScraper { topics: self.topics, request_timeout_secs: timeout_secs }
    }

    /// The source that stored settings describe, each of which may be
    /// missing: missing topics are no topics, a missing time is the
    /// default.
    pub fn from_settings(topics: Option<Vec<String>>, request_timeout: Option<u64>) -> (scraper:
        Self)
        ensures
            tokens_of(scraper.topics@) == match topics {
                Some(given) => tokens_of(given@),
                None => Seq::empty(),
            },
            scraper.request_timeout_secs == match request_timeout {
                Some(given) => given,
                None => DEFAULT_REQUEST_TIMEOUT_SECS,
            },
    {
        let topics = match topics {
            Some(given) => given,
            None => {
                let none: Vec<String> = Vec::new();
                assert(tokens_of(none@) =~= Seq::<Seq<char>>::empty());
                none
            },
        };
        let request_timeout_secs = match request_timeout {
            Some(given) => given,
            None => DEFAULT_REQUEST_TIMEOUT_SECS,
        };
        WikipediaScraper { topics, request_timeout_secs }
    }

    /// Tells whether there is a topic to read.
    pub fn has_topics(&self) -> (any: bool)
        ensures
            any == (self.topics@.len() > 0),
    {
        self.topics.len() > 0
    }

    /// The address of the summary of `topic`.
    pub fn summary_address(topic: &str) -> (address: String)
        ensures
            address@ == "https://en.wikipedia.org/api/rest_v1/page/summary/"@ + percent_encoded(
                encode_utf8(topic@),
            ),
    {
        let mut address = "https://en.wikipedia.org/api/rest_v1/page/summary/".to_owned();
        address.append(percent_encode(topic).as_str());
        address
    }

    /// The text of one summary: the article's title as a heading, or the
    /// topic if the article came without a title, and the extract under it.
    pub fn summary_text(title: Option<&str>, topic: &str, extract: &str) -> (text: String)
        ensures
            text@ == titled(
                match title {
                    Some(given) => given@,
                    None => topic@,
                },
                extract@,
            ),
    {
        match title {
            Some(given) => titled_text(given, extract),
            None => titled_text(topic, extract),
        }
    }
}

} // verus!
