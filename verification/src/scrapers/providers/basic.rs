//! A source that reads one web page and takes the text of the elements
//! that a CSS selector picks.

use crate::scrapers::texts::{is_blank, join_texts, joined, text_is_blank};
use crate::text::chars::tokens_of;
use vstd::prelude::*;
use vstd::string::StringExecFns;

verus! {

/// The seconds that a request may take if nothing else is set.
pub const DEFAULT_REQUEST_TIMEOUT_SECS: u64 = 30;

/// The largest page, in bytes, that the source accepts.
pub const MAX_HTML_SIZE_BYTES: u64 = 10_485_760;

/// What the source is set up with.
pub struct BasicScraper {
    /// The address of the page.
    pub url: String,
    /// The CSS selector of the elements whose text is taken.
    pub selector: String,
    /// The seconds that a request may take.
    pub request_timeout_secs: u64,
}

/// The text nodes of each element, as texts.
pub open spec fn elements_view(elements: Seq<Vec<String>>) -> Seq<Seq<Seq<char>>> {
    Seq::new(elements.len(), |i: int| tokens_of(elements[i]@))
}

/// What one element adds to the text of a page: its text nodes with a
/// space between each two and a line break at the end, or nothing if that
/// holds nothing but whitespace.
pub open spec fn element_text(nodes: Seq<Seq<char>>) -> Seq<char> {
    if is_blank(joined(nodes, " "@)) {
        Seq::empty()
    } else {
        joined(nodes, " "@) + "\n"@
    }
}

/// The text of a page: what its elements add, in order.
pub open spec fn extracted(elements: Seq<Seq<Seq<char>>>) -> Seq<char>
    decreases elements.len(),
{
    if elements.len() == 0 {
        Seq::empty()
    } else {
        extracted(elements.drop_last()) + element_text(elements.last())
    }
}

impl BasicScraper {
    /// A source for the page at `url` and the elements that `selector`
    /// picks, with the default time for a request.
    pub fn new(url: String, selector: String) -> (scraper: Self)
        ensures
            scraper.url == url,
            scraper.selector == selector,
            scraper.request_timeout_secs == DEFAULT_REQUEST_TIMEOUT_SECS,
    {
        BasicScraper { url, selector, request_timeout_secs: DEFAULT_REQUEST_TIMEOUT_SECS }
    }

    /// The same source with `timeout_secs` seconds for a request.
    pub fn with_request_timeout(self, timeout_secs: u64) -> (scraper: Self)
        ensures
            scraper.url == self.url,
            scraper.selector == self.selector,
            scraper.request_timeout_secs == timeout_secs,
    {
        BasicScraper { url: self.url, selector: self.selector, request_timeout_secs: timeout_secs }
    }

    /// The source that stored settings describe, each of which may be
    /// missing: a missing address is empty, a missing or empty selector is
    /// `body`, a missing time is the default.
    pub fn from_settings(
        url: Option<String>,
        selector: Option<String>,
        request_timeout: Option<u64>,
    ) -> (scraper: Self)
        ensures
            scraper.url@ == match url {
                Some(given) => given@,
                None => Seq::empty(),
            },
            scraper.selector@ == match selector {
                Some(given) => if given@.len() > 0 {
                    given@
                } else {
                    "body"@
                },
                None => "body"@,
            },
            scraper.request_timeout_secs == match request_timeout {
                Some(given) => given,
                None => DEFAULT_REQUEST_TIMEOUT_SECS,
            },
    {
        let url = match url {
            Some(given) => given,
            None => String::new(),
        };
        let selector = match selector {
            Some(given) => if given.as_str().is_empty() {
                "body".to_owned()
            } else {
                given
            },
            None => "body".to_owned(),
        };
        let request_timeout_secs = match request_timeout {
            Some(given) => given,
            None => DEFAULT_REQUEST_TIMEOUT_SECS,
        };
        BasicScraper { url, selector, request_timeout_secs }
    }

    /// Tells whether a page of `size` bytes is larger than the source
    /// accepts.
    pub fn is_too_large(size: u64) -> (too_large: bool)
        ensures
            too_large == (size > MAX_HTML_SIZE_BYTES),
    {
        size > MAX_HTML_SIZE_BYTES
    }

    /// The text of a page, given the text nodes of each element that the
    /// selector picked: for each element its text nodes with a space between
    /// each two, and a line break. Elements with nothing but whitespace add
    /// nothing. `None` if no text is left.
    pub fn page_text(elements: &Vec<Vec<String>>) -> (text: Option<String>)
        ensures
            match text {
                Some(found) => found@ == extracted(elements_view(elements@)) && found@.len() > 0,
                None => extracted(elements_view(elements@)).len() == 0,
            },
    {
        let ghost all = elements_view(elements@);
        let mut text = String::new();
        let mut i: usize = 0;
        assert(all.take(0) =~= Seq::<Seq<Seq<char>>>::empty());
        while i < elements.len()
            invariant
                all == elements_view(elements@),
                i <= elements@.len(),
                text@ == extracted(all.take(i as int)),
            decreases elements.len() - i,
        {
            let piece = join_texts(&elements[i], " ");
            proof {
                assert(all.take(i + 1).drop_last() =~= all.take(i as int));
                assert(all.take(i + 1).last() == tokens_of(elements@[i as int]@));
            }
            if !text_is_blank(piece.as_str()) {
                text.append(piece.as_str());
                text.append("\n");
            } else {
                assert(text@ + Seq::<char>::empty() =~= text@);
            }
            i += 1;
        }
        assert(all.take(i as int) =~= all);
        if text.as_str().is_empty() {
            None
        } else {
            Some(text)
        }
    }
}

} // verus!
