//! A source that reads the lyrics of artists' songs: it looks an artist
//! up, lists the artist's songs page by page and reads each song.

use crate::scrapers::address::{decimal, decimal_text, percent_encode, percent_encoded};
use crate::scrapers::providers::basic::{elements_view, DEFAULT_REQUEST_TIMEOUT_SECS};
use crate::scrapers::texts::{join_texts, joined, titled, titled_text};
use crate::text::chars::{lowercase, to_lowercase, tokens_of};
use vstd::prelude::*;
use vstd::string::StringExecFns;
use vstd::utf8::encode_utf8;

verus! {

/// The number of songs that one page of an artist's songs lists.
pub const SONGS_PER_PAGE: u64 = 50;

/// What the source is set up with.
pub struct LyricsScraper {
    /// The token that the service asks for.
    pub api_token: String,
    /// The artists whose songs are read.
    pub artists: Vec<String>,
    /// The most songs to read of one artist, if there is a limit.
    pub max_songs_per_artist: Option<usize>,
    /// The seconds that a request may take.
    pub request_timeout_secs: u64,
}

/// One result of a search for an artist: the name and the number of the
/// artist that the result belongs to, as far as the result gives them.
pub struct ArtistHit {
    pub name: Option<String>,
    pub id: Option<u64>,
}

/// How a search for an artist ended.
#[derive(Debug, PartialEq, Eq)]
pub enum ArtistSearch {
    /// A result has the artist's name, and this number.
    Found(u64),
    /// A result has the artist's name, but no number.
    WithoutId,
    /// No result has the artist's name.
    NotFound,
}

/// A song: its title and the address of its page.
#[derive(Debug, PartialEq, Eq)]
pub struct Song {
    pub title: String,
    pub url: String,
}

/// Whether two names are the same but for their case.
pub open spec fn same_name(a: Seq<char>, b: Seq<char>) -> bool {
    lowercase(a) == lowercase(b)
}

/// Whether a result belongs to the artist called `wanted`.
pub open spec fn names(hit: ArtistHit, wanted: Seq<char>) -> bool {
    match hit.name {
        Some(name) => same_name(name@, wanted),
        None => false,
    }
}

/// How the search for `wanted` ends on the results `hits`: the first
/// result with the artist's name decides.
pub open spec fn search_result(hits: Seq<ArtistHit>, wanted: Seq<char>) -> ArtistSearch
    decreases hits.len(),
{
    if hits.len() == 0 {
        ArtistSearch::NotFound
    } else if names(hits[0], wanted) {
        match hits[0].id {
            Some(id) => ArtistSearch::Found(id),
            None => ArtistSearch::WithoutId,
        }
    } else {
        search_result(hits.drop_first(), wanted)
    }
}

/// The lyrics on a song's page: for each element that holds lyrics, its
/// text nodes one after the other, and a line break.
pub open spec fn lyrics_of(elements: Seq<Seq<Seq<char>>>) -> Seq<char>
    decreases elements.len(),
{
    if elements.len() == 0 {
        Seq::empty()
    } else {
        lyrics_of(elements.drop_last()) + joined(elements.last(), Seq::empty()) + "\n"@
    }
}

/// The songs collected after one more page: nothing changes on an empty
/// page; otherwise the page's songs are added, and the list is cut to the
/// limit if it has reached it.
pub open spec fn collected_after(
    collected: Seq<Song>,
    listed: nat,
    songs: Seq<Song>,
    limit: Option<usize>,
) -> Seq<Song> {
    if listed == 0 {
        collected
    } else {
        match limit {
            Some(most) => if (collected + songs).len() >= most {
                (collected + songs).take(most as int)
            } else {
                collected + songs
            },
            None => collected + songs,
        }
    }
}

/// Whether another page is to be read after this one: not after an empty
/// page, and not once the limit is reached.
pub open spec fn wants_more(
    collected: Seq<Song>,
    listed: nat,
    songs: Seq<Song>,
    limit: Option<usize>,
) -> bool {
    listed > 0 && match limit {
        Some(most) => (collected + songs).len() < most,
        None => true,
    }
}

impl LyricsScraper {
    /// A source for the songs of `artists`, with the default time for a
    /// request.
    pub fn new(
        api_token: String,
        artists: Vec<String>,
        max_songs_per_artist: Option<usize>,
    ) -> (scraper: Self)
        ensures
            scraper.api_token == api_token,
            scraper.artists == artists,
            scraper.max_songs_per_artist == max_songs_per_artist,
            scraper.request_timeout_secs == DEFAULT_REQUEST_TIMEOUT_SECS,
    {
        LyricsScraper {
            api_token,
            artists,
            max_songs_per_artist,
            request_timeout_secs: DEFAULT_REQUEST_TIMEOUT_SECS,
        }
    }

    /// The same source with `timeout_secs` seconds for a request.
    pub fn with_request_timeout(self, timeout_secs: u64) -> (scraper: Self)
        ensures
            scraper.api_token == self.api_token,
            scraper.artists == self.artists,
            scraper.max_songs_per_artist == self.max_songs_per_artist,
            scraper.request_timeout_secs == timeout_secs,
    {
        LyricsScraper {
            api_token: self.api_token,
            artists: self.artists,
            max_songs_per_artist: self.max_songs_per_artist,
            request_timeout_secs: timeout_secs,
        }
    }

    /// The source that stored settings describe, each of which may be
    /// missing: a missing token is empty, missing artists are no artists, a
    /// missing limit is no limit, a missing time is the default.
    pub fn from_settings(
        api_token: Option<String>,
        artists: Option<Vec<String>>,
        max_songs_per_artist: Option<usize>,
        request_timeout: Option<u64>,
    ) -> (scraper: Self)
        ensures
            scraper.api_token@ == match api_token {
                Some(given) => given@,
                None => Seq::empty(),
            },
            tokens_of(scraper.artists@) == match artists {
                Some(given) => tokens_of(given@),
                None => Seq::empty(),
            },
            scraper.max_songs_per_artist == max_songs_per_artist,
            scraper.request_timeout_secs == match request_timeout {
                Some(given) => given,
                None => DEFAULT_REQUEST_TIMEOUT_SECS,
            },
    {
        let api_token = match api_token {
            Some(given) => given,
            None => String::new(),
        };
        let artists = match artists {
            Some(given) => given,
            None => {
                let none: Vec<String> = Vec::new();
                assert(tokens_of(none@) =~= Seq::<Seq<char>>::empty());
                none
            },
        };
        let request_timeout_secs = match request_timeout {
            Some(given) => given,
            None => DEFAULT_REQUEST_TIMEOUT_SECS,
        };
        LyricsScraper { api_token, artists, max_songs_per_artist, request_timeout_secs }
    }

    /// What the service takes as authorization: `Bearer `, then the token.
    pub fn authorization(&self) -> (header: String)
        ensures
            header@ == "Bearer "@ + self.api_token@,
    {
        let mut header = "Bearer ".to_owned();
        header.append(self.api_token.as_str());
        header
    }

    /// The address of the search for the artist called `artist`.
    pub fn search_address(artist: &str) -> (address: String)
        ensures
            address@ == "https://api.genius.com/search?q="@ + percent_encoded(
                encode_utf8(artist@),
            ),
    {
        let mut address = "https://api.genius.com/search?q=".to_owned();
        address.append(percent_encode(artist).as_str());
        address
    }

    /// The address of page `page` of the songs of the artist with the
    /// number `artist_id`.
    pub fn songs_address(artist_id: u64, page: u64) -> (address: String)
        ensures
            address@ == "https://api.genius.com/artists/"@ + decimal(artist_id as nat)
                + "/songs?per_page="@ + decimal(SONGS_PER_PAGE as nat) + "&page="@ + decimal(
                page as nat,
            ),
    {
        let mut address = "https://api.genius.com/artists/".to_owned();
        address.append(decimal_text(artist_id).as_str());
        address.append("/songs?per_page=");
        address.append(decimal_text(SONGS_PER_PAGE).as_str());
        address.append("&page=");
        address.append(decimal_text(page).as_str());
        address
    }

    /// Looks for the artist called `wanted` among the results of a search.
    /// Names are compared without regard to case, and the first result with
    /// the artist's name decides.
    pub fn find_artist(hits: &Vec<ArtistHit>, wanted: &str) -> (found: ArtistSearch)
        ensures
            found == search_result(hits@, wanted@),
    {
        let wanted_lower = to_lowercase(wanted);
        let mut i: usize = 0;
        assert(hits@.skip(0) =~= hits@);
        while i < hits.len()
            invariant
                i <= hits@.len(),
                wanted_lower@ == lowercase(wanted@),
                search_result(hits@, wanted@) == search_result(hits@.skip(i as int), wanted@),
            decreases hits.len() - i,
        {
            proof {
                assert(hits@.skip(i as int).drop_first() =~= hits@.skip(i + 1));
                assert(hits@.skip(i as int)[0] == hits@[i as int]);
            }
            let matches = match &hits[i].name {
                Some(name) => to_lowercase(name.as_str()) == wanted_lower,
                None => false,
            };
            if matches {
                return match hits[i].id {
                    Some(id) => ArtistSearch::Found(id),
                    None => ArtistSearch::WithoutId,
                };
            }
            i += 1;
        }
        ArtistSearch::NotFound
    }

    /// Takes in one page of an artist's songs: `listed` is the number of
    /// entries on the page and `songs` are those of them that name a title
    /// and an address. Returns whether another page is to be read. An empty
    /// page ends the reading. So does a page with which the songs collected
    /// reach the limit, and the list is then cut to the limit.
    pub fn add_page(&self, collected: &mut Vec<Song>, listed: usize, songs: Vec<Song>) -> (more:
        bool)
        ensures
            final(collected)@ == collected_after(
                old(collected)@,
                listed as nat,
                songs@,
                self.max_songs_per_artist,
            ),
            more == wants_more(old(collected)@, listed as nat, songs@, self.max_songs_per_artist),
    {
        if listed == 0 {
            return false;
        }
        let mut songs = songs;
        collected.append(&mut songs);
        match self.max_songs_per_artist {
            Some(most) => {
                if collected.len() >= most {
                    collected.truncate(most);
                    false
                } else {
                    true
                }
            },
            None => true,
        }
    }

    /// The lyrics on a song's page, given the text nodes of each element
    /// that holds lyrics. `None` if there is no such element.
    pub fn lyrics_text(elements: &Vec<Vec<String>>) -> (text: Option<String>)
        ensures
            match text {
                Some(found) => elements@.len() > 0 && found@ == lyrics_of(elements_view(elements@)),
                None => elements@.len() == 0,
            },
    {
        if elements.len() == 0 {
            return None;
        }
        let ghost all = elements_view(elements@);
        let mut text = String::new();
        let mut i: usize = 0;
        assert(all.take(0) =~= Seq::<Seq<Seq<char>>>::empty());
        while i < elements.len()
            invariant
                all == elements_view(elements@),
                i <= elements@.len(),
                text@ == lyrics_of(all.take(i as int)),
            decreases elements.len() - i,
        {
            let piece = join_texts(&elements[i], "");
            proof {
                assert(all.take(i + 1).drop_last() =~= all.take(i as int));
                assert(all.take(i + 1).last() == tokens_of(elements@[i as int]@));
                reveal_strlit("");
                assert(""@ =~= Seq::<char>::empty());
            }
            text.append(piece.as_str());
            text.append("\n");
            i += 1;
        }
        assert(all.take(i as int) =~= all);
        Some(text)
    }

    /// The text of one song: artist and title as a heading, and the lyrics
    /// under it.
    pub fn song_text(artist: &str, title: &str, lyrics: &str) -> (text: String)
        ensures
            text@ == titled(artist@ + " - "@ + title@, lyrics@),
    {
        let mut heading = artist.to_owned();
        heading.append(" - ");
        heading.append(title);
        titled_text(heading.as_str(), lyrics)
    }
}

} // verus!
