use text_gen_ngram::scrapers::providers::basic::{
    DEFAULT_REQUEST_TIMEOUT_SECS, MAX_HTML_SIZE_BYTES,
};
use text_gen_ngram::scrapers::address::decimal_text;
use text_gen_ngram::scrapers::providers::lyrics::{ArtistHit, ArtistSearch, Song, SONGS_PER_PAGE};
use text_gen_ngram::scrapers::providers::{BasicScraper, LyricsScraper, WikipediaScraper};
use text_gen_ngram::scrapers::texts::{
    combine_texts, join_texts, parse_list, text_is_blank, titled_text,
};

fn strings(list: &[&str]) -> Vec<String> {
    list.iter().map(|s| s.to_string()).collect()
}

fn song(title: &str) -> Song {
    Song {
        title: title.to_string(),
        url: format!("https://example.com/{}", title),
    }
}

#[test]
fn scrapers_start_with_the_default_timeout() {
    assert_eq!(DEFAULT_REQUEST_TIMEOUT_SECS, 30);
    let basic = BasicScraper::new("https://example.com".to_string(), "p".to_string());
    assert_eq!(basic.url, "https://example.com");
    assert_eq!(basic.selector, "p");
    assert_eq!(basic.request_timeout_secs, 30);
    assert_eq!(basic.with_request_timeout(5).request_timeout_secs, 5);

    let wikipedia = WikipediaScraper::new(strings(&["Rust"]));
    assert_eq!(wikipedia.topics, strings(&["Rust"]));
    assert_eq!(wikipedia.request_timeout_secs, 30);
    let wikipedia = wikipedia.with_request_timeout(7);
    assert_eq!(wikipedia.topics, strings(&["Rust"]));
    assert_eq!(wikipedia.request_timeout_secs, 7);

    let lyrics = LyricsScraper::new("token".to_string(), strings(&["A", "B"]), Some(3));
    assert_eq!(lyrics.api_token, "token");
    assert_eq!(lyrics.artists, strings(&["A", "B"]));
    assert_eq!(lyrics.max_songs_per_artist, Some(3));
    assert_eq!(lyrics.request_timeout_secs, 30);
    let lyrics = lyrics.with_request_timeout(9);
    assert_eq!(lyrics.max_songs_per_artist, Some(3));
    assert_eq!(lyrics.request_timeout_secs, 9);
}

#[test]
fn missing_settings_take_their_defaults() {
    let basic = BasicScraper::from_settings(None, None, None);
    assert_eq!(basic.url, "");
    assert_eq!(basic.selector, "body");
    assert_eq!(basic.request_timeout_secs, 30);
    let basic = BasicScraper::from_settings(
        Some("https://example.com".to_string()),
        Some(String::new()),
        Some(12),
    );
    assert_eq!(basic.url, "https://example.com");
    assert_eq!(basic.selector, "body");
    assert_eq!(basic.request_timeout_secs, 12);
    let basic = BasicScraper::from_settings(None, Some("div.text".to_string()), None);
    assert_eq!(basic.selector, "div.text");

    let wikipedia = WikipediaScraper::from_settings(None, None);
    assert!(wikipedia.topics.is_empty());
    assert!(!wikipedia.has_topics());
    assert_eq!(wikipedia.request_timeout_secs, 30);
    let wikipedia = WikipediaScraper::from_settings(Some(strings(&["a", "b"])), Some(1));
    assert_eq!(wikipedia.topics, strings(&["a", "b"]));
    assert!(wikipedia.has_topics());
    assert_eq!(wikipedia.request_timeout_secs, 1);

    let lyrics = LyricsScraper::from_settings(None, None, None, None);
    assert_eq!(lyrics.api_token, "");
    assert!(lyrics.artists.is_empty());
    assert_eq!(lyrics.max_songs_per_artist, None);
    assert_eq!(lyrics.request_timeout_secs, 30);
    let lyrics =
        LyricsScraper::from_settings(Some("t".to_string()), Some(strings(&["x"])), Some(2), Some(3));
    assert_eq!(lyrics.api_token, "t");
    assert_eq!(lyrics.artists, strings(&["x"]));
    assert_eq!(lyrics.max_songs_per_artist, Some(2));
    assert_eq!(lyrics.request_timeout_secs, 3);
}

#[test]
fn page_size_limit_is_ten_mebibytes() {
    assert_eq!(MAX_HTML_SIZE_BYTES, 10 * 1024 * 1024);
    assert!(!BasicScraper::is_too_large(0));
    assert!(!BasicScraper::is_too_large(10 * 1024 * 1024));
    assert!(BasicScraper::is_too_large(10 * 1024 * 1024 + 1));
}

#[test]
fn page_text_joins_nodes_and_skips_blank_elements() {
    let elements = vec![
        strings(&["Call me", "Ishmael."]),
        strings(&["  ", "\n"]),
        strings(&[]),
        strings(&["Some years ago"]),
    ];
    assert_eq!(
        BasicScraper::page_text(&elements),
        Some("Call me Ishmael.\nSome years ago\n".to_string())
    );
    assert_eq!(BasicScraper::page_text(&vec![strings(&[" ", "\t"])]), None);
    assert_eq!(BasicScraper::page_text(&Vec::new()), None);
}

#[test]
fn lists_are_cut_at_commas_and_trimmed() {
    assert_eq!(parse_list("Rust, Ada ,  ,C\n"), strings(&["Rust", "Ada", "C"]));
    assert_eq!(parse_list("one"), strings(&["one"]));
    assert_eq!(parse_list("a b , c d"), strings(&["a b", "c d"]));
    assert!(parse_list("").is_empty());
    assert!(parse_list(" , ,\t,").is_empty());
    assert_eq!(parse_list(",x,"), strings(&["x"]));
}

#[test]
fn texts_are_joined_and_combined() {
    assert_eq!(join_texts(&strings(&["a", "b", "c"]), ", "), "a, b, c");
    assert_eq!(join_texts(&strings(&["a"]), ", "), "a");
    assert_eq!(join_texts(&strings(&[]), ", "), "");
    assert_eq!(join_texts(&strings(&["", ""]), "-"), "-");
    assert_eq!(combine_texts(&strings(&["one", "two"])), Some("one\n\ntwo".to_string()));
    assert_eq!(combine_texts(&strings(&["one"])), Some("one".to_string()));
    assert_eq!(combine_texts(&strings(&[])), None);
    assert_eq!(titled_text("Title", "Body"), "# Title\n\nBody");
    assert!(text_is_blank(""));
    assert!(text_is_blank(" \t\n\u{3000}"));
    assert!(!text_is_blank(" x "));
}

#[test]
fn summary_takes_the_title_or_the_topic() {
    assert_eq!(
        WikipediaScraper::summary_text(Some("Rust (language)"), "Rust", "A language."),
        "# Rust (language)\n\nA language."
    );
    assert_eq!(
        WikipediaScraper::summary_text(None, "Rust", "A language."),
        "# Rust\n\nA language."
    );
}

#[test]
fn artist_is_found_by_name_without_regard_to_case() {
    let hit = |name: Option<&str>, id: Option<u64>| ArtistHit {
        name: name.map(String::from),
        id,
    };
    let hits = vec![
        hit(Some("Someone Else"), Some(1)),
        hit(None, Some(2)),
        hit(Some("THE BAND"), Some(3)),
        hit(Some("The Band"), Some(4)),
    ];
    assert_eq!(LyricsScraper::find_artist(&hits, "the band"), ArtistSearch::Found(3));
    assert_eq!(LyricsScraper::find_artist(&hits, "someone else"), ArtistSearch::Found(1));
    assert_eq!(LyricsScraper::find_artist(&hits, "nobody"), ArtistSearch::NotFound);
    assert_eq!(LyricsScraper::find_artist(&Vec::new(), "the band"), ArtistSearch::NotFound);
    let hits = vec![hit(Some("The Band"), None), hit(Some("The Band"), Some(4))];
    assert_eq!(LyricsScraper::find_artist(&hits, "The Band"), ArtistSearch::WithoutId);
}

#[test]
fn pages_are_added_until_one_is_empty() {
    let scraper = LyricsScraper::new(String::new(), Vec::new(), None);
    let mut collected = Vec::new();
    assert!(scraper.add_page(&mut collected, 2, vec![song("a"), song("b")]));
    assert!(scraper.add_page(&mut collected, 3, vec![song("c")]));
    assert!(scraper.add_page(&mut collected, 1, vec![]));
    assert!(!scraper.add_page(&mut collected, 0, vec![]));
    assert_eq!(collected, vec![song("a"), song("b"), song("c")]);
    // An empty page ends the reading whatever comes with it.
    assert!(!scraper.add_page(&mut collected, 0, vec![song("d")]));
    assert_eq!(collected, vec![song("a"), song("b"), song("c")]);
}

#[test]
fn pages_are_added_until_the_limit_is_reached() {
    let scraper = LyricsScraper::new(String::new(), Vec::new(), Some(3));
    let mut collected = Vec::new();
    assert!(scraper.add_page(&mut collected, 2, vec![song("a"), song("b")]));
    assert!(!scraper.add_page(&mut collected, 2, vec![song("c"), song("d")]));
    assert_eq!(collected, vec![song("a"), song("b"), song("c")]);

    let scraper = LyricsScraper::new(String::new(), Vec::new(), Some(2));
    let mut collected = Vec::new();
    assert!(!scraper.add_page(&mut collected, 2, vec![song("a"), song("b")]));
    assert_eq!(collected, vec![song("a"), song("b")]);

    let scraper = LyricsScraper::new(String::new(), Vec::new(), Some(0));
    let mut collected = Vec::new();
    assert!(!scraper.add_page(&mut collected, 1, vec![song("a")]));
    assert!(collected.is_empty());
}

#[test]
fn lyrics_are_the_nodes_of_each_element_and_a_line_break() {
    let elements = vec![strings(&["La ", "la"]), strings(&[]), strings(&["la"])];
    assert_eq!(
        LyricsScraper::lyrics_text(&elements),
        Some("La la\n\nla\n".to_string())
    );
    assert_eq!(LyricsScraper::lyrics_text(&Vec::new()), None);
    assert_eq!(
        LyricsScraper::song_text("Artist", "Title", "La la\n"),
        "# Artist - Title\n\nLa la\n"
    );
}

#[test]
fn numbers_are_written_to_the_base_ten() {
    assert_eq!(decimal_text(0), "0");
    assert_eq!(decimal_text(7), "7");
    assert_eq!(decimal_text(10), "10");
    assert_eq!(decimal_text(1234567890), "1234567890");
    assert_eq!(decimal_text(u64::MAX), "18446744073709551615");
    for n in [9u64, 11, 99, 100, 101, 4096, 999_999, 1_000_000] {
        assert_eq!(decimal_text(n), n.to_string());
    }
}

#[test]
fn addresses_hold_their_parts_percent_encoded() {
    assert_eq!(
        WikipediaScraper::summary_address("Rust_(programming_language)"),
        "https://en.wikipedia.org/api/rest_v1/page/summary/Rust_%28programming_language%29"
    );
    assert_eq!(
        WikipediaScraper::summary_address("Émile Zola/~x-y.z"),
        "https://en.wikipedia.org/api/rest_v1/page/summary/%C3%89mile%20Zola%2F~x-y.z"
    );
    assert_eq!(
        WikipediaScraper::summary_address(""),
        "https://en.wikipedia.org/api/rest_v1/page/summary/"
    );
    assert_eq!(
        LyricsScraper::search_address("AC/DC & co"),
        "https://api.genius.com/search?q=AC%2FDC%20%26%20co"
    );
    assert_eq!(SONGS_PER_PAGE, 50);
    assert_eq!(
        LyricsScraper::songs_address(1421, 3),
        "https://api.genius.com/artists/1421/songs?per_page=50&page=3"
    );
    let scraper = LyricsScraper::new("abc123".to_string(), Vec::new(), None);
    assert_eq!(scraper.authorization(), "Bearer abc123");
}
