use anime4you::series::{matches_series, Language, Series, Synchronization};

#[test]
fn language_names() {
    assert_eq!(Language::German.get_name(), "gerdub");
    assert_eq!(Language::JapaneseWithGermanSubtitles.get_name(), "gersub");
    assert_eq!(Language::Other("engsub".to_string()).get_name(), "engsub");
    assert_eq!(Synchronization::German.get_name(), "gerdub");
    assert_eq!(Synchronization::Japanese.get_name(), "gersub");
    assert_eq!(Synchronization::Other("x".to_string()).get_name(), "x");
}

#[test]
fn page_parse_counts_episodes_and_reads_headings() {
    let page = "<html><h3 class=\"cpfont6\">Older Title</h3>\
        <h3 class=\"cpfont6\">Cat Adventures</h3>\
        <a href=\"/show/1/aid/77/epi/1/\">1</a>\
        <a href=\"/show/1/aid/77/epi/2/\">2</a>\
        <a href=\"/show/1/aid/77/epi/\">broken</a>\
        <h5 class=\"cpfont6 pt-3\">GerSub&nbsp;</h5></html>";
    let s = Series::parse_page(77, page);
    assert_eq!(s.id, 77);
    assert_eq!(s.episodes, 2);
    assert_eq!(s.title, "Cat Adventures");
    assert!(matches!(s.language, Language::JapaneseWithGermanSubtitles));
}

#[test]
fn page_parse_defaults() {
    let s = Series::parse_page(5, "<html>empty</html>");
    assert_eq!(s.episodes, 0);
    assert_eq!(s.title, "");
    match s.language {
        Language::Other(o) => assert_eq!(o, "unknown"),
        _ => panic!("expected unknown synchronisation"),
    }
}

#[test]
fn page_parse_reads_gerdub() {
    let page = "<h5 class=\"cpfont6 pt-3\">GerDub&nbsp;</h5>";
    let s = Series::parse_page(1, page);
    assert!(matches!(s.language, Language::German));
}

#[test]
fn title_match_is_case_insensitive_containment() {
    assert!(matches_series("Cat Adventures Returns", "cat adventures"));
    assert!(matches_series("CAT ADVENTURES", "cat"));
    assert!(!matches_series("Dog Days", "cat"));
}

#[test]
fn listing_search_finds_the_series() {
    let listing = "[{\"titel\":\"Dog Days\",\"Untertitel\":\"gersub\",\"aid\":\"11\",\"Folgen\":\"12\"},\
          {\"titel\":\"Cat Adventures\",\"Untertitel\":\"gerdub\",\"aid\":\"22\",\"Folgen\":\"3\"},\
          {\"titel\":\"Cat Adventures\",\"Untertitel\":\"gersub\",\"aid\":\"33\",\"Folgen\":\"24\"}]";
    let s = Series::find_in_listing(
        listing,
        "cat adventures",
        &Language::JapaneseWithGermanSubtitles,
    )
    .unwrap();
    assert_eq!(s.id, 33);
    assert_eq!(s.title, "Cat Adventures");
    assert_eq!(s.episodes, 24);
    assert!(matches!(s.language, Language::JapaneseWithGermanSubtitles));
}

#[test]
fn listing_search_takes_the_first_match() {
    let listing = "[{\"titel\":\"Cat A\",\"Untertitel\":\"gerdub\",\"aid\":\"1\",\"Folgen\":\"2\"},\
          {\"titel\":\"Cat B\",\"Untertitel\":\"gerdub\",\"aid\":\"5\",\"Folgen\":\"6\"}]";
    let s = Series::find_in_listing(listing, "cat", &Language::German).unwrap();
    assert_eq!(s.id, 1);
    assert_eq!(s.title, "Cat A");
}

#[test]
fn listing_search_reports_misses_and_bad_shapes() {
    let listing = "[{\"titel\":\"Dog Days\",\"Untertitel\":\"gersub\",\"aid\":\"11\",\"Folgen\":\"12\"}]";
    assert!(Series::find_in_listing(listing, "cat", &Language::German).is_err());

    assert!(Series::find_in_listing("{\"a\":1}", "cat", &Language::German).is_err());
    assert!(Series::find_in_listing("not json", "cat", &Language::German).is_err());

    let bad_aid = "[{\"titel\":\"Cat\",\"Untertitel\":\"gerdub\",\"aid\":\"abc\",\"Folgen\":\"1\"}]";
    let err = Series::find_in_listing(bad_aid, "cat", &Language::German).unwrap_err();
    assert!(err.message().contains("aid"));

    let no_title = "[{\"Untertitel\":\"gerdub\",\"aid\":\"1\",\"Folgen\":\"2\"}]";
    let err2 = Series::find_in_listing(no_title, "cat", &Language::German).unwrap_err();
    assert!(err2.message().contains("titel"));
}
