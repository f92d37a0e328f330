use musidex_daemon::title::{guess_title, has_official_marker};

#[test]
fn test_official_remover_regex() {
    let should_match = &[
        "(Official)",
        "[Official]",
        "[Official - Video]",
        "(Video)",
        "[HQ]",
        "[HQ - Video]",
        "(official video)",
        "(official - video)",
    ];

    let should_not_match = &[
        "",
        "official",
        "official video",
        " - ",
        "(official",
        "official)",
        "Video",
        "(ft. Lil B)",
        "(homer)",
    ];

    for v in should_match {
        assert!(has_official_marker(v), "should match: {}", v);
    }

    for v in should_not_match {
        assert!(!has_official_marker(v), "should not match: {}", v);
    }
}

#[test]
fn test_artist_split() {
    let should_split = &[
        (
            "Jamiroquai - Virtual Insanity (Official Video)",
            "Jamiroquai",
            "Virtual Insanity",
        ),
        (
            "Earth, Wind & Fire - September (Official Video)",
            "Earth, Wind & Fire",
            "September",
        ),
        (
            "Breakbot - Baby I'm Yours (feat. Irfane) [Official Video]",
            "Breakbot",
            "Baby I'm Yours (feat. Irfane)",
        ),
        (" a - b ", "a", "b"),
        ("a - b", "a", "b"),
        (" a - b - c ", "a", "b - c"),
    ];

    let should_not_split = &[
        "Baby I'm Yours (feat. Irfane)",
        "Mr. Blue. Sky",
        "a -",
        "-",
        "a-a",
        "a -ba",
        "a- ba",
        "Princess Mononoke Suite「03. TA-TA-RI-GAMI (The Demon God)」",
        "",
    ];

    for (title, artist, track) in should_split {
        let (gtrack, gartist) = guess_title(title);
        assert_eq!(&*gtrack, *track);
        assert_eq!(&*gartist.unwrap(), *artist);
    }

    for v in should_not_split {
        let (gtrack, gartist) = guess_title(v);
        assert!(gartist.is_none());
        assert_eq!(&*gtrack, *v);
    }
}

#[test]
fn test_marker_stripped_inside_title() {
    let (track, artist) = guess_title("Daft Punk - One More Time (Official Video) ");
    assert_eq!(track, "One More Time");
    assert_eq!(artist.as_deref(), Some("Daft Punk"));
}
