use davis::ansi::Style;
use davis::now_playing::{classical_work_description, header, popular_music_title};
use davis::config::{lookup_mpd_host, mpd_host, parse_hosts, parse_tags, read_config, Config, ConfigError, Host};
use davis::queue::QueueRow;
use davis::status::{bool_on_off, duration_format, table_row};
use davis::tags::Tags;
use davis::text::{split, trim_path};

fn pairs(items: &[(&str, &str)]) -> Vec<(String, String)> {
    items.iter().map(|(k, v)| (k.to_string(), v.to_string())).collect()
}

#[test]
fn tags_match_without_case_and_sort() {
    let tags = Tags::from_tags(
        pairs(&[("Artist", "b"), ("title", "t"), ("ARTIST", "a"), ("artist", "b")]),
        pairs(&[("artist", "raw")]),
    );
    assert_eq!(tags.get("artist"), vec!["a", "b"]);
    assert_eq!(tags.get_option("Title"), Some(vec!["t"]));
    assert_eq!(tags.get_option_joined("ARTIST"), Some("a, b".to_string()));
}

#[test]
fn tags_fall_back_to_raw_comments() {
    let tags = Tags::from_tags(pairs(&[("title", "t")]), pairs(&[("WORK", "w2"), ("work", "w1")]));
    assert_eq!(tags.get("Work"), vec!["w1", "w2"]);
    assert_eq!(tags.get_option("composer"), None);
    assert_eq!(tags.get_option_joined("composer"), None);
    assert!(tags.get("composer").is_empty());
}

fn host(label: &str, address: &str) -> Host {
    Host { host: address.to_string(), label: label.to_string() }
}

#[test]
fn default_host_choice() {
    let mut conf = Config::default();
    assert_eq!(conf.default_mpd_host(), "127.0.0.1");
    assert_eq!(conf.tags.len(), 7);
    assert_eq!(conf.tags[0].tag, "Composer");
    conf.hosts = vec![host("a", "10.0.0.1"), host("default", "10.0.0.2")];
    assert_eq!(conf.default_mpd_host(), "10.0.0.2");
    conf.hosts = vec![host("a", "10.0.0.1"), host("b", "10.0.0.2")];
    assert_eq!(conf.default_mpd_host(), "10.0.0.1");
}

#[test]
fn host_lookup_by_label() {
    let mut conf = Config::default();
    conf.hosts = vec![host("home", "192.168.1.2")];
    assert_eq!(lookup_mpd_host("home", &conf), "192.168.1.2");
    assert_eq!(lookup_mpd_host("example.org", &conf), "example.org");
    assert_eq!(mpd_host(Some("home"), Some("x"), &conf), "192.168.1.2");
    assert_eq!(mpd_host(None, Some("x"), &conf), "x");
    assert_eq!(mpd_host(None, None, &conf), "192.168.1.2");
}

#[test]
fn hosts_section() {
    let section = vec![("a".to_string(), Some("1.2.3.4".to_string())), ("b".to_string(), None)];
    match parse_hosts(&section) {
        Err(ConfigError::MissingHostname(label)) => assert_eq!(label, "b"),
        _ => panic!("expected a missing hostname"),
    }
    let hosts = parse_hosts(&section[..1].to_vec()).ok().unwrap();
    assert_eq!(hosts.len(), 1);
    assert_eq!(hosts[0].label, "a");
    assert_eq!(hosts[0].host, "1.2.3.4");
    assert_eq!(ConfigError::MissingHostname("b".to_string()).message(), "Missing hostname for host b.");
}

#[test]
fn tags_section() {
    let section = vec![
        ("enabled".to_string(), Some("Composer,Work".to_string())),
        ("Work".to_string(), Some("Opus".to_string())),
    ];
    let tags = parse_tags(&section).unwrap();
    assert_eq!(tags.len(), 2);
    assert_eq!(tags[0].tag, "Composer");
    assert_eq!(tags[0].label, None);
    assert_eq!(tags[1].tag, "Work");
    assert_eq!(tags[1].label, Some("Opus".to_string()));
    assert!(parse_tags(&vec![("Work".to_string(), None)]).is_none());
}

#[test]
fn config_text() {
    let conf = read_config("[hosts]\nhome = 10.1.1.1\n[tags]\nenabled = Title,Album\nAlbum = Record\n")
        .ok()
        .unwrap();
    assert_eq!(conf.hosts.len(), 1);
    assert_eq!(conf.hosts[0].label, "home");
    assert_eq!(conf.hosts[0].host, "10.1.1.1");
    assert_eq!(conf.tags.len(), 2);
    assert_eq!(conf.tags[1].label, Some("Record".to_string()));
    let conf = read_config("").ok().unwrap();
    assert!(conf.hosts.is_empty());
    assert_eq!(conf.tags.len(), 7);
    assert!(matches!(read_config("[hosts\n"), Err(ConfigError::Syntax(_))));
    assert!(matches!(read_config("[hosts]\nnowhere\n"), Err(ConfigError::MissingHostname(_))));
}

#[test]
fn status_pieces() {
    assert_eq!(bool_on_off(true), "on");
    assert_eq!(bool_on_off(false), "off");
    assert_eq!(duration_format(125), "02:05");
    assert_eq!(duration_format(0), "00:00");
    assert_eq!(duration_format(6000), "100:00");
    let row = table_row("Volume", "50%");
    assert_eq!(row.fields.len(), 2);
    assert_eq!(row.fields[0].string, "Volume");
    assert_eq!(row.fields[0].style, Some(Style::Bold));
    assert_eq!(row.fields[1].style, None);
}

#[test]
fn queue_row_styles() {
    let row = QueueRow { is_current: true, fields: vec!["1".to_string(), "Song".to_string()] };
    let table_row = row.to_table_row();
    assert_eq!(table_row.fields.len(), 2);
    assert_eq!(table_row.fields[1].string, "Song");
    assert_eq!(table_row.fields[1].style, Some(Style::Bold));
    let row = QueueRow { is_current: false, fields: vec!["2".to_string()] };
    assert_eq!(row.to_table_row().fields[0].style, Some(Style::Default));
}

#[test]
fn text_helpers() {
    assert_eq!(trim_path("music/album//"), "music/album");
    assert_eq!(trim_path("///"), "");
    assert_eq!(trim_path("a"), "a");
    assert_eq!(split("a,b,,c", ','), vec!["a", "b", "", "c"]);
    assert_eq!(split("", ','), vec![""]);
}

#[test]
fn joined_tags_need_every_value() {
    let tags = Tags::from_tags(pairs(&[("album", "A"), ("artist", "X"), ("artist", "W")]), vec![]);
    assert_eq!(tags.joined(&["album", "artist"], " - "), Some("A - W, X".to_string()));
    assert_eq!(tags.joined(&["album", "albumartist"], " - "), None);
    assert_eq!(tags.joined(&[], " - "), Some(String::new()));
}

#[test]
fn now_playing_headings() {
    let classical = Tags::from_tags(
        pairs(&[("composer", "Bach"), ("work", "Mass"), ("movementnumber", "1"), ("movement", "Kyrie")]),
        vec![],
    );
    assert_eq!(classical_work_description(&classical, true), Some("Bach\nMass\n1. Kyrie".to_string()));
    assert_eq!(
        classical_work_description(&classical, false),
        Some("\x1B[1mBach\x1B[0m\n\x1B[1mMass\x1B[0m\n\x1B[1m1. Kyrie\x1B[0m".to_string())
    );
    let titled = Tags::from_tags(pairs(&[("composer", "Bach"), ("work", "Mass"), ("title", "Gloria")]), vec![]);
    assert_eq!(classical_work_description(&titled, true), Some("Bach\nMass\nGloria".to_string()));
    let plain = Tags::from_tags(pairs(&[("title", "Song")]), vec![]);
    assert_eq!(classical_work_description(&plain, true), None);
    assert_eq!(popular_music_title(Some("Artist"), Some("Song"), true), Some("Artist\nSong".to_string()));
    assert_eq!(popular_music_title(None, Some("Song"), true), None);
    assert_eq!(header(&plain, Some("Artist"), Some("Song"), "f.flac", true), "Artist\nSong");
    assert_eq!(header(&plain, None, Some("Song"), "f.flac", true), "f.flac");
    assert_eq!(header(&classical, Some("Artist"), Some("Song"), "f.flac", true), "Bach\nMass\n1. Kyrie");
}
