use dotsync::config::{config_file_path, destination_entry, parse_destination};

#[test]
fn config_path_under_home() {
    assert_eq!(config_file_path(Some("/home/u".to_string())), Some("/home/u/.config/dotsync/config.toml".to_string()));
    assert_eq!(config_file_path(None), None);
}

#[test]
fn destination_parsing() {
    assert_eq!(parse_destination("destination = \"/home/u/dots\"\n"), Some("/home/u/dots".to_string()));
    assert_eq!(parse_destination("# c\n\n  destination=/x  \n"), Some("/x".to_string()));
    assert_eq!(parse_destination("destination = \"\"\ndestination = \"/y\""), Some("/y".to_string()));
    assert_eq!(parse_destination("destination /z"), None);
    assert_eq!(parse_destination("dest = \"/z\""), None);
    assert_eq!(parse_destination("#destination = \"/z\""), None);
    assert_eq!(parse_destination(""), None);
    assert_eq!(parse_destination("destinationx = \"/q\""), None);
}

#[test]
fn written_destination_reads_back() {
    for d in ["/home/u/dotfiles", "/a b/c", "rel/path"] {
        let text = destination_entry(d);
        assert_eq!(text, format!("destination = \"{d}\"\n"));
        assert_eq!(parse_destination(&text), Some(d.to_string()));
    }
}
