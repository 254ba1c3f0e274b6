use regex::Regex;
use roku_remote::catalog::{get_apps, name_of, parse_catalog, AppEntry, Fetched};

fn pairs(entries: &[AppEntry]) -> Vec<(String, String)> {
    entries.iter().map(|e| (e.id.clone(), e.name.clone())).collect()
}

fn pair(id: &str, name: &str) -> (String, String) {
    (id.to_string(), name.to_string())
}

/// The records as a regular expression finds them, the first of each
/// identifier only.
fn by_pattern(text: &str) -> Vec<(String, String)> {
    let re = Regex::new("<app[^>]*id=\"([^\"]+)\"[^>]*>(.*?)</app>").unwrap();
    let mut found: Vec<(String, String)> = Vec::new();
    for cap in re.captures_iter(text) {
        let id = cap[1].to_string();
        if !found.iter().any(|(known, _)| *known == id) {
            found.push((id, html_escape::decode_html_entities(&cap[2]).to_string()));
        }
    }
    found
}

#[test]
fn one_record_with_another_attribute_and_an_entity() {
    let body = "<app id=\"12345\" subtype=\"scrn\">Netflix &amp; Chill</app>";
    assert_eq!(pairs(&parse_catalog(body)), vec![pair("12345", "Netflix & Chill")]);
}

#[test]
fn no_record_gives_the_empty_catalog() {
    for body in ["", "<apps></apps>", "plain text", "<app>", "<app id=\"1\">", "</app>", "<app></app>"] {
        assert_eq!(pairs(&parse_catalog(body)), Vec::new(), "{:?}", body);
    }
}

#[test]
fn a_whole_document_is_read_in_order() {
    let body = "<?xml version=\"1.0\" encoding=\"UTF-8\" ?>\n<apps>\n\t<app id=\"31012\" type=\"menu\" version=\"1.9.40\">FandangoNOW Movies &amp; TV</app>\n\t<app id=\"12\" subtype=\"ndka\" type=\"appl\" version=\"4.1.218\">Netflix</app>\n\t<app id=\"2285\" type=\"appl\" version=\"6.50.1\">Hulu</app>\n\t<app id=\"tvinput.hdmi1\" type=\"tvin\" version=\"1.0.0\">Blu-ray &lt;HDMI 1&gt;</app>\n</apps>\n";
    assert_eq!(
        pairs(&parse_catalog(body)),
        vec![
            pair("31012", "FandangoNOW Movies & TV"),
            pair("12", "Netflix"),
            pair("2285", "Hulu"),
            pair("tvinput.hdmi1", "Blu-ray <HDMI 1>"),
        ]
    );
}

#[test]
fn identifier_is_taken_as_written() {
    let body = "<app id=\"a&amp;b c\">x</app>";
    assert_eq!(pairs(&parse_catalog(body)), vec![pair("a&amp;b c", "x")]);
}

#[test]
fn names_are_decoded() {
    let body = "<app id=\"1\">&lt;b&gt; &#65;&#x42; &quot;q&quot; &eacute; &unknown; &amp</app>";
    assert_eq!(pairs(&parse_catalog(body)), vec![pair("1", "<b> AB \"q\" é &unknown; &amp")]);
}

#[test]
fn empty_name_is_a_name() {
    assert_eq!(pairs(&parse_catalog("<app id=\"9\"></app>")), vec![pair("9", "")]);
}

#[test]
fn last_identifier_of_a_tag_is_the_one_read() {
    let body = "<app id=\"1\" id=\"2\">X</app>";
    assert_eq!(pairs(&parse_catalog(body)), vec![pair("2", "X")]);
}

#[test]
fn an_earlier_identifier_is_read_where_the_last_leads_nowhere() {
    let body = "<app id=\"1\" x=\"id=\">T</app>";
    assert_eq!(pairs(&parse_catalog(body)), vec![pair("1", "T")]);
}

#[test]
fn a_name_does_not_run_over_a_line_feed() {
    let body = "<app id=\"1\">A\nB</app><app id=\"2\">C\rD</app>";
    assert_eq!(pairs(&parse_catalog(body)), vec![pair("2", "C\rD")]);
}

#[test]
fn a_record_ends_at_the_first_closing_tag() {
    let body = "<app id=\"1\"><app id=\"2\">X</app> Y</app>";
    assert_eq!(pairs(&parse_catalog(body)), vec![pair("1", "<app id=\"2\">X")]);
}

#[test]
fn incomplete_records_are_left_out() {
    let body = "<app id=\"\">empty</app><app id=\"3>no quote</app><app x>no id</app><app id=\"4\">whole</app><app id=\"5\">open";
    assert_eq!(pairs(&parse_catalog(body)), by_pattern(body));
    assert_eq!(pairs(&parse_catalog("<app x>no id</app><app id=\"4\">whole</app><app id=\"5\">open")), vec![pair("4", "whole")]);
}

#[test]
fn a_repeated_identifier_is_kept_once() {
    let body = "<app id=\"7\">first</app><app id=\"8\">other</app><app id=\"7\">second</app>";
    let entries = parse_catalog(body);
    assert_eq!(pairs(&entries), vec![pair("7", "first"), pair("8", "other")]);
}

#[test]
fn identifiers_are_distinct_and_not_empty() {
    let body = "<app id=\"a\">1</app><app id=\"b\">2</app><app id=\"a\">3</app><app id=\"\">4</app><app id=\"c\">5</app><app id=\"b\">6</app>";
    let entries = parse_catalog(body);
    for (i, e) in entries.iter().enumerate() {
        assert!(!e.id.is_empty());
        for other in &entries[..i] {
            assert_ne!(other.id, e.id);
        }
    }
    assert_eq!(entries.len(), 3);
}

#[test]
fn scanner_agrees_with_the_pattern() {
    let bodies = [
        "",
        "<app id=\"12345\" subtype=\"scrn\">Netflix &amp; Chill</app>",
        "<apps><app id=\"12\" type=\"appl\" version=\"1.0\">Netflix</app><app id=\"13\">Prime &amp; Video</app></apps>",
        "<app id=\"1\" id=\"2\">X</app>",
        "<app subid=\"5\">Y</app>",
        "<app id=\"a>b\">Z</app>",
        "<app id=\"1\">A\nB</app><app id=\"2\">C</app>",
        "<app id=\"\">N</app>",
        "<app id=\"1\">A",
        "<app id=\"1\"><app id=\"2\">X</app>",
        "<apple id=\"3\">Pie</app>",
        "<app a=\"1>2\" id=\"7\">Q</app>",
        "<app id=\"1\" x=\"id=\">T</app>",
        "<app id=\"é1\">Café ☕ 𝄞</app>tail",
        "<app x>junk <app id=\"5\">K</app>",
        "<app <app id=\"1\">A</app>",
        "<app id=\"1\">a</app</app>",
        "<app id=\"1\"\n>multi\r</app>",
        "<app\nid=\"1\"\ntitle=\"t\">n</app>",
        "<app id=\"1\">x</app><app id=\"1\">y</app><app id=\"2\">z</app>",
        "<app id=\"1\" id=\"\">x</app>",
        "<app id=\"id=\"id=\"3\">x</app>",
        "<app id=\"1\">&#0;&#x110000;&#9;&bogus;&lt</app>",
        "<<app<app<app id=\"\"\"id=\"q\">></app></app>",
        "<app id=\"1\"></app><app id=\"2\"></app",
        "<APP id=\"1\">upper</APP><app ID=\"2\">upper id</app>",
        "<app id='1'>single</app><app id=\"2\" >space</app >",
        "<app id=\"1\">a</app>\n<app id=\"2\">b\n</app>\n<app id=\"3\">c</app>",
        "<app id=\"1\">a<app id=\"2\">b\n</app><app id=\"3\">c</app>",
    ];
    for body in bodies {
        assert_eq!(pairs(&parse_catalog(body)), by_pattern(body), "{:?}", body);
    }
}

#[test]
fn scanner_agrees_with_the_pattern_on_mixed_pieces() {
    let pieces = ["<app", " id=\"", "7", "\"", ">", "n", "</app>", "\n", "id=\"", "<"];
    let mut state: u32 = 12345;
    for _ in 0..3000 {
        let mut body = String::new();
        let mut k = 0;
        while k < 12 {
            state = state.wrapping_mul(1103515245).wrapping_add(12345);
            body.push_str(pieces[((state >> 16) as usize) % pieces.len()]);
            k += 1;
        }
        assert_eq!(pairs(&parse_catalog(&body)), by_pattern(&body), "{:?}", body);
    }
}

#[test]
fn a_failed_query_gives_the_empty_catalog() {
    assert!(get_apps(&Fetched::Failed).is_empty());
    assert!(get_apps(&Fetched::NotText).is_empty());
    assert!(get_apps(&Fetched::Text(String::new())).is_empty());
}

#[test]
fn a_fetched_body_is_parsed() {
    let body = "<apps><app id=\"2285\" type=\"appl\">Hulu</app></apps>".to_string();
    assert_eq!(pairs(&get_apps(&Fetched::Text(body))), vec![pair("2285", "Hulu")]);
}

#[test]
fn name_is_looked_up_by_identifier() {
    let entries = parse_catalog("<app id=\"12\">Netflix</app><app id=\"2285\">Hulu</app>");
    assert_eq!(name_of(&entries, "2285"), Some("Hulu".to_string()));
    assert_eq!(name_of(&entries, "12"), Some("Netflix".to_string()));
    assert_eq!(name_of(&entries, "1"), None);
    assert_eq!(name_of(&entries, ""), None);
    assert_eq!(name_of(&Vec::new(), "12"), None);
}

#[test]
fn lookup_takes_the_first_entry_with_the_identifier() {
    let entries = vec![
        AppEntry { id: "1".to_string(), name: "one".to_string() },
        AppEntry { id: "1".to_string(), name: "uno".to_string() },
    ];
    assert_eq!(name_of(&entries, "1"), Some("one".to_string()));
}
