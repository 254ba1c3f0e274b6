use roku_remote::control::{
    apps_request, launch_app, send_command, send_key, Command, Delivery, Method, Outcome, Policy,
    Request,
};

const ADDR: &str = "192.168.1.5:8060";

fn urls(requests: &[Request]) -> Vec<String> {
    requests.iter().map(|r| r.url.clone()).collect()
}

/// Carries out a delivery with the given outcomes and returns the URLs in
/// the order in which they were handed out.
fn carry_out(d: &mut Delivery, outcomes: &[Outcome]) -> Vec<String> {
    let mut sent = Vec::new();
    let mut k = 0;
    loop {
        let url = match d.current() {
            Some(r) => {
                assert_eq!(r.method, Method::Post);
                r.url.clone()
            },
            None => break,
        };
        sent.push(url);
        let outcome = if k < outcomes.len() { outcomes[k] } else { Outcome::Delivered };
        d.report(outcome);
        k += 1;
    }
    sent
}

#[test]
fn command_is_one_post_to_keypress() {
    let r = send_command(ADDR, Command::VolumeUp);
    assert_eq!(r.method, Method::Post);
    assert_eq!(r.url, "http://192.168.1.5:8060/keypress/VolumeUp");
}

#[test]
fn launch_is_one_post_to_launch() {
    let r = launch_app(ADDR, "2285");
    assert_eq!(r.method, Method::Post);
    assert_eq!(r.url, "http://192.168.1.5:8060/launch/2285");
}

#[test]
fn catalog_query_is_a_get() {
    let r = apps_request(ADDR);
    assert_eq!(r.method, Method::Get);
    assert_eq!(r.url, "http://192.168.1.5:8060/query/apps");
}

#[test]
fn every_command_has_its_word() {
    let table = [
        (Command::Power, "Power"),
        (Command::PowerOn, "Poweron"),
        (Command::PowerOff, "Poweroff"),
        (Command::Home, "Home"),
        (Command::Info, "Info"),
        (Command::Back, "Back"),
        (Command::Up, "Up"),
        (Command::Left, "Left"),
        (Command::Select, "Select"),
        (Command::Right, "Right"),
        (Command::Down, "Down"),
        (Command::Play, "Play"),
        (Command::VolumeUp, "VolumeUp"),
        (Command::VolumeDown, "VolumeDown"),
        (Command::VolumeMute, "VolumeMute"),
        (Command::ChannelUp, "Channel_up"),
        (Command::ChannelDown, "Channel_down"),
        (Command::Search, "Search"),
        (Command::Enter, "Enter"),
        (Command::Backspace, "Backspace"),
        (Command::FindRemote, "Find_remote"),
        (Command::Replay, "Replay"),
        (Command::Reverse, "Reverse"),
        (Command::Forward, "Forward"),
    ];
    for (command, word) in table {
        assert_eq!(command.as_str(), word);
        assert_eq!(Command::parse(word), Some(command));
        assert_eq!(send_command("h:1", command).url, format!("http://h:1/keypress/{}", word));
    }
}

#[test]
fn words_outside_the_vocabulary_name_no_command() {
    for word in ["", " ", "power", "POWER", "Power ", "Lit_a", "VolumeUp\n", "Channel_Up", "Pow"] {
        assert_eq!(Command::parse(word), None, "{:?}", word);
    }
}

#[test]
fn text_is_sent_one_character_at_a_time() {
    let requests = send_key(ADDR, "hi there");
    assert_eq!(requests.len(), 8);
    let expected: Vec<String> =
        ["Lit_h", "Lit_i", "Lit_%20", "Lit_t", "Lit_h", "Lit_e", "Lit_r", "Lit_e"]
            .iter()
            .map(|k| format!("http://192.168.1.5:8060/keypress/{}", k))
            .collect();
    assert_eq!(urls(&requests), expected);
    for r in &requests {
        assert_eq!(r.method, Method::Post);
    }
}

#[test]
fn only_the_space_is_written_otherwise() {
    let requests = send_key("h:1", " a%é/\t☕&");
    assert_eq!(
        urls(&requests),
        vec![
            "http://h:1/keypress/Lit_%20",
            "http://h:1/keypress/Lit_a",
            "http://h:1/keypress/Lit_%",
            "http://h:1/keypress/Lit_é",
            "http://h:1/keypress/Lit_/",
            "http://h:1/keypress/Lit_\t",
            "http://h:1/keypress/Lit_☕",
            "http://h:1/keypress/Lit_&",
        ]
    );
}

#[test]
fn empty_text_sends_nothing() {
    assert!(send_key(ADDR, "").is_empty());
    let mut d = Delivery::new(send_key(ADDR, ""), Policy::Lenient);
    assert!(d.finished());
    assert!(d.current().is_none());
    d.report(Outcome::Failed);
    assert_eq!(d.attempted(), 0);
    assert_eq!(d.failures(), 0);
}

#[test]
fn delivery_hands_out_the_requests_in_order() {
    let mut d = Delivery::new(send_key(ADDR, "hi there"), Policy::Lenient);
    let sent = carry_out(&mut d, &[]);
    assert_eq!(sent, urls(&send_key(ADDR, "hi there")));
    assert_eq!(d.attempted(), 8);
    assert_eq!(d.failures(), 0);
    assert!(d.finished());
}

#[test]
fn a_failure_does_not_stop_a_lenient_delivery() {
    let mut d = Delivery::new(send_key(ADDR, "hi there"), Policy::Lenient);
    let outcomes = [Outcome::Delivered, Outcome::Delivered, Outcome::Failed];
    let sent = carry_out(&mut d, &outcomes);
    assert_eq!(sent.len(), 8);
    assert_eq!(sent, urls(&send_key(ADDR, "hi there")));
    assert_eq!(d.attempted(), 8);
    assert_eq!(d.failures(), 1);
}

#[test]
fn a_lenient_delivery_goes_on_when_everything_fails() {
    let mut d = Delivery::new(send_key(ADDR, "abc"), Policy::Lenient);
    let sent = carry_out(&mut d, &[Outcome::Failed, Outcome::Failed, Outcome::Failed]);
    assert_eq!(sent.len(), 3);
    assert_eq!(d.attempted(), 3);
    assert_eq!(d.failures(), 3);
    assert!(d.finished());
}

#[test]
fn a_failure_stops_a_strict_delivery() {
    let mut d = Delivery::new(send_key(ADDR, "hi there"), Policy::Strict);
    let outcomes = [Outcome::Delivered, Outcome::Delivered, Outcome::Failed];
    let sent = carry_out(&mut d, &outcomes);
    assert_eq!(sent, urls(&send_key(ADDR, "hi "))[..].to_vec());
    assert_eq!(d.attempted(), 3);
    assert_eq!(d.failures(), 1);
    assert!(d.finished());
    assert!(d.current().is_none());
}

#[test]
fn the_pending_request_stays_until_it_is_reported() {
    let d = Delivery::new(vec![send_command(ADDR, Command::Home)], Policy::Lenient);
    assert_eq!(d.current().map(|r| r.url.clone()), Some("http://192.168.1.5:8060/keypress/Home".to_string()));
    assert_eq!(d.current().map(|r| r.url.clone()), Some("http://192.168.1.5:8060/keypress/Home".to_string()));
    assert!(!d.finished());
    assert_eq!(d.attempted(), 0);
}

#[test]
fn a_single_command_is_a_delivery_of_one() {
    let mut d = Delivery::new(vec![launch_app(ADDR, "2285")], Policy::Lenient);
    let sent = carry_out(&mut d, &[Outcome::Failed]);
    assert_eq!(sent, vec!["http://192.168.1.5:8060/launch/2285".to_string()]);
    assert_eq!(d.attempted(), 1);
    assert_eq!(d.failures(), 1);
}

#[test]
fn the_customary_policy_is_lenient() {
    assert_eq!(Policy::default(), Policy::Lenient);
    let mut d = Delivery::new(send_key(ADDR, "ab"), Policy::default());
    let sent = carry_out(&mut d, &[Outcome::Failed]);
    assert_eq!(sent.len(), 2);
}
