use anime4you::host::Host;
use anime4you::links::{extract_direct, extract_hashes, order_links};

#[test]
fn host_from_domain() {
    assert_eq!(Host::get_from_name("https://vivo.sx/abcdef"), Host::Vivo);
    assert_eq!(Host::get_from_name("https://gounlimited.to/xyz"), Host::GoUnlimited);
    assert_eq!(Host::get_from_name("https://vidoza.net/v/1"), Host::Vidoza);
    assert_eq!(Host::get_from_name("https://example.com/a"), Host::Unknown);
    assert_eq!(Host::get_from_name("ftp://vivo.sx/abc"), Host::Unknown);
    assert_eq!(Host::get_from_name("https://vivo.sx"), Host::Unknown);
}

#[test]
fn priorities_come_from_the_table() {
    assert_eq!(Host::Vidoza.priority(), 3);
    assert_eq!(Host::Vivo.priority(), 2);
    assert_eq!(Host::GoUnlimited.priority(), 1);
    assert_eq!(Host::Unknown.priority(), 0);
}

#[test]
fn ordering_is_by_priority_then_discovery() {
    let urls = vec![
        "https://example.com/a".to_string(),
        "https://vivo.sx/b".to_string(),
        "https://gounlimited.to/c".to_string(),
    ];
    let ordered = order_links(&urls);
    let got: Vec<&str> = ordered.iter().map(|l| l.url.as_str()).collect();
    assert_eq!(
        got,
        vec!["https://vivo.sx/b", "https://gounlimited.to/c", "https://example.com/a"]
    );
    assert_eq!(ordered[0].host_priority, 2);
    assert_eq!(ordered[2].host_priority, 0);
}

#[test]
fn ordering_is_stable_on_ties() {
    let urls = vec![
        "https://example.com/first".to_string(),
        "https://example.com/second".to_string(),
        "https://vidoza.net/v".to_string(),
        "https://example.com/third".to_string(),
    ];
    let ordered = order_links(&urls);
    let got: Vec<&str> = ordered.iter().map(|l| l.url.as_str()).collect();
    assert_eq!(
        got,
        vec![
            "https://vidoza.net/v",
            "https://example.com/first",
            "https://example.com/second",
            "https://example.com/third"
        ]
    );
}

#[test]
fn direct_link_is_captured() {
    let payload = "<html><button href='https://vivo.sx/abc' data-src='x'>go</button></html>";
    assert_eq!(extract_direct(payload).unwrap(), "https://vivo.sx/abc");
    assert_eq!(extract_direct("<html>nothing here</html>"), None);
}

#[test]
fn hashes_are_captured_in_order() {
    let payload = "<button data-src='hashA' class='x'></button>\
        <button data-src='hashB' class='y'></button>";
    assert_eq!(extract_hashes(payload), vec!["hashA", "hashB"]);
    assert_eq!(extract_hashes("<p>none</p>"), Vec::<String>::new());
}
