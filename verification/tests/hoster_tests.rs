use anime4you::host::Host;
use anime4you::hoster::{caesar, percent_decode, resolve_gounlimited, resolve_page, resolve_vidoza,
    resolve_vivo, rot47, Downloader};

#[test]
fn caesar_shifts_within_the_alphabet() {
    assert_eq!(caesar("abc", "abcdef", 2), "cde");
    assert_eq!(caesar("ef", "abcdef", 2), "ab");
    assert_eq!(caesar("a-z", "abcdef", 1), "b-z");
    assert_eq!(caesar("xyz", "", 5), "xyz");
}

#[test]
fn rot47_is_its_own_inverse() {
    let s = "https://node.example/video.mp4?k=v";
    assert_eq!(rot47(rot47(s).as_str()), s);
    assert_eq!(rot47("!"), "P");
    assert_eq!(rot47("~"), "O");
    assert_eq!(rot47(" spaces stay "), " DA246D DE2J ");
}

#[test]
fn percent_decode_replaces_hex_pairs() {
    assert_eq!(percent_decode(b"%41%42c"), b"ABc".to_vec());
    assert_eq!(percent_decode(b"a%2Fb"), b"a/b".to_vec());
    assert_eq!(percent_decode(b"a%2fb"), b"a/b".to_vec());
    assert_eq!(percent_decode(b"100%"), b"100%".to_vec());
    assert_eq!(percent_decode(b"%zz"), b"%zz".to_vec());
    assert_eq!(percent_decode(b""), Vec::<u8>::new());
}

fn percent_encode_all(s: &str) -> String {
    let mut out = String::new();
    for b in s.as_bytes() {
        out.push_str(&format!("%{:02X}", b));
    }
    out
}

#[test]
fn vivo_page_resolves_to_the_hidden_url() {
    let url = "https://node.vivo.sx/video/abcdef";
    let token = percent_encode_all(rot47(url).as_str());
    let page = format!(
        "<script>InitializeStream ( {{ source: '{}', }} )</script>\
        <div class=\"stream-content\" data-name=\"Episode 1.mp4\" data-x=\"y\">",
        token
    );
    let d = resolve_vivo(page.as_str()).unwrap();
    assert_eq!(d.video_url, url);
    assert_eq!(d.file_name, "Episode 1.mp4");
    assert_eq!(d.host, Host::Vivo);
    assert_eq!(d.get_extension(), "mp4");
}

#[test]
fn vivo_page_without_token_is_refused() {
    assert!(resolve_vivo("<html>nothing</html>").is_err());
    let page = "<script>InitializeStream ( { source: '', } )</script>\
        <div class=\"stream-content\" data-name=\"n.mp4\" data-x>";
    assert!(resolve_vivo(page).is_err());
}

#[test]
fn gounlimited_page_rebuilds_the_url() {
    let page = "<script>x|type|videoid77|fs12'</script>";
    let d = resolve_gounlimited(page).unwrap();
    assert_eq!(d.video_url, "https://fs12.gounlimited.to/videoid77/v.mp4");
    assert_eq!(d.file_name, "v.mp4");
    assert_eq!(d.host, Host::GoUnlimited);
    assert!(resolve_gounlimited("<p>no sources</p>").is_err());
}

#[test]
fn vidoza_page_reads_url_and_name() {
    let page = "var a; sourcesCode: [{ src: \"https://str.vidoza.net/abc.mp4\", type: \"video/mp4\"\
        ... var curFileName = \"Folge 3.mp4\"; ...";
    let d = resolve_vidoza(page).unwrap();
    assert_eq!(d.video_url, "https://str.vidoza.net/abc.mp4");
    assert_eq!(d.file_name, "Folge 3.mp4");
    assert_eq!(d.host, Host::Vidoza);
    assert!(resolve_vidoza("<p>empty</p>").is_err());
}

#[test]
fn resolve_page_dispatches_by_host() {
    let page = "<script>x|type|vid|fs1'</script>";
    let d = resolve_page(&Host::GoUnlimited, page).unwrap();
    assert_eq!(d.host, Host::GoUnlimited);
    assert!(resolve_page(&Host::Unknown, page).is_err());
}

#[test]
fn extension_is_the_last_dot_segment() {
    let d = Downloader {
        video_url: "u".to_string(),
        file_name: "a.b.mkv".to_string(),
        host: Host::Unknown,
    };
    assert_eq!(d.get_extension(), "mkv");
    let d2 = Downloader {
        video_url: "u".to_string(),
        file_name: "noext".to_string(),
        host: Host::Unknown,
    };
    assert_eq!(d2.get_extension(), "noext");
}
