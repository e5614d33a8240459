use jra_scraper::common::{capture, decode_jra_html, jra_url, JRA_URL};
use jra_scraper::dom::parse_document;

#[test]
fn jra_url_puts_the_page_below_the_root() {
    assert_eq!(jra_url("pw01dli00/F3"), "https://www.jra.go.jp/pw01dli00/F3");
    assert_eq!(JRA_URL.to_owned() + "x", jra_url("x"));
}

#[test]
fn decode_reads_shift_jis() {
    let (bytes, _, _) = encoding_rs::SHIFT_JIS.encode("除外 1,230円");
    assert_ne!(bytes.as_ref(), "除外 1,230円".as_bytes());
    assert_eq!(decode_jra_html(&bytes), "除外 1,230円");
}

#[test]
fn decode_keeps_ascii() {
    assert_eq!(decode_jra_html(b"<td>58.0</td>"), "<td>58.0</td>");
    assert_eq!(decode_jra_html(b""), "");
}

#[test]
fn capture_reads_groups() {
    assert_eq!(capture(r"/(\d)\.png", "/JRADB/img/waku/7.png", 1), Some("7".to_string()));
    assert_eq!(capture(r"/(\d)\.png", "/JRADB/img/waku/7.png", 0), Some("/7.png".to_string()));
    assert_eq!(capture(r"/(\d)\.png", "/JRADB/img/waku/x.png", 1), None);
    assert_eq!(capture(r"(.*?)(\d+)", "牡4/鹿", 1), Some("牡".to_string()));
    assert_eq!(capture(r"(.*?)(\d+)", "牡4/鹿", 2), Some("4".to_string()));
    assert_eq!(capture(r"(.*?)(\d+)", "牡4/鹿", 3), None);
    assert_eq!(capture(r"(", "x", 0), None);
}

#[test]
fn selectors_parse_or_not() {
    let doc = parse_document("<ul class=\"prize\"><li><ul><li>a</li></ul></li></ul>");
    assert_eq!(doc.select_all("ul.prize li:first-of-type li").map(|v| v.len()), Some(1));
    assert!(doc.select_all("td[").is_none());
    assert_eq!(doc.select_all("p").map(|v| v.len()), Some(0));
}

#[test]
fn child_elements_skip_text_nodes() {
    let doc = parse_document(r#"<div class="x">t<b>a</b>u<i><s>b</s></i>v</div>"#);
    let divs = doc.select_all("div.x").unwrap();
    let children = divs[0].child_elements();
    assert_eq!(children.len(), 2);
    assert_eq!(children[0].select_all("s").map(|v| v.len()), Some(0));
    assert_eq!(children[1].select_all("s").map(|v| v.len()), Some(1));
}
