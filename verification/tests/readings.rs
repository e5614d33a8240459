use jra_scraper::common::WakubanStatus;
use jra_scraper::graderace::{date_of, distance_of};
use jra_scraper::result::payout_of;
use jra_scraper::wakuban::{clock_of, entry_status, frame_of, sex_and_age_of};

#[test]
fn date_of_reads_the_list_format() {
    let d = date_of("2024", "1月5日").unwrap();
    assert_eq!((d.year, d.month, d.day), (2024, 1, 5));
    let d = date_of("2023", "12月24日").unwrap();
    assert_eq!((d.year, d.month, d.day), (2023, 12, 24));
    let d = date_of("2024", "2月29日").unwrap();
    assert_eq!((d.year, d.month, d.day), (2024, 2, 29));
    assert!(date_of("2023", "2月29日").is_none());
    assert!(date_of("2024", "13月1日").is_none());
    assert!(date_of("2024", "1/5").is_none());
}

#[test]
fn distance_of_ignores_commas() {
    assert_eq!(distance_of("2,000"), Some(2000));
    assert_eq!(distance_of("1200"), Some(1200));
    assert_eq!(distance_of("65,535"), Some(65535));
    assert_eq!(distance_of("65,536"), None);
    assert_eq!(distance_of("2.000"), None);
    assert_eq!(distance_of(""), None);
}

#[test]
fn payout_of_ignores_commas() {
    assert_eq!(payout_of("1,230"), Some(1230));
    assert_eq!(payout_of("12,345,678"), Some(12345678));
    assert_eq!(payout_of("1,230円"), None);
}

#[test]
fn clock_of_turns_japanese_time_into_clock_time() {
    assert_eq!(clock_of("15時40分"), "15:40");
    assert_eq!(clock_of("9時05分"), "9:05");
    assert_eq!(clock_of("発走"), "発走");
}

#[test]
fn entry_status_of_number_and_mark() {
    assert_eq!(entry_status("12"), (Some(12), WakubanStatus::Normal));
    assert_eq!(entry_status("除外"), (None, WakubanStatus::Exclude));
    assert_eq!(entry_status("-"), (None, WakubanStatus::Normal));
}

#[test]
fn frame_of_reads_the_image_address() {
    assert_eq!(frame_of("/JRADB/img/waku/8.png"), Some(8));
    assert_eq!(frame_of("/a/1.png/b/2.png"), Some(1));
    assert_eq!(frame_of("/waku/10.png"), None);
    assert_eq!(frame_of("8.png"), None);
}

#[test]
fn sex_and_age_of_splits_the_text() {
    assert_eq!(sex_and_age_of("牝3/栗"), Some(("牝".to_string(), 3)));
    assert_eq!(sex_and_age_of("せん10"), Some(("せん".to_string(), 10)));
    assert_eq!(sex_and_age_of("牡"), None);
    assert_eq!(sex_and_age_of("牡300"), None);
}
