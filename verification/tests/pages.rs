use jra_scraper::common::{parse_race_list, try_parse_race_list, WakubanStatus};
use jra_scraper::dom::parse_document;
use jra_scraper::graderace::{
    get_race_name, get_race_td_item, get_races, jyusyo_list_path, try_get_race_name,
    try_get_race_td_item, try_get_races, year_text,
};
use jra_scraper::result::{
    get_record, get_result, get_result_horses, get_result_refund, read_place, try_get_record,
    try_get_result, try_get_result_horses, try_get_result_refund,
};
use jra_scraper::wakuban::{get_waku, try_get_waku};

const RACE_LIST: &str = r#"
<ul class="grade_race_unit"><li><div class="main">
<a href="/race/1"><span class="umaban">1R</span>one</a>
<a href="/race/2"><span class="umaban">2R</span>two</a>
<a href="/race/3">no number</a>
<a href="/race/4"><span class="umaban">4R</span>four</a>
</div></li></ul>
<ul class="grade_race_unit"><li><div class="main">
<a href="/race/5"><span class="umaban">5R</span>five</a>
</div></li></ul>
"#;

#[test]
fn race_list_stops_at_a_link_without_number() {
    let links = parse_race_list(RACE_LIST);
    assert_eq!(try_parse_race_list(RACE_LIST), Some(links.clone()));
    assert_eq!(links, vec!["/race/1", "/race/2", "/race/5"]);
}

#[test]
fn race_list_of_empty_page_is_empty() {
    assert_eq!(parse_race_list("<p>nothing</p>"), Vec::<String>::new());
}

#[test]
fn race_list_needs_the_href() {
    let page = r#"<ul class="grade_race_unit"><div class="main"><a><span class="umaban">1</span></a></div></ul>"#;
    assert_eq!(try_parse_race_list(page), None);
}

const GRADE_RACES: &str = r#"
<table><tbody>
<tr><td class="date">1月5日<span>（金曜）</span></td><td class="race"><span class="grade_icon g3">G3</span>中山金杯</td><td class="place">中山</td><td class="age">4歳以上</td><td class="course">芝<span>2,000</span>メートル</td></tr>
<tr><td class="date">12月22日</td><td class="race"><span class="grade_icon g1">G1</span>有馬記念</td><td class="place">中山</td><td class="age">3歳以上</td><td class="course">芝<span>2,500</span></td></tr>
</tbody></table>
"#;

#[test]
fn grade_races_read_every_row() {
    let races = get_races("2024".to_string(), GRADE_RACES.to_string());
    assert_eq!(try_get_races("2024".to_string(), GRADE_RACES.to_string()).map(|v| v.len()), Some(2));
    assert_eq!(races.len(), 2);
    let r = &races[0];
    assert_eq!((r.date.year, r.date.month, r.date.day), (2024, 1, 5));
    assert_eq!(r.grade, "g3");
    assert_eq!(r.name, "中山金杯");
    assert_eq!(r.place, "中山");
    assert_eq!(r.age, "4歳以上");
    assert_eq!(r.course_type, "芝");
    assert_eq!(r.course_distance, 2000);
    let r = &races[1];
    assert_eq!((r.date.year, r.date.month, r.date.day), (2024, 12, 22));
    assert_eq!(r.grade, "g1");
    assert_eq!(r.name, "有馬記念");
    assert_eq!(r.course_distance, 2500);
}

#[test]
fn grade_race_with_impossible_date_is_refused() {
    let page = GRADE_RACES.replace("1月5日", "2月30日");
    assert!(try_get_races("2024".to_string(), page).is_none());
}

#[test]
fn grade_race_with_unreadable_distance_is_refused() {
    let page = GRADE_RACES.replace("2,500", "2.500");
    assert!(try_get_races("2024".to_string(), page).is_none());
}

#[test]
fn grade_race_list_without_rows_is_empty() {
    assert_eq!(get_races("2024".to_string(), "<p>x</p>".to_string()).len(), 0);
}

#[test]
fn race_cells_by_query() {
    let doc = parse_document(GRADE_RACES);
    let rows = doc.select_all("table tbody tr").unwrap();
    assert_eq!(rows.len(), 2);
    let cells = rows[0].select_all("td").unwrap();
    assert_eq!(cells.len(), 5);
    assert!(rows[0].select_all("td[").is_none());
    assert_eq!(get_race_td_item(&rows[0], "td.course", 1), "2,000");
    assert_eq!(try_get_race_td_item(&rows[0], "td.course", 1), Some("2,000".to_string()));
    assert_eq!(try_get_race_td_item(&rows[0], "td.course", 3), None);
    assert_eq!(try_get_race_td_item(&rows[0], "td.missing", 0), None);
    assert_eq!(get_race_name(&rows[1]), "有馬記念");
    assert_eq!(try_get_race_name(&rows[1]), Some("有馬記念".to_string()));
    let nameless = parse_document("<table><tbody><tr><td class=\"race\"></td></tr></tbody></table>");
    let nameless_rows = nameless.select_all("tr").unwrap();
    assert_eq!(try_get_race_name(&nameless_rows[0]), None);
}

#[test]
fn year_text_and_list_path() {
    assert_eq!(year_text(2023, "2030"), "2023");
    assert_eq!(year_text(0, "2030"), "2030");
    assert_eq!(jyusyo_list_path("2023"), "datafile/seiseki/replay/2023/jyusyo.html");
}

const ENTRY_LIST: &str = r#"
<div class="race_header"><span class="race_name">有馬記念</span><div class="time">発走時刻：<strong>15時40分</strong></div></div>
<div class="type"><div class="category">サラ系３歳以上</div><div class="class">オープン</div><div class="rule">（国際）（指定）</div><div class="weight">定量</div></div>
<ul class="prize"><li><ul><li><span>1着</span>50,000万円</li><li><span>2着</span>20,000万円</li></ul></li><li><ul><li><span>x</span>other</li></ul></li></ul>
<table class="basic mt20"><tbody>
<tr><td class="waku"><img src="/JRADB/img/waku/1.png" alt="枠1白"></td><td class="num">1</td><td class="horse"><div class="name">ドウデュース<span class="horse_icon"><img src="/icon/b.png" alt="ブリンカー"></span></div><p class="age">牡4/鹿</p><p class="weight"> 58.0kg </p><p class="jockey">武 豊</p></td></tr>
<tr><td class="waku"><img src="/JRADB/img/waku/2.png"></td><td class="num">除外</td><td class="horse"><div class="name">シャフリヤール</div><p class="age">牡6/黒鹿</p><p class="weight">58.0kg</p><p class="jockey">ルメール</p></td></tr>
</tbody></table>
"#;

#[test]
fn entry_list_reads_header_and_lines() {
    let w = get_waku(ENTRY_LIST.to_string());
    assert_eq!(w.race_name, "有馬記念");
    assert_eq!(w.condition, vec!["サラ系３歳以上", "オープン", "（国際）（指定）", "定量"]);
    assert_eq!(w.price, vec!["50,000万円", "20,000万円"]);
    assert_eq!(w.start_time, "15:40");
    assert_eq!(w.waku.len(), 2);
    let first = &w.waku[0];
    assert_eq!(first.horse.name, "ドウデュース");
    assert_eq!(first.horse.sex, "牡");
    assert_eq!(first.horse.age, 4);
    assert_eq!(first.horse.icon, Some(r#"<img src="/icon/b.png" alt="ブリンカー">"#.to_string()));
    assert_eq!(first.weight, "58.0kg");
    assert_eq!(first.jokey, "武 豊");
    assert_eq!(first.bracket_number, 1);
    assert_eq!(first.horse_number, Some(1));
    assert_eq!(first.status, WakubanStatus::Normal);
    let second = &w.waku[1];
    assert_eq!(second.horse.icon, None);
    assert_eq!(second.horse.age, 6);
    assert_eq!(second.bracket_number, 2);
    assert_eq!(second.horse_number, None);
    assert_eq!(second.status, WakubanStatus::Exclude);
}

#[test]
fn excluded_line_has_no_horse_number() {
    let w = get_waku(ENTRY_LIST.to_string());
    for line in &w.waku {
        if line.status == WakubanStatus::Exclude {
            assert_eq!(line.horse_number, None);
        }
        if line.horse_number.is_some() {
            assert_eq!(line.status, WakubanStatus::Normal);
        }
    }
}

#[test]
fn entry_list_start_time_has_no_markers() {
    let w = get_waku(ENTRY_LIST.to_string());
    assert!(!w.start_time.contains('時') && !w.start_time.contains('分'));
}

#[test]
fn entry_list_without_race_name_is_refused() {
    let page = ENTRY_LIST.replace("race_name", "title");
    assert!(try_get_waku(page).is_none());
}

#[test]
fn entry_line_with_unreadable_frame_is_refused() {
    let page = ENTRY_LIST.replace("waku/2.png", "waku/x.png");
    assert!(try_get_waku(page).is_none());
}

const RESULT_PAGE: &str = r#"
<span class="race_name">有馬記念</span>
<div class="baba"><ul><li><span>天候</span>晴</li><li><span>芝</span>良</li></ul></div>
<div class="result_time_data"><table><tbody><tr><th>タイム</th><td>2:31.8</td></tr><tr><th>上り</th><td>34.6</td></tr></tbody></table></div>
<strong class="record">レコード</strong>
<div class="refund_area"><ul>
<li class="win"><div class="num">9</div><div class="yen">1,230<span>円</span></div></li>
<li class="place"><div class="yen">300<span>円</span></div><div class="yen">150</div><div class="yen"></div></li>
<li class="tierce"><div class="yen">1,234,560</div></li>
</ul></div>
<div class="race_result_unit"><table><tbody>
<tr><td class="place">1</td><td class="waku"><img src="/img/waku/5.png"></td><td class="num">9</td><td class="time">2:31.8</td><td class="margin">&nbsp;</td><td class="h_weight">502<span>(+2)</span></td><td class="pop">1</td></tr>
<tr><td class="place">除外</td><td class="waku"><img src="/img/waku/3.png"></td><td class="num">4</td><td class="time"></td><td class="margin">-</td><td class="h_weight">480</td><td class="pop"></td></tr>
<tr><td class="place">中止</td><td class="waku"><img src="/img/waku/8.png"></td><td class="num">16</td><td class="time"></td><td class="margin"> ハナ </td><td class="h_weight">計不</td><td class="pop">16</td></tr>
</tbody></table></div>
"#;

#[test]
fn race_result_reads_every_part() {
    let r = get_result(RESULT_PAGE.to_string());
    assert_eq!(r.race_name, "有馬記念");
    assert_eq!(
        r.baba,
        vec![("天候".to_string(), "晴".to_string()), ("芝".to_string(), "良".to_string())]
    );
    assert_eq!(
        r.result_time,
        vec![("タイム".to_string(), "2:31.8".to_string()), ("上り".to_string(), "34.6".to_string())]
    );
    assert_eq!(r.refund.win, vec![1230]);
    assert_eq!(r.refund.place, vec![300, 150]);
    assert_eq!(r.refund.tierce, vec![1234560]);
    assert!(r.refund.wakuren.is_empty() && r.refund.wide.is_empty() && r.refund.umaren.is_empty());
    assert!(r.refund.umatan.is_empty() && r.refund.trio.is_empty());
    assert!(r.record);
    assert_eq!(r.horses.len(), 3);
    let h = &r.horses[0];
    assert_eq!((h.horse_number, h.waku_number, h.place), (9, 5, Some(1)));
    assert_eq!(h.time, "2:31.8");
    assert_eq!(h.margin, "");
    assert_eq!((h.horse_weight, h.horse_weight_changes.as_str()), (Some(502), "(+2)"));
    assert_eq!(h.popularity, Some(1));
    assert_eq!(h.status, WakubanStatus::Normal);
    let h = &r.horses[1];
    assert_eq!((h.horse_number, h.waku_number, h.place), (4, 3, None));
    assert_eq!((h.time.as_str(), h.margin.as_str()), ("", "-"));
    assert_eq!((h.horse_weight, h.horse_weight_changes.as_str()), (Some(480), ""));
    assert_eq!(h.popularity, None);
    assert_eq!(h.status, WakubanStatus::Exclude);
    let h = &r.horses[2];
    assert_eq!((h.horse_number, h.place, h.status), (16, None, WakubanStatus::Stop));
    assert_eq!(h.margin, "ハナ");
    assert_eq!(h.horse_weight, None);
    assert_eq!(h.popularity, Some(16));
}

#[test]
fn result_places_only_for_normal_runners() {
    let r = get_result(RESULT_PAGE.to_string());
    for h in &r.horses {
        if h.place.is_some() {
            assert_eq!(h.status, WakubanStatus::Normal);
        }
        if h.status != WakubanStatus::Normal {
            assert_eq!(h.place, None);
        }
    }
}

#[test]
fn read_place_knows_the_three_marks() {
    assert_eq!(read_place("除外"), (None, WakubanStatus::Exclude));
    assert_eq!(read_place("中止"), (None, WakubanStatus::Stop));
    assert_eq!(read_place("取消"), (None, WakubanStatus::Cancel));
    assert_eq!(read_place("3"), (Some(3), WakubanStatus::Normal));
    assert_eq!(read_place("失格"), (None, WakubanStatus::Normal));
}

#[test]
fn result_parts_on_their_own() {
    let doc = parse_document(RESULT_PAGE);
    assert!(get_record(&doc));
    assert_eq!(try_get_record(&doc), Some(true));
    assert_eq!(get_result_refund(&doc, "place"), vec![300, 150]);
    assert_eq!(try_get_result_refund(&doc, "place"), Some(vec![300, 150]));
    assert_eq!(get_result_refund(&doc, "umaren"), Vec::<u32>::new());
    assert_eq!(get_result_horses(&doc).len(), 3);
    assert_eq!(try_get_result_horses(&doc).map(|v| v.len()), Some(3));
    let plain = parse_document("<p>x</p>");
    assert!(!get_record(&plain));
    assert!(try_get_result_horses(&plain).is_none());
    let bad = parse_document(r#"<div class="refund_area"><li class="win"><div class="yen">1,230円</div></li></div>"#);
    assert_eq!(try_get_result_refund(&bad, "win"), None);
}

#[test]
fn result_with_unreadable_payout_is_refused() {
    let page = RESULT_PAGE.replace("1,230<span>", "1.230<span>");
    assert!(try_get_result(page).is_none());
}

#[test]
fn result_runner_without_number_is_refused() {
    let page = RESULT_PAGE.replace(r#"<td class="num">16</td>"#, r#"<td class="num">x</td>"#);
    assert!(try_get_result(page).is_none());
}

#[test]
fn one_page_read_for_two_years() {
    let a = get_races("2023".to_string(), GRADE_RACES.to_string());
    let b = get_races("2024".to_string(), GRADE_RACES.to_string());
    assert_eq!(a.len(), b.len());
    for (x, y) in a.iter().zip(b.iter()) {
        assert_eq!((&x.grade, &x.name, &x.place, &x.age), (&y.grade, &y.name, &y.place, &y.age));
        assert_eq!((&x.course_type, x.course_distance), (&y.course_type, y.course_distance));
        assert_eq!((x.date.month, x.date.day), (y.date.month, y.date.day));
        assert_eq!((x.date.year, y.date.year), (2023, 2024));
    }
}

#[test]
fn year_zero_names_the_current_year() {
    let y = 2024u16;
    let this_year = y.to_string();
    assert_eq!(year_text(0, &this_year), year_text(y, "1999"));
    assert_eq!(jyusyo_list_path(&year_text(0, &this_year)), jyusyo_list_path(&year_text(y, "")));
}
