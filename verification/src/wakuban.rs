//! The entry list (frame numbers, horses, jockeys) of a coming race.
use crate::common::{
    capture, lemma_gather_singletons, capture_group, doc_first_text, elem_first_text, first_text, gather,
    lemma_gather_missing, WakubanStatus,
};
use crate::dom::{match_count, outer_html, selector_is_valid, text_nodes, CssSelector, Document, Element, Path};
use crate::text::{
    all_digits, digits_value, is_digit, lemma_parse_digits, lemma_parse_digits_too_large,
    lemma_replace_char_avoids, lemma_replace_char_concat, lemma_replace_char_absent,
    lemma_replace_char_removes, lemma_replace_char_single, lemma_trim_idempotent, parse_unsigned,
    parse_unsigned_str, replace, replace_char, same_text, trim, trimmed, unsigned_digits,
};
use vstd::prelude::*;

verus! {

/// The address, below the site's root, of the index of entry lists.
pub const JRA_SYUTSUBAHYO_CNAME: &'static str = "pw01dli00/F3";

/// A horse of an entry list.
pub struct Horse {
    pub sex: String,
    pub age: u8,
    pub name: String,
    pub icon: Option<String>,
}

/// One line of an entry list.
pub struct Waku {
    pub horse: Horse,
    pub weight: String,
    pub jokey: String,
    pub bracket_number: u8,
    pub horse_number: Option<u8>,
    pub status: WakubanStatus,
}

/// The entry list of a race.
pub struct Wakuban {
    pub race_name: String,
    pub condition: Vec<String>,
    pub price: Vec<String>,
    pub start_time: String,
    pub waku: Vec<Waku>,
}

/// What a [`Horse`] holds.
pub struct HorseView {
    pub sex: Seq<char>,
    pub age: u8,
    pub name: Seq<char>,
    pub icon: Option<Seq<char>>,
}

/// What a [`Waku`] holds.
pub struct WakuView {
    pub horse: HorseView,
    pub weight: Seq<char>,
    pub jokey: Seq<char>,
    pub bracket_number: u8,
    pub horse_number: Option<u8>,
    pub status: WakubanStatus,
}

/// What a [`Wakuban`] holds.
pub struct WakubanView {
    pub race_name: Seq<char>,
    pub condition: Seq<Seq<char>>,
    pub price: Seq<Seq<char>>,
    pub start_time: Seq<char>,
    pub waku: Seq<WakuView>,
}

impl View for Horse {
    type V = HorseView;

    open spec fn view(&self) -> HorseView {
        HorseView { sex: self.sex@, age: self.age, name: self.name@, icon: self.icon.deep_view() }
    }
}

impl View for Waku {
    type V = WakuView;

    open spec fn view(&self) -> WakuView {
        WakuView {
            horse: self.horse@,
            weight: self.weight@,
            jokey: self.jokey@,
            bracket_number: self.bracket_number,
            horse_number: self.horse_number,
            status: self.status,
        }
    }
}

impl View for Wakuban {
    type V = WakubanView;

    open spec fn view(&self) -> WakubanView {
        WakubanView {
            race_name: self.race_name@,
            condition: self.condition.deep_view(),
            price: self.price.deep_view(),
            start_time: self.start_time@,
            waku: self.waku@.map_values(|w: Waku| w@),
        }
    }
}

/// The pattern that finds the frame number in the address of a frame's image.
pub open spec fn frame_pattern() -> Seq<char> {
    "/(\\d)\\.png"@
}

/// The pattern that splits "sex, then age" text.
pub open spec fn sex_age_pattern() -> Seq<char> {
    "(.*?)(\\d+)"@
}

/// The text that marks an excluded horse.
pub open spec fn excluded_mark() -> Seq<char> {
    "除外"@
}

/// The frame number that the address of a frame's image names: the digit
/// before `.png`, read as a `u8`.
pub open spec fn frame_in(src: Seq<char>) -> Option<u8> {
    match capture_group(frame_pattern(), src, 1) {
        Some(digit) => match parse_unsigned(digit, 0xff) {
            Some(v) => Some(v as u8),
            None => None,
        },
        None => None,
    }
}

/// The frame number that the address of a frame's image names.
pub fn frame_of(src: &str) -> (number: Option<u8>)
    ensures
        number == frame_in(src@),
{
    match capture("/(\\d)\\.png", src, 1) {
        Some(digit) => match parse_unsigned_str(digit.as_str(), 0xff) {
            Some(v) => Some(v as u8),
            None => None,
        },
        None => None,
    }
}

/// The frame number of a line: that of the `src` of its first `image`.
pub open spec fn frame_number(source: Seq<char>, row: Path, image: Seq<char>) -> Option<u8> {
    if !selector_is_valid(image) || match_count(source, row, image) == 0 {
        None
    } else {
        match crate::dom::attribute(source, row.push((Some(image), 0)), "src"@) {
            Some(src) => frame_in(src),
            None => None,
        }
    }
}

/// The frame number of the line `element`, its image found by `image`.
pub fn get_frame_number(element: &Element, image: &str) -> (number: Option<u8>)
    ensures
        number == frame_number(element.source(), element.path(), image@),
{
    let sel = match CssSelector::parse(image) {
        Some(s) => s,
        None => return None,
    };
    let found = element.select(&sel);
    if found.len() == 0 {
        return None;
    }
    match found[0].attr("src") {
        Some(src) => frame_of(src.as_str()),
        None => None,
    }
}

/// The `div.name` of a line: the horse's name and icons.
pub open spec fn name_box(row: Path) -> Path {
    row.push((Some("div.name"@), 0))
}

/// The sex and age that "sex, then age" text states: the two groups of the
/// sex-and-age pattern, the age read as a `u8`.
pub open spec fn sex_and_age_in(text: Seq<char>) -> Option<(Seq<char>, u8)> {
    match (capture_group(sex_age_pattern(), text, 1), capture_group(sex_age_pattern(), text, 2)) {
        (Some(sex), Some(age)) => match parse_unsigned(age, 0xff) {
            Some(a) => Some((sex, a as u8)),
            None => None,
        },
        _ => None,
    }
}

/// The sex and age that "sex, then age" text states.
pub fn sex_and_age_of(text: &str) -> (read: Option<(String, u8)>)
    ensures
        match read {
            Some((sex, age)) => sex_and_age_in(text@) == Some((sex@, age)),
            None => sex_and_age_in(text@) is None,
        },
{
    let sex = match capture("(.*?)(\\d+)", text, 1) {
        Some(s) => s,
        None => return None,
    };
    let age_text = match capture("(.*?)(\\d+)", text, 2) {
        Some(a) => a,
        None => return None,
    };
    match parse_unsigned_str(age_text.as_str(), 0xff) {
        Some(a) => Some((sex, a as u8)),
        None => None,
    }
}

/// The horse of a line: its name (the first text of `div.name`), its icon
/// (the HTML of the first `span.horse_icon img` there, if any), and its sex
/// and age (the two groups of the sex-and-age pattern in `p.age`).
pub open spec fn horse(source: Seq<char>, row: Path) -> Option<HorseView> {
    if !selector_is_valid("div.name"@) || match_count(source, row, "div.name"@) == 0
        || !selector_is_valid("span.horse_icon img"@) || text_nodes(source, name_box(row)).len()
        == 0 {
        None
    } else {
        let icon = if match_count(source, name_box(row), "span.horse_icon img"@) > 0 {
            Some(outer_html(source, name_box(row).push((Some("span.horse_icon img"@), 0))))
        } else {
            None
        };
        match first_text(source, row, "p.age"@, 0) {
            Some(sex_and_age) => match sex_and_age_in(sex_and_age) {
                Some((sex, age)) => Some(
                    HorseView { sex, age, name: text_nodes(source, name_box(row))[0], icon },
                ),
                None => None,
            },
            None => None,
        }
    }
}

fn get_horse(element: &Element) -> (horse_read: Option<Horse>)
    ensures
        match horse_read {
            Some(h) => horse(element.source(), element.path()) == Some(h@),
            None => horse(element.source(), element.path()) is None,
        },
{
    let name_sel = match CssSelector::parse("div.name") {
        Some(s) => s,
        None => return None,
    };
    let boxes = element.select(&name_sel);
    if boxes.len() == 0 {
        return None;
    }
    let name_and_icon = &boxes[0];
    let icon_sel = match CssSelector::parse("span.horse_icon img") {
        Some(s) => s,
        None => return None,
    };
    let icons = name_and_icon.select(&icon_sel);
    let icon = if icons.len() > 0 {
        Some(icons[0].html())
    } else {
        None
    };
    let texts = name_and_icon.text();
    if texts.len() == 0 {
        return None;
    }
    assert(texts@.map_values(|t: String| t@)[0] == texts@[0]@);
    let name = texts[0].clone();
    let sex_and_age = match elem_first_text(element, "p.age", 0) {
        Some(t) => t,
        None => return None,
    };
    match sex_and_age_of(sex_and_age.as_str()) {
        Some((sex, age)) => Some(Horse { sex, age, name, icon }),
        None => None,
    }
}

/// The horse number and status that the text of `td.num` stands for: the
/// text read as a `u8`, and `Exclude` exactly when it is the exclusion mark.
pub open spec fn entry_status_in(text: Seq<char>) -> (Option<u8>, WakubanStatus) {
    (
        match parse_unsigned(text, 0xff) {
            Some(n) => Some(n as u8),
            None => None,
        },
        if text == excluded_mark() {
            WakubanStatus::Exclude
        } else {
            WakubanStatus::Normal
        },
    )
}

/// The horse number and status for the text of `td.num`.
pub fn entry_status(text: &str) -> (read: (Option<u8>, WakubanStatus))
    ensures
        read == entry_status_in(text@),
{
    let status = if same_text(text, "除外") {
        WakubanStatus::Exclude
    } else {
        WakubanStatus::Normal
    };
    let horse_number = match parse_unsigned_str(text, 0xff) {
        Some(n) => Some(n as u8),
        None => None,
    };
    (horse_number, status)
}

/// One line of an entry list: the horse, its weight to carry (trimmed), its
/// jockey, its frame number, and its horse number, which is the text of
/// `td.num` read as a `u8`; the horse is excluded when that text is the
/// exclusion mark.
pub open spec fn waku_line(source: Seq<char>, row: Path) -> Option<WakuView> {
    match (
        frame_number(source, row, "td.waku img"@),
        first_text(source, row, "td.num"@, 0),
        horse(source, row),
        first_text(source, row, "p.weight"@, 0),
        first_text(source, row, "p.jockey"@, 0),
    ) {
        (Some(frame), Some(umaban), Some(h), Some(weight), Some(jockey)) => Some(
            WakuView {
                horse: h,
                weight: trimmed(weight),
                jokey: jockey,
                bracket_number: frame,
                horse_number: entry_status_in(umaban).0,
                status: entry_status_in(umaban).1,
            },
        ),
        _ => None,
    }
}

fn get_waku_line(element: &Element) -> (line: Option<Waku>)
    ensures
        match line {
            Some(w) => waku_line(element.source(), element.path()) == Some(w@),
            None => waku_line(element.source(), element.path()) is None,
        },
{
    let bracket_number = match get_frame_number(element, "td.waku img") {
        Some(n) => n,
        None => return None,
    };
    let umaban = match elem_first_text(element, "td.num", 0) {
        Some(u) => u,
        None => return None,
    };
    let (horse_number, status) = entry_status(umaban.as_str());
    let horse_read = match get_horse(element) {
        Some(h) => h,
        None => return None,
    };
    let weight = match elem_first_text(element, "p.weight", 0) {
        Some(w) => w,
        None => return None,
    };
    let jokey = match elem_first_text(element, "p.jockey", 0) {
        Some(j) => j,
        None => return None,
    };
    Some(
        Waku {
            horse: horse_read,
            weight: trim(weight.as_str()),
            jokey,
            bracket_number,
            horse_number,
            status,
        },
    )
}

/// The four conditions of a race: category, class, rule and weight.
pub open spec fn conditions(source: Seq<char>) -> Option<Seq<Seq<char>>> {
    match (
        first_text(source, Seq::empty(), "div.type div.category"@, 0),
        first_text(source, Seq::empty(), "div.type div.class"@, 0),
        first_text(source, Seq::empty(), "div.type div.rule"@, 0),
        first_text(source, Seq::empty(), "div.type div.weight"@, 0),
    ) {
        (Some(a), Some(b), Some(c), Some(d)) => Some(seq![a, b, c, d]),
        _ => None,
    }
}

fn get_conditions(doc: &Document) -> (list: Option<Vec<String>>)
    ensures
        list.deep_view() == conditions(doc.source()),
{
    let a = match doc_first_text(doc, "div.type div.category", 0) {
        Some(t) => t,
        None => return None,
    };
    let b = match doc_first_text(doc, "div.type div.class", 0) {
        Some(t) => t,
        None => return None,
    };
    let c = match doc_first_text(doc, "div.type div.rule", 0) {
        Some(t) => t,
        None => return None,
    };
    let d = match doc_first_text(doc, "div.type div.weight", 0) {
        Some(t) => t,
        None => return None,
    };
    let ghost views = seq![a@, b@, c@, d@];
    let mut list: Vec<String> = Vec::new();
    list.push(a);
    list.push(b);
    list.push(c);
    list.push(d);
    assert(list.deep_view() =~= views);
    Some(list)
}

/// The prize of place `i`: the second text of the `i`-th
/// `ul.prize li:first-of-type li`.
pub open spec fn prize_pieces(source: Seq<char>) -> spec_fn(nat) -> Option<Seq<Seq<char>>> {
    |i: nat|
        {
            let texts = text_nodes(source, seq![(Some("ul.prize li:first-of-type li"@), i)]);
            if 1 < texts.len() {
                Some(seq![texts[1]])
            } else {
                None
            }
        }
}

/// The prizes of a race, place by place.
pub open spec fn prizes(source: Seq<char>) -> Option<Seq<Seq<char>>> {
    if !selector_is_valid("ul.prize li:first-of-type li"@) {
        None
    } else {
        gather(
            match_count(source, Seq::empty(), "ul.prize li:first-of-type li"@),
            prize_pieces(source),
        )
    }
}

fn get_prizes(doc: &Document) -> (list: Option<Vec<String>>)
    ensures
        list.deep_view() == prizes(doc.source()),
{
    let sel = match CssSelector::parse("ul.prize li:first-of-type li") {
        Some(s) => s,
        None => return None,
    };
    let items = doc.select(&sel);
    let ghost source = doc.source();
    let ghost f = prize_pieces(source);
    let mut out: Vec<String> = Vec::new();
    let mut i: usize = 0;
    while i < items.len()
        invariant
            source == doc.source(),
            f == prize_pieces(source),
            selector_is_valid("ul.prize li:first-of-type li"@),
            items.len() == match_count(source, Seq::empty(), "ul.prize li:first-of-type li"@),
            forall|k: int|
                0 <= k < items.len() ==> (#[trigger] items[k]).source() == source
                    && items[k].path() == seq![(Some("ul.prize li:first-of-type li"@), k as nat)],
            i <= items.len(),
            gather(i as nat, f) == Some(out.deep_view()),
        decreases items.len() - i,
    {
        let texts = items[i].text();
        if texts.len() > 1 {
            assert(texts@.map_values(|t: String| t@)[1] == texts@[1]@);
            let ghost before = out.deep_view();
            let t = texts[1].clone();
            let ghost tv = t@;
            out.push(t);
            assert(out.deep_view() =~= before + seq![tv]);
        } else {
            proof {
                lemma_gather_missing((i + 1) as nat, items.len() as nat, f);
            }
            return None;
        }
        i = i + 1;
    }
    Some(out)
}

/// The clock time that the text of a start time states: each 時 turned into
/// a colon and each 分 left out.
pub open spec fn clock_in(text: Seq<char>) -> Seq<char> {
    replace_char(replace_char(text, '時', ":"@), '分', Seq::empty())
}

/// The clock time that the text of a start time states.
pub fn clock_of(text: &str) -> (time: String)
    ensures
        time@ == clock_in(text@),
{
    let with_colon = replace(text, '時', ":");
    let result = replace(with_colon.as_str(), '分', "");
    proof {
        reveal_strlit("");
    }
    assert(""@ =~= Seq::<char>::empty());
    result
}

/// The start time of a race: the second text of `div.race_header div.time`.
pub open spec fn start_time(source: Seq<char>) -> Option<Seq<char>> {
    match first_text(source, Seq::empty(), "div.race_header div.time"@, 1) {
        Some(t) => Some(clock_in(t)),
        None => None,
    }
}

fn get_start_time(doc: &Document) -> (time: Option<String>)
    ensures
        time.deep_view() == start_time(doc.source()),
{
    match doc_first_text(doc, "div.race_header div.time", 1) {
        Some(t) => Some(clock_of(t.as_str())),
        None => None,
    }
}

/// Line `i` of the entry table, as a piece for [`gather`].
pub open spec fn waku_lines(source: Seq<char>) -> spec_fn(nat) -> Option<Seq<WakuView>> {
    |i: nat|
        match waku_line(source, seq![(Some("table.mt20 tbody tr"@), i)]) {
            Some(w) => Some(seq![w]),
            None => None,
        }
}

/// The lines of the entry table.
pub open spec fn waku_table(source: Seq<char>) -> Option<Seq<WakuView>> {
    if !selector_is_valid("table.mt20 tbody tr"@) {
        None
    } else {
        gather(match_count(source, Seq::empty(), "table.mt20 tbody tr"@), waku_lines(source))
    }
}

/// The views of a sequence of lines.
pub open spec fn waku_views(lines: Seq<Waku>) -> Seq<WakuView> {
    lines.map_values(|w: Waku| w@)
}

fn get_waku_table(doc: &Document) -> (lines: Option<Vec<Waku>>)
    ensures
        match lines {
            Some(v) => waku_table(doc.source()) == Some(waku_views(v@)),
            None => waku_table(doc.source()) is None,
        },
{
    let sel = match CssSelector::parse("table.mt20 tbody tr") {
        Some(s) => s,
        None => return None,
    };
    let rows = doc.select(&sel);
    let ghost source = doc.source();
    let ghost f = waku_lines(source);
    let mut out: Vec<Waku> = Vec::new();
    let mut i: usize = 0;
    while i < rows.len()
        invariant
            source == doc.source(),
            f == waku_lines(source),
            selector_is_valid("table.mt20 tbody tr"@),
            rows.len() == match_count(source, Seq::empty(), "table.mt20 tbody tr"@),
            forall|k: int|
                0 <= k < rows.len() ==> (#[trigger] rows[k]).source() == source && rows[k].path()
                    == seq![(Some("table.mt20 tbody tr"@), k as nat)],
            i <= rows.len(),
            gather(i as nat, f) == Some(waku_views(out@)),
        decreases rows.len() - i,
    {
        match get_waku_line(&rows[i]) {
            Some(w) => {
                let ghost before = waku_views(out@);
                let ghost wv = w@;
                out.push(w);
                assert(waku_views(out@) =~= before + seq![wv]);
            },
            None => {
                proof {
                    lemma_gather_missing((i + 1) as nat, rows.len() as nat, f);
                }
                return None;
            },
        }
        i = i + 1;
    }
    Some(out)
}

/// The entry list on the page `source`.
pub open spec fn wakuban(source: Seq<char>) -> Option<WakubanView> {
    match (
        first_text(source, Seq::empty(), "span.race_name"@, 0),
        conditions(source),
        prizes(source),
        start_time(source),
        waku_table(source),
    ) {
        (Some(race_name), Some(condition), Some(price), Some(start_time), Some(waku)) => Some(
            WakubanView { race_name, condition, price, start_time, waku },
        ),
        _ => None,
    }
}

/// The entry list that the page `contents` shows; `None` when the page lacks
/// a part that the list needs.
fn read_waku(contents: &str) -> (list: Option<Wakuban>)
    ensures
        match list {
            Some(w) => wakuban(contents@) == Some(w@),
            None => wakuban(contents@) is None,
        },
{
    let doc = Document::parse(contents);
    let race_name = match doc_first_text(&doc, "span.race_name", 0) {
        Some(n) => n,
        None => return None,
    };
    let condition = match get_conditions(&doc) {
        Some(c) => c,
        None => return None,
    };
    let price = match get_prizes(&doc) {
        Some(p) => p,
        None => return None,
    };
    let start_time = match get_start_time(&doc) {
        Some(t) => t,
        None => return None,
    };
    let waku = match get_waku_table(&doc) {
        Some(w) => w,
        None => return None,
    };
    let result = Wakuban { race_name, condition, price, start_time, waku };
    assert(result@.waku =~= waku_views(result.waku@));
    Some(result)
}

/// The entry list that the page `contents` shows.  The page must hold every
/// part that the list needs.
pub fn get_waku(contents: String) -> (list: Wakuban)
    requires
        wakuban(contents@) is Some,
    ensures
        wakuban(contents@) == Some(list@),
{
    read_waku(contents.as_str()).unwrap()
}

/// The entry list that the page `contents` shows, or `None` when the page
/// lacks a part that the list needs.
pub fn try_get_waku(contents: String) -> (list: Option<Wakuban>)
    ensures
        match list {
            Some(w) => wakuban(contents@) == Some(w@),
            None => wakuban(contents@) is None,
        },
{
    read_waku(contents.as_str())
}

/// The clock time read from any text holds neither 時 nor 分.
pub proof fn lemma_clock_plain(text: Seq<char>)
    ensures
        forall|i: int| 0 <= i < clock_in(text).len() ==> #[trigger] clock_in(text)[i] != '時' && clock_in(text)[i] != '分',
{
    reveal_strlit(":");
    let colon: Seq<char> = ":"@;
    let once = replace_char(text, '時', colon);
    lemma_replace_char_removes(text, '時', colon);
    lemma_replace_char_avoids(once, '分', Seq::empty(), '時');
    lemma_replace_char_removes(once, '分', Seq::empty());
}

/// The exclusion mark is not a number.
proof fn lemma_excluded_mark_not_number()
    ensures
        parse_unsigned(excluded_mark(), 0xff) is None,
{
    reveal_strlit("除外");
    let s = excluded_mark();
    assert(s[0] == '除');
    assert(unsigned_digits(s) == s);
    assert(!is_digit(s[0]));
    assert(!all_digits(s));
}

/// Whatever the text of `td.num`, an excluded horse has no horse number and
/// a horse with a horse number runs normally.
pub proof fn lemma_excluded_has_no_number(text: Seq<char>)
    ensures
        entry_status_in(text).1 == WakubanStatus::Exclude ==> entry_status_in(text).0 is None,
        entry_status_in(text).0 is Some ==> entry_status_in(text).1 == WakubanStatus::Normal,
{
    lemma_excluded_mark_not_number();
}

/// Every line of an entry list: an excluded horse has no horse number, a
/// horse with a horse number runs normally, and the weight to carry has no
/// white space around it.
pub proof fn lemma_entry_line(source: Seq<char>, row: Path)
    ensures
        waku_line(source, row) matches Some(w) ==> {
            &&& w.status == WakubanStatus::Exclude ==> w.horse_number is None
            &&& w.horse_number is Some ==> w.status == WakubanStatus::Normal
            &&& trimmed(w.weight) == w.weight
        },
{
    if let Some(umaban) = first_text(source, row, "td.num"@, 0) {
        lemma_excluded_has_no_number(umaban);
    }
    if let Some(weight) = first_text(source, row, "p.weight"@, 0) {
        lemma_trim_idempotent(weight);
    }
}

/// An entry list has four conditions, and its start time holds neither 時
/// nor 分.
pub proof fn lemma_entry_list(source: Seq<char>)
    ensures
        wakuban(source) matches Some(w) ==> {
            &&& w.condition.len() == 4
            &&& forall|i: int|
                0 <= i < w.start_time.len() ==> #[trigger] w.start_time[i] != '時' && w.start_time[i]
                    != '分'
        },
{
    if let Some(t) = first_text(source, Seq::empty(), "div.race_header div.time"@, 1) {
        lemma_clock_plain(t);
    }
}

/// A `td.num` text made only of ASCII digits is a runner's number: the horse
/// runs normally, and its number is the one the digits stand for when that
/// fits a `u8` (as `str::parse::<u8>` reads it), none otherwise.
pub proof fn lemma_number_of_digits(text: Seq<char>)
    requires
        text.len() > 0,
        all_digits(text),
    ensures
        entry_status_in(text).1 == WakubanStatus::Normal,
        digits_value(text) <= 255 ==> entry_status_in(text).0 == Some(digits_value(text) as u8),
        digits_value(text) > 255 ==> entry_status_in(text).0 is None,
{
    reveal_strlit("除外");
    assert(is_digit(text[0]));
    assert(excluded_mark()[0] == '除');
    assert(text != excluded_mark());
    if digits_value(text) <= 255 {
        lemma_parse_digits(text, 255);
    } else {
        lemma_parse_digits_too_large(text, 255);
    }
}

/// The prizes of a race: one for each element that
/// `ul.prize li:first-of-type li` matches, in order, each the second text
/// of its element; they read exactly when the selector is valid and every
/// such element has a second text.
pub proof fn lemma_prizes(source: Seq<char>)
    ensures
        prizes(source) is Some <==> selector_is_valid("ul.prize li:first-of-type li"@) && forall|
            i: nat,
        |
            i < match_count(source, Seq::empty(), "ul.prize li:first-of-type li"@) ==> (#[trigger] text_nodes(
                source,
                seq![(Some("ul.prize li:first-of-type li"@), i)],
            )).len() >= 2,
        prizes(source) matches Some(p) ==> {
            &&& p.len() == match_count(source, Seq::empty(), "ul.prize li:first-of-type li"@)
            &&& forall|i: int|
                0 <= i < p.len() ==> #[trigger] p[i] == text_nodes(
                    source,
                    seq![(Some("ul.prize li:first-of-type li"@), i as nat)],
                )[1]
        },
{
    let sel = "ul.prize li:first-of-type li"@;
    let n = match_count(source, Seq::empty(), sel);
    let f = prize_pieces(source);
    assert forall|i: nat| i < n implies (#[trigger] f(i) matches Some(p) ==> p.len() == 1) by {
        let t = text_nodes(source, seq![(Some(sel), i)]);
        assert(f(i) == if 1 < t.len() {
            Some(seq![t[1]])
        } else {
            None
        });
    }
    lemma_gather_singletons(n, f);
    if prizes(source) is Some {
        let p = prizes(source).unwrap();
        assert forall|i: int| 0 <= i < p.len() implies #[trigger] p[i] == text_nodes(
            source,
            seq![(Some(sel), i as nat)],
        )[1] by {
            let t = text_nodes(source, seq![(Some(sel), i as nat)]);
            assert(f(i as nat) == Some(seq![p[i]]));
            assert(f(i as nat) == if 1 < t.len() {
                Some(seq![t[1]])
            } else {
                None
            });
            assert(seq![p[i]][0] == p[i]);
            assert(seq![t[1]][0] == t[1]);
        }
    }
    assert forall|i: nat| i < n implies ((#[trigger] f(i)) is Some <==> text_nodes(
        source,
        seq![(Some(sel), i)],
    ).len() >= 2) by {
        let t = text_nodes(source, seq![(Some(sel), i)]);
        assert(f(i) == if 1 < t.len() {
            Some(seq![t[1]])
        } else {
            None
        });
    }
    if selector_is_valid(sel) {
        if forall|i: nat| i < n ==> (#[trigger] text_nodes(source, seq![(Some(sel), i)])).len() >= 2 {
            assert forall|i: nat| i < n implies (#[trigger] f(i)) is Some by {
                assert(text_nodes(source, seq![(Some(sel), i)]).len() >= 2);
            }
        }
        if prizes(source) is Some {
            assert forall|i: nat| i < n implies (#[trigger] text_nodes(
                source,
                seq![(Some(sel), i)],
            )).len() >= 2 by {
                assert(f(i) is Some);
            }
        }
    }
}

/// The frame number that an image address names is the digit text that the
/// frame pattern captures, read as a number when it fits a `u8`.
pub proof fn lemma_frame_of_digits(src: Seq<char>, digit: Seq<char>)
    requires
        capture_group(frame_pattern(), src, 1) == Some(digit),
        digit.len() > 0,
        all_digits(digit),
    ensures
        digits_value(digit) <= 255 ==> frame_in(src) == Some(digits_value(digit) as u8),
        digits_value(digit) > 255 ==> frame_in(src) is None,
        capture_group(frame_pattern(), src, 1) is None ==> frame_in(src) is None,
{
    if digits_value(digit) <= 255 {
        lemma_parse_digits(digit, 255);
    } else {
        lemma_parse_digits_too_large(digit, 255);
    }
}

/// The sex is the first group of the sex-and-age pattern and the age the
/// second, read as a number when it fits a `u8`.
pub proof fn lemma_sex_and_age_of_digits(text: Seq<char>, sex: Seq<char>, age: Seq<char>)
    requires
        capture_group(sex_age_pattern(), text, 1) == Some(sex),
        capture_group(sex_age_pattern(), text, 2) == Some(age),
        age.len() > 0,
        all_digits(age),
    ensures
        digits_value(age) <= 255 ==> sex_and_age_in(text) == Some((sex, digits_value(age) as u8)),
        digits_value(age) > 255 ==> sex_and_age_in(text) is None,
{
    if digits_value(age) <= 255 {
        lemma_parse_digits(age, 255);
    } else {
        lemma_parse_digits_too_large(age, 255);
    }
}

/// A start time written as hours, 時, minutes and 分 reads as hours, a colon
/// and minutes.
pub proof fn lemma_clock_of_japanese_time(hours: Seq<char>, minutes: Seq<char>)
    requires
        forall|i: int| 0 <= i < hours.len() ==> #[trigger] hours[i] != '時' && hours[i] != '分',
        forall|i: int| 0 <= i < minutes.len() ==> #[trigger] minutes[i] != '時' && minutes[i] != '分',
    ensures
        clock_in(hours + seq!['時'] + minutes + seq!['分']) == hours + ":"@ + minutes,
{
    reveal_strlit(":");
    let colon: Seq<char> = ":"@;
    assert(colon =~= seq![':']);
    let empty = Seq::<char>::empty();
    let text = hours + seq!['時'] + minutes + seq!['分'];
    lemma_replace_char_concat(hours + seq!['時'] + minutes, seq!['分'], '時', colon);
    lemma_replace_char_concat(hours + seq!['時'], minutes, '時', colon);
    lemma_replace_char_concat(hours, seq!['時'], '時', colon);
    lemma_replace_char_absent(hours, '時', colon);
    lemma_replace_char_absent(minutes, '時', colon);
    lemma_replace_char_single('時', colon);
    let fun: Seq<char> = seq!['分'];
    assert forall|i: int| 0 <= i < fun.len() implies #[trigger] fun[i] != '時' by {}
    lemma_replace_char_absent(fun, '時', colon);
    assert(replace_char(hours, '時', colon) == hours);
    assert(replace_char(seq!['時'], '時', colon) == colon);
    assert(replace_char(hours + seq!['時'], '時', colon) == replace_char(hours, '時', colon)
        + replace_char(seq!['時'], '時', colon));
    assert(replace_char(hours + seq!['時'], '時', colon) == hours + colon);
    assert(replace_char(minutes, '時', colon) == minutes);
    assert(replace_char(hours + seq!['時'] + minutes, '時', colon) == hours + colon + minutes);
    let once = hours + colon + minutes + seq!['分'];
    assert(replace_char(text, '時', colon) == once);
    assert forall|i: int| 0 <= i < colon.len() implies #[trigger] colon[i] != '分' by {}
    lemma_replace_char_concat(hours + colon + minutes, seq!['分'], '分', empty);
    lemma_replace_char_concat(hours + colon, minutes, '分', empty);
    lemma_replace_char_concat(hours, colon, '分', empty);
    lemma_replace_char_absent(hours, '分', empty);
    lemma_replace_char_absent(minutes, '分', empty);
    lemma_replace_char_absent(colon, '分', empty);
    lemma_replace_char_single('分', empty);
    assert(replace_char(hours + colon, '分', empty) == hours + colon);
    assert(replace_char(hours + colon + minutes, '分', empty) == hours + colon + minutes);
    assert(replace_char(once, '分', empty) == hours + colon + minutes + empty);
    assert(hours + colon + minutes + empty =~= hours + colon + minutes);
}

/// The lines of an entry table: one for each `table.mt20 tbody tr` row, in
/// order, each the line read from that row; the table reads exactly when the
/// selector is valid and every row reads.
pub proof fn lemma_entry_table(source: Seq<char>)
    ensures
        waku_table(source) is Some <==> selector_is_valid("table.mt20 tbody tr"@) && forall|i: nat|
            i < match_count(source, Seq::empty(), "table.mt20 tbody tr"@) ==> (#[trigger] waku_line(
                source,
                seq![(Some("table.mt20 tbody tr"@), i)],
            )) is Some,
        waku_table(source) matches Some(t) ==> {
            &&& t.len() == match_count(source, Seq::empty(), "table.mt20 tbody tr"@)
            &&& forall|i: int|
                0 <= i < t.len() ==> waku_line(source, seq![(Some("table.mt20 tbody tr"@), i as nat)])
                    == Some(#[trigger] t[i])
        },
{
    let sel = "table.mt20 tbody tr"@;
    let n = match_count(source, Seq::empty(), sel);
    let f = waku_lines(source);
    assert forall|i: nat| i < n implies (#[trigger] f(i) matches Some(p) ==> p.len() == 1) by {}
    lemma_gather_singletons(n, f);
    assert forall|i: nat| i < n implies ((#[trigger] f(i)) is Some <==> waku_line(
        source,
        seq![(Some(sel), i)],
    ) is Some) by {}
    if waku_table(source) is Some {
        let t = waku_table(source).unwrap();
        assert forall|i: int| 0 <= i < t.len() implies waku_line(source, seq![(Some(sel), i as nat)])
            == Some(#[trigger] t[i]) by {
            assert(f(i as nat) == Some(seq![t[i]]));
            assert(seq![t[i]][0] == t[i]);
        }
        assert forall|i: nat| i < n implies (#[trigger] waku_line(source, seq![(Some(sel), i)]))
            is Some by {
            assert(f(i) is Some);
        }
    }
    if selector_is_valid(sel) {
        if forall|i: nat| i < n ==> (#[trigger] waku_line(source, seq![(Some(sel), i)])) is Some {
            assert forall|i: nat| i < n implies (#[trigger] f(i)) is Some by {
                assert(waku_line(source, seq![(Some(sel), i)]) is Some);
            }
        }
    }
}

/// A line of an entry list reads exactly when its frame number, `td.num`
/// text, horse, weight and jockey do; then the line holds them: the weight
/// trimmed, and the number and status read from the `td.num` text.
pub proof fn lemma_entry_line_fields(source: Seq<char>, row: Path)
    ensures
        waku_line(source, row) is Some <==> {
            &&& frame_number(source, row, "td.waku img"@) is Some
            &&& first_text(source, row, "td.num"@, 0) is Some
            &&& horse(source, row) is Some
            &&& first_text(source, row, "p.weight"@, 0) is Some
            &&& first_text(source, row, "p.jockey"@, 0) is Some
        },
        waku_line(source, row) matches Some(w) ==> {
            &&& frame_number(source, row, "td.waku img"@) == Some(w.bracket_number)
            &&& horse(source, row) == Some(w.horse)
            &&& first_text(source, row, "p.jockey"@, 0) == Some(w.jokey)
            &&& w.weight == trimmed(first_text(source, row, "p.weight"@, 0).unwrap())
            &&& (w.horse_number, w.status) == entry_status_in(
                first_text(source, row, "td.num"@, 0).unwrap(),
            )
        },
{
}

/// The horse of a line: its name is the first text of `div.name`, its sex
/// and age are read from `p.age`, and it has an icon exactly when
/// `div.name` holds a `span.horse_icon img`, whose HTML it is.
pub proof fn lemma_horse_fields(source: Seq<char>, row: Path)
    ensures
        horse(source, row) matches Some(h) ==> {
            &&& match_count(source, row, "div.name"@) > 0
            &&& text_nodes(source, row.push((Some("div.name"@), 0)))[0] == h.name
            &&& first_text(source, row, "p.age"@, 0) matches Some(t) && sex_and_age_in(t) == Some(
                (h.sex, h.age),
            )
            &&& (h.icon is Some <==> match_count(
                source,
                row.push((Some("div.name"@), 0)),
                "span.horse_icon img"@,
            ) > 0)
            &&& h.icon matches Some(html) ==> html == outer_html(
                source,
                row.push((Some("div.name"@), 0)).push((Some("span.horse_icon img"@), 0)),
            )
        },
{
}

/// The parts of an entry list: the race name, the four conditions in the
/// order category, class, rule, weight, the prizes, the start time read from
/// the second text of the time, and the lines of the table.
pub proof fn lemma_entry_list_fields(source: Seq<char>)
    ensures
        wakuban(source) matches Some(w) ==> {
            &&& first_text(source, Seq::empty(), "span.race_name"@, 0) == Some(w.race_name)
            &&& w.condition.len() == 4
            &&& first_text(source, Seq::empty(), "div.type div.category"@, 0) == Some(w.condition[0])
            &&& first_text(source, Seq::empty(), "div.type div.class"@, 0) == Some(w.condition[1])
            &&& first_text(source, Seq::empty(), "div.type div.rule"@, 0) == Some(w.condition[2])
            &&& first_text(source, Seq::empty(), "div.type div.weight"@, 0) == Some(w.condition[3])
            &&& prizes(source) == Some(w.price)
            &&& first_text(source, Seq::empty(), "div.race_header div.time"@, 1) matches Some(t)
                && w.start_time == clock_in(t)
            &&& waku_table(source) == Some(w.waku)
        },
{
}

} // verus!
