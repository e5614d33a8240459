//! The result of a race: track, times, payouts and the finishing order.
use crate::common::{
    doc_first_text, elem_first_text, elem_first_texts, first_text, first_texts, gather,
    lemma_gather_singletons, lemma_gather_some,
    lemma_gather_missing, WakubanStatus,
};
use crate::dom::{element_children, match_count, selector_is_valid, text_nodes, CssSelector, Document, Element, Path};
use crate::text::{
    all_digits, digits_value, is_digit, lemma_parse_digits, lemma_parse_digits_too_large,
    lemma_replace_char_absent, lemma_trim_idempotent, parse_unsigned, parse_unsigned_str, replace, replace_char, same_text,
    trim, trimmed,
};
use crate::wakuban::{frame_number, get_frame_number};
use vstd::prelude::*;

verus! {

/// The address, below the site's root, of the index of race results.
pub const JRA_RESULT_CNAME: &'static str = "pw01sli00/AF";

/// The result of a race.
pub struct RaceResult {
    pub race_name: String,
    pub baba: Vec<(String, String)>,
    pub result_time: Vec<(String, String)>,
    pub refund: Refund,
    pub horses: Vec<ResultHorse>,
    pub record: bool,
}

/// The payouts of a race, by kind of bet.
pub struct Refund {
    /// 単勝
    pub win: Vec<u32>,
    /// 複勝
    pub place: Vec<u32>,
    /// 枠連
    pub wakuren: Vec<u32>,
    /// ワイド
    pub wide: Vec<u32>,
    /// 馬連
    pub umaren: Vec<u32>,
    /// 馬単
    pub umatan: Vec<u32>,
    /// 三連複
    pub trio: Vec<u32>,
    /// 三連単
    pub tierce: Vec<u32>,
}

/// One runner of a result table.
pub struct ResultHorse {
    pub horse_number: u8,
    pub waku_number: u8,
    pub place: Option<u8>,
    pub time: String,
    pub margin: String,
    pub horse_weight: Option<u16>,
    pub horse_weight_changes: String,
    pub popularity: Option<u8>,
    pub status: WakubanStatus,
}

/// What a [`Refund`] holds.
pub struct RefundView {
    pub win: Seq<u32>,
    pub place: Seq<u32>,
    pub wakuren: Seq<u32>,
    pub wide: Seq<u32>,
    pub umaren: Seq<u32>,
    pub umatan: Seq<u32>,
    pub trio: Seq<u32>,
    pub tierce: Seq<u32>,
}

/// What a [`ResultHorse`] holds.
pub struct ResultHorseView {
    pub horse_number: u8,
    pub waku_number: u8,
    pub place: Option<u8>,
    pub time: Seq<char>,
    pub margin: Seq<char>,
    pub horse_weight: Option<u16>,
    pub horse_weight_changes: Seq<char>,
    pub popularity: Option<u8>,
    pub status: WakubanStatus,
}

/// What a [`RaceResult`] holds.
pub struct RaceResultView {
    pub race_name: Seq<char>,
    pub baba: Seq<(Seq<char>, Seq<char>)>,
    pub result_time: Seq<(Seq<char>, Seq<char>)>,
    pub refund: RefundView,
    pub horses: Seq<ResultHorseView>,
    pub record: bool,
}

impl View for Refund {
    type V = RefundView;

    open spec fn view(&self) -> RefundView {
        RefundView {
            win: self.win@,
            place: self.place@,
            wakuren: self.wakuren@,
            wide: self.wide@,
            umaren: self.umaren@,
            umatan: self.umatan@,
            trio: self.trio@,
            tierce: self.tierce@,
        }
    }
}

impl View for ResultHorse {
    type V = ResultHorseView;

    open spec fn view(&self) -> ResultHorseView {
        ResultHorseView {
            horse_number: self.horse_number,
            waku_number: self.waku_number,
            place: self.place,
            time: self.time@,
            margin: self.margin@,
            horse_weight: self.horse_weight,
            horse_weight_changes: self.horse_weight_changes@,
            popularity: self.popularity,
            status: self.status,
        }
    }
}

impl View for RaceResult {
    type V = RaceResultView;

    open spec fn view(&self) -> RaceResultView {
        RaceResultView {
            race_name: self.race_name@,
            baba: self.baba.deep_view(),
            result_time: self.result_time.deep_view(),
            refund: self.refund@,
            horses: self.horses@.map_values(|h: ResultHorse| h@),
            record: self.record,
        }
    }
}

/// The finishing place and status that the text of `td.place` stands for:
/// 除外 (excluded), 中止 (stopped) and 取消 (cancelled) have no place;
/// any other text is read as a `u8` place.
pub open spec fn place_and_status(text: Seq<char>) -> (Option<u8>, WakubanStatus) {
    if text == "除外"@ {
        (None, WakubanStatus::Exclude)
    } else if text == "中止"@ {
        (None, WakubanStatus::Stop)
    } else if text == "取消"@ {
        (None, WakubanStatus::Cancel)
    } else {
        (
            match parse_unsigned(text, 0xff) {
                Some(p) => Some(p as u8),
                None => None,
            },
            WakubanStatus::Normal,
        )
    }
}

/// The place and status for the text of `td.place`.
pub fn read_place(text: &str) -> (read: (Option<u8>, WakubanStatus))
    ensures
        read == place_and_status(text@),
{
    if same_text(text, "除外") {
        (None, WakubanStatus::Exclude)
    } else if same_text(text, "中止") {
        (None, WakubanStatus::Stop)
    } else if same_text(text, "取消") {
        (None, WakubanStatus::Cancel)
    } else {
        let place = match parse_unsigned_str(text, 0xff) {
            Some(p) => Some(p as u8),
            None => None,
        };
        (place, WakubanStatus::Normal)
    }
}

/// Text node `i` of `texts`, or nothing when there is none.
pub open spec fn text_or_empty(texts: Seq<Seq<char>>, i: int) -> Seq<char> {
    if 0 <= i < texts.len() {
        texts[i]
    } else {
        Seq::empty()
    }
}

/// One runner of a result table.
pub open spec fn result_horse(source: Seq<char>, row: Path) -> Option<ResultHorseView> {
    match (
        first_text(source, row, "td.place"@, 0),
        frame_number(source, row, "td.waku img"@),
        first_text(source, row, "td.num"@, 0),
        first_texts(source, row, "td.time"@),
        first_text(source, row, "td.margin"@, 0),
        first_texts(source, row, "td.h_weight"@),
        first_texts(source, row, "td.pop"@),
    ) {
        (
            Some(place_text),
            Some(frame),
            Some(num),
            Some(time),
            Some(margin),
            Some(weight),
            Some(pop),
        ) => match parse_unsigned(num, 0xff) {
            Some(number) => if weight.len() == 0 {
                None
            } else {
                Some(
                    ResultHorseView {
                        horse_number: number as u8,
                        waku_number: frame,
                        place: place_and_status(place_text).0,
                        time: text_or_empty(time, 0),
                        margin: trimmed(margin),
                        horse_weight: match parse_unsigned(weight[0], 0xffff) {
                            Some(w) => Some(w as u16),
                            None => None,
                        },
                        horse_weight_changes: text_or_empty(weight, 1),
                        popularity: if pop.len() > 0 {
                            match parse_unsigned(pop[0], 0xff) {
                                Some(p) => Some(p as u8),
                                None => None,
                            }
                        } else {
                            None
                        },
                        status: place_and_status(place_text).1,
                    },
                )
            },
            None => None,
        },
        _ => None,
    }
}

fn get_result_horse(element: &Element) -> (runner: Option<ResultHorse>)
    ensures
        match runner {
            Some(h) => result_horse(element.source(), element.path()) == Some(h@),
            None => result_horse(element.source(), element.path()) is None,
        },
{
    let place_text = match elem_first_text(element, "td.place", 0) {
        Some(t) => t,
        None => return None,
    };
    let (place, status) = read_place(place_text.as_str());
    let waku_number = match get_frame_number(element, "td.waku img") {
        Some(n) => n,
        None => return None,
    };
    let num = match elem_first_text(element, "td.num", 0) {
        Some(t) => t,
        None => return None,
    };
    let horse_number = match parse_unsigned_str(num.as_str(), 0xff) {
        Some(n) => n as u8,
        None => return None,
    };
    let time_texts = match elem_first_texts(element, "td.time") {
        Some(t) => t,
        None => return None,
    };
    let time = if time_texts.len() > 0 {
        time_texts[0].clone()
    } else {
        String::new()
    };
    let margin_text = match elem_first_text(element, "td.margin", 0) {
        Some(t) => t,
        None => return None,
    };
    let margin = trim(margin_text.as_str());
    let weight_texts = match elem_first_texts(element, "td.h_weight") {
        Some(t) => t,
        None => return None,
    };
    if weight_texts.len() == 0 {
        return None;
    }
    let horse_weight = match parse_unsigned_str(weight_texts[0].as_str(), 0xffff) {
        Some(w) => Some(w as u16),
        None => None,
    };
    let horse_weight_changes = if weight_texts.len() > 1 {
        weight_texts[1].clone()
    } else {
        String::new()
    };
    let pop_texts = match elem_first_texts(element, "td.pop") {
        Some(t) => t,
        None => return None,
    };
    let popularity = if pop_texts.len() > 0 {
        match parse_unsigned_str(pop_texts[0].as_str(), 0xff) {
            Some(p) => Some(p as u8),
            None => None,
        }
    } else {
        None
    };
    Some(
        ResultHorse {
            horse_number,
            waku_number,
            place,
            time,
            margin,
            horse_weight,
            horse_weight_changes,
            popularity,
            status,
        },
    )
}

/// The path of the result table: the first `div.race_result_unit table tbody`.
pub open spec fn result_table() -> Path {
    seq![(Some("div.race_result_unit table tbody"@), 0)]
}

/// Runner `i` of the result table, as a piece for [`gather`].
pub open spec fn result_rows(source: Seq<char>) -> spec_fn(nat) -> Option<Seq<ResultHorseView>> {
    |i: nat|
        match result_horse(source, result_table().push((Some("tr"@), i))) {
            Some(h) => Some(seq![h]),
            None => None,
        }
}

/// The runners of the result table, row by row.
pub open spec fn result_horses(source: Seq<char>) -> Option<Seq<ResultHorseView>> {
    if !selector_is_valid("div.race_result_unit table tbody"@) || match_count(
        source,
        Seq::empty(),
        "div.race_result_unit table tbody"@,
    ) == 0 || !selector_is_valid("tr"@) {
        None
    } else {
        gather(match_count(source, result_table(), "tr"@), result_rows(source))
    }
}

/// The views of a sequence of runners.
pub open spec fn result_horse_views(horses: Seq<ResultHorse>) -> Seq<ResultHorseView> {
    horses.map_values(|h: ResultHorse| h@)
}

/// The runners of the result table of `fragment`, or `None` when a row
/// cannot be read.
fn read_result_horses(fragment: &Document) -> (horses: Option<Vec<ResultHorse>>)
    ensures
        match horses {
            Some(v) => result_horses(fragment.source()) == Some(result_horse_views(v@)),
            None => result_horses(fragment.source()) is None,
        },
{
    let table_sel = match CssSelector::parse("div.race_result_unit table tbody") {
        Some(s) => s,
        None => return None,
    };
    let tables = fragment.select(&table_sel);
    if tables.len() == 0 {
        return None;
    }
    let horse_table = &tables[0];
    let row_sel = match CssSelector::parse("tr") {
        Some(s) => s,
        None => return None,
    };
    let rows = horse_table.select(&row_sel);
    let ghost source = fragment.source();
    let ghost f = result_rows(source);
    let mut out: Vec<ResultHorse> = Vec::new();
    let mut i: usize = 0;
    while i < rows.len()
        invariant
            source == fragment.source(),
            f == result_rows(source),
            selector_is_valid("div.race_result_unit table tbody"@),
            match_count(source, Seq::empty(), "div.race_result_unit table tbody"@) > 0,
            selector_is_valid("tr"@),
            rows.len() == match_count(source, result_table(), "tr"@),
            forall|k: int|
                0 <= k < rows.len() ==> (#[trigger] rows[k]).source() == source && rows[k].path()
                    == result_table().push((Some("tr"@), k as nat)),
            i <= rows.len(),
            gather(i as nat, f) == Some(result_horse_views(out@)),
        decreases rows.len() - i,
    {
        match get_result_horse(&rows[i]) {
            Some(h) => {
                let ghost before = result_horse_views(out@);
                let ghost hv = h@;
                out.push(h);
                assert(result_horse_views(out@) =~= before + seq![hv]);
            },
            None => {
                proof {
                    lemma_gather_missing((i + 1) as nat, rows.len() as nat, f);
                }
                return None;
            },
        }
        i = i + 1;
    }
    Some(out)
}

/// The selector of the payouts of bet `kind`.
pub open spec fn refund_selector(kind: Seq<char>) -> Seq<char> {
    "div.refund_area li."@ + kind + " div.yen"@
}

/// The amount that the text of a payout states: the text with its commas
/// left out, read as a `u32`.
pub open spec fn payout_in(text: Seq<char>) -> Option<u32> {
    match parse_unsigned(replace_char(text, ',', Seq::empty()), 0xffff_ffff) {
        Some(v) => Some(v as u32),
        None => None,
    }
}

/// The amount that the text of a payout states.
pub fn payout_of(text: &str) -> (amount: Option<u32>)
    ensures
        amount == payout_in(text@),
{
    let digits = replace(text, ',', "");
    proof {
        reveal_strlit("");
    }
    assert(""@ =~= Seq::<char>::empty());
    match parse_unsigned_str(digits.as_str(), 0xffff_ffff) {
        Some(v) => Some(v as u32),
        None => None,
    }
}

/// Payout `i` of bet `kind`: the first text of its `div.yen`; a `div.yen`
/// without text is skipped.
pub open spec fn refund_pieces(source: Seq<char>, kind: Seq<char>) -> spec_fn(nat) -> Option<
    Seq<u32>,
> {
    |i: nat|
        {
            let texts = text_nodes(source, seq![(Some(refund_selector(kind)), i)]);
            if texts.len() == 0 {
                Some(Seq::empty())
            } else {
                match payout_in(texts[0]) {
                    Some(v) => Some(seq![v]),
                    None => None,
                }
            }
        }
}

/// The payouts of bet `kind`.
pub open spec fn refunds(source: Seq<char>, kind: Seq<char>) -> Option<Seq<u32>> {
    if !selector_is_valid(refund_selector(kind)) {
        None
    } else {
        gather(
            match_count(source, Seq::empty(), refund_selector(kind)),
            refund_pieces(source, kind),
        )
    }
}

/// The payouts of bet `kind` on the result page `fragment`, or `None` when
/// one of them is not a number.
fn read_result_refund(fragment: &Document, kind: &str) -> (payouts: Option<Vec<u32>>)
    ensures
        match payouts {
            Some(v) => refunds(fragment.source(), kind@) == Some(v@),
            None => refunds(fragment.source(), kind@) is None,
        },
{
    let selector = String::from_str("div.refund_area li.").concat(kind).concat(" div.yen");
    let sel = match CssSelector::parse(selector.as_str()) {
        Some(s) => s,
        None => return None,
    };
    let items = fragment.select(&sel);
    let ghost source = fragment.source();
    let ghost f = refund_pieces(source, kind@);
    let mut out: Vec<u32> = Vec::new();
    let mut i: usize = 0;
    while i < items.len()
        invariant
            source == fragment.source(),
            f == refund_pieces(source, kind@),
            selector_is_valid(refund_selector(kind@)),
            items.len() == match_count(source, Seq::empty(), refund_selector(kind@)),
            forall|k: int|
                0 <= k < items.len() ==> (#[trigger] items[k]).source() == source
                    && items[k].path() == seq![(Some(refund_selector(kind@)), k as nat)],
            i <= items.len(),
            gather(i as nat, f) == Some(out@),
        decreases items.len() - i,
    {
        let texts = items[i].text();
        if texts.len() > 0 {
            assert(texts@.map_values(|t: String| t@)[0] == texts@[0]@);
            match payout_of(texts[0].as_str()) {
                Some(v) => {
                    let ghost before = out@;
                    out.push(v);
                    assert(out@ =~= before + seq![v]);
                },
                None => {
                    proof {
                        lemma_gather_missing((i + 1) as nat, items.len() as nat, f);
                    }
                    return None;
                },
            }
        } else {
            assert(out@ =~= out@ + Seq::<u32>::empty());
        }
        i = i + 1;
    }
    Some(out)
}

/// Whether the page marks a record time.
pub open spec fn has_record(source: Seq<char>) -> Option<bool> {
    if !selector_is_valid("strong.record"@) {
        None
    } else {
        Some(match_count(source, Seq::empty(), "strong.record"@) > 0)
    }
}

/// Whether the result page `fragment` holds a `strong.record`.
fn read_record(fragment: &Document) -> (record: Option<bool>)
    ensures
        record == has_record(fragment.source()),
{
    let sel = match CssSelector::parse("strong.record") {
        Some(s) => s,
        None => return None,
    };
    Some(fragment.select(&sel).len() > 0)
}

/// Track condition `i`: the first two texts of the `i`-th `div.baba li`.
pub open spec fn baba_pieces(source: Seq<char>) -> spec_fn(nat) -> Option<Seq<(Seq<char>, Seq<char>)>> {
    |i: nat|
        {
            let texts = text_nodes(source, seq![(Some("div.baba li"@), i)]);
            if texts.len() >= 2 {
                Some(seq![(texts[0], texts[1])])
            } else {
                None
            }
        }
}

/// The track conditions, as label and value.
pub open spec fn baba(source: Seq<char>) -> Option<Seq<(Seq<char>, Seq<char>)>> {
    if !selector_is_valid("div.baba li"@) {
        None
    } else {
        gather(match_count(source, Seq::empty(), "div.baba li"@), baba_pieces(source))
    }
}

fn get_baba(fragment: &Document) -> (pairs: Option<Vec<(String, String)>>)
    ensures
        pairs.deep_view() == baba(fragment.source()),
{
    let sel = match CssSelector::parse("div.baba li") {
        Some(s) => s,
        None => return None,
    };
    let items = fragment.select(&sel);
    let ghost source = fragment.source();
    let ghost f = baba_pieces(source);
    let mut out: Vec<(String, String)> = Vec::new();
    let mut i: usize = 0;
    while i < items.len()
        invariant
            source == fragment.source(),
            f == baba_pieces(source),
            selector_is_valid("div.baba li"@),
            items.len() == match_count(source, Seq::empty(), "div.baba li"@),
            forall|k: int|
                0 <= k < items.len() ==> (#[trigger] items[k]).source() == source
                    && items[k].path() == seq![(Some("div.baba li"@), k as nat)],
            i <= items.len(),
            gather(i as nat, f) == Some(out.deep_view()),
        decreases items.len() - i,
    {
        let texts = items[i].text();
        if texts.len() >= 2 {
            assert(texts@.map_values(|t: String| t@)[0] == texts@[0]@);
            assert(texts@.map_values(|t: String| t@)[1] == texts@[1]@);
            let label = texts[0].clone();
            let value = texts[1].clone();
            let ghost before = out.deep_view();
            let ghost pair = (label@, value@);
            out.push((label, value));
            assert(out.deep_view() =~= before + seq![pair]);
        } else {
            proof {
                lemma_gather_missing((i + 1) as nat, items.len() as nat, f);
            }
            return None;
        }
        i = i + 1;
    }
    Some(out)
}

/// Time row `i`: the first texts of the first two child elements of the
/// `i`-th `div.result_time_data tr` (`children()` filtered to elements).
pub open spec fn time_pieces(source: Seq<char>) -> spec_fn(nat) -> Option<Seq<(Seq<char>, Seq<char>)>> {
    |i: nat|
        {
            let row = seq![(Some("div.result_time_data tr"@), i)];
            let cells = element_children(source, row);
            let label = text_nodes(source, row.push((None, cells[0])));
            let value = text_nodes(source, row.push((None, cells[1])));
            if cells.len() >= 2 && label.len() > 0 && value.len() > 0 {
                Some(seq![(label[0], value[0])])
            } else {
                None
            }
        }
}

/// The times of the race, as label and value.
pub open spec fn result_times(source: Seq<char>) -> Option<Seq<(Seq<char>, Seq<char>)>> {
    if !selector_is_valid("div.result_time_data tr"@) {
        None
    } else {
        gather(match_count(source, Seq::empty(), "div.result_time_data tr"@), time_pieces(source))
    }
}

fn get_result_times(fragment: &Document) -> (pairs: Option<Vec<(String, String)>>)
    ensures
        pairs.deep_view() == result_times(fragment.source()),
{
    let sel = match CssSelector::parse("div.result_time_data tr") {
        Some(s) => s,
        None => return None,
    };
    let rows = fragment.select(&sel);
    let ghost source = fragment.source();
    let ghost f = time_pieces(source);
    let mut out: Vec<(String, String)> = Vec::new();
    let mut i: usize = 0;
    while i < rows.len()
        invariant
            source == fragment.source(),
            f == time_pieces(source),
            selector_is_valid("div.result_time_data tr"@),
            rows.len() == match_count(source, Seq::empty(), "div.result_time_data tr"@),
            forall|k: int|
                0 <= k < rows.len() ==> (#[trigger] rows[k]).source() == source
                    && rows[k].path() == seq![(Some("div.result_time_data tr"@), k as nat)],
            i <= rows.len(),
            gather(i as nat, f) == Some(out.deep_view()),
        decreases rows.len() - i,
    {
        let cells = rows[i].child_elements();
        if cells.len() < 2 {
            proof {
                lemma_gather_missing((i + 1) as nat, rows.len() as nat, f);
            }
            return None;
        }
        let label_texts = cells[0].text();
        let value_texts = cells[1].text();
        if label_texts.len() == 0 || value_texts.len() == 0 {
            proof {
                lemma_gather_missing((i + 1) as nat, rows.len() as nat, f);
            }
            return None;
        }
        assert(label_texts@.map_values(|t: String| t@)[0] == label_texts@[0]@);
        assert(value_texts@.map_values(|t: String| t@)[0] == value_texts@[0]@);
        let label = label_texts[0].clone();
        let value = value_texts[0].clone();
        let ghost before = out.deep_view();
        let ghost pair = (label@, value@);
        out.push((label, value));
        assert(out.deep_view() =~= before + seq![pair]);
        i = i + 1;
    }
    Some(out)
}

/// The payouts of all eight kinds of bet.
pub open spec fn refund_table(source: Seq<char>) -> Option<RefundView> {
    match (
        refunds(source, "win"@),
        refunds(source, "place"@),
        refunds(source, "wakuren"@),
        refunds(source, "wide"@),
        refunds(source, "umaren"@),
        refunds(source, "umatan"@),
        refunds(source, "trio"@),
        refunds(source, "tierce"@),
    ) {
        (
            Some(win),
            Some(place),
            Some(wakuren),
            Some(wide),
            Some(umaren),
            Some(umatan),
            Some(trio),
            Some(tierce),
        ) => Some(RefundView { win, place, wakuren, wide, umaren, umatan, trio, tierce }),
        _ => None,
    }
}

fn get_refund(fragment: &Document) -> (refund: Option<Refund>)
    ensures
        match refund {
            Some(r) => refund_table(fragment.source()) == Some(r@),
            None => refund_table(fragment.source()) is None,
        },
{
    let win = match read_result_refund(fragment, "win") {
        Some(v) => v,
        None => return None,
    };
    let place = match read_result_refund(fragment, "place") {
        Some(v) => v,
        None => return None,
    };
    let wakuren = match read_result_refund(fragment, "wakuren") {
        Some(v) => v,
        None => return None,
    };
    let wide = match read_result_refund(fragment, "wide") {
        Some(v) => v,
        None => return None,
    };
    let umaren = match read_result_refund(fragment, "umaren") {
        Some(v) => v,
        None => return None,
    };
    let umatan = match read_result_refund(fragment, "umatan") {
        Some(v) => v,
        None => return None,
    };
    let trio = match read_result_refund(fragment, "trio") {
        Some(v) => v,
        None => return None,
    };
    let tierce = match read_result_refund(fragment, "tierce") {
        Some(v) => v,
        None => return None,
    };
    Some(Refund { win, place, wakuren, wide, umaren, umatan, trio, tierce })
}

/// The result that the page `source` shows.
pub open spec fn race_result(source: Seq<char>) -> Option<RaceResultView> {
    match (
        first_text(source, Seq::empty(), "span.race_name"@, 0),
        baba(source),
        result_times(source),
        refund_table(source),
        result_horses(source),
        has_record(source),
    ) {
        (
            Some(race_name),
            Some(baba),
            Some(result_time),
            Some(refund),
            Some(horses),
            Some(record),
        ) => Some(RaceResultView { race_name, baba, result_time, refund, horses, record }),
        _ => None,
    }
}

/// The result of a race that the page `contents` shows; `None` when the page
/// lacks a part that the result needs.
fn read_result(contents: &str) -> (result: Option<RaceResult>)
    ensures
        match result {
            Some(r) => race_result(contents@) == Some(r@),
            None => race_result(contents@) is None,
        },
{
    let fragment = Document::parse(contents);
    let race_name = match doc_first_text(&fragment, "span.race_name", 0) {
        Some(n) => n,
        None => return None,
    };
    let baba = match get_baba(&fragment) {
        Some(b) => b,
        None => return None,
    };
    let result_time = match get_result_times(&fragment) {
        Some(t) => t,
        None => return None,
    };
    let refund = match get_refund(&fragment) {
        Some(r) => r,
        None => return None,
    };
    let horses = match read_result_horses(&fragment) {
        Some(h) => h,
        None => return None,
    };
    let record = match read_record(&fragment) {
        Some(r) => r,
        None => return None,
    };
    let result = RaceResult { race_name, baba, result_time, refund, horses, record };
    assert(result@.horses =~= result_horse_views(result.horses@));
    Some(result)
}

/// The runners of the result table of `fragment`.  Every row must be
/// readable.
pub fn get_result_horses(fragment: &Document) -> (horses: Vec<ResultHorse>)
    requires
        result_horses(fragment.source()) is Some,
    ensures
        result_horses(fragment.source()) == Some(result_horse_views(horses@)),
{
    read_result_horses(fragment).unwrap()
}

/// The runners of the result table of `fragment`, or `None` when there is
/// no table or a row cannot be read.
pub fn try_get_result_horses(fragment: &Document) -> (horses: Option<Vec<ResultHorse>>)
    ensures
        match horses {
            Some(v) => result_horses(fragment.source()) == Some(result_horse_views(v@)),
            None => result_horses(fragment.source()) is None,
        },
{
    read_result_horses(fragment)
}

/// The payouts of bet `kind` on the result page `fragment`.  Every payout
/// must be a number.
pub fn get_result_refund(fragment: &Document, kind: &str) -> (payouts: Vec<u32>)
    requires
        refunds(fragment.source(), kind@) is Some,
    ensures
        refunds(fragment.source(), kind@) == Some(payouts@),
{
    read_result_refund(fragment, kind).unwrap()
}

/// The payouts of bet `kind` on the result page `fragment`, or `None` when
/// one of them is not a number.
pub fn try_get_result_refund(fragment: &Document, kind: &str) -> (payouts: Option<Vec<u32>>)
    ensures
        match payouts {
            Some(v) => refunds(fragment.source(), kind@) == Some(v@),
            None => refunds(fragment.source(), kind@) is None,
        },
{
    read_result_refund(fragment, kind)
}

/// Whether the result page `fragment` holds a `strong.record`.
pub fn get_record(fragment: &Document) -> (record: bool)
    requires
        has_record(fragment.source()) is Some,
    ensures
        has_record(fragment.source()) == Some(record),
{
    read_record(fragment).unwrap()
}

/// Whether the result page `fragment` holds a `strong.record`; `None` when
/// the selector is refused.
pub fn try_get_record(fragment: &Document) -> (record: Option<bool>)
    ensures
        record == has_record(fragment.source()),
{
    read_record(fragment)
}

/// The result of a race that the page `contents` shows.  The page must hold
/// every part that the result needs.
pub fn get_result(contents: String) -> (result: RaceResult)
    requires
        race_result(contents@) is Some,
    ensures
        race_result(contents@) == Some(result@),
{
    read_result(contents.as_str()).unwrap()
}

/// The result of a race that the page `contents` shows, or `None` when the
/// page lacks a part that the result needs.
pub fn try_get_result(contents: String) -> (result: Option<RaceResult>)
    ensures
        match result {
            Some(r) => race_result(contents@) == Some(r@),
            None => race_result(contents@) is None,
        },
{
    read_result(contents.as_str())
}

/// Only a runner that runs normally has a place.
pub proof fn lemma_place_only_when_normal(text: Seq<char>)
    ensures
        place_and_status(text).0 is Some ==> place_and_status(text).1 == WakubanStatus::Normal,
        place_and_status(text).1 != WakubanStatus::Normal ==> place_and_status(text).0 is None,
{
}

/// In a result table, a runner with a place ran normally, one that was
/// excluded, stopped or cancelled has no place, and the margin has no white
/// space around it.
pub proof fn lemma_result_runner(source: Seq<char>, row: Path)
    ensures
        result_horse(source, row) matches Some(h) ==> {
            &&& h.place is Some ==> h.status == WakubanStatus::Normal
            &&& h.status != WakubanStatus::Normal ==> h.place is None
            &&& trimmed(h.margin) == h.margin
        },
{
    if let Some(text) = first_text(source, row, "td.place"@, 0) {
        lemma_place_only_when_normal(text);
    }
    if let Some(margin) = first_text(source, row, "td.margin"@, 0) {
        lemma_trim_idempotent(margin);
    }
}

/// None of the three marks 除外, 中止 and 取消 is made of digits.
proof fn lemma_marks_not_digits(text: Seq<char>)
    requires
        text.len() > 0,
        all_digits(text),
    ensures
        text != "除外"@,
        text != "中止"@,
        text != "取消"@,
{
    reveal_strlit("除外");
    reveal_strlit("中止");
    reveal_strlit("取消");
    assert(is_digit(text[0]));
    assert("除外"@[0] == '除');
    assert("中止"@[0] == '中');
    assert("取消"@[0] == '取');
}

/// A place text made only of ASCII digits is a finish: the runner ran
/// normally, and its place is the number the digits stand for when that fits
/// a `u8` (as `str::parse::<u8>` reads it), none otherwise.
pub proof fn lemma_place_of_digits(text: Seq<char>)
    requires
        text.len() > 0,
        all_digits(text),
    ensures
        place_and_status(text).1 == WakubanStatus::Normal,
        digits_value(text) <= 255 ==> place_and_status(text).0 == Some(digits_value(text) as u8),
        digits_value(text) > 255 ==> place_and_status(text).0 is None,
{
    lemma_marks_not_digits(text);
    if digits_value(text) <= 255 {
        lemma_parse_digits(text, 255);
    } else {
        lemma_parse_digits_too_large(text, 255);
    }
}

/// In a result table, a runner whose `td.place` text is a number of at most
/// 255 finished in that place and ran normally.
pub proof fn lemma_runner_place(source: Seq<char>, row: Path, text: Seq<char>)
    requires
        first_text(source, row, "td.place"@, 0) == Some(text),
        text.len() > 0,
        all_digits(text),
        digits_value(text) <= 255,
    ensures
        result_horse(source, row) matches Some(h) ==> h.place == Some(digits_value(text) as u8)
            && h.status == WakubanStatus::Normal,
{
    lemma_place_of_digits(text);
}

/// Each field of the payouts holds the payouts of the bet whose class it is
/// named after, and the table is there exactly when every kind reads.
pub proof fn lemma_refund_fields(source: Seq<char>)
    ensures
        refund_table(source) is Some <==> {
            &&& refunds(source, "win"@) is Some
            &&& refunds(source, "place"@) is Some
            &&& refunds(source, "wakuren"@) is Some
            &&& refunds(source, "wide"@) is Some
            &&& refunds(source, "umaren"@) is Some
            &&& refunds(source, "umatan"@) is Some
            &&& refunds(source, "trio"@) is Some
            &&& refunds(source, "tierce"@) is Some
        },
        refund_table(source) matches Some(r) ==> {
            &&& Some(r.win) == refunds(source, "win"@)
            &&& Some(r.place) == refunds(source, "place"@)
            &&& Some(r.wakuren) == refunds(source, "wakuren"@)
            &&& Some(r.wide) == refunds(source, "wide"@)
            &&& Some(r.umaren) == refunds(source, "umaren"@)
            &&& Some(r.umatan) == refunds(source, "umatan"@)
            &&& Some(r.trio) == refunds(source, "trio"@)
            &&& Some(r.tierce) == refunds(source, "tierce"@)
        },
{
}

/// A result page's payouts are those of its eight kinds of bet, each in
/// the field named after its class.
pub proof fn lemma_result_refunds(source: Seq<char>)
    ensures
        race_result(source) matches Some(r) ==> {
            &&& Some(r.refund.win) == refunds(source, "win"@)
            &&& Some(r.refund.place) == refunds(source, "place"@)
            &&& Some(r.refund.wakuren) == refunds(source, "wakuren"@)
            &&& Some(r.refund.wide) == refunds(source, "wide"@)
            &&& Some(r.refund.umaren) == refunds(source, "umaren"@)
            &&& Some(r.refund.umatan) == refunds(source, "umatan"@)
            &&& Some(r.refund.trio) == refunds(source, "trio"@)
            &&& Some(r.refund.tierce) == refunds(source, "tierce"@)
        },
{
    lemma_refund_fields(source);
}

/// The amount that a payout text states is the number its digits stand for,
/// commas left out, when that fits a `u32` (as `str::parse::<u32>` reads
/// it), and none when it does not.
pub proof fn lemma_payout_of_digits(text: Seq<char>)
    requires
        replace_char(text, ',', Seq::empty()).len() > 0,
        all_digits(replace_char(text, ',', Seq::empty())),
    ensures
        digits_value(replace_char(text, ',', Seq::empty())) <= 0xffff_ffff ==> payout_in(text) == Some(
            digits_value(replace_char(text, ',', Seq::empty())) as u32,
        ),
        digits_value(replace_char(text, ',', Seq::empty())) > 0xffff_ffff ==> payout_in(text) is None,
{
    let u = replace_char(text, ',', Seq::empty());
    if digits_value(u) <= 0xffff_ffff {
        lemma_parse_digits(u, 0xffff_ffff);
    } else {
        lemma_parse_digits_too_large(u, 0xffff_ffff);
    }
}

/// The payouts of a bet read exactly when the selector is valid and every
/// `div.yen` of the bet either has no text or states an amount; when every
/// one has a text, there is one payout per `div.yen`, in order, each the
/// amount its first text states.
pub proof fn lemma_refunds(source: Seq<char>, kind: Seq<char>)
    ensures
        refunds(source, kind) is Some <==> selector_is_valid(refund_selector(kind)) && forall|i: nat|
            i < match_count(source, Seq::empty(), refund_selector(kind)) ==> {
                let t = #[trigger] text_nodes(source, seq![(Some(refund_selector(kind)), i)]);
                t.len() == 0 || payout_in(t[0]) is Some
            },
        (refunds(source, kind) is Some && forall|i: nat|
            i < match_count(source, Seq::empty(), refund_selector(kind)) ==> (#[trigger] text_nodes(
                source,
                seq![(Some(refund_selector(kind)), i)],
            )).len() > 0) ==> {
            let v = refunds(source, kind).unwrap();
            &&& v.len() == match_count(source, Seq::empty(), refund_selector(kind))
            &&& forall|i: int|
                0 <= i < v.len() ==> Some(#[trigger] v[i]) == payout_in(
                    text_nodes(source, seq![(Some(refund_selector(kind)), i as nat)])[0],
                )
        },
{
    let sel = refund_selector(kind);
    let n = match_count(source, Seq::empty(), sel);
    let f = refund_pieces(source, kind);
    lemma_gather_some(n, f);
    assert forall|i: nat| i < n implies ((#[trigger] f(i)) is Some <==> {
        let t = text_nodes(source, seq![(Some(sel), i)]);
        t.len() == 0 || payout_in(t[0]) is Some
    }) by {}
    if selector_is_valid(sel) {
        if forall|i: nat| i < n ==> {
            let t = #[trigger] text_nodes(source, seq![(Some(sel), i)]);
            t.len() == 0 || payout_in(t[0]) is Some
        } {
            assert forall|i: nat| i < n implies (#[trigger] f(i)) is Some by {
                assert(text_nodes(source, seq![(Some(sel), i)]) == text_nodes(source, seq![(Some(sel), i)]));
            }
        }
        if refunds(source, kind) is Some {
            assert forall|i: nat| i < n implies {
                let t = #[trigger] text_nodes(source, seq![(Some(sel), i)]);
                t.len() == 0 || payout_in(t[0]) is Some
            } by {
                assert(f(i) is Some);
            }
        }
    }
    if refunds(source, kind) is Some && forall|i: nat|
        i < n ==> (#[trigger] text_nodes(source, seq![(Some(sel), i)])).len() > 0 {
        assert forall|i: nat| i < n implies (#[trigger] f(i) matches Some(p) ==> p.len() == 1) by {
            assert(text_nodes(source, seq![(Some(sel), i)]).len() > 0);
        }
        lemma_gather_singletons(n, f);
        let v = refunds(source, kind).unwrap();
        assert forall|i: int| 0 <= i < v.len() implies Some(#[trigger] v[i]) == payout_in(
            text_nodes(source, seq![(Some(sel), i as nat)])[0],
        ) by {
            assert(f(i as nat) == Some(seq![v[i]]));
            assert(text_nodes(source, seq![(Some(sel), i as nat)]).len() > 0);
            assert(seq![v[i]][0] == v[i]);
        }
    }
}

/// A runner of a result table reads exactly when its `td.place` text, frame
/// number, `td.num` text (a number that fits a `u8`), `td.time`,
/// `td.margin` text, `td.h_weight` texts (at least one) and `td.pop` are
/// there; then it holds them: place and status from the place text, the
/// time the first `td.time` text or nothing, the margin trimmed, the weight
/// the first `td.h_weight` text read as a `u16` and its change the second
/// text or nothing, the popularity the first `td.pop` text read as a `u8`.
pub proof fn lemma_runner_fields(source: Seq<char>, row: Path)
    ensures
        result_horse(source, row) is Some <==> {
            &&& first_text(source, row, "td.place"@, 0) is Some
            &&& frame_number(source, row, "td.waku img"@) is Some
            &&& first_text(source, row, "td.num"@, 0) matches Some(num) && parse_unsigned(num, 255) is Some
            &&& first_texts(source, row, "td.time"@) is Some
            &&& first_text(source, row, "td.margin"@, 0) is Some
            &&& first_texts(source, row, "td.h_weight"@) matches Some(w) && w.len() > 0
            &&& first_texts(source, row, "td.pop"@) is Some
        },
        result_horse(source, row) matches Some(h) ==> {
            &&& (h.place, h.status) == place_and_status(
                first_text(source, row, "td.place"@, 0).unwrap(),
            )
            &&& frame_number(source, row, "td.waku img"@) == Some(h.waku_number)
            &&& parse_unsigned(first_text(source, row, "td.num"@, 0).unwrap(), 255) == Some(
                h.horse_number as nat,
            )
            &&& h.time == text_or_empty(first_texts(source, row, "td.time"@).unwrap(), 0)
            &&& h.margin == trimmed(first_text(source, row, "td.margin"@, 0).unwrap())
            &&& (match parse_unsigned(first_texts(source, row, "td.h_weight"@).unwrap()[0], 0xffff) {
                Some(w) => h.horse_weight == Some(w as u16),
                None => h.horse_weight is None,
            })
            &&& h.horse_weight_changes == text_or_empty(
                first_texts(source, row, "td.h_weight"@).unwrap(),
                1,
            )
            &&& (first_texts(source, row, "td.pop"@).unwrap().len() == 0 ==> h.popularity is None)
            &&& (first_texts(source, row, "td.pop"@).unwrap().len() > 0 ==> match parse_unsigned(
                first_texts(source, row, "td.pop"@).unwrap()[0],
                255,
            ) {
                Some(p) => h.popularity == Some(p as u8),
                None => h.popularity is None,
            })
        },
{
}

/// The runners of a result table: one for each `tr` of the first
/// `div.race_result_unit table tbody`, in order, each the runner read from
/// that row; they read exactly when that table is there and every row reads.
pub proof fn lemma_result_table(source: Seq<char>)
    ensures
        result_horses(source) is Some <==> {
            &&& selector_is_valid("div.race_result_unit table tbody"@)
            &&& match_count(source, Seq::empty(), "div.race_result_unit table tbody"@) > 0
            &&& selector_is_valid("tr"@)
            &&& forall|i: nat|
                i < match_count(source, result_table(), "tr"@) ==> (#[trigger] result_horse(
                    source,
                    result_table().push((Some("tr"@), i)),
                )) is Some
        },
        result_horses(source) matches Some(t) ==> {
            &&& t.len() == match_count(source, result_table(), "tr"@)
            &&& forall|i: int|
                0 <= i < t.len() ==> result_horse(source, result_table().push((Some("tr"@), i as nat)))
                    == Some(#[trigger] t[i])
        },
{
    let n = match_count(source, result_table(), "tr"@);
    let f = result_rows(source);
    assert forall|i: nat| i < n implies (#[trigger] f(i) matches Some(p) ==> p.len() == 1) by {}
    lemma_gather_singletons(n, f);
    assert forall|i: nat| i < n implies ((#[trigger] f(i)) is Some <==> result_horse(
        source,
        result_table().push((Some("tr"@), i)),
    ) is Some) by {}
    if result_horses(source) is Some {
        let t = result_horses(source).unwrap();
        assert forall|i: int| 0 <= i < t.len() implies result_horse(
            source,
            result_table().push((Some("tr"@), i as nat)),
        ) == Some(#[trigger] t[i]) by {
            assert(f(i as nat) == Some(seq![t[i]]));
            assert(seq![t[i]][0] == t[i]);
        }
        assert forall|i: nat| i < n implies (#[trigger] result_horse(
            source,
            result_table().push((Some("tr"@), i)),
        )) is Some by {
            assert(f(i) is Some);
        }
    }
    if selector_is_valid("div.race_result_unit table tbody"@) && match_count(
        source,
        Seq::empty(),
        "div.race_result_unit table tbody"@,
    ) > 0 && selector_is_valid("tr"@) {
        if forall|i: nat|
            i < n ==> (#[trigger] result_horse(source, result_table().push((Some("tr"@), i)))) is Some {
            assert forall|i: nat| i < n implies (#[trigger] f(i)) is Some by {
                assert(result_horse(source, result_table().push((Some("tr"@), i))) is Some);
            }
        }
    }
}

/// The track conditions: one for each `div.baba li`, in order, the first
/// text its label and the second its value; they read exactly when every
/// such item has two texts.
pub proof fn lemma_baba(source: Seq<char>)
    ensures
        baba(source) is Some <==> selector_is_valid("div.baba li"@) && forall|i: nat|
            i < match_count(source, Seq::empty(), "div.baba li"@) ==> (#[trigger] text_nodes(
                source,
                seq![(Some("div.baba li"@), i)],
            )).len() >= 2,
        baba(source) matches Some(b) ==> {
            &&& b.len() == match_count(source, Seq::empty(), "div.baba li"@)
            &&& forall|i: int|
                0 <= i < b.len() ==> {
                    let t = text_nodes(source, seq![(Some("div.baba li"@), i as nat)]);
                    (#[trigger] b[i]) == (t[0], t[1])
                }
        },
{
    let sel = "div.baba li"@;
    let n = match_count(source, Seq::empty(), sel);
    let f = baba_pieces(source);
    assert forall|i: nat| i < n implies (#[trigger] f(i) matches Some(p) ==> p.len() == 1) by {}
    lemma_gather_singletons(n, f);
    assert forall|i: nat| i < n implies ((#[trigger] f(i)) is Some <==> text_nodes(
        source,
        seq![(Some(sel), i)],
    ).len() >= 2) by {}
    if baba(source) is Some {
        let b = baba(source).unwrap();
        assert forall|i: int| 0 <= i < b.len() implies {
            let t = text_nodes(source, seq![(Some(sel), i as nat)]);
            (#[trigger] b[i]) == (t[0], t[1])
        } by {
            assert(f(i as nat) == Some(seq![b[i]]));
            assert(seq![b[i]][0] == b[i]);
        }
        assert forall|i: nat| i < n implies (#[trigger] text_nodes(source, seq![(Some(sel), i)])).len()
            >= 2 by {
            assert(f(i) is Some);
        }
    }
    if selector_is_valid(sel) {
        if forall|i: nat| i < n ==> (#[trigger] text_nodes(source, seq![(Some(sel), i)])).len() >= 2 {
            assert forall|i: nat| i < n implies (#[trigger] f(i)) is Some by {
                assert(text_nodes(source, seq![(Some(sel), i)]).len() >= 2);
            }
        }
    }
}

/// The times of a race: one for each `div.result_time_data tr`, in order,
/// the label the first text of its first child element and the value the
/// first text of its second child element.
pub proof fn lemma_result_times(source: Seq<char>)
    ensures
        result_times(source) matches Some(r) ==> {
            &&& r.len() == match_count(source, Seq::empty(), "div.result_time_data tr"@)
            &&& forall|i: int|
                #![trigger r[i]]
                0 <= i < r.len() ==> {
                    &&& element_children(source, seq![(Some("div.result_time_data tr"@), i as nat)]).len() >= 2
                    &&& r[i].0 == text_nodes(
                        source,
                        seq![(Some("div.result_time_data tr"@), i as nat)].push(
                            (None, element_children(source, seq![(Some("div.result_time_data tr"@), i as nat)])[0]),
                        ),
                    )[0]
                    &&& r[i].1 == text_nodes(
                        source,
                        seq![(Some("div.result_time_data tr"@), i as nat)].push(
                            (None, element_children(source, seq![(Some("div.result_time_data tr"@), i as nat)])[1]),
                        ),
                    )[0]
                }
        },
{
    let sel = "div.result_time_data tr"@;
    let n = match_count(source, Seq::empty(), sel);
    let f = time_pieces(source);
    assert forall|i: nat| i < n implies (#[trigger] f(i) matches Some(p) ==> p.len() == 1) by {}
    lemma_gather_singletons(n, f);
    if result_times(source) is Some {
        let r = result_times(source).unwrap();
        assert forall|i: int|
            #![trigger r[i]]
            0 <= i < r.len() implies {
            &&& element_children(source, seq![(Some(sel), i as nat)]).len() >= 2
            &&& r[i].0 == text_nodes(
                source,
                seq![(Some(sel), i as nat)].push((None, element_children(source, seq![(Some(sel), i as nat)])[0])),
            )[0]
            &&& r[i].1 == text_nodes(
                source,
                seq![(Some(sel), i as nat)].push((None, element_children(source, seq![(Some(sel), i as nat)])[1])),
            )[0]
        } by {
            let row = seq![(Some(sel), i as nat)];
            let cells = element_children(source, row);
            let label = text_nodes(source, row.push((None, cells[0])));
            let value = text_nodes(source, row.push((None, cells[1])));
            assert(f(i as nat) == Some(seq![r[i]]));
            assert(f(i as nat) == if cells.len() >= 2 && label.len() > 0 && value.len() > 0 {
                Some(seq![(label[0], value[0])])
            } else {
                None
            });
            assert(seq![r[i]][0] == r[i]);
        }
        assert(r.len() == n);
        assert forall|i: int| 0 <= i < r.len() implies #[trigger] element_children(
            source,
            seq![(Some("div.result_time_data tr"@), i as nat)],
        ).len() >= 2 by {
            let row = seq![(Some(sel), i as nat)];
            let cells = element_children(source, row);
            let label = text_nodes(source, row.push((None, cells[0])));
            let value = text_nodes(source, row.push((None, cells[1])));
            assert(f(i as nat) == Some(seq![r[i]]));
            assert(f(i as nat) == if cells.len() >= 2 && label.len() > 0 && value.len() > 0 {
                Some(seq![(label[0], value[0])])
            } else {
                None
            });
        }
    }
}

/// The parts of a race result: the race name, track conditions, times,
/// payouts, runners, and whether a `strong.record` is there.
pub proof fn lemma_result_fields(source: Seq<char>)
    ensures
        race_result(source) matches Some(r) ==> {
            &&& first_text(source, Seq::empty(), "span.race_name"@, 0) == Some(r.race_name)
            &&& baba(source) == Some(r.baba)
            &&& result_times(source) == Some(r.result_time)
            &&& refund_table(source) == Some(r.refund)
            &&& result_horses(source) == Some(r.horses)
            &&& selector_is_valid("strong.record"@)
            &&& r.record == (match_count(source, Seq::empty(), "strong.record"@) > 0)
        },
{
}

} // verus!
