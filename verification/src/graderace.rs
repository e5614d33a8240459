//! The list of graded races of a year.
use crate::common::{
    elem_first_text, first_text, gather, lemma_gather_missing, lemma_gather_singletons,
};
use crate::dom::{attribute, match_count, selector_is_valid, text_nodes, CssSelector, Document, Element, Path};
use crate::text::{
    after_last, all_digits, decimal, decimal_string, digits_value, is_digit, last_part,
    lemma_parse_decimal_roundtrip, lemma_parse_digits, lemma_parse_digits_too_large,
    lemma_replace_char_absent, parse_unsigned, parse_unsigned_str, replace, replace_char,
};
use chrono::Datelike;
use vstd::prelude::*;

verus! {

/// A calendar date.
#[derive(Debug, Clone, Copy, PartialEq, Eq, Structural)]
pub struct Date {
    pub year: i32,
    pub month: u32,
    pub day: u32,
}

pub open spec fn is_leap_year(year: int) -> bool {
    year % 4 == 0 && (year % 100 != 0 || year % 400 == 0)
}

/// The number of days of `month` in `year`, in the proleptic Gregorian
/// calendar.
pub open spec fn days_in_month(year: int, month: int) -> int {
    if month == 2 {
        if is_leap_year(year) {
            29
        } else {
            28
        }
    } else if month == 4 || month == 6 || month == 9 || month == 11 {
        30
    } else {
        31
    }
}

/// Whether `year`, `month`, `day` name a day of the calendar.
pub open spec fn is_calendar_date(year: int, month: int, day: int) -> bool {
    1 <= month <= 12 && 1 <= day <= days_in_month(year, month)
}

/// The year, month and day of the date that `chrono::NaiveDate::parse_from_str`
/// reads from `text` with `format`, `None` when it reads none.
pub uninterp spec fn chrono_date(text: Seq<char>, format: Seq<char>) -> Option<(int, int, int)>;

/// Calls `chrono::NaiveDate::parse_from_str`.  A `NaiveDate` is always a day
/// of the proleptic Gregorian calendar.
#[verifier::external_body]
fn parse_date(text: &str, format: &str) -> (date: Option<Date>)
    ensures
        match date {
            Some(d) => chrono_date(text@, format@) == Some((d.year as int, d.month as int, d.day as int))
                && is_calendar_date(d.year as int, d.month as int, d.day as int),
            None => chrono_date(text@, format@) is None,
        },
{
    match chrono::NaiveDate::parse_from_str(text, format) {
        Ok(d) => Some(Date { year: d.year(), month: d.month(), day: d.day() }),
        Err(_) => None,
    }
}

/// A graded race.
pub struct Race {
    pub date: Date,
    pub grade: String,
    pub name: String,
    pub place: String,
    pub age: String,
    pub course_type: String,
    pub course_distance: u16,
}

/// What a [`Race`] holds.
pub struct RaceView {
    pub date: Date,
    pub grade: Seq<char>,
    pub name: Seq<char>,
    pub place: Seq<char>,
    pub age: Seq<char>,
    pub course_type: Seq<char>,
    pub course_distance: u16,
}

impl View for Race {
    type V = RaceView;

    open spec fn view(&self) -> RaceView {
        RaceView {
            date: self.date,
            grade: self.grade@,
            name: self.name@,
            place: self.place@,
            age: self.age@,
            course_type: self.course_type@,
            course_distance: self.course_distance,
        }
    }
}

/// The text that names the year of the list: `year` in decimal, or the text
/// `this_year` of the current year when `year` is `0`.
pub open spec fn chosen_year(year: u16, this_year: Seq<char>) -> Seq<char> {
    if year == 0 {
        this_year
    } else {
        decimal(year as nat)
    }
}

/// The text that names the year of the list: `year`, or the current year
/// `this_year` when `year` is `0`.
pub fn year_text(year: u16, this_year: &str) -> (text: String)
    ensures
        text@ == chosen_year(year, this_year@),
{
    if year == 0 {
        String::from_str(this_year)
    } else {
        decimal_string(year as u64)
    }
}

/// The address, below the site's root, of the list of graded races of `year`
/// (`datafile/seiseki/replay/{year}/jyusyo.html` with the year put in).
pub fn jyusyo_list_path(year: &str) -> (path: String)
    ensures
        path@ == "datafile/seiseki/replay/"@ + year@ + "/jyusyo.html"@,
{
    String::from_str("datafile/seiseki/replay/").concat(year).concat("/jyusyo.html")
}

/// Text node `n` of the first element that `query` matches in a row.  The
/// row must hold such a text.
pub fn get_race_td_item(element: &Element, query: &str, n: usize) -> (item: String)
    requires
        first_text(element.source(), element.path(), query@, n as nat) is Some,
    ensures
        first_text(element.source(), element.path(), query@, n as nat) == Some(item@),
{
    elem_first_text(element, query, n).unwrap()
}

/// Text node `n` of the first element that `query` matches in a row, or
/// `None` when the row holds no such text.
pub fn try_get_race_td_item(element: &Element, query: &str, n: usize) -> (item: Option<String>)
    ensures
        item.deep_view() == first_text(element.source(), element.path(), query@, n as nat),
{
    elem_first_text(element, query, n)
}

/// The name of the race in a row: the last text node of its `td.race`.
pub open spec fn race_name(source: Seq<char>, row: Path) -> Option<Seq<char>> {
    if !selector_is_valid("td.race"@) || match_count(source, row, "td.race"@) == 0 {
        None
    } else {
        let texts = text_nodes(source, row.push((Some("td.race"@), 0)));
        if texts.len() > 0 {
            Some(texts.last())
        } else {
            None
        }
    }
}

/// The name of the race in a row, or `None` when it has none.
fn read_race_name(element: &Element) -> (name: Option<String>)
    ensures
        name.deep_view() == race_name(element.source(), element.path()),
{
    let sel = match CssSelector::parse("td.race") {
        Some(s) => s,
        None => return None,
    };
    let found = element.select(&sel);
    if found.len() == 0 {
        return None;
    }
    let texts = found[0].text();
    if texts.len() > 0 {
        let last = texts.len() - 1;
        assert(texts@.map_values(|t: String| t@)[last as int] == texts@[last as int]@);
        Some(texts[last].clone())
    } else {
        None
    }
}

/// The name of the race in a row, which must have one.
pub fn get_race_name(element: &Element) -> (name: String)
    requires
        race_name(element.source(), element.path()) is Some,
    ensures
        race_name(element.source(), element.path()) == Some(name@),
{
    read_race_name(element).unwrap()
}

/// The name of the race in a row, or `None` when it has none.
pub fn try_get_race_name(element: &Element) -> (name: Option<String>)
    ensures
        name.deep_view() == race_name(element.source(), element.path()),
{
    read_race_name(element)
}

/// The format of the date of a row, prefixed by the year and a comma.
pub open spec fn date_format() -> Seq<char> {
    "%Y,%m月%d日"@
}

/// The date that `day` (as the list writes it) names in `year`.
pub open spec fn date_in(year: Seq<char>, day: Seq<char>) -> Option<Date> {
    match chrono_date(year + ","@ + day, date_format()) {
        Some((y, m, d)) => Some(Date { year: y as i32, month: m as u32, day: d as u32 }),
        None => None,
    }
}

/// The date that `day` names in `year`: `year`, a comma and `day`, read
/// with the format of the list.
pub fn date_of(year: &str, day: &str) -> (date: Option<Date>)
    ensures
        date == date_in(year@, day@),
        date matches Some(d) ==> is_calendar_date(d.year as int, d.month as int, d.day as int),
{
    let text = String::from_str(year).concat(",").concat(day);
    parse_date(text.as_str(), "%Y,%m月%d日")
}

/// The date of the race in a row: its `td.date` text, read in `year`.
pub open spec fn race_date(year: Seq<char>, source: Seq<char>, row: Path) -> Option<Date> {
    match first_text(source, row, "td.date"@, 0) {
        Some(day) => date_in(year, day),
        None => None,
    }
}

fn get_race_date(year: &str, element: &Element) -> (date: Option<Date>)
    ensures
        date == race_date(year@, element.source(), element.path()),
        date matches Some(d) ==> is_calendar_date(d.year as int, d.month as int, d.day as int),
{
    match elem_first_text(element, "td.date", 0) {
        Some(day) => date_of(year, day.as_str()),
        None => None,
    }
}

/// The grade of the race in a row: the last class of its first `td.race span`.
pub open spec fn race_grade(source: Seq<char>, row: Path) -> Option<Seq<char>> {
    if !selector_is_valid("td.race span"@) || match_count(source, row, "td.race span"@) == 0 {
        None
    } else {
        match attribute(source, row.push((Some("td.race span"@), 0)), "class"@) {
            Some(class) => Some(after_last(class, ' ')),
            None => None,
        }
    }
}

fn get_race_grade(element: &Element) -> (grade: Option<String>)
    ensures
        grade.deep_view() == race_grade(element.source(), element.path()),
{
    let sel = match CssSelector::parse("td.race span") {
        Some(s) => s,
        None => return None,
    };
    let found = element.select(&sel);
    if found.len() == 0 {
        return None;
    }
    match found[0].attr("class") {
        Some(class) => Some(last_part(class.as_str(), ' ')),
        None => None,
    }
}

/// The distance that the text of a course states: the text with its commas
/// left out, read as a `u16`.
pub open spec fn distance_in(text: Seq<char>) -> Option<u16> {
    match parse_unsigned(replace_char(text, ',', Seq::empty()), 0xffff) {
        Some(v) => Some(v as u16),
        None => None,
    }
}

/// The distance that the text of a course states.
pub fn distance_of(text: &str) -> (distance: Option<u16>)
    ensures
        distance == distance_in(text@),
{
    let digits = replace(text, ',', "");
    proof {
        reveal_strlit("");
    }
    assert(""@ =~= Seq::<char>::empty());
    match parse_unsigned_str(digits.as_str(), 0xffff) {
        Some(v) => Some(v as u16),
        None => None,
    }
}

/// The distance of the race in a row: the second text node of its
/// `td.course`.
pub open spec fn course_distance(source: Seq<char>, row: Path) -> Option<u16> {
    match first_text(source, row, "td.course"@, 1) {
        Some(text) => distance_in(text),
        None => None,
    }
}

fn get_course_distance(element: &Element) -> (distance: Option<u16>)
    ensures
        distance == course_distance(element.source(), element.path()),
{
    match elem_first_text(element, "td.course", 1) {
        Some(t) => distance_of(t.as_str()),
        None => None,
    }
}

/// The race that a row of the list describes.
pub open spec fn race_row(year: Seq<char>, source: Seq<char>, row: Path) -> Option<RaceView> {
    match (
        race_date(year, source, row),
        race_grade(source, row),
        course_distance(source, row),
        race_name(source, row),
        first_text(source, row, "td.place"@, 0),
        first_text(source, row, "td.age"@, 0),
        first_text(source, row, "td.course"@, 0),
    ) {
        (
            Some(date),
            Some(grade),
            Some(distance),
            Some(name),
            Some(place),
            Some(age),
            Some(course_type),
        ) => Some(
            RaceView {
                date,
                grade,
                name,
                place,
                age,
                course_type,
                course_distance: distance,
            },
        ),
        _ => None,
    }
}

/// The race of row `i`, as a piece for [`gather`].
pub open spec fn race_rows(year: Seq<char>, source: Seq<char>) -> spec_fn(nat) -> Option<
    Seq<RaceView>,
> {
    |i: nat|
        match race_row(year, source, seq![(Some("table tbody tr"@), i)]) {
            Some(r) => Some(seq![r]),
            None => None,
        }
}

/// The races listed on the page `source` for `year`: one per row of its
/// tables, `None` when a row cannot be read.
pub open spec fn races(year: Seq<char>, source: Seq<char>) -> Option<Seq<RaceView>> {
    if !selector_is_valid("table tbody tr"@) {
        None
    } else {
        gather(match_count(source, Seq::empty(), "table tbody tr"@), race_rows(year, source))
    }
}

/// The views of a sequence of races.
pub open spec fn race_views(races: Seq<Race>) -> Seq<RaceView> {
    races.map_values(|r: Race| r@)
}

fn get_race(year: &str, element: &Element) -> (race: Option<Race>)
    ensures
        match race {
            Some(r) => race_row(year@, element.source(), element.path()) == Some(r@)
                && is_calendar_date(r.date.year as int, r.date.month as int, r.date.day as int),
            None => race_row(year@, element.source(), element.path()) is None,
        },
{
    let date = match get_race_date(year, element) {
        Some(d) => d,
        None => return None,
    };
    let grade = match get_race_grade(element) {
        Some(g) => g,
        None => return None,
    };
    let course_distance = match get_course_distance(element) {
        Some(d) => d,
        None => return None,
    };
    let name = match read_race_name(element) {
        Some(n) => n,
        None => return None,
    };
    let place = match elem_first_text(element, "td.place", 0) {
        Some(p) => p,
        None => return None,
    };
    let age = match elem_first_text(element, "td.age", 0) {
        Some(a) => a,
        None => return None,
    };
    let course_type = match elem_first_text(element, "td.course", 0) {
        Some(c) => c,
        None => return None,
    };
    Some(Race { date, grade, name, place, age, course_type, course_distance })
}

/// The graded races that the list page `contents` of `year` holds, row by
/// row, or `None` when a row lacks what a race needs.
fn read_races(year: &str, contents: &str) -> (list: Option<Vec<Race>>)
    ensures
        match list {
            Some(v) => races(year@, contents@) == Some(race_views(v@)),
            None => races(year@, contents@) is None,
        },
        list matches Some(v) ==> forall|i: int|
            0 <= i < v.len() ==> is_calendar_date(
                #[trigger] v[i].date.year as int,
                v[i].date.month as int,
                v[i].date.day as int,
            ),
{
    let doc = Document::parse(contents);
    let sel = match CssSelector::parse("table tbody tr") {
        Some(s) => s,
        None => return None,
    };
    let rows = doc.select(&sel);
    let ghost source = contents@;
    let ghost f = race_rows(year@, source);
    let mut out: Vec<Race> = Vec::new();
    let mut i: usize = 0;
    while i < rows.len()
        invariant
            source == contents@,
            f == race_rows(year@, source),
            selector_is_valid("table tbody tr"@),
            rows.len() == match_count(source, Seq::empty(), "table tbody tr"@),
            forall|k: int|
                0 <= k < rows.len() ==> (#[trigger] rows[k]).source() == source && rows[k].path()
                    == seq![(Some("table tbody tr"@), k as nat)],
            i <= rows.len(),
            gather(i as nat, f) == Some(race_views(out@)),
            forall|k: int|
                0 <= k < out.len() ==> is_calendar_date(
                    #[trigger] out[k].date.year as int,
                    out[k].date.month as int,
                    out[k].date.day as int,
                ),
        decreases rows.len() - i,
    {
        match get_race(year, &rows[i]) {
            Some(race) => {
                let ghost before = race_views(out@);
                let ghost r = race@;
                out.push(race);
                assert(race_views(out@) =~= before + seq![r]);
            },
            None => {
                proof {
                    lemma_gather_missing((i + 1) as nat, rows.len() as nat, f);
                }
                return None;
            },
        }
        i = i + 1;
    }
    Some(out)
}

/// The graded races that the list page `contents` of `year` holds, row by
/// row.  Every row must hold what a race needs; every date is a day of the
/// calendar.
pub fn get_races(year: String, contents: String) -> (list: Vec<Race>)
    requires
        races(year@, contents@) is Some,
    ensures
        races(year@, contents@) == Some(race_views(list@)),
        forall|i: int|
            0 <= i < list.len() ==> is_calendar_date(
                #[trigger] list[i].date.year as int,
                list[i].date.month as int,
                list[i].date.day as int,
            ),
{
    read_races(year.as_str(), contents.as_str()).unwrap()
}

/// The graded races that the list page `contents` of `year` holds, or
/// `None` when a row lacks what a race needs.
pub fn try_get_races(year: String, contents: String) -> (list: Option<Vec<Race>>)
    ensures
        match list {
            Some(v) => races(year@, contents@) == Some(race_views(v@)),
            None => races(year@, contents@) is None,
        },
        list matches Some(v) ==> forall|i: int|
            0 <= i < v.len() ==> is_calendar_date(
                #[trigger] v[i].date.year as int,
                v[i].date.month as int,
                v[i].date.day as int,
            ),
{
    read_races(year.as_str(), contents.as_str())
}

/// Year `0` stands for the current year: when the current year's text is
/// the decimal text of year `y`, asking for `0` and asking for `y` name the
/// same year, hence the same list address.
pub proof fn lemma_year_zero_is_this_year(y: u16, this_year: Seq<char>)
    requires
        y != 0,
        this_year == decimal(y as nat),
    ensures
        chosen_year(0, this_year) == chosen_year(y, this_year),
{
}

/// For a year other than `0`, the text of the year reads back as that year.
pub proof fn lemma_year_text_reads_back(year: u16)
    requires
        year != 0,
    ensures
        parse_unsigned(decimal(year as nat), 0xffff) == Some(year as nat),
{
    lemma_parse_decimal_roundtrip(year as nat, 0xffff);
}

/// A list gathered from the rows holds, at position `i`, the race of row `i`.
proof fn lemma_race_rows_gather(year: Seq<char>, source: Seq<char>, n: nat)
    ensures
        gather(n, race_rows(year, source)) matches Some(list) ==> {
            &&& list.len() == n
            &&& forall|i: int|
                0 <= i < n ==> race_row(year, source, seq![(Some("table tbody tr"@), i as nat)])
                    == Some(#[trigger] list[i])
        },
    decreases n,
{
    if n > 0 {
        let f = race_rows(year, source);
        lemma_race_rows_gather(year, source, (n - 1) as nat);
        if let Some(list) = gather(n, f) {
            let front = gather((n - 1) as nat, f).unwrap();
            let last = race_row(year, source, seq![(Some("table tbody tr"@), (n - 1) as nat)]);
            assert(list == front + seq![last.unwrap()]);
            assert forall|i: int| 0 <= i < n implies race_row(
                year,
                source,
                seq![(Some("table tbody tr"@), i as nat)],
            ) == Some(#[trigger] list[i]) by {
                if i < n - 1 {
                    assert(list[i] == front[i]);
                }
            }
        }
    }
}

/// The same list page read for two years gives as many races, in the same
/// order, and they agree on everything but their dates (which are read with
/// the year).
pub proof fn lemma_races_other_year(year1: Seq<char>, year2: Seq<char>, source: Seq<char>)
    ensures
        (races(year1, source) is Some && races(year2, source) is Some) ==> {
            let list1 = races(year1, source).unwrap();
            let list2 = races(year2, source).unwrap();
            &&& list1.len() == list2.len()
            &&& forall|i: int|
                0 <= i < list1.len() ==> {
                    &&& (#[trigger] list1[i]).grade == list2[i].grade
                    &&& list1[i].name == list2[i].name
                    &&& list1[i].place == list2[i].place
                    &&& list1[i].age == list2[i].age
                    &&& list1[i].course_type == list2[i].course_type
                    &&& list1[i].course_distance == list2[i].course_distance
                }
        },
{
    if races(year1, source) is Some && races(year2, source) is Some {
        let n = match_count(source, Seq::empty(), "table tbody tr"@);
        lemma_race_rows_gather(year1, source, n);
        lemma_race_rows_gather(year2, source, n);
        let list1 = races(year1, source).unwrap();
        let list2 = races(year2, source).unwrap();
        assert forall|i: int| 0 <= i < list1.len() implies {
            &&& (#[trigger] list1[i]).grade == list2[i].grade
            &&& list1[i].name == list2[i].name
            &&& list1[i].place == list2[i].place
            &&& list1[i].age == list2[i].age
            &&& list1[i].course_type == list2[i].course_type
            &&& list1[i].course_distance == list2[i].course_distance
        } by {
            let row = seq![(Some("table tbody tr"@), i as nat)];
            assert(race_row(year1, source, row) == Some(list1[i]));
            assert(race_row(year2, source, row) == Some(list2[i]));
        }
    }
}

/// The distance a course text states is the number its digits stand for,
/// commas left out, when that fits a `u16` (as `str::parse::<u16>` reads it),
/// and none when it does not.
pub proof fn lemma_distance_of_digits(text: Seq<char>)
    requires
        replace_char(text, ',', Seq::empty()).len() > 0,
        all_digits(replace_char(text, ',', Seq::empty())),
    ensures
        digits_value(replace_char(text, ',', Seq::empty())) <= 0xffff ==> distance_in(text) == Some(
            digits_value(replace_char(text, ',', Seq::empty())) as u16,
        ),
        digits_value(replace_char(text, ',', Seq::empty())) > 0xffff ==> distance_in(text) is None,
{
    let u = replace_char(text, ',', Seq::empty());
    if digits_value(u) <= 0xffff {
        lemma_parse_digits(u, 0xffff);
    } else {
        lemma_parse_digits_too_large(u, 0xffff);
    }
}

/// A course text made only of digits states the number they stand for, up
/// to 65535.
pub proof fn lemma_distance_of_plain_digits(text: Seq<char>)
    requires
        text.len() > 0,
        all_digits(text),
        digits_value(text) <= 0xffff,
    ensures
        distance_in(text) == Some(digits_value(text) as u16),
{
    assert forall|i: int| 0 <= i < text.len() implies #[trigger] text[i] != ',' by {
        assert(is_digit(text[i]));
    }
    lemma_replace_char_absent(text, ',', Seq::empty());
    lemma_distance_of_digits(text);
}

/// The distance of a row is the number that the second text of its
/// `td.course` states, commas left out: it is there whenever that number
/// fits a `u16`, and every race read from the row carries it.
pub proof fn lemma_row_distance(year: Seq<char>, source: Seq<char>, row: Path, text: Seq<char>)
    requires
        first_text(source, row, "td.course"@, 1) == Some(text),
        replace_char(text, ',', Seq::empty()).len() > 0,
        all_digits(replace_char(text, ',', Seq::empty())),
        digits_value(replace_char(text, ',', Seq::empty())) <= 0xffff,
    ensures
        course_distance(source, row) == Some(
            digits_value(replace_char(text, ',', Seq::empty())) as u16,
        ),
        race_row(year, source, row) matches Some(r) ==> r.course_distance == digits_value(
            replace_char(text, ',', Seq::empty()),
        ) as u16,
{
    lemma_distance_of_digits(text);
}

/// The races of a list page: one for each `table tbody tr` row, in order,
/// each the race read from that row; the list reads exactly when the
/// selector is valid and every row reads.
pub proof fn lemma_race_table(year: Seq<char>, source: Seq<char>)
    ensures
        races(year, source) is Some <==> selector_is_valid("table tbody tr"@) && forall|i: nat|
            i < match_count(source, Seq::empty(), "table tbody tr"@) ==> (#[trigger] race_row(
                year,
                source,
                seq![(Some("table tbody tr"@), i)],
            )) is Some,
        races(year, source) matches Some(l) ==> {
            &&& l.len() == match_count(source, Seq::empty(), "table tbody tr"@)
            &&& forall|i: int|
                0 <= i < l.len() ==> race_row(year, source, seq![(Some("table tbody tr"@), i as nat)])
                    == Some(#[trigger] l[i])
        },
{
    let n = match_count(source, Seq::empty(), "table tbody tr"@);
    let f = race_rows(year, source);
    assert forall|i: nat| i < n implies (#[trigger] f(i) matches Some(p) ==> p.len() == 1) by {}
    lemma_gather_singletons(n, f);
    lemma_race_rows_gather(year, source, n);
    assert forall|i: nat| i < n implies ((#[trigger] f(i)) is Some <==> race_row(
        year,
        source,
        seq![(Some("table tbody tr"@), i)],
    ) is Some) by {}
    if selector_is_valid("table tbody tr"@) {
        if forall|i: nat|
            i < n ==> (#[trigger] race_row(year, source, seq![(Some("table tbody tr"@), i)])) is Some {
            assert forall|i: nat| i < n implies (#[trigger] f(i)) is Some by {
                assert(race_row(year, source, seq![(Some("table tbody tr"@), i)]) is Some);
            }
        }
        if races(year, source) is Some {
            assert forall|i: nat| i < n implies (#[trigger] race_row(
                year,
                source,
                seq![(Some("table tbody tr"@), i)],
            )) is Some by {
                assert(f(i) is Some);
            }
        }
    }
}

/// A row reads as a race exactly when its date, grade, distance, name,
/// place, age and course type all do, and the race holds them.
pub proof fn lemma_race_row_fields(year: Seq<char>, source: Seq<char>, row: Path)
    ensures
        race_row(year, source, row) is Some <==> {
            &&& race_date(year, source, row) is Some
            &&& race_grade(source, row) is Some
            &&& course_distance(source, row) is Some
            &&& race_name(source, row) is Some
            &&& first_text(source, row, "td.place"@, 0) is Some
            &&& first_text(source, row, "td.age"@, 0) is Some
            &&& first_text(source, row, "td.course"@, 0) is Some
        },
        race_row(year, source, row) matches Some(r) ==> {
            &&& race_date(year, source, row) == Some(r.date)
            &&& race_grade(source, row) == Some(r.grade)
            &&& course_distance(source, row) == Some(r.course_distance)
            &&& race_name(source, row) == Some(r.name)
            &&& first_text(source, row, "td.place"@, 0) == Some(r.place)
            &&& first_text(source, row, "td.age"@, 0) == Some(r.age)
            &&& first_text(source, row, "td.course"@, 0) == Some(r.course_type)
        },
{
}

/// The grade of a row is the last space-separated part of the `class` of
/// its first `td.race span`: for a class `a g1` it is `g1`.
pub proof fn lemma_grade_of_class(source: Seq<char>, row: Path, front: Seq<char>, grade: Seq<char>)
    requires
        selector_is_valid("td.race span"@),
        match_count(source, row, "td.race span"@) > 0,
        attribute(source, row.push((Some("td.race span"@), 0)), "class"@) == Some(
            front + seq![' '] + grade,
        ),
        forall|i: int| 0 <= i < grade.len() ==> #[trigger] grade[i] != ' ',
    ensures
        race_grade(source, row) == Some(grade),
{
    crate::text::lemma_after_last_of(front, grade, ' ');
}

} // verus!
