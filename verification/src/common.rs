//! What the three page readers share: the site's addresses, the decoding of its
//! pages, the status of a runner, regular-expression captures, and the list of
//! race pages linked from an index page.
use crate::dom::{
    attribute, match_count, selector_is_valid, text_nodes, CssSelector, Document, Element, Path,
};
use vstd::prelude::*;

verus! {

/// The root of the site.
pub const JRA_URL: &'static str = "https://www.jra.go.jp/";

/// The address that index pages are requested from, by form.
pub const JRA_ACCESS_URL: &'static str = "https://www.jra.go.jp/JRADB/accessD.html";

/// The status of a runner in an entry list or a result table.
#[derive(Debug, Clone, Copy, PartialEq, Eq, Structural)]
pub enum WakubanStatus {
    Normal,
    Exclude,
    Stop,
    Cancel,
}

/// The address of the page `cname` below the site's root.
pub fn jra_url(cname: &str) -> (url: String)
    ensures
        url@ == JRA_URL@ + cname@,
{
    String::from_str(JRA_URL).concat(cname)
}

/// The text that `encoding_rs::SHIFT_JIS.decode` makes of `bytes` (BOM
/// sniffing included, malformed sequences replaced).
pub uninterp spec fn shift_jis_decode(bytes: Seq<u8>) -> Seq<char>;

/// Whether every byte is below 0x80.
pub open spec fn all_ascii(bytes: Seq<u8>) -> bool {
    forall|i: int| 0 <= i < bytes.len() ==> #[trigger] bytes[i] < 0x80
}

/// Calls `encoding_rs::SHIFT_JIS.decode`.  Shift_JIS is ASCII-compatible, so
/// input made of ASCII bytes only comes back unchanged.  `decode` panics only
/// when the size of its output buffer overflows `usize`, which the bound on
/// the length rules out.
#[verifier::external_body]
fn decode_shift_jis(bytes: &[u8]) -> (text: String)
    requires
        bytes@.len() <= usize::MAX / 8,
    ensures
        text@ == shift_jis_decode(bytes@),
        all_ascii(bytes@) ==> text@ == bytes@.map_values(|b: u8| b as char),
{
    let (text, _, _) = encoding_rs::SHIFT_JIS.decode(bytes);
    text.into_owned()
}

/// The text of a page of the site, whose bytes are in Shift_JIS.
pub fn decode_jra_html(body: &[u8]) -> (html: String)
    requires
        body@.len() <= usize::MAX / 8,
    ensures
        html@ == shift_jis_decode(body@),
        all_ascii(body@) ==> html@ == body@.map_values(|b: u8| b as char),
{
    decode_shift_jis(body)
}

/// The capture groups of the first match of `pattern`, compiled by
/// `regex::Regex::new`, in `text`: group 0 is the whole match, a group that
/// took no part is `None`.  `None` when there is no match or the pattern
/// does not compile.
pub uninterp spec fn regex_captures(pattern: Seq<char>, text: Seq<char>) -> Option<
    Seq<Option<Seq<char>>>,
>;

/// Calls `regex::Regex::new(pattern)` and `captures(text)` on the result.
#[verifier::external_body]
fn captures(pattern: &str, text: &str) -> (groups: Option<Vec<Option<String>>>)
    ensures
        match groups {
            Some(g) => regex_captures(pattern@, text@) == Some(g.deep_view()),
            None => regex_captures(pattern@, text@) is None,
        },
{
    match regex::Regex::new(pattern) {
        Ok(re) => re.captures(text).map(|c| c.iter().map(|m| m.map(|m| m.as_str().to_string())).collect()),
        Err(_) => None,
    }
}

/// Group `i` of the first match of `pattern` in `text`, as `caps[i]` reads
/// it: absent when there is no match or the group took no part.
pub open spec fn capture_group(pattern: Seq<char>, text: Seq<char>, i: nat) -> Option<Seq<char>> {
    match regex_captures(pattern, text) {
        Some(groups) => if i < groups.len() {
            groups[i as int]
        } else {
            None
        },
        None => None,
    }
}

/// Group `i` of the first match of `pattern` in `text`.
pub fn capture(pattern: &str, text: &str, i: usize) -> (group: Option<String>)
    ensures
        group.deep_view() == capture_group(pattern@, text@, i as nat),
{
    match captures(pattern, text) {
        Some(groups) => {
            if i < groups.len() {
                let g = &groups[i];
                assert(g.deep_view() == groups.deep_view()[i as int]);
                match g {
                    Some(s) => Some(s.clone()),
                    None => None,
                }
            } else {
                None
            }
        },
        None => None,
    }
}

/// The pieces `f(0)`, ..., `f(n - 1)` joined in order, or `None` as soon as
/// one of them is missing.
pub open spec fn gather<T>(n: nat, f: spec_fn(nat) -> Option<Seq<T>>) -> Option<Seq<T>>
    decreases n,
{
    if n == 0 {
        Some(Seq::empty())
    } else {
        match gather((n - 1) as nat, f) {
            Some(front) => match f((n - 1) as nat) {
                Some(piece) => Some(front + piece),
                None => None,
            },
            None => None,
        }
    }
}

/// Once a piece is missing, every longer gathering is missing too.
pub proof fn lemma_gather_missing<T>(k: nat, n: nat, f: spec_fn(nat) -> Option<Seq<T>>)
    requires
        k <= n,
        gather(k, f) is None,
    ensures
        gather(n, f) is None,
    decreases n - k,
{
    if k < n {
        lemma_gather_missing(k, (n - 1) as nat, f);
    }
}

/// A gathering is there exactly when every piece is.
pub proof fn lemma_gather_some<T>(n: nat, f: spec_fn(nat) -> Option<Seq<T>>)
    ensures
        gather(n, f) is Some <==> forall|i: nat| i < n ==> (#[trigger] f(i)) is Some,
    decreases n,
{
    if n > 0 {
        let m = (n - 1) as nat;
        lemma_gather_some(m, f);
        if gather(n, f) is None {
            if gather(m, f) is Some {
                assert(f(m) is None);
            } else {
                let j = choose|j: nat| j < m && (#[trigger] f(j)) is None;
                assert(f(j) is None);
            }
        }
    }
}

/// Gathering pieces of one item each: the result is there exactly when every
/// piece is, and then it holds item `i` of piece `i` at position `i`.
pub proof fn lemma_gather_singletons<T>(n: nat, f: spec_fn(nat) -> Option<Seq<T>>)
    requires
        forall|i: nat| i < n ==> (#[trigger] f(i) matches Some(p) ==> p.len() == 1),
    ensures
        gather(n, f) is Some <==> forall|i: nat| i < n ==> (#[trigger] f(i)) is Some,
        gather(n, f) matches Some(s) ==> {
            &&& s.len() == n
            &&& forall|i: int| 0 <= i < n ==> f(i as nat) == Some(seq![#[trigger] s[i]])
        },
    decreases n,
{
    if n > 0 {
        let m = (n - 1) as nat;
        lemma_gather_singletons(m, f);
        if gather(n, f) is Some {
            let s = gather(n, f).unwrap();
            let front = gather(m, f).unwrap();
            let piece = f(m).unwrap();
            assert(s == front + piece);
            assert forall|i: int| 0 <= i < n implies f(i as nat) == Some(seq![#[trigger] s[i]]) by {
                if i < m {
                    assert(s[i] == front[i]);
                } else {
                    assert(s[i] == piece[0]);
                    assert(piece =~= seq![piece[0]]);
                }
            }
        } else {
            if gather(m, f) is Some {
                assert(f(m) is None);
            } else {
                let j = choose|j: nat| j < m && (#[trigger] f(j)) is None;
                assert(f(j) is None);
            }
        }
    }
}

/// `doc.select(selector).next().unwrap().text().nth(n).unwrap()`: text node
/// `n` of the first element that the valid `selector` matches below `scope`.
pub open spec fn first_text(source: Seq<char>, scope: Path, selector: Seq<char>, n: nat) -> Option<
    Seq<char>,
> {
    if !selector_is_valid(selector) || match_count(source, scope, selector) == 0 {
        None
    } else {
        let texts = text_nodes(source, scope.push((Some(selector), 0)));
        if n < texts.len() {
            Some(texts[n as int])
        } else {
            None
        }
    }
}

/// Text node `n` of the first element that `selector` matches in the page.
pub fn doc_first_text(doc: &Document, selector: &str, n: usize) -> (text: Option<String>)
    ensures
        text.deep_view() == first_text(doc.source(), Seq::empty(), selector@, n as nat),
{
    let sel = match CssSelector::parse(selector) {
        Some(s) => s,
        None => return None,
    };
    let found = doc.select(&sel);
    if found.len() == 0 {
        return None;
    }
    let texts = found[0].text();
    if n < texts.len() {
        assert(texts@.map_values(|t: String| t@)[n as int] == texts@[n as int]@);
        Some(texts[n].clone())
    } else {
        None
    }
}

/// Text node `n` of the first element that `selector` matches below `scope`.
pub fn elem_first_text(scope: &Element, selector: &str, n: usize) -> (text: Option<String>)
    ensures
        text.deep_view() == first_text(scope.source(), scope.path(), selector@, n as nat),
{
    let sel = match CssSelector::parse(selector) {
        Some(s) => s,
        None => return None,
    };
    let found = scope.select(&sel);
    if found.len() == 0 {
        return None;
    }
    let texts = found[0].text();
    if n < texts.len() {
        assert(texts@.map_values(|t: String| t@)[n as int] == texts@[n as int]@);
        Some(texts[n].clone())
    } else {
        None
    }
}

/// `scope.select(selector).next().unwrap().text()`: the text nodes of the
/// first element that the valid `selector` matches below `scope`.
pub open spec fn first_texts(source: Seq<char>, scope: Path, selector: Seq<char>) -> Option<
    Seq<Seq<char>>,
> {
    if !selector_is_valid(selector) || match_count(source, scope, selector) == 0 {
        None
    } else {
        Some(text_nodes(source, scope.push((Some(selector), 0))))
    }
}

/// The text nodes of the first element that `selector` matches below `scope`.
pub fn elem_first_texts(scope: &Element, selector: &str) -> (texts: Option<Vec<String>>)
    ensures
        texts.deep_view() == first_texts(scope.source(), scope.path(), selector@),
{
    let sel = match CssSelector::parse(selector) {
        Some(s) => s,
        None => return None,
    };
    let found = scope.select(&sel);
    if found.len() == 0 {
        return None;
    }
    let texts = found[0].text();
    assert(texts.deep_view() =~= texts@.map_values(|t: String| t@));
    Some(texts)
}

/// The position of the first link of a race list, from `j` on, that holds no
/// `span.umaban`: the list stops there.
pub open spec fn umaban_stop(source: Seq<char>, list: Path, links: nat, j: nat) -> nat
    decreases links - j,
{
    if j < links && match_count(
        source,
        list.push((Some("div.main a"@), j)),
        "span.umaban"@,
    ) > 0 {
        umaban_stop(source, list, links, j + 1)
    } else {
        j
    }
}

proof fn lemma_umaban_stop_from(source: Seq<char>, list: Path, links: nat, j: nat)
    ensures
        j <= umaban_stop(source, list, links, j),
        umaban_stop(source, list, links, j) <= if j <= links {
            links
        } else {
            j
        },
    decreases links - j,
{
    if j < links && match_count(source, list.push((Some("div.main a"@), j)), "span.umaban"@) > 0 {
        lemma_umaban_stop_from(source, list, links, j + 1);
    }
}

/// The `href` of link `j` of a race list, as a piece for [`gather`].
pub open spec fn link_hrefs(source: Seq<char>, list: Path) -> spec_fn(nat) -> Option<Seq<Seq<char>>> {
    |j: nat|
        match attribute(source, list.push((Some("div.main a"@), j)), "href"@) {
            Some(href) => Some(seq![href]),
            None => None,
        }
}

/// The links of list `i` of an index page, as a piece for [`gather`].
pub open spec fn list_pieces(source: Seq<char>) -> spec_fn(nat) -> Option<Seq<Seq<char>>> {
    |i: nat| list_links(source, seq![(Some("ul.grade_race_unit"@), i)])
}

/// The race pages that one `ul.grade_race_unit` list links to: the `href`s of
/// its `div.main a` links, up to the first one without a `span.umaban`.
pub open spec fn list_links(source: Seq<char>, list: Path) -> Option<Seq<Seq<char>>> {
    let links = match_count(source, list, "div.main a"@);
    if links > 0 && !selector_is_valid("span.umaban"@) {
        None
    } else {
        gather(umaban_stop(source, list, links, 0), link_hrefs(source, list))
    }
}

/// The race pages that an index page links to, list after list.
pub open spec fn race_list(source: Seq<char>) -> Option<Seq<Seq<char>>> {
    if !selector_is_valid("ul.grade_race_unit"@) || !selector_is_valid("div.main a"@) {
        None
    } else {
        gather(match_count(source, Seq::empty(), "ul.grade_race_unit"@), list_pieces(source))
    }
}

/// The links of one list.
fn list_links_of(list: &Element, links_sel: &CssSelector) -> (found: Option<Vec<String>>)
    requires
        links_sel.text() == "div.main a"@,
    ensures
        found.deep_view() == list_links(list.source(), list.path()),
{
    let ghost source = list.source();
    let ghost path = list.path();
    let links = list.select(links_sel);
    let ghost m = links.len() as nat;
    let ghost f = link_hrefs(source, path);
    proof {
        lemma_umaban_stop_from(source, path, m, 0);
    }
    let mut out: Vec<String> = Vec::new();
    let mut going = true;
    let mut j: usize = 0;
    while going && j < links.len()
        invariant
            source == list.source(),
            path == list.path(),
            f == link_hrefs(source, path),
            links.len() == m,
            m == match_count(source, path, "div.main a"@),
            forall|k: int|
                0 <= k < links.len() ==> (#[trigger] links[k]).source() == source && links[k].path()
                    == path.push((Some("div.main a"@), k as nat)),
            j <= m,
            j <= umaban_stop(source, path, m, 0),
            going ==> umaban_stop(source, path, m, 0) == umaban_stop(source, path, m, j as nat),
            !going ==> umaban_stop(source, path, m, 0) == j,
            j > 0 || !going ==> selector_is_valid("span.umaban"@),
            gather(j as nat, f) == Some(out.deep_view()),
        decreases (m - j) + if going {
            1int
        } else {
            0int
        },
    {
        let umaban = match CssSelector::parse("span.umaban") {
            Some(s) => s,
            None => {
                assert(m > 0);
                assert(!selector_is_valid("span.umaban"@));
                assert(list_links(source, path) is None);
                return None;
            },
        };
        if links[j].select(&umaban).len() == 0 {
            going = false;
        } else {
            proof {
                lemma_umaban_stop_from(source, path, m, (j + 1) as nat);
            }
            match links[j].attr("href") {
                Some(href) => {
                    let ghost before = out.deep_view();
                    out.push(href);
                    assert(out.deep_view() =~= before + seq![href@]);
                },
                None => {
                    assert(attribute(source, path.push((Some("div.main a"@), j as nat)), "href"@) is None);
                    assert(f(j as nat) is None);
                    assert(gather((j + 1) as nat, f) is None);
                    proof {
                        lemma_gather_missing((j + 1) as nat, umaban_stop(source, path, m, 0), f);
                    }
                    return None;
                },
            }
            j = j + 1;
        }
    }
    if going {
        assert(umaban_stop(source, path, m, j as nat) == j);
    }
    Some(out)
}

/// The race pages that an index page links to, read from its text:
/// `Some` exactly when every list reads, holding their links in order.
fn read_race_list(contents: &str) -> (links: Option<Vec<String>>)
    ensures
        links.deep_view() == race_list(contents@),
{
    let doc = Document::parse(contents);
    let ul_sel = match CssSelector::parse("ul.grade_race_unit") {
        Some(s) => s,
        None => return None,
    };
    let a_sel = match CssSelector::parse("div.main a") {
        Some(s) => s,
        None => return None,
    };
    let lists = doc.select(&ul_sel);
    let ghost source = contents@;
    let ghost g = list_pieces(source);
    let mut out: Vec<String> = Vec::new();
    let mut i: usize = 0;
    while i < lists.len()
        invariant
            doc.source() == source,
            source == contents@,
            g == list_pieces(source),
            a_sel.text() == "div.main a"@,
            selector_is_valid("ul.grade_race_unit"@),
            selector_is_valid("div.main a"@),
            lists.len() == match_count(source, Seq::empty(), "ul.grade_race_unit"@),
            forall|k: int|
                0 <= k < lists.len() ==> (#[trigger] lists[k]).source() == source
                    && lists[k].path() == seq![(Some("ul.grade_race_unit"@), k as nat)],
            i <= lists.len(),
            gather(i as nat, g) == Some(out.deep_view()),
        decreases lists.len() - i,
    {
        match list_links_of(&lists[i], &a_sel) {
            Some(mut more) => {
                let ghost before = out.deep_view();
                let ghost piece = more.deep_view();
                out.append(&mut more);
                assert(out.deep_view() =~= before + piece);
            },
            None => {
                proof {
                    lemma_gather_missing((i + 1) as nat, lists.len() as nat, g);
                }
                return None;
            },
        }
        i = i + 1;
    }
    Some(out)
}

/// The race pages that an index page links to, list after list.  Every
/// link that is read must have its `href`.
pub fn parse_race_list(contents: &str) -> (links: Vec<String>)
    requires
        race_list(contents@) is Some,
    ensures
        race_list(contents@) == Some(links.deep_view()),
{
    read_race_list(contents).unwrap()
}

/// The race pages that an index page links to, or `None` when a link that is
/// read has no `href`.
pub fn try_parse_race_list(contents: &str) -> (links: Option<Vec<String>>)
    ensures
        links.deep_view() == race_list(contents@),
{
    read_race_list(contents)
}

proof fn lemma_umaban_stop_shape(source: Seq<char>, list: Path, links: nat, j: nat)
    requires
        j <= links,
    ensures
        j <= umaban_stop(source, list, links, j) <= links,
        forall|k: nat|
            j <= k < umaban_stop(source, list, links, j) ==> match_count(
                source,
                #[trigger] list.push((Some("div.main a"@), k)),
                "span.umaban"@,
            ) > 0,
        umaban_stop(source, list, links, j) < links ==> match_count(
            source,
            list.push((Some("div.main a"@), umaban_stop(source, list, links, j))),
            "span.umaban"@,
        ) == 0,
    decreases links - j,
{
    if j < links && match_count(source, list.push((Some("div.main a"@), j)), "span.umaban"@) > 0 {
        lemma_umaban_stop_shape(source, list, links, j + 1);
    }
}

/// The links of a race list: the leading `div.main a` links that hold a
/// `span.umaban`, in order, each given by its `href`; the link right after
/// them, if there is one, holds no `span.umaban`.
pub proof fn lemma_list_links(source: Seq<char>, list: Path)
    ensures
        list_links(source, list) matches Some(l) ==> {
            &&& l.len() <= match_count(source, list, "div.main a"@)
            &&& forall|j: int|
                0 <= j < l.len() ==> {
                    &&& match_count(
                        source,
                        list.push((Some("div.main a"@), j as nat)),
                        "span.umaban"@,
                    ) > 0
                    &&& attribute(source, list.push((Some("div.main a"@), j as nat)), "href"@) == Some(
                        #[trigger] l[j],
                    )
                }
            &&& l.len() < match_count(source, list, "div.main a"@) ==> match_count(
                source,
                list.push((Some("div.main a"@), l.len())),
                "span.umaban"@,
            ) == 0
        },
{
    let m = match_count(source, list, "div.main a"@);
    let stop = umaban_stop(source, list, m, 0);
    let f = link_hrefs(source, list);
    lemma_umaban_stop_shape(source, list, m, 0);
    assert forall|j: nat| j < stop implies (#[trigger] f(j) matches Some(p) ==> p.len() == 1) by {}
    lemma_gather_singletons(stop, f);
    if list_links(source, list) is Some {
        let l = list_links(source, list).unwrap();
        assert forall|j: int| 0 <= j < l.len() implies {
            &&& match_count(source, list.push((Some("div.main a"@), j as nat)), "span.umaban"@) > 0
            &&& attribute(source, list.push((Some("div.main a"@), j as nat)), "href"@) == Some(
                #[trigger] l[j],
            )
        } by {
            assert(f(j as nat) == Some(seq![l[j]]));
            assert(seq![l[j]][0] == l[j]);
            assert(match_count(source, list.push((Some("div.main a"@), j as nat)), "span.umaban"@) > 0);
        }
    }
}

/// An index page reads exactly when its two selectors are valid and every
/// `ul.grade_race_unit` list reads.
pub proof fn lemma_race_list_reads(source: Seq<char>)
    ensures
        race_list(source) is Some <==> {
            &&& selector_is_valid("ul.grade_race_unit"@)
            &&& selector_is_valid("div.main a"@)
            &&& forall|i: nat|
                i < match_count(source, Seq::empty(), "ul.grade_race_unit"@) ==> (#[trigger] list_links(
                    source,
                    seq![(Some("ul.grade_race_unit"@), i)],
                )) is Some
        },
{
    let n = match_count(source, Seq::empty(), "ul.grade_race_unit"@);
    let g = list_pieces(source);
    lemma_gather_some(n, g);
    assert forall|i: nat| i < n implies ((#[trigger] g(i)) is Some <==> list_links(
        source,
        seq![(Some("ul.grade_race_unit"@), i)],
    ) is Some) by {}
    if selector_is_valid("ul.grade_race_unit"@) && selector_is_valid("div.main a"@) {
        if forall|i: nat|
            i < n ==> (#[trigger] list_links(source, seq![(Some("ul.grade_race_unit"@), i)])) is Some {
            assert forall|i: nat| i < n implies (#[trigger] g(i)) is Some by {
                assert(list_links(source, seq![(Some("ul.grade_race_unit"@), i)]) is Some);
            }
        }
        if race_list(source) is Some {
            assert forall|i: nat| i < n implies (#[trigger] list_links(
                source,
                seq![(Some("ul.grade_race_unit"@), i)],
            )) is Some by {
                assert(g(i) is Some);
            }
        }
    }
}

} // verus!
