//! The boundary with the `scraper` crate.
//!
//! A page is parsed once into a [`Document`]; elements found in it are
//! [`Element`]s.  Every element carries, as ghost state, the text of the page it
//! was found in and the *path* by which it was reached: a sequence of steps, each
//! either "the `i`-th match of selector `s`" or "the `i`-th child element".
//! Everything the library reads from a page is a function of that text and
//! that path, and each such function is named below.
use vstd::prelude::*;

verus! {

/// One step of a path: `(Some(selector), i)` is the `i`-th element matched by
/// `selector` below the current scope, `(None, i)` is its `i`-th child node.
pub type Step = (Option<Seq<char>>, nat);

/// A path from the page root to an element.
pub type Path = Seq<Step>;

/// Whether `scraper` accepts `selector` as a CSS selector group.
pub uninterp spec fn selector_is_valid(selector: Seq<char>) -> bool;

/// How many elements `scraper` yields when the valid `selector` is run from the
/// element reached by `scope` in the fragment parsed from `source` (from the
/// whole fragment when `scope` is empty).
pub uninterp spec fn match_count(source: Seq<char>, scope: Path, selector: Seq<char>) -> nat;

/// How many child nodes the element at `path` has (`ElementRef::children`).
pub uninterp spec fn child_count(source: Seq<char>, path: Path) -> nat;

/// Whether child node `i` of the element at `path` is an element
/// (`ElementRef::wrap` succeeds on it).
pub uninterp spec fn child_is_element(source: Seq<char>, path: Path, i: nat) -> bool;

/// The positions, among the first `n` child nodes of the element at `path`,
/// of those that are elements, in order.
pub open spec fn element_positions(source: Seq<char>, path: Path, n: nat) -> Seq<nat>
    decreases n,
{
    if n == 0 {
        Seq::empty()
    } else {
        element_positions(source, path, (n - 1) as nat) + if child_is_element(
            source,
            path,
            (n - 1) as nat,
        ) {
            seq![(n - 1) as nat]
        } else {
            Seq::empty()
        }
    }
}

/// The positions of the child nodes of the element at `path` that are
/// elements, in order.
pub open spec fn element_children(source: Seq<char>, path: Path) -> Seq<nat> {
    element_positions(source, path, child_count(source, path))
}

/// The descendant text nodes of the element at `path`, in tree order.
pub uninterp spec fn text_nodes(source: Seq<char>, path: Path) -> Seq<Seq<char>>;

/// The value of the attribute `name` of the element at `path`, if it has one.
pub uninterp spec fn attribute(source: Seq<char>, path: Path, name: Seq<char>) -> Option<Seq<char>>;

/// The serialised HTML of the element at `path`, the element itself included
/// (with `scraper`'s `deterministic` feature, attributes keep their order in
/// the source).
pub uninterp spec fn outer_html(source: Seq<char>, path: Path) -> Seq<char>;

#[verifier::external_type_specification]
#[verifier::external_body]
pub struct ExHtml(scraper::Html);

#[verifier::external_type_specification]
#[verifier::external_body]
pub struct ExSelector(scraper::Selector);

#[verifier::external_type_specification]
#[verifier::external_body]
pub struct ExElementRef<'a>(scraper::ElementRef<'a>);

/// A page parsed as an HTML fragment.
pub struct Document {
    html: scraper::Html,
    source: Ghost<Seq<char>>,
}

/// A parsed CSS selector together with the text it was parsed from.
pub struct CssSelector {
    inner: scraper::Selector,
    text: Ghost<Seq<char>>,
}

/// An element of a [`Document`].
#[derive(Clone, Copy)]
pub struct Element<'a> {
    node: scraper::ElementRef<'a>,
    source: Ghost<Seq<char>>,
    path: Ghost<Path>,
}

impl Document {
    /// The text the document was parsed from.
    pub closed spec fn source(&self) -> Seq<char> {
        self.source@
    }

    /// Parses `text` with `scraper::Html::parse_fragment`, which never fails.
    #[verifier::external_body]
    pub(crate) fn parse(text: &str) -> (doc: Document)
        ensures
            doc.source() == text@,
    {
        Document { html: scraper::Html::parse_fragment(text), source: Ghost(text@) }
    }

    /// `scraper::Html::select`: the elements of the whole fragment that
    /// `selector` matches.  There are `match_count(source, [], selector)` of
    /// them, and the `i`-th is reached by the one-step path `[(selector, i)]`.
    #[verifier::external_body]
    pub(crate) fn select<'a>(&'a self, selector: &CssSelector) -> (found: Vec<Element<'a>>)
        ensures
            found.len() == match_count(self.source(), Seq::empty(), selector.text()),
            forall|i: int|
                0 <= i < found.len() ==> (#[trigger] found[i]).source() == self.source()
                    && found[i].path() == seq![(Some(selector.text()), i as nat)],
    {
        self.html.select(&selector.inner).enumerate().map(|(i, e)| Element {
            node: e,
            source: Ghost(self.source@),
            path: Ghost(seq![(Some(selector.text@), i as nat)]),
        }).collect()
    }
}

impl CssSelector {
    /// The text the selector was parsed from.
    pub closed spec fn text(&self) -> Seq<char> {
        self.text@
    }

    /// `scraper::Selector::parse`: `None` exactly when the text is not a
    /// selector group that `scraper` accepts.
    #[verifier::external_body]
    pub(crate) fn parse(text: &str) -> (sel: Option<CssSelector>)
        ensures
            sel is Some <==> selector_is_valid(text@),
            sel matches Some(s) ==> s.text() == text@,
    {
        match scraper::Selector::parse(text) {
            Ok(inner) => Some(CssSelector { inner, text: Ghost(text@) }),
            Err(_) => None,
        }
    }
}

impl<'a> Element<'a> {
    /// The text of the page the element belongs to.
    pub closed spec fn source(&self) -> Seq<char> {
        self.source@
    }

    /// The path by which the element was reached.
    pub closed spec fn path(&self) -> Path {
        self.path@
    }

    /// `scraper::ElementRef::select`: the descendants of this element that
    /// `selector` matches; the `i`-th is reached by one more step
    /// `(selector, i)`.
    #[verifier::external_body]
    pub(crate) fn select(&self, selector: &CssSelector) -> (found: Vec<Element<'a>>)
        ensures
            found.len() == match_count(self.source(), self.path(), selector.text()),
            forall|i: int|
                0 <= i < found.len() ==> (#[trigger] found[i]).source() == self.source()
                    && found[i].path() == self.path().push((Some(selector.text()), i as nat)),
    {
        self.node.select(&selector.inner).enumerate().map(|(i, e)| Element {
            node: e,
            source: Ghost(self.source@),
            path: Ghost(self.path@.push((Some(selector.text@), i as nat))),
        }).collect()
    }

    /// `ElementRef::children`, each child node passed through
    /// `ElementRef::wrap`: `Some` for an element, reached by one more step
    /// `(None, i)`, and `None` for any other node.
    #[verifier::external_body]
    pub(crate) fn child_nodes(&self) -> (found: Vec<Option<Element<'a>>>)
        ensures
            found.len() == child_count(self.source(), self.path()),
            forall|i: int|
                0 <= i < found.len() ==> ((#[trigger] found[i]) is Some <==> child_is_element(
                    self.source(),
                    self.path(),
                    i as nat,
                )),
            forall|i: int|
                0 <= i < found.len() ==> (#[trigger] found[i] matches Some(e) ==> e.source()
                    == self.source() && e.path() == self.path().push((None, i as nat))),
    {
        self.node.children().map(scraper::ElementRef::wrap).enumerate().map(|(i, w)| w.map(|e| Element {
            node: e,
            source: Ghost(self.source@),
            path: Ghost(self.path@.push((None::<Seq<char>>, i as nat))),
        })).collect()
    }

    /// The children of this element that are elements, in order: the `k`-th
    /// is the child node at position `element_children(..)[k]`.
    pub fn child_elements(&self) -> (found: Vec<Element<'a>>)
        ensures
            found.len() == element_children(self.source(), self.path()).len(),
            forall|k: int|
                0 <= k < found.len() ==> (#[trigger] found[k]).source() == self.source()
                    && found[k].path() == self.path().push(
                    (None, element_children(self.source(), self.path())[k]),
                ),
    {
        let nodes = self.child_nodes();
        let ghost source = self.source();
        let ghost path = self.path();
        let mut found: Vec<Element<'a>> = Vec::new();
        let mut i: usize = 0;
        while i < nodes.len()
            invariant
                source == self.source(),
                path == self.path(),
                nodes.len() == child_count(source, path),
                forall|j: int|
                    0 <= j < nodes.len() ==> ((#[trigger] nodes[j]) is Some <==> child_is_element(
                        source,
                        path,
                        j as nat,
                    )),
                forall|j: int|
                    0 <= j < nodes.len() ==> (#[trigger] nodes[j] matches Some(e) ==> e.source()
                        == source && e.path() == path.push((None, j as nat))),
                i <= nodes.len(),
                found.len() == element_positions(source, path, i as nat).len(),
                forall|k: int|
                    0 <= k < found.len() ==> (#[trigger] found[k]).source() == source
                        && found[k].path() == path.push(
                        (None, element_positions(source, path, i as nat)[k]),
                    ),
            decreases nodes.len() - i,
        {
            let ghost before = element_positions(source, path, i as nat);
            match nodes[i] {
                Some(e) => {
                    assert(nodes[i as int] matches Some(x) && x == e);
                    found.push(e);
                    assert(element_positions(source, path, (i + 1) as nat) == before + seq![
                        i as nat,
                    ]);
                },
                None => {
                    assert(element_positions(source, path, (i + 1) as nat) =~= before);
                },
            }
            i = i + 1;
        }
        found
    }

    /// `scraper::ElementRef::text`: the descendant text nodes, in order.
    #[verifier::external_body]
    pub(crate) fn text(&self) -> (texts: Vec<String>)
        ensures
            texts@.map_values(|t: String| t@) == text_nodes(self.source(), self.path()),
    {
        self.node.text().map(|t| t.to_string()).collect()
    }

    /// `scraper::node::Element::attr`: the value of attribute `name`.
    #[verifier::external_body]
    pub(crate) fn attr(&self, name: &str) -> (value: Option<String>)
        ensures
            match value {
                Some(v) => attribute(self.source(), self.path(), name@) == Some(v@),
                None => attribute(self.source(), self.path(), name@) is None,
            },
    {
        self.node.value().attr(name).map(|v| v.to_string())
    }

    /// `scraper::ElementRef::html`: the element serialised as HTML.
    #[verifier::external_body]
    pub(crate) fn html(&self) -> (markup: String)
        ensures
            markup@ == outer_html(self.source(), self.path()),
    {
        self.node.html()
    }
}

/// The page `text`, parsed as an HTML fragment.
pub fn parse_document(text: &str) -> (doc: Document)
    ensures
        doc.source() == text@,
{
    Document::parse(text)
}

impl Document {
    /// The elements of the page that `selector` matches, in the order
    /// `scraper` yields them; `None` when `selector` is not a valid selector.
    pub fn select_all<'a>(&'a self, selector: &str) -> (found: Option<Vec<Element<'a>>>)
        ensures
            found is Some <==> selector_is_valid(selector@),
            found matches Some(v) ==> v.len() == match_count(self.source(), Seq::empty(), selector@)
                && forall|i: int|
                0 <= i < v.len() ==> (#[trigger] v[i]).source() == self.source() && v[i].path()
                    == seq![(Some(selector@), i as nat)],
    {
        match CssSelector::parse(selector) {
            Some(sel) => Some(self.select(&sel)),
            None => None,
        }
    }
}

impl<'a> Element<'a> {
    /// The descendants of this element that `selector` matches, in tree
    /// order; `None` when `selector` is not a valid selector.
    pub fn select_all(&self, selector: &str) -> (found: Option<Vec<Element<'a>>>)
        ensures
            found is Some <==> selector_is_valid(selector@),
            found matches Some(v) ==> v.len() == match_count(self.source(), self.path(), selector@)
                && forall|i: int|
                0 <= i < v.len() ==> (#[trigger] v[i]).source() == self.source() && v[i].path()
                    == self.path().push((Some(selector@), i as nat)),
    {
        match CssSelector::parse(selector) {
            Some(sel) => Some(self.select(&sel)),
            None => None,
        }
    }
}

} // verus!
