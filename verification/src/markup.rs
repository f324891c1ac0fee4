//! The markup of an item's body: a TOML front matter between `---` fences,
//! and Markdown rendered to HTML.
//!
//! A body with front matter begins with `---`, then whitespace that holds a
//! line break; the metadata runs from after the last such break up to the
//! first line that begins with `---` followed by nothing but whitespace to
//! the end of the line (or of the body); the rest of the body follows that
//! line, past any further line breaks.
use hoedown::Render;
use vstd::prelude::*;

use crate::handle::{Error, Handle};
use crate::item::Item;
use crate::support::{is_whitespace, white_space};

verus! {

#[verifier::external_type_specification]
#[verifier::external_body]
pub struct ExTomlValue(toml::Value);

/// Whether `text` is a TOML document that `toml` parses.
pub uninterp spec fn toml_valid(text: Seq<char>) -> bool;

/// The HTML that hoedown renders from the Markdown `body`, with no
/// extensions and no renderer flags.
pub uninterp spec fn markdown_html(body: Seq<char>) -> Seq<char>;

/// `str::parse::<toml::Table>`: the table of the TOML document `text`, as a
/// `toml::Value::Table`, where `text` is one. What the table holds is not
/// stated.
#[verifier::external_body]
fn parse_toml(text: &str) -> (r: Option<toml::Value>)
    ensures
        r is Some <==> toml_valid(text@),
{
    match text.parse::<toml::Table>() {
        Ok(table) => Some(toml::Value::Table(table)),
        Err(_) => None,
    }
}

/// `hoedown`: renders the Markdown `body` to HTML with the `Html` renderer,
/// no extensions and no flags. The buffer holds UTF-8, which is taken as
/// it is.
#[verifier::external_body]
fn render_html(body: &str) -> (r: String)
    ensures
        r@ == markdown_html(body@),
{
    let document = hoedown::Markdown::new(body);
    let mut renderer = hoedown::Html::new(hoedown::renderer::html::Flags::empty(), 0);
    let buffer = renderer.render(&document);
    String::from_utf8_lossy(buffer.as_ref()).into_owned()
}

/// The metadata of an item: the text of its front matter, and the TOML
/// table parsed from it.
pub struct Metadata {
    pub source: String,
    pub data: toml::Value,
}

/// Whether `s` has `---` at position `i`.
pub open spec fn dashes_at(s: Seq<char>, i: int) -> bool {
    0 <= i && i + 3 <= s.len() && s[i] == '-' && s[i + 1] == '-' && s[i + 2] == '-'
}

/// The end of the run of whitespace of `s` that starts at `i`.
pub open spec fn space_end(s: Seq<char>, i: int) -> int
    decreases s.len() - i,
{
    if 0 <= i < s.len() && white_space(s[i]) {
        space_end(s, i + 1)
    } else {
        i
    }
}

/// The position of the last line break of `s` in `lo .. hi`.
pub open spec fn last_break(s: Seq<char>, lo: int, hi: int) -> Option<int>
    decreases hi - lo,
{
    if hi <= lo {
        None
    } else if s[hi - 1] == '\n' {
        Some(hi - 1)
    } else {
        last_break(s, lo, hi - 1)
    }
}

/// Where the closing fence that begins at `p` ends, if one does: `p` begins
/// a line with `---`, followed by whitespace; the fence ends at the end of
/// the body where that whitespace reaches it, else at the last line break
/// within that whitespace.
pub open spec fn fence_end(s: Seq<char>, p: int) -> Option<int> {
    if (p == 0 || (0 < p <= s.len() && s[p - 1] == '\n')) && dashes_at(s, p) {
        let e = space_end(s, p + 3);
        if e == s.len() {
            Some(e)
        } else {
            last_break(s, p + 3, e)
        }
    } else {
        None
    }
}

/// The first closing fence at or after `p`: where it begins and ends.
pub open spec fn closing_fence(s: Seq<char>, p: int) -> Option<(int, int)>
    decreases s.len() - p,
{
    if p < 0 || p >= s.len() {
        None
    } else {
        match fence_end(s, p) {
            Some(q) => Some((p, q)),
            None => closing_fence(s, p + 1),
        }
    }
}

/// The end of the run of line breaks of `s` that starts at `q`.
pub open spec fn breaks_end(s: Seq<char>, q: int) -> int
    decreases s.len() - q,
{
    if 0 <= q < s.len() && s[q] == '\n' {
        breaks_end(s, q + 1)
    } else {
        q
    }
}

/// The front matter of `body` and the rest of it, where it has front
/// matter.
pub open spec fn front_matter(body: Seq<char>) -> Option<(Seq<char>, Seq<char>)> {
    if dashes_at(body, 0) {
        match last_break(body, 3, space_end(body, 3)) {
            Some(r) => match closing_fence(body, r + 1) {
                Some((p, q)) => Some(
                    (body.subrange(r + 1, p), body.subrange(breaks_end(body, q), body.len() as int)),
                ),
                None => None,
            },
            None => None,
        }
    } else {
        None
    }
}

proof fn lemma_space_end_bounds(s: Seq<char>, i: int)
    requires
        0 <= i <= s.len(),
    ensures
        i <= space_end(s, i) <= s.len(),
    decreases s.len() - i,
{
    if i < s.len() && white_space(s[i]) {
        lemma_space_end_bounds(s, i + 1);
    }
}

proof fn lemma_last_break_bounds(s: Seq<char>, lo: int, hi: int)
    ensures
        last_break(s, lo, hi) matches Some(r) ==> lo <= r < hi && s[r] == '\n',
    decreases hi - lo,
{
    if hi > lo && s[hi - 1] != '\n' {
        lemma_last_break_bounds(s, lo, hi - 1);
    }
}

proof fn lemma_breaks_end_bounds(s: Seq<char>, q: int)
    requires
        0 <= q <= s.len(),
    ensures
        q <= breaks_end(s, q) <= s.len(),
    decreases s.len() - q,
{
    if q < s.len() && s[q] == '\n' {
        lemma_breaks_end_bounds(s, q + 1);
    }
}

proof fn lemma_closing_fence_bounds(s: Seq<char>, p: int)
    requires
        0 <= p,
    ensures
        closing_fence(s, p) matches Some((a, b)) ==> p <= a < s.len() && a <= b <= s.len(),
    decreases s.len() - p,
{
    if p < s.len() {
        match fence_end(s, p) {
            Some(q) => {
                lemma_space_end_bounds(s, p + 3);
                lemma_last_break_bounds(s, p + 3, space_end(s, p + 3));
            },
            None => {
                lemma_closing_fence_bounds(s, p + 1);
            },
        }
    }
}

/// The end of the run of whitespace of `s` that starts at `i`.
fn find_space_end(s: &str, i: usize) -> (r: usize)
    requires
        i <= s@.len(),
    ensures
        r == space_end(s@, i as int),
        i <= r <= s@.len(),
{
    let n = s.unicode_len();
    let mut j: usize = i;
    while j < n && is_whitespace(s.get_char(j))
        invariant
            n == s@.len(),
            i <= j <= n,
            space_end(s@, j as int) == space_end(s@, i as int),
        decreases n - j,
    {
        j = j + 1;
    }
    j
}

/// The position of the last line break of `s` in `lo .. hi`.
fn find_last_break(s: &str, lo: usize, hi: usize) -> (r: Option<usize>)
    requires
        lo <= hi <= s@.len(),
    ensures
        match r {
            Some(x) => last_break(s@, lo as int, hi as int) == Some(x as int),
            None => last_break(s@, lo as int, hi as int) is None,
        },
{
    let mut j: usize = hi;
    while j > lo && s.get_char(j - 1) != '\n'
        invariant
            lo <= j <= hi <= s@.len(),
            last_break(s@, lo as int, j as int) == last_break(s@, lo as int, hi as int),
        decreases j,
    {
        j = j - 1;
    }
    if j > lo {
        Some(j - 1)
    } else {
        None
    }
}

/// Whether `s` has `---` at position `i`.
fn has_dashes(s: &str, i: usize) -> (r: bool)
    requires
        i <= s@.len(),
    ensures
        r == dashes_at(s@, i as int),
{
    let n = s.unicode_len();
    if n < 3 || i > n - 3 {
        return false;
    }
    s.get_char(i) == '-' && s.get_char(i + 1) == '-' && s.get_char(i + 2) == '-'
}

/// Where the closing fence that begins at `p` ends, if one does.
fn find_fence_end(s: &str, p: usize) -> (r: Option<usize>)
    requires
        p <= s@.len(),
    ensures
        match r {
            Some(x) => fence_end(s@, p as int) == Some(x as int),
            None => fence_end(s@, p as int) is None,
        },
{
    let line_start = p == 0 || s.get_char(p - 1) == '\n';
    if !line_start || !has_dashes(s, p) {
        return None;
    }
    let n = s.unicode_len();
    let e = find_space_end(s, p + 3);
    if e == n {
        Some(e)
    } else {
        find_last_break(s, p + 3, e)
    }
}

/// The first closing fence at or after `p`: where it begins and ends.
fn find_closing_fence(s: &str, p: usize) -> (r: Option<(usize, usize)>)
    requires
        p <= s@.len(),
    ensures
        match r {
            Some((a, b)) => closing_fence(s@, p as int) == Some((a as int, b as int)),
            None => closing_fence(s@, p as int) is None,
        },
{
    let n = s.unicode_len();
    let mut j: usize = p;
    while j < n
        invariant
            n == s@.len(),
            p <= j <= n,
            closing_fence(s@, j as int) == closing_fence(s@, p as int),
        decreases n - j,
    {
        match find_fence_end(s, j) {
            Some(q) => {
                return Some((j, q));
            },
            None => {},
        }
        j = j + 1;
    }
    None
}

/// The end of the run of line breaks of `s` that starts at `q`.
fn find_breaks_end(s: &str, q: usize) -> (r: usize)
    requires
        q <= s@.len(),
    ensures
        r == breaks_end(s@, q as int),
{
    let n = s.unicode_len();
    let mut j: usize = q;
    while j < n && s.get_char(j) == '\n'
        invariant
            n == s@.len(),
            q <= j <= n,
            breaks_end(s@, j as int) == breaks_end(s@, q as int),
        decreases n - j,
    {
        j = j + 1;
    }
    j
}

/// Splits `body` into its front matter and the rest, where it has front
/// matter.
pub fn split_front_matter(body: &str) -> (r: Option<(String, String)>)
    ensures
        match r {
            Some((meta, rest)) => front_matter(body@) == Some((meta@, rest@)),
            None => front_matter(body@) is None,
        },
{
    let n = body.unicode_len();
    if !has_dashes(body, 0) {
        return None;
    }
    let e = find_space_end(body, 3);
    let r = match find_last_break(body, 3, e) {
        Some(r) => r,
        None => {
            return None;
        },
    };
    proof {
        lemma_last_break_bounds(body@, 3, e as int);
    }
    let (p, q) = match find_closing_fence(body, r + 1) {
        Some(found) => found,
        None => {
            return None;
        },
    };
    proof {
        lemma_closing_fence_bounds(body@, r + 1);
    }
    let start = find_breaks_end(body, q);
    proof {
        lemma_breaks_end_bounds(body@, q as int);
    }
    let meta = String::from_str(body.substring_char(r + 1, p));
    let rest = String::from_str(body.substring_char(start, n));
    Some((meta, rest))
}

/// Splits off the item's front matter: where the body has front matter,
/// the body becomes the rest of it, and the front matter, where it is a
/// TOML document, becomes the item's metadata (else the metadata stays as
/// it was). A body without front matter is left as it is.
pub fn parse_metadata(item: &mut Item) -> (r: Result<(), Error>)
    ensures
        r is Ok,
        match front_matter(old(item).body_view()) {
            Some((meta, rest)) => {
                &&& final(item).body_view() == rest
                &&& if toml_valid(meta) {
                    final(item).metadata_view() matches Some(m) && m.source@ == meta
                } else {
                    final(item).metadata_view() == old(item).metadata_view()
                }
            },
            None => {
                &&& final(item).body_view() == old(item).body_view()
                &&& final(item).metadata_view() == old(item).metadata_view()
            },
        },
        final(item).route_view() == old(item).route_view(),
        final(item).bind_view() == old(item).bind_view(),
        final(item).page_view() == old(item).page_view(),
        final(item).rendered_view() == old(item).rendered_view(),
{
    match split_front_matter(item.body()) {
        Some((meta, rest)) => {
            match parse_toml(meta.as_str()) {
                Some(data) => {
                    item.set_metadata(Some(Metadata { source: meta, data }));
                },
                None => {},
            }
            item.set_body(rest);
        },
        None => {},
    }
    Ok(())
}

/// Renders the item's Markdown body to HTML, which the item keeps beside
/// its body.
pub fn render_markdown(item: &mut Item) -> (r: Result<(), Error>)
    ensures
        r is Ok,
        final(item).rendered_view() == Some(markdown_html(old(item).body_view())),
        final(item).body_view() == old(item).body_view(),
        final(item).route_view() == old(item).route_view(),
        final(item).bind_view() == old(item).bind_view(),
        final(item).page_view() == old(item).page_view(),
        final(item).metadata_view() == old(item).metadata_view(),
{
    let html = render_html(item.body());
    item.set_rendered(html);
    Ok(())
}

/// The item handler that splits off front matter, as `parse_metadata`.
pub struct ParseMetadata;

impl Handle<Item> for ParseMetadata {
    open spec fn handles(&self, before: Item, after: Item, ok: bool) -> bool {
        &&& ok
        &&& match front_matter(before.body_view()) {
            Some((meta, rest)) => {
                &&& after.body_view() == rest
                &&& if toml_valid(meta) {
                    after.metadata_view() matches Some(m) && m.source@ == meta
                } else {
                    after.metadata_view() == before.metadata_view()
                }
            },
            None => after.body_view() == before.body_view() && after.metadata_view()
                == before.metadata_view(),
        }
        &&& after.route_view() == before.route_view()
        &&& after.bind_view() == before.bind_view()
        &&& after.page_view() == before.page_view()
        &&& after.rendered_view() == before.rendered_view()
    }

    fn handle(&self, item: &mut Item) -> (r: Result<(), Error>) {
        parse_metadata(item)
    }
}

/// The item handler that renders Markdown, as `render_markdown`.
pub struct RenderMarkdown;

impl Handle<Item> for RenderMarkdown {
    open spec fn handles(&self, before: Item, after: Item, ok: bool) -> bool {
        &&& ok
        &&& after.rendered_view() == Some(markdown_html(before.body_view()))
        &&& after.body_view() == before.body_view()
        &&& after.route_view() == before.route_view()
        &&& after.bind_view() == before.bind_view()
        &&& after.page_view() == before.page_view()
        &&& after.metadata_view() == before.metadata_view()
    }

    fn handle(&self, item: &mut Item) -> (r: Result<(), Error>) {
        render_markdown(item)
    }
}

/// Whether a line of `s` that would close front matter begins at `k`: the
/// line begins with `---`, and nothing but whitespace follows it up to its
/// line break.
pub open spec fn closing_line(s: Seq<char>, k: int) -> bool {
    &&& (k == 0 || (0 < k <= s.len() && s[k - 1] == '\n'))
    &&& 0 <= k && k + 3 <= s.len() && s[k] == '-' && s[k + 1] == '-' && s[k + 2] == '-'
    &&& exists|q: int|
        k + 3 <= q < s.len() && s[q] == '\n' && forall|j: int| k + 3 <= j < q ==> #[trigger] white_space(s[j])
}

/// A run of whitespace from `i` reaches at least `j` where everything in
/// between is whitespace.
proof fn lemma_space_end_covers(s: Seq<char>, i: int, j: int)
    requires
        0 <= i <= j <= s.len(),
        forall|m: int| i <= m < j ==> #[trigger] white_space(s[m]),
    ensures
        space_end(s, i) >= j,
    decreases j - i,
{
    lemma_space_end_bounds(s, i);
    if i < j {
        assert(white_space(s[i]));
        lemma_space_end_covers(s, i + 1, j);
    }
}

/// A line break in `lo .. hi` is found.
proof fn lemma_last_break_found(s: Seq<char>, lo: int, hi: int, m: int)
    requires
        lo <= m < hi,
        s[m] == '\n',
    ensures
        last_break(s, lo, hi) is Some,
    decreases hi - lo,
{
    if s[hi - 1] != '\n' {
        lemma_last_break_found(s, lo, hi - 1, m);
    }
}

/// No closing fence begins before the one `closing_fence` finds.
proof fn lemma_closing_fence_first(s: Seq<char>, p: int, x: int)
    requires
        closing_fence(s, p) matches Some((a, b)) && p <= x < a,
    ensures
        fence_end(s, x) is None,
    decreases s.len() - p,
{
    if x > p {
        lemma_closing_fence_first(s, p + 1, x);
    }
}

/// The front matter ends at the first line that closes it: no line of the
/// front matter would itself close it. So a `---` rule in the body after
/// the front matter is left in the body.
pub proof fn lemma_front_matter_ends_at_first_fence(body: Seq<char>, k: int)
    requires
        front_matter(body) matches Some((meta, rest)) && 0 <= k < meta.len(),
    ensures
        front_matter(body) matches Some((meta, rest)) && !closing_line(meta, k),
{
    let e0 = space_end(body, 3);
    let r = last_break(body, 3, e0)->Some_0;
    lemma_last_break_bounds(body, 3, e0);
    let (p, q) = closing_fence(body, r + 1)->Some_0;
    lemma_closing_fence_bounds(body, r + 1);
    let meta = body.subrange(r + 1, p);
    if closing_line(meta, k) {
        let q0 = choose|q0: int|
            k + 3 <= q0 < meta.len() && meta[q0] == '\n' && forall|j: int|
                k + 3 <= j < q0 ==> #[trigger] white_space(meta[j]);
        let x = r + 1 + k;
        let y = r + 1 + q0;
        assert(x < p);
        assert(body[y] == '\n');
        assert forall|m: int| x + 3 <= m < y implies #[trigger] white_space(body[m]) by {
            assert(body[m] == meta[m - (r + 1)]);
            assert(white_space(meta[m - (r + 1)]));
        }
        assert(white_space(body[y]));
        lemma_space_end_covers(body, x + 3, y + 1);
        let e = space_end(body, x + 3);
        if e != body.len() {
            lemma_last_break_found(body, x + 3, e, y);
        }
        assert(body[x] == meta[k] && body[x + 1] == meta[k + 1] && body[x + 2] == meta[k + 2]);
        if k > 0 {
            assert(body[x - 1] == meta[k - 1]);
        }
        assert(fence_end(body, x) is Some);
        lemma_closing_fence_first(body, r + 1, x);
    }
}

/// Whether a line that closes front matter begins at `k` of `s`: it begins
/// with `---`, and nothing but whitespace follows it up to its line break
/// or the end of `s`.
pub open spec fn fence_at(s: Seq<char>, k: int) -> bool {
    &&& (k == 0 || (0 < k <= s.len() && s[k - 1] == '\n'))
    &&& 0 <= k && k + 3 <= s.len() && s[k] == '-' && s[k + 1] == '-' && s[k + 2] == '-'
    &&& exists|q: int| #[trigger] blank_to_line_end(s, k + 3, q)
}

/// Whether nothing but whitespace lies in `s` from `i` up to `q`, where a
/// line break or the end of `s` is.
pub open spec fn blank_to_line_end(s: Seq<char>, i: int, q: int) -> bool {
    &&& i <= q <= s.len()
    &&& (q == s.len() || s[q] == '\n')
    &&& forall|j: int| i <= j < q ==> #[trigger] white_space(s[j])
}

/// The closing fence that `closing_fence` finds is one.
proof fn lemma_closing_fence_found(s: Seq<char>, p: int)
    requires
        closing_fence(s, p) is Some,
    ensures
        closing_fence(s, p) matches Some((a, b)) && fence_end(s, a) == Some(b),
    decreases s.len() - p,
{
    if fence_end(s, p) is None {
        lemma_closing_fence_found(s, p + 1);
    }
}

/// Everything in a run of whitespace is whitespace.
proof fn lemma_space_end_white(s: Seq<char>, i: int)
    requires
        0 <= i <= s.len(),
    ensures
        forall|m: int| i <= m < space_end(s, i) ==> #[trigger] white_space(s[m]),
    decreases s.len() - i,
{
    if i < s.len() && white_space(s[i]) {
        lemma_space_end_white(s, i + 1);
    }
}

/// Whether the whitespace that `x` begins with holds no line break.
pub open spec fn no_break_in_leading_space(x: Seq<char>) -> bool {
    forall|j: int|
        0 <= j < x.len() && (forall|m: int| 0 <= m <= j ==> #[trigger] white_space(x[m])) ==> #[trigger] x[j]
            != '\n'
}

/// No line break follows the last one.
proof fn lemma_last_break_last(s: Seq<char>, lo: int, hi: int)
    ensures
        last_break(s, lo, hi) matches Some(r) ==> forall|j: int| r < j < hi ==> #[trigger] s[j] != '\n',
    decreases hi - lo,
{
    if hi > lo && s[hi - 1] != '\n' {
        lemma_last_break_last(s, lo, hi - 1);
    }
}

/// A run of whitespace stops at the end or at a character that is not
/// whitespace.
proof fn lemma_space_end_stops(s: Seq<char>, i: int)
    requires
        0 <= i <= s.len(),
    ensures
        space_end(s, i) == s.len() || !white_space(s[space_end(s, i)]),
    decreases s.len() - i,
{
    if i < s.len() && white_space(s[i]) {
        lemma_space_end_stops(s, i + 1);
    }
}

/// The shape of a body with front matter: it opens with `---` and
/// whitespace up to a line break, then the front matter, then a line that
/// closes it; the rest is what follows that line.
pub proof fn lemma_front_matter_shape(body: Seq<char>)
    requires
        front_matter(body) is Some,
    ensures
        front_matter(body) matches Some((meta, rest)) && exists|start: int, p: int|
            #![trigger body.subrange(start, p)]
            {
                &&& 3 < start <= p
                &&& body[0] == '-' && body[1] == '-' && body[2] == '-'
                &&& (forall|j: int| 3 <= j < start ==> #[trigger] white_space(body[j]))
                &&& body[start - 1] == '\n'
                &&& meta == body.subrange(start, p)
                &&& fence_at(body, p)
                &&& p + 3 <= body.len() - rest.len()
                &&& rest == body.subrange(body.len() - rest.len(), body.len() as int)
                &&& (forall|j: int| p + 3 <= j < body.len() - rest.len() ==> #[trigger] white_space(body[j]))
                &&& (rest.len() > 0 ==> body[body.len() - rest.len() - 1] == '\n' && exists|j: int|
                    0 <= j < rest.len() && !#[trigger] white_space(rest[j]))
                &&& no_break_in_leading_space(meta)
                &&& no_break_in_leading_space(rest)
            },
{
    let e0 = space_end(body, 3);
    lemma_space_end_bounds(body, 3);
    lemma_space_end_white(body, 3);
    let r = last_break(body, 3, e0)->Some_0;
    lemma_last_break_bounds(body, 3, e0);
    let (p, q) = closing_fence(body, r + 1)->Some_0;
    lemma_closing_fence_bounds(body, r + 1);
    lemma_closing_fence_found(body, r + 1);
    assert(fence_end(body, p) == Some(q));
    let e = space_end(body, p + 3);
    lemma_space_end_bounds(body, p + 3);
    lemma_space_end_white(body, p + 3);
    lemma_last_break_bounds(body, p + 3, e);
    assert(fence_end(body, p) == Some(q));
    assert(blank_to_line_end(body, p + 3, q));
    lemma_breaks_end_bounds(body, q);
    let start = r + 1;
    assert(forall|j: int| 3 <= j < start ==> #[trigger] white_space(body[j]));
    let d = breaks_end(body, q);
    let rest = body.subrange(d, body.len() as int);
    assert(body.len() - rest.len() == d);
    let meta = body.subrange(start, p);
    lemma_last_break_last(body, 3, e0);
    lemma_last_break_last(body, p + 3, e);
    lemma_space_end_stops(body, 3);
    lemma_space_end_stops(body, p + 3);
    // the fence's own line break is the last in the whitespace after it
    if q < body.len() {
        assert(e < body.len());
        assert(body[q] == '\n');
        if q + 1 < body.len() {
            if q + 1 < e {
                assert(body[q + 1] != '\n');
            } else {
                assert(!white_space(body[e]));
                assert(white_space('\n'));
                assert(body[q + 1] != '\n');
            }
        }
        assert(breaks_end(body, q) == breaks_end(body, q + 1));
        assert(breaks_end(body, q + 1) == q + 1);
        assert(d == q + 1);
        assert(body[e - d + d] == body[e]);
        assert(!white_space(rest[e - d]));
    } else {
        assert(d == body.len());
    }
    assert(d <= e);
    assert(forall|j: int| p + 3 <= j < d ==> #[trigger] white_space(body[j]));
    assert(no_break_in_leading_space(rest)) by {
        assert forall|j: int|
            0 <= j < rest.len() && (forall|m: int| 0 <= m <= j ==> #[trigger] white_space(rest[m])) implies #[trigger] rest[j]
                != '\n' by {
            let y = d + j;
            assert forall|m: int| p + 3 <= m < y + 1 implies #[trigger] white_space(body[m]) by {
                if m >= d {
                    assert(body[m] == rest[m - d]);
                    assert(white_space(rest[m - d]));
                }
            }
            lemma_space_end_covers(body, p + 3, y + 1);
            assert(rest[j] == body[y]);
        }
    }
    assert(p >= e0) by {
        if p < e0 {
            assert(white_space(body[p]));
        }
    }
    assert(no_break_in_leading_space(meta)) by {
        assert forall|j: int|
            0 <= j < meta.len() && (forall|m: int| 0 <= m <= j ==> #[trigger] white_space(meta[m])) implies #[trigger] meta[j]
                != '\n' by {
            let y = start + j;
            assert forall|m: int| 3 <= m < y + 1 implies #[trigger] white_space(body[m]) by {
                if m >= start {
                    assert(body[m] == meta[m - start]);
                    assert(white_space(meta[m - start]));
                }
            }
            lemma_space_end_covers(body, 3, y + 1);
            assert(meta[j] == body[y]);
        }
    }
    assert(body.subrange(start, p) == meta);
}

/// A line that closes front matter is a closing fence.
proof fn lemma_fence_at_is_fence(s: Seq<char>, k: int)
    requires
        fence_at(s, k),
    ensures
        fence_end(s, k) is Some,
{
    let q = choose|q: int| #[trigger] blank_to_line_end(s, k + 3, q);
    lemma_space_end_bounds(s, k + 3);
    if q == s.len() {
        lemma_space_end_covers(s, k + 3, q);
    } else {
        assert(white_space(s[q]));
        assert forall|m: int| k + 3 <= m < q + 1 implies #[trigger] white_space(s[m]) by {}
        lemma_space_end_covers(s, k + 3, q + 1);
        let e = space_end(s, k + 3);
        if e != s.len() {
            lemma_last_break_found(s, k + 3, e, q);
        }
    }
}

/// A closing fence at or after `x` is found from `x`.
proof fn lemma_closing_fence_reaches(s: Seq<char>, x: int, k: int)
    requires
        0 <= x <= k < s.len(),
        fence_end(s, k) is Some,
    ensures
        closing_fence(s, x) is Some,
    decreases k - x,
{
    if x < k && fence_end(s, x) is None {
        lemma_closing_fence_reaches(s, x + 1, k);
    }
}

/// A body that opens with `---` and whitespace holding a line break, and
/// has a line that closes front matter after that break, has front matter.
pub proof fn lemma_front_matter_found(body: Seq<char>, r: int, p: int)
    requires
        body.len() >= 3 && body[0] == '-' && body[1] == '-' && body[2] == '-',
        3 <= r < p,
        forall|j: int| 3 <= j <= r ==> #[trigger] white_space(body[j]),
        body[r] == '\n',
        fence_at(body, p),
    ensures
        front_matter(body) is Some,
{
    lemma_space_end_bounds(body, 3);
    lemma_space_end_covers(body, 3, r + 1);
    let e0 = space_end(body, 3);
    lemma_last_break_found(body, 3, e0, r);
    lemma_last_break_bounds(body, 3, e0);
    let r2 = last_break(body, 3, e0)->Some_0;
    lemma_space_end_white(body, 3);
    assert(p >= e0) by {
        if p < e0 {
            assert(white_space(body[p]));
        }
    }
    lemma_fence_at_is_fence(body, p);
    lemma_closing_fence_reaches(body, r2 + 1, p);
}

} // verus!
