//! Link extraction: turning the anchors of a fetched page into in-scope URLs.
use vstd::prelude::*;
use vstd::string::{StrSliceExecFns, StringExecFns, StringSliceAdditionalSpecFns};
use crate::host::{opt_view, same_host, same_host_spec};

verus! {

/// The `href` attribute of each anchor element of an HTML document, in document
/// order, as `scraper` finds them; `None` for an anchor without `href`.
pub uninterp spec fn anchor_hrefs(body: Seq<char>) -> Seq<Option<Seq<char>>>;

/// Relies on `scraper::Html::parse_document` and `Html::select` with the `a`
/// selector: the `href` attribute of every anchor of the document, in order.
#[verifier::external_body]
fn anchors_in(body: &str) -> (r: Vec<Option<String>>)
    ensures
        r@.map_values(|o: Option<String>| opt_view(o)) == anchor_hrefs(body@),
{
    let document = scraper::Html::parse_document(body);
    let selector = scraper::Selector::parse("a").unwrap();
    document.select(&selector).map(|a| a.value().attr("href").map(|h| h.to_string())).collect()
}

/// `s` begins with `p`.
pub open spec fn starts_with(s: Seq<char>, p: Seq<char>) -> bool {
    p.len() <= s.len() && s.subrange(0, p.len() as int) == p
}

/// References that never lead to a page: mail, script, telephone and fragment links.
pub open spec fn is_discarded(h: Seq<char>) -> bool {
    starts_with(h, seq!['m', 'a', 'i', 'l', 't', 'o', ':'])
        || starts_with(h, seq!['j', 'a', 'v', 'a', 's', 'c', 'r', 'i', 'p', 't', ':'])
        || starts_with(h, seq!['t', 'e', 'l', ':'])
        || starts_with(h, seq!['#'])
}

/// A root-relative path appended to the crawl root, with a single `/` between them.
pub open spec fn join_path(root: Seq<char>, path: Seq<char>) -> Seq<char> {
    if root.len() > 0 && root.last() == '/' {
        root.drop_last() + path
    } else {
        root + path
    }
}

/// What a single `href` contributes to the crawl: a root-relative path is resolved
/// against the root, discarded schemes and fragments give nothing, and any other
/// reference is kept only when it lies on the root's host.
pub open spec fn link_of(root: Seq<char>, href: Option<Seq<char>>) -> Option<Seq<char>> {
    match href {
        None => None,
        Some(h) => if starts_with(h, seq!['/']) {
            Some(join_path(root, h))
        } else if is_discarded(h) {
            None
        } else if same_host_spec(root, h) {
            Some(h)
        } else {
            None
        },
    }
}

/// The links that a sequence of `href`s contributes, in order.
pub open spec fn links_of(root: Seq<char>, hrefs: Seq<Option<Seq<char>>>) -> Seq<Seq<char>>
    decreases hrefs.len(),
{
    if hrefs.len() == 0 {
        Seq::empty()
    } else {
        let before = links_of(root, hrefs.drop_last());
        match link_of(root, hrefs.last()) {
            Some(l) => before.push(l),
            None => before,
        }
    }
}

/// Whether `s` begins with `p`.
pub fn has_prefix(s: &str, p: &str) -> (r: bool)
    ensures
        r == starts_with(s@, p@),
{
    let n = s.unicode_len();
    let m = p.unicode_len();
    if m > n {
        return false;
    }
    let mut i: usize = 0;
    while i < m
        invariant
            m == p@.len(),
            n == s@.len(),
            m <= n,
            i <= m,
            s@.subrange(0, i as int) == p@.subrange(0, i as int),
        decreases m - i,
    {
        if s.get_char(i) != p.get_char(i) {
            assert(s@.subrange(0, m as int)[i as int] != p@[i as int]);
            return false;
        }
        assert(s@.subrange(0, i + 1) == s@.subrange(0, i as int).push(s@[i as int]));
        assert(p@.subrange(0, i + 1) == p@.subrange(0, i as int).push(p@[i as int]));
        i = i + 1;
    }
    assert(p@.subrange(0, m as int) == p@);
    true
}

/// Whether an `href` is a mail, script, telephone or fragment reference.
pub fn discarded(h: &str) -> (r: bool)
    ensures
        r == is_discarded(h@),
{
    proof {
        reveal_strlit("mailto:");
        reveal_strlit("javascript:");
        reveal_strlit("tel:");
        reveal_strlit("#");
        assert("mailto:"@ =~= seq!['m', 'a', 'i', 'l', 't', 'o', ':']);
        assert("javascript:"@ =~= seq!['j', 'a', 'v', 'a', 's', 'c', 'r', 'i', 'p', 't', ':']);
        assert("tel:"@ =~= seq!['t', 'e', 'l', ':']);
        assert("#"@ =~= seq!['#']);
    }
    has_prefix(h, "mailto:") || has_prefix(h, "javascript:") || has_prefix(h, "tel:")
        || has_prefix(h, "#")
}

/// Resolves a root-relative `path` against the crawl root.
pub fn resolve_path(root: &str, path: &str) -> (r: String)
    ensures
        r@ == join_path(root@, path@),
{
    let n = root.unicode_len();
    if n > 0 && root.get_char(n - 1) == '/' {
        let base = String::from_str(root.substring_char(0, n - 1));
        base.concat(path)
    } else {
        String::from_str(root).concat(path)
    }
}

/// The in-scope link that `href` contributes to a crawl rooted at `root`, if any.
pub fn link_for(root: &str, href: &Option<String>) -> (r: Option<String>)
    ensures
        opt_view(r) == link_of(root@, opt_view(*href)),
{
    match href {
        None => None,
        Some(h) => {
            proof {
                reveal_strlit("/");
                assert("/"@ =~= seq!['/']);
            }
            if has_prefix(h.as_str(), "/") {
                Some(resolve_path(root, h.as_str()))
            } else if discarded(h.as_str()) {
                None
            } else if same_host(root, h.as_str()) {
                Some(h.clone())
            } else {
                None
            }
        },
    }
}

/// The in-scope links that a page's anchors contribute, in document order.
pub fn links_from_hrefs(root: &str, hrefs: &Vec<Option<String>>) -> (r: Vec<String>)
    ensures
        r@.map_values(|s: String| s@) == links_of(
            root@,
            hrefs@.map_values(|o: Option<String>| opt_view(o)),
        ),
{
    let ghost all = hrefs@.map_values(|o: Option<String>| opt_view(o));
    let mut out: Vec<String> = Vec::new();
    let mut i: usize = 0;
    while i < hrefs.len()
        invariant
            i <= hrefs@.len(),
            all == hrefs@.map_values(|o: Option<String>| opt_view(o)),
            out@.map_values(|s: String| s@) == links_of(root@, all.subrange(0, i as int)),
        decreases hrefs@.len() - i,
    {
        let l = link_for(root, &hrefs[i]);
        assert(all.subrange(0, i + 1).drop_last() == all.subrange(0, i as int));
        match l {
            Some(s) => {
                out.push(s);
                assert(out@.map_values(|s: String| s@) == links_of(root@, all.subrange(0, i as int)).push(s@));
            },
            None => {},
        }
        i = i + 1;
    }
    assert(all.subrange(0, hrefs@.len() as int) == all);
    out
}

/// Scans a fetched page: the in-scope links of its anchors, in document order, and
/// the size of the body in bytes.
pub fn scan_page(root: &str, body: &str) -> (r: (Vec<String>, usize))
    ensures
        r.0@.map_values(|s: String| s@) == links_of(root@, anchor_hrefs(body@)),
        r.1 == body.spec_bytes().len() as usize,
{
    let hrefs = anchors_in(body);
    let links = links_from_hrefs(root, &hrefs);
    (links, body.len())
}

/// Every link that a page contributes is either a root-relative path resolved
/// against the root, or a reference on the root's own host.
pub proof fn lemma_links_in_scope(root: Seq<char>, hrefs: Seq<Option<Seq<char>>>, u: Seq<char>)
    requires
        links_of(root, hrefs).contains(u),
    ensures
        (exists|h: Seq<char>| starts_with(h, seq!['/']) && u == join_path(root, h))
            || same_host_spec(root, u),
    decreases hrefs.len(),
{
    if hrefs.len() > 0 {
        let before = links_of(root, hrefs.drop_last());
        match link_of(root, hrefs.last()) {
            Some(l) => {
                if u == l {
                    let h = hrefs.last()->Some_0;
                    if starts_with(h, seq!['/']) {
                        assert(starts_with(h, seq!['/']) && u == join_path(root, h));
                    }
                } else {
                    assert(before.push(l).last() == l);
                    assert(before.contains(u)) by {
                        let k = choose|k: int| 0 <= k < before.push(l).len() && before.push(l)[k] == u;
                        assert(before[k] == u);
                    }
                    lemma_links_in_scope(root, hrefs.drop_last(), u);
                }
            },
            None => {
                lemma_links_in_scope(root, hrefs.drop_last(), u);
            },
        }
    }
}

} // verus!
