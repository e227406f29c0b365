//! Listing the models of a provider: endpoint derivation and the reading of
//! the listing's body.
use vstd::prelude::*;
use vstd::string::*;
use crate::request::ClientError;
use crate::text::{chars_of, matches_here, views};

verus! {

/// `/chat/completions`
pub open spec fn chat_suffix() -> Seq<char> {
    "/chat/completions"@
}

/// `s` without its trailing slashes.
pub open spec fn trim_slashes(s: Seq<char>) -> Seq<char>
    decreases s.len(),
{
    if s.len() > 0 && s.last() == '/' {
        trim_slashes(s.drop_last())
    } else {
        s
    }
}

/// The model-list endpoint: a base URL that ends in `/chat/completions` has
/// that suffix replaced by `/models`; any other has its trailing slashes
/// removed and `/models` appended.
pub open spec fn models_url_of(base: Seq<char>) -> Seq<char> {
    let n = chat_suffix().len();
    if base.len() >= n && base.subrange(base.len() - n, base.len() as int) == chat_suffix() {
        base.subrange(0, base.len() - n) + "/models"@
    } else {
        trim_slashes(base) + "/models"@
    }
}

/// The model-list endpoint of a base URL.
pub fn models_url(base_url: &str) -> (r: String)
    ensures
        r@ == models_url_of(base_url@),
{
    let t = chars_of(base_url);
    let suffix = chars_of("/chat/completions");
    let n = t.len();
    if n >= suffix.len() && matches_here(&t, &suffix, n - suffix.len()) {
        return String::from_str(base_url.substring_char(0, n - suffix.len())).concat("/models");
    }
    let mut k: usize = n;
    assert(base_url@.subrange(0, n as int) =~= base_url@);
    while k > 0 && t[k - 1] == '/'
        invariant
            k <= n,
            n == t@.len(),
            t@ == base_url@,
            trim_slashes(base_url@) == trim_slashes(base_url@.subrange(0, k as int)),
        decreases k,
    {
        assert(base_url@.subrange(0, k as int).drop_last() =~= base_url@.subrange(0, k - 1));
        k -= 1;
    }
    assert(trim_slashes(base_url@.subrange(0, k as int)) == base_url@.subrange(0, k as int));
    String::from_str(base_url.substring_char(0, k)).concat("/models")
}

/// What `serde_json` reads from a model listing: `None` if the body is no
/// JSON; `Some(None)` if it has no `data` list; else, for each entry of that
/// list in order, its `id` if that is a string.
pub uninterp spec fn listing_of(body: Seq<char>) -> Option<Option<Seq<Option<Seq<char>>>>>;

pub open spec fn opt_views(v: Seq<Option<String>>) -> Seq<Option<Seq<char>>> {
    v.map_values(|o: Option<String>| match o {
        Some(s) => Some(s@),
        None => None,
    })
}

/// Relies on `serde_json::from_str` into a `serde_json::Value` and on its
/// accessors `get`, `as_array` and `as_str`: reads the `data` list and the
/// `id` of each of its entries.
#[verifier::external_body]
fn read_listing(body: &str) -> (r: Option<Option<Vec<Option<String>>>>)
    ensures
        match r {
            None => listing_of(body@) is None,
            Some(None) => listing_of(body@) == Some(None::<Seq<Option<Seq<char>>>>),
            Some(Some(v)) => listing_of(body@) == Some(Some(opt_views(v@))),
        },
{
    let v: serde_json::Value = serde_json::from_str(body).ok()?;
    let list = match v.get("data").and_then(|d| d.as_array()) {
        Some(list) => list,
        None => return Some(None),
    };
    Some(Some(list.iter().map(|item| item.get("id").and_then(|id| id.as_str()).map(|s| s.to_string())).collect()))
}

/// The ids present, in order, skipping entries without one.
pub open spec fn present_ids(v: Seq<Option<Seq<char>>>) -> Seq<Seq<char>>
    decreases v.len(),
{
    if v.len() == 0 {
        Seq::empty()
    } else {
        present_ids(v.drop_last()) + match v.last() {
            Some(s) => seq![s],
            None => Seq::empty(),
        }
    }
}

/// Lexicographic order of texts, character by character, a prefix first.
pub open spec fn text_le(a: Seq<char>, b: Seq<char>) -> bool
    decreases a.len(),
{
    if a.len() == 0 {
        true
    } else if b.len() == 0 {
        false
    } else if a[0] != b[0] {
        (a[0] as u32) < (b[0] as u32)
    } else {
        text_le(a.drop_first(), b.drop_first())
    }
}

pub open spec fn is_sorted(s: Seq<Seq<char>>) -> bool {
    forall|i: int, j: int| 0 <= i < j < s.len() ==> text_le(#[trigger] s[i], #[trigger] s[j])
}

/// Relies on `slice::sort` for `String`: a stable sort by `Ord for str`, which
/// orders by bytes; UTF-8 byte order is the order of the characters' code
/// points.
#[verifier::external_body]
fn sort_texts(v: &mut Vec<String>)
    ensures
        views(final(v)@).to_multiset() == views(old(v)@).to_multiset(),
        is_sorted(views(final(v)@)),
{
    v.sort();
}

/// The sorted model ids of a listing body. A body that is no JSON fails with
/// `Decode`; one without a `data` list lists no model; entries without a
/// string `id` are skipped.
pub fn models_from_body(body: &str) -> (r: Result<Vec<String>, ClientError>)
    ensures
        listing_of(body@) is None <==> r is Err,
        r is Err ==> r == Err::<Vec<String>, ClientError>(ClientError::Decode),
        r is Ok ==> is_sorted(views(r->Ok_0@)),
        r is Ok ==> views(r->Ok_0@).to_multiset() == (match listing_of(body@) {
            Some(Some(v)) => present_ids(v),
            _ => Seq::<Seq<char>>::empty(),
        }).to_multiset(),
{
    match read_listing(body) {
        None => Err(ClientError::Decode),
        Some(None) => {
            let v: Vec<String> = Vec::new();
            assert(views(v@) =~= Seq::<Seq<char>>::empty());
            Ok(v)
        },
        Some(Some(entries)) => {
            let mut ids: Vec<String> = Vec::new();
            let mut i: usize = 0;
            while i < entries.len()
                invariant
                    i <= entries@.len(),
                    views(ids@) == present_ids(opt_views(entries@).subrange(0, i as int)),
                decreases entries@.len() - i,
            {
                let ghost before = views(ids@);
                match &entries[i] {
                    Some(id) => {
                        ids.push(id.clone());
                    },
                    None => {},
                }
                proof {
                    let sub = opt_views(entries@).subrange(0, i + 1);
                    assert(sub.drop_last() =~= opt_views(entries@).subrange(0, i as int));
                    assert(views(ids@) =~= present_ids(sub));
                }
                i += 1;
            }
            assert(opt_views(entries@).subrange(0, entries@.len() as int) =~= opt_views(entries@));
            sort_texts(&mut ids);
            Ok(ids)
        },
    }
}

} // verus!
