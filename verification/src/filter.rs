//! The header bar's filter over the installed games, and the test for an
//! entry that holds nothing but whitespace.

use vstd::prelude::*;
use crate::text::{chars_of, contains_chars, contains_seq, lowercase_of, to_lowercase, trim_chars, trimmed};

verus! {

/// Whether the game titled `title` passes the filter `query`: an empty
/// query passes every title; otherwise the lowercased title must contain
/// the lowercased query.
pub open spec fn passes_filter(title: Seq<char>, query: Seq<char>) -> bool {
    lowercase_of(query).len() == 0 || contains_seq(lowercase_of(title), lowercase_of(query))
}

/// Whether the game titled `title` is shown while the filter entry holds
/// `query`; matching ignores case.
pub fn title_matches_filter(title: &str, query: &str) -> (res: bool)
    ensures
        res == passes_filter(title@, query@),
        query@.len() == 0 ==> res,
        title@ == query@ ==> res,
        lowercase_of(query@).len() > lowercase_of(title@).len() ==> !res,
        res ==> lowercase_of(query@).len() == 0 || exists|i: int|
            0 <= i && i + lowercase_of(query@).len() <= lowercase_of(title@).len()
                && #[trigger] lowercase_of(title@).subrange(i, i + lowercase_of(query@).len())
                == lowercase_of(query@),
{
    proof {
        lemma_title_passes_own_filter(title@);
        lemma_filter_passes_on_occurrence(title@, query@);
    }
    let q = to_lowercase(query);
    if q.as_str().is_empty() {
        return true;
    }
    let t = to_lowercase(title);
    let tc = chars_of(t.as_str());
    let qc = chars_of(q.as_str());
    contains_chars(&tc, &qc)
}

/// Whether `s` holds nothing but whitespace, as `s.trim().is_empty()`
/// decides it.
pub fn is_blank(s: &str) -> (res: bool)
    ensures
        res == (trimmed(s@).len() == 0),
{
    let c = chars_of(s);
    let t = trim_chars(&c);
    t.len() == 0
}

/// A game is always shown when the filter holds its own title.
pub proof fn lemma_title_passes_own_filter(title: Seq<char>)
    ensures
        passes_filter(title, title),
{
    let l = lowercase_of(title);
    assert(l.subrange(0, l.len() as int) =~= l);
    assert(l.subrange(0int, 0int + l.len()) =~= l);
}

/// A game passes a nonempty filter exactly when its lowercased title holds
/// the lowercased query somewhere; in particular a query longer than the
/// title (after lowercasing) never passes, and an empty one always does.
pub proof fn lemma_filter_passes_on_occurrence(title: Seq<char>, query: Seq<char>)
    ensures
        passes_filter(title, query) ==> lowercase_of(query).len() == 0 || exists|i: int|
            0 <= i && i + lowercase_of(query).len() <= lowercase_of(title).len()
                && #[trigger] lowercase_of(title).subrange(i, i + lowercase_of(query).len())
                == lowercase_of(query),
        lowercase_of(query).len() > lowercase_of(title).len() ==> !passes_filter(title, query),
        lowercase_of(query).len() == 0 ==> passes_filter(title, query),
        (exists|i: int|
            0 <= i && i + lowercase_of(query).len() <= lowercase_of(title).len()
                && #[trigger] lowercase_of(title).subrange(i, i + lowercase_of(query).len())
                == lowercase_of(query)) ==> passes_filter(title, query),
{
    let lt = lowercase_of(title);
    let lq = lowercase_of(query);
    if passes_filter(title, query) && lq.len() > 0 {
        let i = choose|i: int| 0 <= i <= lt.len() - lq.len() && #[trigger] lt.subrange(i, i + lq.len()) == lq;
        assert(0 <= i && i + lq.len() <= lt.len() && lt.subrange(i, i + lq.len()) == lq);
    }
    if exists|i: int| 0 <= i && i + lq.len() <= lt.len() && #[trigger] lt.subrange(i, i + lq.len()) == lq {
        let i = choose|i: int| 0 <= i && i + lq.len() <= lt.len() && #[trigger] lt.subrange(i, i + lq.len()) == lq;
        assert(contains_seq(lt, lq));
    }
}

} // verus!
