//! The local game library: the games found in Steam's app manifests,
//! with duplicates (the same app id found in more than one library folder)
//! removed and the rest sorted alphabetically by name.
//!
//! Games are ordered by their lowercased name and, between equal lowercased
//! names, by app id, both compared as Rust compares strings. Of several
//! games with the same app id, the first one found stays.

use vstd::prelude::*;
use crate::text::{
    char_seq_less, chars_equal, chars_less, chars_of, lemma_char_seq_less_asymmetric,
    lemma_char_seq_less_irreflexive, lemma_char_seq_less_total, lemma_char_seq_less_transitive,
    lowercase_of, to_lowercase,
};

verus! {

/// A Steam game installed on this machine.
#[derive(Debug, Clone)]
pub struct SteamGame {
    /// The app id, as the manifest spells it.
    pub appid: String,
    /// The display name.
    pub name: String,
}

/// The name by which a game is sorted: its name in lowercase.
pub open spec fn sort_name(g: SteamGame) -> Seq<char> {
    lowercase_of(g.name@)
}

/// The library order on (sort name, app id) pairs.
pub open spec fn key_less(n1: Seq<char>, i1: Seq<char>, n2: Seq<char>, i2: Seq<char>) -> bool {
    ||| char_seq_less(n1, n2)
    ||| (n1 == n2 && char_seq_less(i1, i2))
}

/// `a` comes before `b` in the library: its lowercased name comes first,
/// or the names are equal and its app id comes first.
pub open spec fn precedes(a: SteamGame, b: SteamGame) -> bool {
    key_less(sort_name(a), a.appid@, sort_name(b), b.appid@)
}

/// Every game of `s` comes before every later one.
pub open spec fn sorted_library(s: Seq<SteamGame>) -> bool {
    forall|i: int, j: int| 0 <= i < j < s.len() ==> precedes(#[trigger] s[i], #[trigger] s[j])
}

/// No game before position `j` of `gs` has the app id of `gs[j]`.
pub open spec fn first_with_appid(gs: Seq<SteamGame>, j: int) -> bool {
    forall|k: int| 0 <= k < j ==> (#[trigger] gs[k]).appid@ != gs[j].appid@
}

/// `out` holds exactly the first game with each app id among the first `n`
/// games of `input`.
pub open spec fn holds_first_of(input: Seq<SteamGame>, n: int, out: Seq<SteamGame>) -> bool {
    &&& forall|k: int|
        0 <= k < out.len() ==> exists|j: int|
            0 <= j < n && input[j] == #[trigger] out[k] && first_with_appid(input, j)
    &&& forall|j: int|
        0 <= j < n && #[trigger] first_with_appid(input, j) ==> exists|k: int|
            0 <= k < out.len() && out[k] == input[j]
}

/// `out` is the library made of the games `input`, in the order they were
/// found: exactly the first game found with each app id, sorted.
pub open spec fn is_library_of(input: Seq<SteamGame>, out: Seq<SteamGame>) -> bool {
    &&& sorted_library(out)
    &&& holds_first_of(input, input.len() as int, out)
}

proof fn lemma_key_less_irreflexive(n: Seq<char>, i: Seq<char>)
    ensures
        !key_less(n, i, n, i),
{
    lemma_char_seq_less_irreflexive(n);
    lemma_char_seq_less_irreflexive(i);
}

proof fn lemma_key_less_asymmetric(n1: Seq<char>, i1: Seq<char>, n2: Seq<char>, i2: Seq<char>)
    requires
        key_less(n1, i1, n2, i2),
    ensures
        !key_less(n2, i2, n1, i1),
{
    if char_seq_less(n1, n2) {
        lemma_char_seq_less_asymmetric(n1, n2);
        if n1 == n2 {
            lemma_char_seq_less_irreflexive(n1);
        }
    } else {
        lemma_char_seq_less_asymmetric(i1, i2);
        lemma_char_seq_less_irreflexive(n1);
    }
}

proof fn lemma_key_less_transitive(
    n1: Seq<char>,
    i1: Seq<char>,
    n2: Seq<char>,
    i2: Seq<char>,
    n3: Seq<char>,
    i3: Seq<char>,
)
    requires
        key_less(n1, i1, n2, i2),
        key_less(n2, i2, n3, i3),
    ensures
        key_less(n1, i1, n3, i3),
{
    if char_seq_less(n1, n2) && char_seq_less(n2, n3) {
        lemma_char_seq_less_transitive(n1, n2, n3);
    } else if !char_seq_less(n1, n2) && !char_seq_less(n2, n3) {
        lemma_char_seq_less_transitive(i1, i2, i3);
    }
}

proof fn lemma_key_less_total(n1: Seq<char>, i1: Seq<char>, n2: Seq<char>, i2: Seq<char>)
    requires
        i1 != i2,
    ensures
        key_less(n1, i1, n2, i2) || key_less(n2, i2, n1, i1),
{
    if n1 != n2 {
        lemma_char_seq_less_total(n1, n2);
    } else {
        lemma_char_seq_less_total(i1, i2);
    }
}

/// Some game at or before position `q` is the first with the app id of `gs[q]`.
proof fn lemma_first_occurrence(gs: Seq<SteamGame>, q: int)
    requires
        0 <= q < gs.len(),
    ensures
        exists|j: int|
            0 <= j <= q && gs[j].appid@ == gs[q].appid@ && #[trigger] first_with_appid(gs, j),
    decreases q,
{
    if !first_with_appid(gs, q) {
        let k = choose|k: int| 0 <= k < q && (#[trigger] gs[k]).appid@ != gs[q].appid@ == false;
        lemma_first_occurrence(gs, k);
        let j = choose|j: int|
            0 <= j <= k && gs[j].appid@ == gs[k].appid@ && #[trigger] first_with_appid(gs, j);
        assert(0 <= j <= q && gs[j].appid@ == gs[q].appid@ && first_with_appid(gs, j));
    } else {
        assert(0 <= q <= q && gs[q].appid@ == gs[q].appid@ && first_with_appid(gs, q));
    }
}

/// Whether the (sort name, app id) key `(n1, i1)` comes before `(n2, i2)`.
fn key_before(n1: &Vec<char>, i1: &Vec<char>, n2: &Vec<char>, i2: &Vec<char>) -> (res: bool)
    ensures
        res == key_less(n1@, i1@, n2@, i2@),
{
    if chars_less(n1, n2) {
        true
    } else if chars_equal(n1, n2) {
        chars_less(i1, i2)
    } else {
        false
    }
}

/// Whether one of `ids` equals `id`.
fn has_id(ids: &Vec<Vec<char>>, id: &Vec<char>) -> (res: bool)
    ensures
        res == exists|q: int| 0 <= q < ids.len() && (#[trigger] ids@[q])@ == id@,
{
    let mut k: usize = 0;
    while k < ids.len()
        invariant
            k <= ids.len(),
            forall|q: int| 0 <= q < k ==> (#[trigger] ids@[q])@ != id@,
        decreases ids.len() - k,
    {
        if chars_equal(&ids[k], id) {
            return true;
        }
        k += 1;
    }
    false
}

/// The position at which the key `(name, id)` goes among the sorted keys
/// `(names[q], ids[q])`.
fn insert_position(names: &Vec<Vec<char>>, ids: &Vec<Vec<char>>, name: &Vec<char>, id: &Vec<char>) -> (p: usize)
    requires
        names.len() == ids.len(),
        forall|q: int| 0 <= q < ids.len() ==> (#[trigger] ids@[q])@ != id@,
    ensures
        p <= names.len(),
        forall|q: int|
            0 <= q < p ==> key_less((#[trigger] names@[q])@, ids@[q]@, name@, id@),
        p < names.len() ==> key_less(name@, id@, names@[p as int]@, ids@[p as int]@),
{
    let mut p: usize = 0;
    while p < names.len() && !key_before(name, id, &names[p], &ids[p])
        invariant
            p <= names.len(),
            names.len() == ids.len(),
            forall|q: int| 0 <= q < ids.len() ==> (#[trigger] ids@[q])@ != id@,
            forall|q: int|
                0 <= q < p ==> key_less((#[trigger] names@[q])@, ids@[q]@, name@, id@),
        decreases names.len() - p,
    {
        proof {
            lemma_key_less_total(name@, id@, names@[p as int]@, ids@[p as int]@);
        }
        p += 1;
    }
    p
}

/// Inserting a game at a position where everything before it precedes it,
/// and it precedes what follows, keeps the library sorted.
proof fn lemma_insert_sorted(s: Seq<SteamGame>, p: int, g: SteamGame)
    requires
        sorted_library(s),
        0 <= p <= s.len(),
        forall|q: int| 0 <= q < p ==> precedes(#[trigger] s[q], g),
        p < s.len() ==> precedes(g, s[p]),
    ensures
        sorted_library(s.insert(p, g)),
{
    let t = s.insert(p, g);
    assert forall|i: int, j: int| 0 <= i < j < t.len() implies precedes(#[trigger] t[i], #[trigger] t[j]) by {
        if j < p {
            assert(t[i] == s[i] && t[j] == s[j]);
        } else if j == p {
            assert(t[i] == s[i] && t[j] == g);
        } else if i < p {
            assert(t[i] == s[i] && t[j] == s[j - 1]);
        } else if i == p {
            assert(t[i] == g && t[j] == s[j - 1]);
            if j - 1 > p {
                assert(precedes(s[p], s[j - 1]));
                lemma_key_less_transitive(
                    sort_name(g), g.appid@, sort_name(s[p]), s[p].appid@,
                    sort_name(s[j - 1]), s[j - 1].appid@,
                );
            }
        } else {
            assert(t[i] == s[i - 1] && t[j] == s[j - 1]);
        }
    }
}

/// The sort names and app ids kept beside the games of `out`.
spec fn keys_match(out: Seq<SteamGame>, names: Seq<Vec<char>>, ids: Seq<Vec<char>>) -> bool {
    &&& out.len() == names.len() == ids.len()
    &&& forall|k: int| 0 <= k < out.len() ==> (#[trigger] ids[k])@ == out[k].appid@
    &&& forall|k: int| 0 <= k < out.len() ==> (#[trigger] names[k])@ == sort_name(out[k])
}

proof fn lemma_keys_match_insert(
    out: Seq<SteamGame>,
    names: Seq<Vec<char>>,
    ids: Seq<Vec<char>>,
    p: int,
    g: SteamGame,
    name: Vec<char>,
    id: Vec<char>,
)
    requires
        keys_match(out, names, ids),
        0 <= p <= out.len(),
        name@ == sort_name(g),
        id@ == g.appid@,
    ensures
        keys_match(out.insert(p, g), names.insert(p, name), ids.insert(p, id)),
{
    let o = out.insert(p, g);
    let nm = names.insert(p, name);
    let is = ids.insert(p, id);
    assert forall|k: int| 0 <= k < o.len() implies (#[trigger] is[k])@ == o[k].appid@ by {
        if k < p {
            assert(is[k] == ids[k] && o[k] == out[k]);
        } else if k > p {
            assert(is[k] == ids[k - 1] && o[k] == out[k - 1]);
        }
    }
    assert forall|k: int| 0 <= k < o.len() implies (#[trigger] nm[k])@ == sort_name(o[k]) by {
        if k < p {
            assert(nm[k] == names[k] && o[k] == out[k]);
        } else if k > p {
            assert(nm[k] == names[k - 1] && o[k] == out[k - 1]);
        }
    }
}

/// A game whose app id is already in the library is not the first with it.
proof fn lemma_seen_appid(input: Seq<SteamGame>, n: int, out: Seq<SteamGame>, q: int)
    requires
        0 <= n < input.len(),
        holds_first_of(input, n, out),
        0 <= q < out.len(),
        out[q].appid@ == input[n].appid@,
    ensures
        !first_with_appid(input, n),
{
    let j = choose|j: int| 0 <= j < n && input[j] == #[trigger] out[q] && first_with_appid(input, j);
    assert(!first_with_appid(input, n)) by {
        assert(input[j].appid@ == input[n].appid@);
    }
}

/// Passing over a game that is not the first with its app id.
proof fn lemma_skip_game(input: Seq<SteamGame>, n: int, out: Seq<SteamGame>)
    requires
        0 <= n < input.len(),
        holds_first_of(input, n, out),
        !first_with_appid(input, n),
    ensures
        holds_first_of(input, n + 1, out),
{
    assert forall|k: int| 0 <= k < out.len() implies exists|j: int|
        0 <= j < n + 1 && input[j] == #[trigger] out[k] && first_with_appid(input, j) by {
        let j = choose|j: int| 0 <= j < n && input[j] == #[trigger] out[k] && first_with_appid(input, j);
    }
}

/// A game whose app id is not yet in the library is the first with it.
proof fn lemma_new_appid(input: Seq<SteamGame>, n: int, out: Seq<SteamGame>)
    requires
        0 <= n < input.len(),
        holds_first_of(input, n, out),
        forall|q: int| 0 <= q < out.len() ==> (#[trigger] out[q]).appid@ != input[n].appid@,
    ensures
        first_with_appid(input, n),
{
    assert forall|k: int| 0 <= k < n implies (#[trigger] input[k]).appid@ != input[n].appid@ by {
        if input[k].appid@ == input[n].appid@ {
            lemma_first_occurrence(input, k);
            let j = choose|j: int|
                0 <= j <= k && input[j].appid@ == input[k].appid@ && #[trigger] first_with_appid(input, j);
            let q = choose|q: int| 0 <= q < out.len() && out[q] == input[j];
            assert(out[q].appid@ == input[n].appid@);
        }
    }
}

/// Adding the first game with a new app id, at any position.
proof fn lemma_add_first(input: Seq<SteamGame>, n: int, out: Seq<SteamGame>, p: int)
    requires
        0 <= n < input.len(),
        holds_first_of(input, n, out),
        first_with_appid(input, n),
        0 <= p <= out.len(),
    ensures
        holds_first_of(input, n + 1, out.insert(p, input[n])),
{
    let o = out.insert(p, input[n]);
    assert forall|k: int| 0 <= k < o.len() implies exists|j: int|
        0 <= j < n + 1 && input[j] == #[trigger] o[k] && first_with_appid(input, j) by {
        if k < p {
            assert(o[k] == out[k]);
            let j = choose|j: int| 0 <= j < n && input[j] == #[trigger] out[k] && first_with_appid(input, j);
        } else if k > p {
            assert(o[k] == out[k - 1]);
            let j = choose|j: int| 0 <= j < n && input[j] == #[trigger] out[k - 1] && first_with_appid(input, j);
        } else {
            assert(input[n] == o[k]);
        }
    }
    assert forall|j: int| 0 <= j < n + 1 && #[trigger] first_with_appid(input, j) implies exists|k: int|
        0 <= k < o.len() && o[k] == input[j] by {
        if j == n {
            assert(o[p] == input[j]);
        } else {
            let k = choose|k: int| 0 <= k < out.len() && out[k] == input[j];
            if k < p {
                assert(o[k] == input[j]);
            } else {
                assert(o[k + 1] == input[j]);
            }
        }
    }
}

/// The games found in the manifests, in the order they were found, made
/// into the library: of several games with the same app id only the first
/// stays, and the rest are sorted by lowercased name, then by app id.
pub fn organize_library(games: Vec<SteamGame>) -> (res: Vec<SteamGame>)
    ensures
        is_library_of(games@, res@),
        forall|i: int, j: int|
            0 <= i < j < res.len() ==> char_seq_less(
                lowercase_of((#[trigger] res@[i]).name@),
                lowercase_of((#[trigger] res@[j]).name@),
            ) || (lowercase_of(res@[i].name@) == lowercase_of(res@[j].name@) && char_seq_less(
                res@[i].appid@,
                res@[j].appid@,
            )),
        forall|i: int, j: int|
            0 <= i < j < res.len() ==> (#[trigger] res@[i]).appid@ != (#[trigger] res@[j]).appid@,
        forall|k: int| 0 <= k < res.len() ==> found_first_in(games@, #[trigger] res@[k]),
        forall|j: int|
            0 <= j < games.len() && found_first_in(games@, #[trigger] games@[j]) ==> res@.contains(
                games@[j],
            ),
{
    let ghost orig = games@;
    let mut rest = games;
    let mut out: Vec<SteamGame> = Vec::new();
    let mut names: Vec<Vec<char>> = Vec::new();
    let mut ids: Vec<Vec<char>> = Vec::new();
    let ghost mut n: int = 0;
    assert(orig.skip(0) =~= orig);
    while rest.len() > 0
        invariant
            0 <= n <= orig.len(),
            rest@ == orig.skip(n),
            keys_match(out@, names@, ids@),
            sorted_library(out@),
            holds_first_of(orig, n, out@),
        decreases rest.len(),
    {
        let g = rest.remove(0);
        assert(g == orig[n]);
        assert(rest@ =~= orig.skip(n + 1));
        let gid = chars_of(g.appid.as_str());
        if has_id(&ids, &gid) {
            proof {
                let q = choose|q: int| 0 <= q < ids.len() && (#[trigger] ids@[q])@ == gid@;
                lemma_seen_appid(orig, n, out@, q);
                lemma_skip_game(orig, n, out@);
                n = n + 1;
            }
        } else {
            proof {
                assert forall|q: int| 0 <= q < out.len() implies (#[trigger] out@[q]).appid@ != orig[n].appid@ by {
                    assert(ids@[q]@ == out@[q].appid@);
                }
                lemma_new_appid(orig, n, out@);
            }
            let lowered = to_lowercase(g.name.as_str());
            let gname = chars_of(lowered.as_str());
            let p = insert_position(&names, &ids, &gname, &gid);
            proof {
                let o = out@;
                assert forall|q: int| 0 <= q < p implies precedes(#[trigger] o[q], g) by {
                    assert(names@[q]@ == sort_name(o[q]));
                    assert(ids@[q]@ == o[q].appid@);
                }
                if p < o.len() {
                    assert(names@[p as int]@ == sort_name(o[p as int]));
                    assert(ids@[p as int]@ == o[p as int].appid@);
                }
                lemma_insert_sorted(o, p as int, g);
                lemma_add_first(orig, n, o, p as int);
                lemma_keys_match_insert(o, names@, ids@, p as int, g, gname, gid);
            }
            out.insert(p, g);
            names.insert(p, gname);
            ids.insert(p, gid);
            proof {
                n = n + 1;
            }
        }
    }
    assert(n == orig.len());
    proof {
        lemma_library_ordered_by_lowercase_name(orig, out@);
        lemma_library_distinct_appids(orig, out@);
        lemma_library_keeps_first_found(orig, out@);
    }
    out
}

/// Within a sorted library, no game precedes itself.
proof fn lemma_precedes_irreflexive(g: SteamGame)
    ensures
        !precedes(g, g),
{
    lemma_key_less_irreflexive(sort_name(g), g.appid@);
}

/// Two sorted libraries with the same games are the same sequence.
proof fn lemma_sorted_same_members(a: Seq<SteamGame>, b: Seq<SteamGame>)
    requires
        sorted_library(a),
        sorted_library(b),
        forall|x: SteamGame| a.contains(x) <==> b.contains(x),
    ensures
        a == b,
    decreases a.len(),
{
    if a.len() == 0 {
        if b.len() > 0 {
            assert(b.contains(b[0]));
        }
        assert(a =~= b);
    } else {
        assert(a.contains(a[0]));
        let j = choose|j: int| 0 <= j < b.len() && b[j] == a[0];
        assert(b.contains(b[0]));
        let i = choose|i: int| 0 <= i < a.len() && a[i] == b[0];
        if i > 0 && j > 0 {
            assert(precedes(a[0], a[i]));
            assert(precedes(b[0], b[j]));
            lemma_key_less_asymmetric(sort_name(a[0]), a[0].appid@, sort_name(b[0]), b[0].appid@);
        }
        assert(a[0] == b[0]);
        let ta = a.drop_first();
        let tb = b.drop_first();
        assert forall|x: SteamGame| ta.contains(x) <==> (a.contains(x) && x != a[0]) by {
            if ta.contains(x) {
                let k = choose|k: int| 0 <= k < ta.len() && ta[k] == x;
                assert(a[k + 1] == x);
                if x == a[0] {
                    assert(precedes(a[0], a[k + 1]));
                    lemma_precedes_irreflexive(x);
                }
            }
            if a.contains(x) && x != a[0] {
                let k = choose|k: int| 0 <= k < a.len() && a[k] == x;
                assert(ta[k - 1] == x);
            }
        }
        assert forall|x: SteamGame| tb.contains(x) <==> (b.contains(x) && x != b[0]) by {
            if tb.contains(x) {
                let k = choose|k: int| 0 <= k < tb.len() && tb[k] == x;
                assert(b[k + 1] == x);
                if x == b[0] {
                    assert(precedes(b[0], b[k + 1]));
                    lemma_precedes_irreflexive(x);
                }
            }
            if b.contains(x) && x != b[0] {
                let k = choose|k: int| 0 <= k < b.len() && b[k] == x;
                assert(tb[k - 1] == x);
            }
        }
        assert(sorted_library(ta)) by {
            assert forall|p: int, q: int| 0 <= p < q < ta.len() implies precedes(#[trigger] ta[p], #[trigger] ta[q]) by {
                assert(ta[p] == a[p + 1] && ta[q] == a[q + 1]);
            }
        }
        assert(sorted_library(tb)) by {
            assert forall|p: int, q: int| 0 <= p < q < tb.len() implies precedes(#[trigger] tb[p], #[trigger] tb[q]) by {
                assert(tb[p] == b[p + 1] && tb[q] == b[q + 1]);
            }
        }
        lemma_sorted_same_members(ta, tb);
        assert(a =~= seq![a[0]] + ta);
        assert(b =~= seq![b[0]] + tb);
    }
}

/// The games of a library are exactly the first game found with each app id.
proof fn lemma_library_members(input: Seq<SteamGame>, out: Seq<SteamGame>, x: SteamGame)
    requires
        is_library_of(input, out),
    ensures
        out.contains(x) <==> exists|j: int|
            0 <= j < input.len() && input[j] == x && #[trigger] first_with_appid(input, j),
{
    if out.contains(x) {
        let k = choose|k: int| 0 <= k < out.len() && out[k] == x;
        let j = choose|j: int| 0 <= j < input.len() && input[j] == #[trigger] out[k] && first_with_appid(input, j);
    }
    if exists|j: int| 0 <= j < input.len() && input[j] == x && #[trigger] first_with_appid(input, j) {
        let j = choose|j: int| 0 <= j < input.len() && input[j] == x && #[trigger] first_with_appid(input, j);
        let k = choose|k: int| 0 <= k < out.len() && out[k] == input[j];
        assert(out[k] == x);
    }
}

/// The library made of a list of games is determined by that list: two
/// libraries made of the same games found in the same order are the same.
pub proof fn lemma_library_unique(input: Seq<SteamGame>, a: Seq<SteamGame>, b: Seq<SteamGame>)
    requires
        is_library_of(input, a),
        is_library_of(input, b),
    ensures
        a == b,
{
    assert forall|x: SteamGame| a.contains(x) <==> b.contains(x) by {
        lemma_library_members(input, a, x);
        lemma_library_members(input, b, x);
    }
    lemma_sorted_same_members(a, b);
}

/// No two games of the library share an app id: duplicates found in more
/// than one library folder appear once.
pub proof fn lemma_library_distinct_appids(input: Seq<SteamGame>, out: Seq<SteamGame>)
    requires
        is_library_of(input, out),
    ensures
        forall|i: int, j: int|
            0 <= i < j < out.len() ==> (#[trigger] out[i]).appid@ != (#[trigger] out[j]).appid@,
{
    assert forall|i: int, j: int| 0 <= i < j < out.len() implies (#[trigger] out[i]).appid@
        != (#[trigger] out[j]).appid@ by {
        let a = choose|a: int| 0 <= a < input.len() && input[a] == #[trigger] out[i] && first_with_appid(input, a);
        let b = choose|b: int| 0 <= b < input.len() && input[b] == #[trigger] out[j] && first_with_appid(input, b);
        if out[i].appid@ == out[j].appid@ {
            if a == b {
                assert(precedes(out[i], out[j]));
                lemma_precedes_irreflexive(out[i]);
            } else if a < b {
                assert(input[a].appid@ != input[b].appid@);
            } else {
                assert(input[b].appid@ != input[a].appid@);
            }
        }
    }
}

/// Some game of `out` has the app id `id`.
pub open spec fn has_appid(out: Seq<SteamGame>, id: Seq<char>) -> bool {
    exists|k: int| 0 <= k < out.len() && out[k].appid@ == id
}

/// Every app id found appears in the library.
pub proof fn lemma_library_keeps_every_appid(input: Seq<SteamGame>, out: Seq<SteamGame>)
    requires
        is_library_of(input, out),
    ensures
        forall|j: int| 0 <= j < input.len() ==> has_appid(out, (#[trigger] input[j]).appid@),
{
    assert forall|j: int| 0 <= j < input.len() implies has_appid(out, (#[trigger] input[j]).appid@) by {
        lemma_first_occurrence(input, j);
        let f = choose|f: int| 0 <= f <= j && input[f].appid@ == input[j].appid@ && #[trigger] first_with_appid(input, f);
        let k = choose|k: int| 0 <= k < out.len() && out[k] == input[f];
        assert(out[k].appid@ == input[j].appid@);
    }
}

/// The library is sorted alphabetically: the lowercased names never
/// decrease from one game to the next.
pub proof fn lemma_library_alphabetical(input: Seq<SteamGame>, out: Seq<SteamGame>)
    requires
        is_library_of(input, out),
    ensures
        forall|i: int, j: int|
            0 <= i < j < out.len() ==> !char_seq_less(
                lowercase_of((#[trigger] out[j]).name@),
                lowercase_of((#[trigger] out[i]).name@),
            ),
{
    assert forall|i: int, j: int| 0 <= i < j < out.len() implies !char_seq_less(
        lowercase_of((#[trigger] out[j]).name@),
        lowercase_of((#[trigger] out[i]).name@),
    ) by {
        assert(precedes(out[i], out[j]));
        if char_seq_less(sort_name(out[i]), sort_name(out[j])) {
            lemma_char_seq_less_asymmetric(sort_name(out[i]), sort_name(out[j]));
        } else {
            lemma_char_seq_less_irreflexive(sort_name(out[i]));
        }
    }
}

/// Organizing a library again changes nothing.
pub proof fn lemma_library_idempotent(input: Seq<SteamGame>, out: Seq<SteamGame>, again: Seq<SteamGame>)
    requires
        is_library_of(input, out),
        is_library_of(out, again),
    ensures
        again == out,
{
    lemma_library_distinct_appids(input, out);
    assert forall|j: int| 0 <= j < out.len() implies #[trigger] first_with_appid(out, j) by {
        assert forall|k: int| 0 <= k < j implies (#[trigger] out[k]).appid@ != out[j].appid@ by {
            assert(out[k].appid@ != out[j].appid@);
        }
    }
    assert forall|x: SteamGame| again.contains(x) <==> out.contains(x) by {
        lemma_library_members(out, again, x);
        if out.contains(x) {
            let k = choose|k: int| 0 <= k < out.len() && out[k] == x;
            assert(0 <= k < out.len() && out[k] == x && first_with_appid(out, k));
        }
    }
    lemma_sorted_same_members(again, out);
}

/// The library order in full: of two games, the earlier one has the smaller
/// whole lowercased name (`str::to_lowercase` of the entire name), or the
/// same lowercased name and the smaller app id.
pub proof fn lemma_library_ordered_by_lowercase_name(input: Seq<SteamGame>, out: Seq<SteamGame>)
    requires
        is_library_of(input, out),
    ensures
        forall|i: int, j: int|
            0 <= i < j < out.len() ==> char_seq_less(
                lowercase_of((#[trigger] out[i]).name@),
                lowercase_of((#[trigger] out[j]).name@),
            ) || (lowercase_of(out[i].name@) == lowercase_of(out[j].name@) && char_seq_less(
                out[i].appid@,
                out[j].appid@,
            )),
{
    assert forall|i: int, j: int| 0 <= i < j < out.len() implies char_seq_less(
        lowercase_of((#[trigger] out[i]).name@),
        lowercase_of((#[trigger] out[j]).name@),
    ) || (lowercase_of(out[i].name@) == lowercase_of(out[j].name@) && char_seq_less(
        out[i].appid@,
        out[j].appid@,
    )) by {
        assert(precedes(out[i], out[j]));
    }
}

/// `g` is one of `input`, and no game found before it has its app id.
pub open spec fn found_first_in(input: Seq<SteamGame>, g: SteamGame) -> bool {
    exists|j: int|
        0 <= j < input.len() && input[j] == g && (forall|i: int|
            0 <= i < j ==> (#[trigger] input[i]).appid@ != g.appid@)
}

/// The game kept for each app id is the first one found with it, and every
/// game found first with its app id is kept.
pub proof fn lemma_library_keeps_first_found(input: Seq<SteamGame>, out: Seq<SteamGame>)
    requires
        is_library_of(input, out),
    ensures
        forall|k: int| 0 <= k < out.len() ==> found_first_in(input, #[trigger] out[k]),
        forall|j: int|
            0 <= j < input.len() && found_first_in(input, #[trigger] input[j]) ==> out.contains(
                input[j],
            ),
{
    assert forall|k: int| 0 <= k < out.len() implies found_first_in(input, #[trigger] out[k]) by {
        let j = choose|j: int|
            0 <= j < input.len() && input[j] == #[trigger] out[k] && first_with_appid(input, j);
        assert(first_with_appid(input, j));
        assert forall|i: int| 0 <= i < j implies (#[trigger] input[i]).appid@ != out[k].appid@ by {
            assert(input[i].appid@ != input[j].appid@);
        }
    }
    assert forall|j: int|
        0 <= j < input.len() && found_first_in(input, #[trigger] input[j]) implies out.contains(
        input[j],
    ) by {
        let w = choose|w: int|
            0 <= w < input.len() && input[w] == input[j] && (forall|i: int|
                0 <= i < w ==> (#[trigger] input[i]).appid@ != input[j].appid@);
        assert(first_with_appid(input, w));
        let k = choose|k: int| 0 <= k < out.len() && out[k] == input[w];
        assert(out[k] == input[j]);
    }
}

} // verus!
