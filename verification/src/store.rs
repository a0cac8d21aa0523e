//! What the client hands to Steam: the `steam://` URIs that run, install and
//! uninstall a game, and the Steam store's search URL.

use vstd::prelude::*;
use vstd::utf8::{decode_utf8, encode_utf8};
use crate::text::{append_chars, chars_of, ends_with, starts_with, string_of};

verus! {

/// What a `steam://` URI asks the Steam client to do with a game.
#[derive(Debug, Clone, Copy, PartialEq, Eq, Structural)]
pub enum SteamAction {
    /// Start the game.
    Run,
    /// Install the game.
    Install,
    /// Uninstall the game.
    Uninstall,
}

/// The word that names `action` in a `steam://` URI.
pub open spec fn action_word(action: SteamAction) -> Seq<char> {
    match action {
        SteamAction::Run => "run"@,
        SteamAction::Install => "install"@,
        SteamAction::Uninstall => "uninstall"@,
    }
}

/// The URI `steam://{action}/{appid}`.
pub open spec fn steam_uri_of(action: SteamAction, appid: Seq<char>) -> Seq<char> {
    "steam://"@ + action_word(action) + seq!['/'] + appid
}

/// The URI that asks the Steam client to perform `action` on game `appid`,
/// such as `steam://run/440`.
pub fn steam_uri(action: SteamAction, appid: &str) -> (res: String)
    ensures
        res@ == steam_uri_of(action, appid@),
        res@ == "steam://"@ + (match action {
            SteamAction::Run => "run"@,
            SteamAction::Install => "install"@,
            SteamAction::Uninstall => "uninstall"@,
        }) + seq!['/'] + appid@,
        ends_with(res@, seq!['/'] + appid@),
        starts_with(res@, "steam://"@),
{
    proof {
        lemma_steam_uri_shape(action, appid@);
    }
    let mut v = chars_of("steam://");
    let word = match action {
        SteamAction::Run => chars_of("run"),
        SteamAction::Install => chars_of("install"),
        SteamAction::Uninstall => chars_of("uninstall"),
    };
    append_chars(&mut v, &word);
    v.push('/');
    let id = chars_of(appid);
    append_chars(&mut v, &id);
    string_of(&v)
}

/// A `steam://` URI starts with `steam://`, names the action by its word
/// (`run`, `install`, `uninstall`), and ends with `/` and the whole app id,
/// unchanged.
pub proof fn lemma_steam_uri_shape(action: SteamAction, appid: Seq<char>)
    ensures
        starts_with(steam_uri_of(action, appid), "steam://"@),
        ends_with(steam_uri_of(action, appid), seq!['/'] + appid),
        steam_uri_of(action, appid) == "steam://"@ + (match action {
            SteamAction::Run => "run"@,
            SteamAction::Install => "install"@,
            SteamAction::Uninstall => "uninstall"@,
        }) + seq!['/'] + appid,
        steam_uri_of(action, appid).len() == "steam://"@.len() + action_word(action).len() + 1
            + appid.len(),
{
    let u = steam_uri_of(action, appid);
    let p = "steam://"@;
    assert(u.take(p.len() as int) =~= p);
    assert(u.skip(u.len() - (appid.len() + 1)) =~= seq!['/'] + appid);
}

/// A game found by the Steam store search.
#[derive(Debug, Clone)]
pub struct SearchResultItem {
    /// The app id.
    pub id: u64,
    /// The display name.
    pub name: String,
}

/// Whether byte `b` is an unreserved URL character (RFC 3986): an ASCII
/// letter or digit, `-`, `.`, `_` or `~`. These stand for themselves in a
/// query parameter.
pub open spec fn is_unreserved(b: u8) -> bool {
    ||| (0x41 <= b && b <= 0x5a)
    ||| (0x61 <= b && b <= 0x7a)
    ||| (0x30 <= b && b <= 0x39)
    ||| b == 0x2d
    ||| b == 0x2e
    ||| b == 0x5f
    ||| b == 0x7e
}

/// The upper-case hexadecimal digits, by value.
pub open spec fn hex_digits() -> Seq<char> {
    seq!['0', '1', '2', '3', '4', '5', '6', '7', '8', '9', 'A', 'B', 'C', 'D', 'E', 'F']
}

/// How byte `b` is written in a query parameter: an unreserved byte as its
/// character, a space as `+`, any other byte as `%` and two hexadecimal
/// digits.
pub open spec fn encode_byte(b: u8) -> Seq<char> {
    if is_unreserved(b) {
        seq![b as char]
    } else if b == 0x20 {
        seq!['+']
    } else {
        seq!['%', hex_digits()[(b / 16) as int], hex_digits()[(b % 16) as int]]
    }
}

/// The bytes `bytes` written as a query parameter value
/// (`application/x-www-form-urlencoded`).
pub open spec fn form_encoded(bytes: Seq<u8>) -> Seq<char>
    decreases bytes.len(),
{
    if bytes.len() == 0 {
        Seq::empty()
    } else {
        encode_byte(bytes[0]) + form_encoded(bytes.drop_first())
    }
}

/// The value of the hexadecimal digit `c`, either case.
pub open spec fn hex_value(c: char) -> Option<u8> {
    if '0' <= c && c <= '9' {
        Some(((c as int) - ('0' as int)) as u8)
    } else if 'A' <= c && c <= 'F' {
        Some(((c as int) - ('A' as int) + 10) as u8)
    } else if 'a' <= c && c <= 'f' {
        Some(((c as int) - ('a' as int) + 10) as u8)
    } else {
        None
    }
}

/// The bytes a server reads from the query parameter value `s`: `%` and two
/// hexadecimal digits stand for one byte, `+` for a space, and any other
/// ASCII character for itself.
pub open spec fn form_decoded(s: Seq<char>) -> Seq<u8>
    decreases s.len(),
{
    if s.len() == 0 {
        Seq::empty()
    } else if s[0] == '%' && s.len() >= 3 && hex_value(s[1]) is Some && hex_value(s[2]) is Some {
        seq![(hex_value(s[1])->0 * 16 + hex_value(s[2])->0) as u8] + form_decoded(s.skip(3))
    } else if s[0] == '+' {
        seq![0x20u8] + form_decoded(s.drop_first())
    } else {
        seq![s[0] as u8] + form_decoded(s.drop_first())
    }
}

/// The search term as the URL carries it: the UTF-8 bytes of the query,
/// form-encoded.
pub open spec fn search_term_of(query: Seq<char>) -> Seq<char> {
    form_encoded(encode_utf8(query))
}

/// The store search URL for `query`.
pub open spec fn search_url_of(query: Seq<char>) -> Seq<char> {
    "https://store.steampowered.com/api/storesearch/?term="@ + search_term_of(query)
        + "&l=english&cc=US"@
}

/// The hexadecimal digit of value `n`.
fn hex_digit(n: u8) -> (c: char)
    requires
        n < 16,
    ensures
        c == hex_digits()[n as int],
{
    let digits: [char; 16] = [
        '0', '1', '2', '3', '4', '5', '6', '7', '8', '9', 'A', 'B', 'C', 'D', 'E', 'F',
    ];
    assert(digits@ =~= hex_digits());
    digits[n as usize]
}

/// Writing a sequence of bytes writes each byte in turn.
proof fn lemma_form_encoded_concat(a: Seq<u8>, b: Seq<u8>)
    ensures
        form_encoded(a + b) == form_encoded(a) + form_encoded(b),
    decreases a.len(),
{
    if a.len() == 0 {
        assert(a + b =~= b);
        assert(Seq::<char>::empty() + form_encoded(b) =~= form_encoded(b));
    } else {
        assert((a + b).drop_first() =~= a.drop_first() + b);
        assert((a + b)[0] == a[0]);
        lemma_form_encoded_concat(a.drop_first(), b);
        assert(encode_byte(a[0]) + (form_encoded(a.drop_first()) + form_encoded(b))
            =~= (encode_byte(a[0]) + form_encoded(a.drop_first())) + form_encoded(b));
    }
}

/// The Steam store's search URL for `query`: the term is the query's UTF-8
/// bytes, form-encoded, so that the store reads back exactly the query; the
/// results are in English and for the US store.
pub fn search_url(query: &str) -> (res: String)
    ensures
        res@ == search_url_of(query@),
{
    let mut v = chars_of("https://store.steampowered.com/api/storesearch/?term=");
    let bytes = query.as_bytes();
    let ghost start = v@;
    let mut i: usize = 0;
    assert(bytes@.take(0) =~= Seq::<u8>::empty());
    while i < bytes.len()
        invariant
            i <= bytes.len(),
            bytes@ == encode_utf8(query@),
            v@ == start + form_encoded(bytes@.take(i as int)),
        decreases bytes.len() - i,
    {
        let b = bytes[i];
        proof {
            assert(bytes@.take(i + 1) =~= bytes@.take(i as int) + seq![b]);
            lemma_form_encoded_concat(bytes@.take(i as int), seq![b]);
            assert(seq![b].drop_first() =~= Seq::<u8>::empty());
            assert(seq![b].drop_first().len() == 0);
            assert(form_encoded(seq![b].drop_first()) == Seq::<char>::empty());
            assert(seq![b][0] == b);
            assert(form_encoded(seq![b]) =~= encode_byte(b));
        }
        let ghost before = v@;
        if (0x41 <= b && b <= 0x5a) || (0x61 <= b && b <= 0x7a) || (0x30 <= b && b <= 0x39) || b
            == 0x2d || b == 0x2e || b == 0x5f || b == 0x7e {
            v.push(b as char);
            assert(v@ =~= before + encode_byte(b));
        } else if b == 0x20 {
            v.push('+');
            assert(v@ =~= before + encode_byte(b));
        } else {
            v.push('%');
            v.push(hex_digit(b / 16));
            v.push(hex_digit(b % 16));
            assert(v@ =~= before + encode_byte(b));
        }
        i += 1;
    }
    assert(bytes@.take(bytes.len() as int) =~= bytes@);
    let suffix = chars_of("&l=english&cc=US");
    append_chars(&mut v, &suffix);
    string_of(&v)
}

/// The hexadecimal digits read back as their values.
proof fn lemma_hex_digits_read_back()
    ensures
        forall|n: int| 0 <= n < 16 ==> hex_value(#[trigger] hex_digits()[n]) == Some(n as u8),
{
    assert forall|n: int| 0 <= n < 16 implies hex_value(#[trigger] hex_digits()[n]) == Some(n as u8) by {
        if n < 10 {
            assert(hex_digits()[n] == hex_digits()[n]);
        }
    }
}

/// Reading back the encoding of one byte, followed by anything, yields that
/// byte first.
proof fn lemma_decode_encoded_byte(b: u8, t: Seq<char>)
    ensures
        form_decoded(encode_byte(b) + t) == seq![b] + form_decoded(t),
{
    let s = encode_byte(b) + t;
    if is_unreserved(b) {
        assert(s[0] == b as char);
        assert(s.drop_first() =~= t);
    } else if b == 0x20 {
        assert(s[0] == '+');
        assert(s.drop_first() =~= t);
    } else {
        lemma_hex_digits_read_back();
        let hi = (b / 16) as int;
        let lo = (b % 16) as int;
        assert(s[0] == '%');
        assert(s[1] == hex_digits()[hi]);
        assert(s[2] == hex_digits()[lo]);
        assert(hex_value(s[1]) == Some(hi as u8));
        assert(hex_value(s[2]) == Some(lo as u8));
        assert(s.skip(3) =~= t);
        assert(hi * 16 + lo == b);
    }
}

/// Reading back written bytes yields the bytes.
proof fn lemma_form_round_trip(bytes: Seq<u8>)
    ensures
        form_decoded(form_encoded(bytes)) == bytes,
    decreases bytes.len(),
{
    if bytes.len() > 0 {
        lemma_decode_encoded_byte(bytes[0], form_encoded(bytes.drop_first()));
        lemma_form_round_trip(bytes.drop_first());
        assert(seq![bytes[0]] + bytes.drop_first() =~= bytes);
    }
}

/// Whether `c` may stand in a query parameter value without ending it or
/// changing its meaning: an unreserved character, `+` or `%`.
pub open spec fn is_term_char(c: char) -> bool {
    ||| ('A' <= c && c <= 'Z')
    ||| ('a' <= c && c <= 'z')
    ||| ('0' <= c && c <= '9')
    ||| c == '-'
    ||| c == '.'
    ||| c == '_'
    ||| c == '~'
    ||| c == '+'
    ||| c == '%'
}

/// Written bytes hold only characters that keep to the parameter value.
proof fn lemma_form_encoded_term_chars(bytes: Seq<u8>)
    ensures
        forall|i: int| 0 <= i < form_encoded(bytes).len() ==> is_term_char(#[trigger] form_encoded(bytes)[i]),
    decreases bytes.len(),
{
    if bytes.len() > 0 {
        lemma_form_encoded_term_chars(bytes.drop_first());
        let e = encode_byte(bytes[0]);
        let r = form_encoded(bytes.drop_first());
        assert(forall|i: int| 0 <= i < e.len() ==> is_term_char(#[trigger] e[i]));
        assert forall|i: int| 0 <= i < form_encoded(bytes).len() implies is_term_char(
            #[trigger] form_encoded(bytes)[i],
        ) by {
            if i < e.len() {
                assert(form_encoded(bytes)[i] == e[i]);
            } else {
                assert(form_encoded(bytes)[i] == r[i - e.len()]);
            }
        }
    }
}

/// The store receives exactly the query: the term of the search URL holds
/// no character that ends or alters the parameter (such as `&`, `#`, `=` or
/// a space), and reading it back yields the query's UTF-8 bytes, which are
/// the query itself.
pub proof fn lemma_search_term_reads_back(query: Seq<char>)
    ensures
        forall|i: int| 0 <= i < search_term_of(query).len() ==> is_term_char(#[trigger] search_term_of(query)[i]),
        forall|i: int|
            0 <= i < search_term_of(query).len() ==> {
                let c = #[trigger] search_term_of(query)[i];
                c != '&' && c != '#' && c != '=' && c != ' ' && c != '?' && c != '/'
            },
        form_decoded(search_term_of(query)) == encode_utf8(query),
        decode_utf8(form_decoded(search_term_of(query))) == query,
{
    lemma_form_encoded_term_chars(encode_utf8(query));
    lemma_form_round_trip(encode_utf8(query));
    vstd::utf8::encode_utf8_decode_utf8(query);
}

/// A search URL never holds a space: every space of the query is encoded.
pub proof fn lemma_search_url_has_no_space(query: Seq<char>)
    ensures
        forall|i: int| 0 <= i < search_url_of(query).len() ==> #[trigger] search_url_of(query)[i] != ' ',
{
    reveal_strlit("https://store.steampowered.com/api/storesearch/?term=");
    reveal_strlit("&l=english&cc=US");
    lemma_search_term_reads_back(query);
    let pre = "https://store.steampowered.com/api/storesearch/?term="@;
    let mid = search_term_of(query);
    let post = "&l=english&cc=US"@;
    let url = search_url_of(query);
    assert forall|i: int| 0 <= i < url.len() implies #[trigger] url[i] != ' ' by {
        if i < pre.len() {
            assert(url[i] == pre[i]);
        } else if i < pre.len() + mid.len() {
            assert(url[i] == mid[i - pre.len()]);
            assert(is_term_char(mid[i - pre.len()]));
        } else {
            assert(url[i] == post[i - pre.len() - mid.len()]);
        }
    }
}

} // verus!
