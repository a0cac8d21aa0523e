//! Where Steam keeps its files: the library folders, the cover cache and
//! the per-user configuration, both for a native and for a Flatpak
//! installation of Steam.

use vstd::prelude::*;
use crate::text::{append_chars, chars_equal, chars_of, ends_with, has_prefix, has_suffix, starts_with, string_of};

verus! {

/// `base` joined with `rel` as `Path::join` does on Unix: an absolute `rel`
/// replaces `base`; otherwise a `/` is put between them unless `base` is
/// empty or already ends with one.
pub open spec fn joined_path(base: Seq<char>, rel: Seq<char>) -> Seq<char> {
    if rel.len() > 0 && rel[0] == '/' {
        rel
    } else if base.len() > 0 && base.last() != '/' {
        base + seq!['/'] + rel
    } else {
        base + rel
    }
}

/// `base` joined with `rel`, as `Path::join` joins them on Unix.
pub fn join_path(base: &str, rel: &str) -> (res: String)
    ensures
        res@ == joined_path(base@, rel@),
{
    let r = chars_of(rel);
    if r.len() > 0 && r[0] == '/' {
        return string_of(&r);
    }
    let mut out = chars_of(base);
    if out.len() > 0 && out[out.len() - 1] != '/' {
        out.push('/');
    }
    append_chars(&mut out, &r);
    string_of(&out)
}

/// The library folders of a native and of a Flatpak Steam, in the order they
/// are searched.
pub open spec fn steamapps_dirs_of(home: Seq<char>) -> Seq<Seq<char>> {
    seq![
        joined_path(home, ".local/share/Steam/steamapps"@),
        joined_path(home, ".var/app/com.valvesoftware.Steam/.local/share/Steam/steamapps"@),
    ]
}

/// The folders that may hold Steam's app manifests, for the home directory
/// `home`: first the native installation's, then the Flatpak one's.
pub fn steamapps_dir_candidates(home: &str) -> (res: Vec<String>)
    ensures
        res.len() == 2,
        res[0]@ == steamapps_dirs_of(home@)[0],
        res[1]@ == steamapps_dirs_of(home@)[1],
        res[0]@ == joined_path(home@, ".local/share/Steam/steamapps"@),
        res[1]@ == joined_path(home@, ".var/app/com.valvesoftware.Steam/.local/share/Steam/steamapps"@),
{
    let mut res: Vec<String> = Vec::new();
    res.push(join_path(home, ".local/share/Steam/steamapps"));
    res.push(join_path(home, ".var/app/com.valvesoftware.Steam/.local/share/Steam/steamapps"));
    res
}

/// The cover-cache folders of game `appid`, native installation first.
pub open spec fn cover_dirs_of(home: Seq<char>, appid: Seq<char>) -> Seq<Seq<char>> {
    seq![
        joined_path(joined_path(home, ".local/share/Steam/appcache/librarycache"@), appid),
        joined_path(
            joined_path(home, ".var/app/com.valvesoftware.Steam/.local/share/Steam/appcache/librarycache"@),
            appid,
        ),
    ]
}

/// The folders where Steam caches the artwork of game `appid`, in the order
/// they are searched for its cover.
pub fn cover_dir_candidates(home: &str, appid: &str) -> (res: Vec<String>)
    ensures
        res.len() == 2,
        res[0]@ == cover_dirs_of(home@, appid@)[0],
        res[1]@ == cover_dirs_of(home@, appid@)[1],
        res[0]@ == joined_path(joined_path(home@, ".local/share/Steam/appcache/librarycache"@), appid@),
        res[1]@ == joined_path(joined_path(home@, ".var/app/com.valvesoftware.Steam/.local/share/Steam/appcache/librarycache"@), appid@),
{
    let native = join_path(home, ".local/share/Steam/appcache/librarycache");
    let flatpak = join_path(
        home,
        ".var/app/com.valvesoftware.Steam/.local/share/Steam/appcache/librarycache",
    );
    let mut res: Vec<String> = Vec::new();
    res.push(join_path(native.as_str(), appid));
    res.push(join_path(flatpak.as_str(), appid));
    res
}

/// The file name of the vertical poster that the library grid shows.
pub open spec fn cover_file_name() -> Seq<char> {
    "library_600x900.jpg"@
}

/// The poster directly inside the cover folder `app_dir`.
pub fn direct_cover_path(app_dir: &str) -> (res: String)
    ensures
        res@ == joined_path(app_dir@, cover_file_name()),
        res@ == joined_path(app_dir@, "library_600x900.jpg"@),
{
    join_path(app_dir, "library_600x900.jpg")
}

/// Whether a file found while searching a cover folder is a vertical poster.
pub fn is_cover_file_name(name: &str) -> (res: bool)
    ensures
        res == (name@ == cover_file_name()),
        res == (name@ == "library_600x900.jpg"@),
{
    let n = chars_of(name);
    let c = chars_of("library_600x900.jpg");
    chars_equal(&n, &c)
}

/// The per-user data folders of a native and of a Flatpak Steam.
pub open spec fn userdata_dirs_of(home: Seq<char>) -> Seq<Seq<char>> {
    seq![
        joined_path(home, ".local/share/Steam/userdata"@),
        joined_path(home, ".var/app/com.valvesoftware.Steam/.local/share/Steam/userdata"@),
    ]
}

/// The folders that hold one folder per Steam user, native installation
/// first.
pub fn userdata_dir_candidates(home: &str) -> (res: Vec<String>)
    ensures
        res.len() == 2,
        res[0]@ == userdata_dirs_of(home@)[0],
        res[1]@ == userdata_dirs_of(home@)[1],
        res[0]@ == joined_path(home@, ".local/share/Steam/userdata"@),
        res[1]@ == joined_path(home@, ".var/app/com.valvesoftware.Steam/.local/share/Steam/userdata"@),
{
    let mut res: Vec<String> = Vec::new();
    res.push(join_path(home, ".local/share/Steam/userdata"));
    res.push(join_path(home, ".var/app/com.valvesoftware.Steam/.local/share/Steam/userdata"));
    res
}

/// The local configuration file of the Steam user whose folder is `user_dir`.
pub fn localconfig_path(user_dir: &str) -> (res: String)
    ensures
        res@ == joined_path(user_dir@, "config/localconfig.vdf"@),
{
    join_path(user_dir, "config/localconfig.vdf")
}

/// Whether a file of a library folder is an app manifest: its name starts
/// with `appmanifest_` and ends with `.acf`.
pub fn is_manifest_file_name(name: &str) -> (res: bool)
    ensures
        res == (starts_with(name@, "appmanifest_"@) && ends_with(name@, ".acf"@)),
{
    let n = chars_of(name);
    let prefix = chars_of("appmanifest_");
    let suffix = chars_of(".acf");
    has_prefix(&n, &prefix) && has_suffix(&n, &suffix)
}

/// Joining a relative path keeps the base in front and puts the relative
/// path, whole, at the end; between a nonempty base that does not end with
/// `/` and the relative path there is exactly one `/`.
pub proof fn lemma_joined_path_shape(base: Seq<char>, rel: Seq<char>)
    requires
        rel.len() == 0 || rel[0] != '/',
    ensures
        starts_with(joined_path(base, rel), base),
        ends_with(joined_path(base, rel), rel),
        base.len() > 0 && base.last() != '/' ==> joined_path(base, rel) == base + seq!['/'] + rel,
        base.len() == 0 || base.last() == '/' ==> joined_path(base, rel) == base + rel,
{
    let j = joined_path(base, rel);
    if base.len() > 0 && base.last() != '/' {
        assert(j.take(base.len() as int) =~= base);
        assert(j.skip(j.len() - rel.len()) =~= rel);
    } else {
        assert(j.take(base.len() as int) =~= base);
        assert(j.skip(j.len() - rel.len()) =~= rel);
    }
}

/// Joined onto a relative path that does not end with `/`, the result does
/// not end with `/` either, and is not empty.
proof fn lemma_joined_path_last(base: Seq<char>, rel: Seq<char>)
    requires
        rel.len() > 0,
        rel[0] != '/',
        rel.last() != '/',
    ensures
        joined_path(base, rel).len() > 0,
        joined_path(base, rel).last() == rel.last(),
{
    lemma_joined_path_shape(base, rel);
    let j = joined_path(base, rel);
    assert(j.skip(j.len() - rel.len())[rel.len() - 1] == j.last());
}

/// The library folders for every home directory: the native one is
/// `.local/share/Steam/steamapps` and the Flatpak one
/// `.var/app/com.valvesoftware.Steam/.local/share/Steam/steamapps`, each
/// under the home directory; for a home directory that does not end with
/// `/` they are that directory, `/` and the relative path.
pub proof fn lemma_steamapps_dirs_under_home(home: Seq<char>)
    ensures
        steamapps_dirs_of(home).len() == 2,
        starts_with(steamapps_dirs_of(home)[0], home),
        starts_with(steamapps_dirs_of(home)[1], home),
        ends_with(steamapps_dirs_of(home)[0], ".local/share/Steam/steamapps"@),
        ends_with(
            steamapps_dirs_of(home)[1],
            ".var/app/com.valvesoftware.Steam/.local/share/Steam/steamapps"@,
        ),
        home.len() > 0 && home.last() != '/' ==> steamapps_dirs_of(home)[0] == home + seq!['/']
            + ".local/share/Steam/steamapps"@,
        home.len() > 0 && home.last() != '/' ==> steamapps_dirs_of(home)[1] == home + seq!['/']
            + ".var/app/com.valvesoftware.Steam/.local/share/Steam/steamapps"@,
{
    reveal_strlit(".local/share/Steam/steamapps");
    reveal_strlit(".var/app/com.valvesoftware.Steam/.local/share/Steam/steamapps");
    lemma_joined_path_shape(home, ".local/share/Steam/steamapps"@);
    lemma_joined_path_shape(home, ".var/app/com.valvesoftware.Steam/.local/share/Steam/steamapps"@);
}

/// Each cover folder of a game is a librarycache folder under the home
/// directory, then `/`, then the whole app id: its last component is the
/// app id (for an app id that is a relative path, as app ids are).
pub proof fn lemma_cover_dirs_end_with_appid(home: Seq<char>, appid: Seq<char>)
    requires
        appid.len() == 0 || appid[0] != '/',
    ensures
        cover_dirs_of(home, appid).len() == 2,
        cover_dirs_of(home, appid)[0] == joined_path(
            home,
            ".local/share/Steam/appcache/librarycache"@,
        ) + seq!['/'] + appid,
        cover_dirs_of(home, appid)[1] == joined_path(
            home,
            ".var/app/com.valvesoftware.Steam/.local/share/Steam/appcache/librarycache"@,
        ) + seq!['/'] + appid,
        ends_with(cover_dirs_of(home, appid)[0], seq!['/'] + appid),
        ends_with(cover_dirs_of(home, appid)[1], seq!['/'] + appid),
        starts_with(cover_dirs_of(home, appid)[0], home),
        starts_with(cover_dirs_of(home, appid)[1], home),
{
    reveal_strlit(".local/share/Steam/appcache/librarycache");
    reveal_strlit(".var/app/com.valvesoftware.Steam/.local/share/Steam/appcache/librarycache");
    let n = joined_path(home, ".local/share/Steam/appcache/librarycache"@);
    let f = joined_path(
        home,
        ".var/app/com.valvesoftware.Steam/.local/share/Steam/appcache/librarycache"@,
    );
    lemma_joined_path_shape(home, ".local/share/Steam/appcache/librarycache"@);
    lemma_joined_path_shape(
        home,
        ".var/app/com.valvesoftware.Steam/.local/share/Steam/appcache/librarycache"@,
    );
    lemma_joined_path_last(home, ".local/share/Steam/appcache/librarycache"@);
    lemma_joined_path_last(
        home,
        ".var/app/com.valvesoftware.Steam/.local/share/Steam/appcache/librarycache"@,
    );
    lemma_joined_path_shape(n, appid);
    lemma_joined_path_shape(f, appid);
    let cn = n + seq!['/'] + appid;
    let cf = f + seq!['/'] + appid;
    assert(cn.skip(cn.len() - (appid.len() + 1)) =~= seq!['/'] + appid);
    assert(cf.skip(cf.len() - (appid.len() + 1)) =~= seq!['/'] + appid);
    assert(cn.take(home.len() as int) =~= n.take(home.len() as int));
    assert(cf.take(home.len() as int) =~= f.take(home.len() as int));
}

} // verus!
