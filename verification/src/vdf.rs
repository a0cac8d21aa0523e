//! Playtime and last-played statistics read from Steam's `localconfig.vdf`
//! by scanning its lines, without parsing the whole file.
//!
//! The scan looks for a line that, trimmed, is the quoted app id. When the
//! next line is `{`, the lines up to the matching `}` (or the end of the
//! text) are the game's block: a line starting with `"LastPlayed"` or
//! `"Playtime"` sets that statistic to the number in its value field, or to
//! zero when that is not a number.

use vstd::prelude::*;
use crate::number::{parse_unsigned, unsigned_or_zero};
use crate::text::{
    append_chars, chars_equal, chars_of, copy_range, field, has_prefix, lemma_lines_of_last,
    lemma_lines_of_newline, lemma_trimmed_unchanged, lines_of, nth_field, starts_with, strip_cr,
    string_of, trim_chars, trimmed,
};

verus! {

/// Statistics of one game, as Steam's local configuration records them.
#[derive(Debug, Clone, Copy, PartialEq, Eq, Structural)]
pub struct GameStats {
    /// Total playtime in minutes.
    pub playtime_mins: u32,
    /// Unix time of the last session; zero when unknown.
    pub last_played_timestamp: u64,
}

/// The statistics before any line of a block has been read.
pub open spec fn no_stats() -> GameStats {
    GameStats { playtime_mins: 0, last_played_timestamp: 0 }
}

/// The key of the last-played field, with its quotes.
pub open spec fn last_played_key() -> Seq<char> {
    "\"LastPlayed\""@
}

/// The key of the playtime field, with its quotes.
pub open spec fn playtime_key() -> Seq<char> {
    "\"Playtime\""@
}

/// The value field of a VDF line `"key" "value"`: the text between its third
/// and fourth double quote (or the end of the line).
pub open spec fn vdf_value(line: Seq<char>) -> Option<Seq<char>> {
    field(line, '"', 3)
}

/// The line that opens a game's block names the app id in double quotes.
pub open spec fn quoted(appid: Seq<char>) -> Seq<char> {
    seq!['"'] + appid + seq!['"']
}

/// The statistics after reading the trimmed block line `t`.
pub open spec fn apply_stat_line(t: Seq<char>, stats: GameStats) -> GameStats {
    if starts_with(t, last_played_key()) {
        match vdf_value(t) {
            Some(v) => GameStats {
                playtime_mins: stats.playtime_mins,
                last_played_timestamp: unsigned_or_zero(v, u64::MAX as nat) as u64,
            },
            None => stats,
        }
    } else if starts_with(t, playtime_key()) {
        match vdf_value(t) {
            Some(v) => GameStats {
                playtime_mins: unsigned_or_zero(v, u32::MAX as nat) as u32,
                last_played_timestamp: stats.last_played_timestamp,
            },
            None => stats,
        }
    } else {
        stats
    }
}

/// The statistics of a block whose lines are `ls`, read until a line that
/// trims to `}` or the end of the lines, starting from `stats`.
pub open spec fn block_stats(ls: Seq<Seq<char>>, stats: GameStats) -> GameStats
    decreases ls.len(),
{
    if ls.len() == 0 || trimmed(ls[0]) == seq!['}'] {
        stats
    } else {
        block_stats(ls.drop_first(), apply_stat_line(trimmed(ls[0]), stats))
    }
}

/// The statistics of the first block of `ls` opened by `key`.
///
/// A line that trims to `key` is followed either by a line that trims to
/// `{`, which opens the block, or by some other line, which is passed over
/// together with it.
pub open spec fn stats_for_key(ls: Seq<Seq<char>>, key: Seq<char>) -> Option<GameStats>
    decreases ls.len(),
{
    if ls.len() == 0 {
        None
    } else if trimmed(ls[0]) == key {
        if ls.len() < 2 {
            None
        } else if trimmed(ls[1]) == seq!['{'] {
            Some(block_stats(ls.skip(2), no_stats()))
        } else {
            stats_for_key(ls.skip(2), key)
        }
    } else {
        stats_for_key(ls.drop_first(), key)
    }
}

/// The statistics that `content` records for the game `appid`.
pub open spec fn stats_in(content: Seq<char>, appid: Seq<char>) -> Option<GameStats> {
    stats_for_key(lines_of(content), quoted(appid))
}

/// The value field of a VDF line such as `"Playtime"		"42"`: the text
/// between the third and fourth double quote; `None` when the line has fewer
/// than three double quotes.
pub fn extract_vdf_value(line: &str) -> (res: Option<String>)
    ensures
        match res {
            Some(v) => vdf_value(line@) == Some(v@),
            None => vdf_value(line@) is None,
        },
{
    let chars = chars_of(line);
    match nth_field(&chars, '"', 3) {
        Some(f) => Some(string_of(&f)),
        None => None,
    }
}

/// Whether the line is exactly the single character `c`.
fn is_single(t: &Vec<char>, c: char) -> (res: bool)
    ensures
        res == (t@ == seq![c]),
{
    let r = t.len() == 1 && t[0] == c;
    if t.len() == 1 {
        assert(r ==> t@ =~= seq![c]);
    }
    r
}

/// The statistics after reading the trimmed block line `t`.
fn read_stat_line(
    t: &Vec<char>,
    stats: GameStats,
    last_played: &Vec<char>,
    playtime: &Vec<char>,
) -> (res: GameStats)
    requires
        last_played@ == last_played_key(),
        playtime@ == playtime_key(),
    ensures
        res == apply_stat_line(t@, stats),
{
    if has_prefix(t, last_played) {
        match nth_field(t, '"', 3) {
            Some(v) => {
                let n = match parse_unsigned(&v, u64::MAX) {
                    Some(n) => n,
                    None => 0,
                };
                GameStats { playtime_mins: stats.playtime_mins, last_played_timestamp: n }
            },
            None => stats,
        }
    } else if has_prefix(t, playtime) {
        match nth_field(t, '"', 3) {
            Some(v) => {
                let n: u32 = match parse_unsigned(&v, 0xffff_ffffu64) {
                    Some(n) => n as u32,
                    None => 0,
                };
                GameStats { playtime_mins: n, last_played_timestamp: stats.last_played_timestamp }
            },
            None => stats,
        }
    } else {
        stats
    }
}

/// How far a line-by-line scan for a game's block has come.
#[derive(Clone, Copy)]
pub enum ScanState {
    /// Looking for the line that names the game.
    Seeking,
    /// The previous line named the game; a `{` line opens its block.
    KeyFound,
    /// Inside the game's block, with the statistics read so far.
    InBlock(GameStats),
    /// The block has been closed; the scan has its result.
    Done(Option<GameStats>),
}

/// The scan state after the trimmed line `t`.
pub open spec fn scan_step(state: ScanState, t: Seq<char>, key: Seq<char>) -> ScanState {
    match state {
        ScanState::Seeking => if t == key {
            ScanState::KeyFound
        } else {
            ScanState::Seeking
        },
        ScanState::KeyFound => if t == seq!['{'] {
            ScanState::InBlock(no_stats())
        } else {
            ScanState::Seeking
        },
        ScanState::InBlock(stats) => if t == seq!['}'] {
            ScanState::Done(Some(stats))
        } else {
            ScanState::InBlock(apply_stat_line(t, stats))
        },
        ScanState::Done(r) => ScanState::Done(r),
    }
}

/// What a scan that stops in `state` at the end of the text yields.
pub open spec fn scan_end(state: ScanState) -> Option<GameStats> {
    match state {
        ScanState::Seeking => None,
        ScanState::KeyFound => None,
        ScanState::InBlock(stats) => Some(stats),
        ScanState::Done(r) => r,
    }
}

/// What a scan in `state` yields after the lines `ls`.
pub open spec fn scan_lines(ls: Seq<Seq<char>>, state: ScanState, key: Seq<char>) -> Option<
    GameStats,
>
    decreases ls.len(),
{
    if ls.len() == 0 {
        scan_end(state)
    } else {
        scan_lines(ls.drop_first(), scan_step(state, trimmed(ls[0]), key), key)
    }
}

proof fn lemma_scan_done(ls: Seq<Seq<char>>, r: Option<GameStats>, key: Seq<char>)
    ensures
        scan_lines(ls, ScanState::Done(r), key) == r,
    decreases ls.len(),
{
    if ls.len() > 0 {
        lemma_scan_done(ls.drop_first(), r, key);
    }
}

proof fn lemma_scan_block(ls: Seq<Seq<char>>, stats: GameStats, key: Seq<char>)
    ensures
        scan_lines(ls, ScanState::InBlock(stats), key) == Some(block_stats(ls, stats)),
    decreases ls.len(),
{
    if ls.len() > 0 {
        if trimmed(ls[0]) == seq!['}'] {
            lemma_scan_done(ls.drop_first(), Some(stats), key);
        } else {
            lemma_scan_block(ls.drop_first(), apply_stat_line(trimmed(ls[0]), stats), key);
        }
    }
}

/// Scanning from the start finds what `stats_for_key` describes.
proof fn lemma_scan_seeking(ls: Seq<Seq<char>>, key: Seq<char>)
    ensures
        scan_lines(ls, ScanState::Seeking, key) == stats_for_key(ls, key),
    decreases ls.len(),
{
    if ls.len() > 0 {
        let r = ls.drop_first();
        if trimmed(ls[0]) == key {
            assert(scan_lines(ls, ScanState::Seeking, key) == scan_lines(r, ScanState::KeyFound, key));
            if ls.len() >= 2 {
                assert(scan_lines(r, ScanState::KeyFound, key) == scan_lines(
                    r.drop_first(),
                    scan_step(ScanState::KeyFound, trimmed(r[0]), key),
                    key,
                ));
                assert(r[0] == ls[1]);
                assert(r.drop_first() =~= ls.skip(2));
                if trimmed(ls[1]) == seq!['{'] {
                    lemma_scan_block(ls.skip(2), no_stats(), key);
                } else {
                    lemma_scan_seeking(ls.skip(2), key);
                }
            }
        } else {
            lemma_scan_seeking(r, key);
        }
    }
}

/// The scan state after the trimmed line `t`.
fn advance(
    state: ScanState,
    t: &Vec<char>,
    key: &Vec<char>,
    last_played: &Vec<char>,
    playtime: &Vec<char>,
) -> (res: ScanState)
    requires
        last_played@ == last_played_key(),
        playtime@ == playtime_key(),
    ensures
        res == scan_step(state, t@, key@),
{
    match state {
        ScanState::Seeking => if chars_equal(t, key) {
            ScanState::KeyFound
        } else {
            ScanState::Seeking
        },
        ScanState::KeyFound => if is_single(t, '{') {
            ScanState::InBlock(GameStats { playtime_mins: 0, last_played_timestamp: 0 })
        } else {
            ScanState::Seeking
        },
        ScanState::InBlock(stats) => if is_single(t, '}') {
            ScanState::Done(Some(stats))
        } else {
            ScanState::InBlock(read_stat_line(t, stats, last_played, playtime))
        },
        ScanState::Done(r) => ScanState::Done(r),
    }
}

/// The line `line` as a line of text yields it, trimmed: a carriage return
/// before the line feed dropped, then leading and trailing whitespace.
fn trimmed_line(line: &Vec<char>) -> (res: Vec<char>)
    ensures
        res@ == trimmed(strip_cr(line@)),
{
    if line.len() > 0 && line[line.len() - 1] == '\r' {
        let stripped = copy_range(line, 0, line.len() - 1);
        assert(line@.subrange(0, line.len() - 1) =~= line@.drop_last());
        trim_chars(&stripped)
    } else {
        trim_chars(line)
    }
}

/// The playtime and last-played time that the VDF text `content` records for
/// the game `appid`; `None` when no line opens a block for it.
///
/// The text is read one line at a time: only the current line is held.
pub fn parse_stats_from_vdf(content: &str, appid: &str) -> (res: Option<GameStats>)
    ensures
        res == stats_in(content@, appid@),
{
    let mut key: Vec<char> = Vec::new();
    key.push('"');
    let id = chars_of(appid);
    append_chars(&mut key, &id);
    key.push('"');
    assert(key@ =~= quoted(appid@));
    let last_played = chars_of("\"LastPlayed\"");
    let playtime = chars_of("\"Playtime\"");
    let mut line: Vec<char> = Vec::new();
    let mut state = ScanState::Seeking;
    proof {
        lemma_scan_seeking(lines_of(content@), key@);
        assert(line@ + content@.skip(0) =~= content@);
    }
    for c in it: content.chars()
        invariant
            it.seq() == content@,
            key@ == quoted(appid@),
            last_played@ == last_played_key(),
            playtime@ == playtime_key(),
            forall|k: int| 0 <= k < line@.len() ==> line@[k] != '\n',
            !(state is Done),
            stats_in(content@, appid@) == scan_lines(
                lines_of(line@ + content@.skip(it.index() as int)),
                state,
                key@,
            ),
    {
        let ghost i = it.index() as int;
        let ghost after = content@.skip(i + 1);
        assert(content@[i] == c);
        if c == '\n' {
            proof {
                assert(line@ + content@.skip(i) =~= line@ + seq!['\n'] + after);
                lemma_lines_of_newline(line@, after);
                let ls = lines_of(line@ + content@.skip(i));
                assert(ls[0] == strip_cr(line@));
                assert(ls.drop_first() =~= lines_of(after));
            }
            let t = trimmed_line(&line);
            state = advance(state, &t, &key, &last_played, &playtime);
            if let ScanState::Done(r) = state {
                proof {
                    lemma_scan_done(lines_of(after), r, key@);
                }
                return r;
            }
            line = Vec::new();
            assert(line@ + after =~= after);
        } else {
            let ghost before = line@;
            line.push(c);
            assert(line@ + after =~= before + content@.skip(i));
        }
    }
    assert(content@.skip(content@.len() as int) =~= Seq::<char>::empty());
    assert(line@ + content@.skip(content@.len() as int) =~= line@);
    proof {
        lemma_lines_of_last(line@);
    }
    if line.len() > 0 {
        let t = trim_chars(&line);
        let ghost st0 = state;
        proof {
            let ls = seq![line@];
            assert(ls.drop_first() =~= Seq::<Seq<char>>::empty());
            assert(ls[0] == line@);
            assert(scan_lines(ls, st0, key@) == scan_lines(
                ls.drop_first(),
                scan_step(st0, trimmed(line@), key@),
                key@,
            ));
        }
        state = advance(state, &t, &key, &last_played, &playtime);
        assert(stats_in(content@, appid@) == scan_end(state));
    } else {
        assert(stats_in(content@, appid@) == scan_end(state));
    }
    match state {
        ScanState::Seeking => None,
        ScanState::KeyFound => None,
        ScanState::InBlock(stats) => Some(stats),
        ScanState::Done(r) => r,
    }
}

/// Without a line that trims to the key, the lines hold no block for it.
proof fn lemma_no_key_no_stats(ls: Seq<Seq<char>>, key: Seq<char>)
    requires
        forall|i: int| 0 <= i < ls.len() ==> trimmed(#[trigger] ls[i]) != key,
    ensures
        stats_for_key(ls, key) is None,
    decreases ls.len(),
{
    if ls.len() > 0 {
        let t = ls.drop_first();
        assert forall|i: int| 0 <= i < t.len() implies trimmed(#[trigger] t[i]) != key by {
            assert(t[i] == ls[i + 1]);
        }
        lemma_no_key_no_stats(t, key);
    }
}

/// A game whose quoted app id is not a line of the text (leading and
/// trailing whitespace aside) has no statistics in it.
pub proof fn lemma_stats_absent_without_key(content: Seq<char>, appid: Seq<char>)
    requires
        forall|i: int|
            0 <= i < lines_of(content).len() ==> trimmed(#[trigger] lines_of(content)[i])
                != quoted(appid),
    ensures
        stats_in(content, appid) is None,
{
    lemma_no_key_no_stats(lines_of(content), quoted(appid));
}

/// Characters without a separator in front of the rest pass no separator.
proof fn lemma_field_plain_prefix(s: Seq<char>, t: Seq<char>, sep: char, n: nat)
    requires
        n > 0,
        forall|i: int| 0 <= i < s.len() ==> s[i] != sep,
    ensures
        field(s + t, sep, n) == field(t, sep, n),
    decreases s.len(),
{
    if s.len() > 0 {
        let r = s.drop_first();
        assert((s + t)[0] == s[0]);
        assert((s + t).drop_first() =~= r + t);
        lemma_field_plain_prefix(r, t, sep, n);
    } else {
        assert(s + t =~= t);
    }
}

/// A leading separator ends one field.
proof fn lemma_field_after_sep(t: Seq<char>, sep: char, n: nat)
    ensures
        field(seq![sep] + t, sep, n + 1) == field(t, sep, n),
{
    assert((seq![sep] + t).drop_first() =~= t);
}

/// The value field of a line `"key"<gap>"value"` is `value`, when neither the
/// key, the gap between the two quoted parts, nor the value holds a double
/// quote.
pub proof fn lemma_vdf_value_of_pair(key: Seq<char>, gap: Seq<char>, value: Seq<char>)
    requires
        forall|i: int| 0 <= i < key.len() ==> key[i] != '"',
        forall|i: int| 0 <= i < gap.len() ==> gap[i] != '"',
        forall|i: int| 0 <= i < value.len() ==> value[i] != '"',
    ensures
        vdf_value(quoted(key) + gap + quoted(value)) == Some(value),
{
    let q = seq!['"'];
    let tail = value + q;
    let after_gap = q + tail;
    let after_key = q + (gap + after_gap);
    let line = q + (key + after_key);
    assert(quoted(key) + gap + quoted(value) =~= line);
    lemma_field_after_sep(key + after_key, '"', 2);
    lemma_field_plain_prefix(key, after_key, '"', 2);
    lemma_field_after_sep(gap + after_gap, '"', 1);
    lemma_field_plain_prefix(gap, after_gap, '"', 1);
    lemma_field_after_sep(tail, '"', 0);
    assert forall|k: int| 0 <= k < value.len() implies tail[k] != '"' by {
        assert(tail[k] == value[k]);
    }
    crate::text::lemma_before_char_prefix(tail, '"', value.len() as int);
    assert(tail.take(value.len() as int) =~= value);
}

/// Lines before the game's block that do not name the game change nothing:
/// the statistics found after them are the statistics found without them.
pub proof fn lemma_stats_unaffected_by_leading_lines(
    pre: Seq<Seq<char>>,
    ls: Seq<Seq<char>>,
    key: Seq<char>,
)
    requires
        forall|i: int| 0 <= i < pre.len() ==> trimmed(#[trigger] pre[i]) != key,
    ensures
        stats_for_key(pre + ls, key) == stats_for_key(ls, key),
    decreases pre.len(),
{
    if pre.len() == 0 {
        assert(pre + ls =~= ls);
    } else {
        let rest = pre.drop_first();
        assert forall|i: int| 0 <= i < rest.len() implies trimmed(#[trigger] rest[i]) != key by {
            assert(rest[i] == pre[i + 1]);
        }
        assert((pre + ls)[0] == pre[0]);
        assert((pre + ls).drop_first() =~= rest + ls);
        lemma_stats_unaffected_by_leading_lines(rest, ls, key);
    }
}

/// A line `"LastPlayed"<gap>"value"` of a block sets the last-played time
/// to the value read as a `u64` (zero when that fails) and keeps the
/// playtime; a line `"Playtime"<gap>"value"` sets the playtime to the value
/// read as a `u32` (zero when that fails) and keeps the last-played time.
pub proof fn lemma_stat_lines(gap: Seq<char>, value: Seq<char>, stats: GameStats)
    requires
        forall|i: int| 0 <= i < gap.len() ==> gap[i] != '"',
        forall|i: int| 0 <= i < value.len() ==> value[i] != '"',
    ensures
        apply_stat_line(quoted("LastPlayed"@) + gap + quoted(value), stats) == (GameStats {
            playtime_mins: stats.playtime_mins,
            last_played_timestamp: unsigned_or_zero(value, u64::MAX as nat) as u64,
        }),
        apply_stat_line(quoted("Playtime"@) + gap + quoted(value), stats) == (GameStats {
            playtime_mins: unsigned_or_zero(value, u32::MAX as nat) as u32,
            last_played_timestamp: stats.last_played_timestamp,
        }),
{
    reveal_strlit("LastPlayed");
    reveal_strlit("Playtime");
    reveal_strlit("\"LastPlayed\"");
    reveal_strlit("\"Playtime\"");
    let lk = quoted("LastPlayed"@);
    let pk = quoted("Playtime"@);
    assert(lk =~= last_played_key());
    assert(pk =~= playtime_key());
    let ll = lk + gap + quoted(value);
    let pl = pk + gap + quoted(value);
    assert(ll.take(lk.len() as int) =~= lk);
    assert(pl.take(pk.len() as int) =~= pk);
    assert forall|i: int| 0 <= i < "LastPlayed"@.len() implies "LastPlayed"@[i] != '"' by {}
    assert forall|i: int| 0 <= i < "Playtime"@.len() implies "Playtime"@[i] != '"' by {}
    lemma_vdf_value_of_pair("LastPlayed"@, gap, value);
    lemma_vdf_value_of_pair("Playtime"@, gap, value);
    if starts_with(pl, last_played_key()) {
        assert(pl.take(12)[1] == pl[1]);
        assert(pl[1] == 'P');
    }
}

/// A text whose first block for the game holds a `"LastPlayed"` line and a
/// `"Playtime"` line yields exactly those two values: earlier lines that do
/// not name the game and all lines after the block's `}` change nothing.
pub proof fn lemma_single_block(
    pre: Seq<Seq<char>>,
    appid: Seq<char>,
    gap: Seq<char>,
    last_played: Seq<char>,
    playtime: Seq<char>,
    post: Seq<Seq<char>>,
)
    requires
        forall|i: int| 0 <= i < pre.len() ==> trimmed(#[trigger] pre[i]) != quoted(appid),
        forall|i: int| 0 <= i < gap.len() ==> gap[i] != '"',
        forall|i: int| 0 <= i < last_played.len() ==> last_played[i] != '"',
        forall|i: int| 0 <= i < playtime.len() ==> playtime[i] != '"',
    ensures
        stats_for_key(
            pre + seq![
                quoted(appid),
                seq!['{'],
                quoted("LastPlayed"@) + gap + quoted(last_played),
                quoted("Playtime"@) + gap + quoted(playtime),
                seq!['}'],
            ] + post,
            quoted(appid),
        ) == Some(
            GameStats {
                playtime_mins: unsigned_or_zero(playtime, u32::MAX as nat) as u32,
                last_played_timestamp: unsigned_or_zero(last_played, u64::MAX as nat) as u64,
            },
        ),
{
    let key = quoted(appid);
    let l1 = quoted("LastPlayed"@) + gap + quoted(last_played);
    let l2 = quoted("Playtime"@) + gap + quoted(playtime);
    let block = seq![key, seq!['{'], l1, l2, seq!['}']];
    let rest = block + post;
    assert(pre + block + post =~= pre + rest);
    lemma_stats_unaffected_by_leading_lines(pre, rest, key);
    lemma_trimmed_unchanged(key);
    lemma_trimmed_unchanged(l1);
    lemma_trimmed_unchanged(l2);
    lemma_trimmed_unchanged(seq!['{']);
    lemma_trimmed_unchanged(seq!['}']);
    assert(rest[0] == key);
    assert(rest[1] == seq!['{']);
    let inner = rest.skip(2);
    assert(inner[0] == l1);
    assert(inner.drop_first()[0] == l2);
    assert(inner.drop_first().drop_first()[0] == seq!['}']);
    lemma_stat_lines(gap, last_played, no_stats());
    let s1 = apply_stat_line(l1, no_stats());
    lemma_stat_lines(gap, playtime, s1);
    let s2 = apply_stat_line(l2, s1);
    assert(l1[0] == '"' && l1.len() > 1);
    assert(l2[0] == '"' && l2.len() > 1);
    assert(trimmed(l1) != seq!['}']);
    assert(trimmed(l2) != seq!['}']);
    let i1 = inner.drop_first();
    let i2 = i1.drop_first();
    assert(block_stats(i2, s2) == s2);
    assert(block_stats(i1, s1) == block_stats(i2, s2));
    assert(block_stats(inner, no_stats()) == block_stats(i1, s1));
    assert(stats_for_key(rest, key) == Some(block_stats(inner, no_stats())));
}

} // verus!
